use vstd::prelude::*;
use crate::ir::{node_ok, canonical, render, render_one, repeat, same_run, strip, Instruction};

verus! {

broadcast use vstd::seq_lib::group_seq_properties;

/// Why a source text does not parse.
#[derive(Debug, Clone, Copy, PartialEq, Eq, Structural)]
pub enum ParseError {
    /// A `]` at this position closes no open loop.
    UnmatchedCloseBracket(usize),
    /// The loop opened at this position, the outermost still open at the end,
    /// is never closed.
    UnmatchedOpenBracket(usize),
}

/// Open brackets minus close brackets.
pub open spec fn depth(s: Seq<char>) -> int
    decreases s.len(),
{
    if s.len() == 0 {
        0
    } else if s.last() == '[' {
        depth(s.drop_last()) + 1
    } else if s.last() == ']' {
        depth(s.drop_last()) - 1
    } else {
        depth(s.drop_last())
    }
}

/// No prefix closes more loops than it opened.
pub open spec fn never_negative(s: Seq<char>) -> bool {
    forall|j: int| 0 <= j <= s.len() ==> depth(#[trigger] s.take(j)) >= 0
}

/// No prefix of the first `n` characters closes more loops than it opened.
pub open spec fn prefix_nonnegative(s: Seq<char>, n: int) -> bool {
    forall|j: int| 0 <= j <= n ==> depth(#[trigger] s.take(j)) >= 0
}

/// Every bracket has its partner.
pub open spec fn well_bracketed(s: Seq<char>) -> bool {
    never_negative(s) && depth(s) == 0
}

/// The `]` at `i` is the first one that closes no loop.
pub open spec fn close_error_at(s: Seq<char>, i: int) -> bool {
    &&& 0 <= i < s.len()
    &&& prefix_nonnegative(s, i)
    &&& depth(s.take(i + 1)) < 0
}

/// No `]` is unmatched, and the `[` at `i` opens the outermost loop that is
/// still open at the end.
pub open spec fn open_error_at(s: Seq<char>, i: int) -> bool {
    &&& never_negative(s)
    &&& 0 <= i < s.len()
    &&& s[i] == '['
    &&& depth(s.take(i)) == 0
    &&& forall|j: int| i < j <= s.len() ==> depth(#[trigger] s.take(j)) > 0
}

/// The text of the loops still open, each followed by its `[`.
pub open spec fn render_stack(outer: Seq<Vec<Instruction>>) -> Seq<char>
    decreases outer.len(),
{
    if outer.len() == 0 {
        seq![]
    } else {
        render_stack(outer.drop_last()) + render(outer.last()@) + seq!['[']
    }
}

proof fn lemma_repeat_len(c: char, n: nat)
    ensures
        repeat(c, n).len() == n,
    decreases n,
{
    if n > 0 {
        lemma_repeat_len(c, (n - 1) as nat);
    }
}

proof fn lemma_strip_len(s: Seq<char>)
    ensures
        strip(s).len() <= s.len(),
    decreases s.len(),
{
    if s.len() > 0 {
        lemma_strip_len(s.drop_last());
    }
}

/// A run's count is at most the length of the text of its sequence.
proof fn lemma_last_run_len(p: Seq<Instruction>, c: char, n: usize)
    requires
        p.len() > 0,
        p.last() == run_node(c, n),
        c == '>' || c == '<' || c == '+' || c == '-',
    ensures
        n <= render(p).len(),
{
    lemma_repeat_len(c, n as nat);
    lemma_run_node(c, n);
    assert(render(p) == render(p.drop_last()) + render_one(p.last()));
}

proof fn lemma_run_node(c: char, n: usize)
    requires
        c == '>' || c == '<' || c == '+' || c == '-',
    ensures
        render_one(run_node(c, n)) == repeat(c, n as nat),
        node_ok(run_node(c, n)) <==> n >= 1,
        forall|a: Instruction| #[trigger] same_run(a, run_node(c, n)) == same_run(a, run_node(c, 0)),
{
}

proof fn lemma_render_stack_len(outer: Seq<Vec<Instruction>>)
    ensures
        render_stack(outer).len() >= outer.len(),
    decreases outer.len(),
{
    if outer.len() > 0 {
        lemma_render_stack_len(outer.drop_last());
    }
}

/// The node for a run of `n` copies of the opcode `c`.
pub open spec fn run_node(c: char, n: usize) -> Instruction {
    if c == '>' {
        Instruction::IncrementPtr(n)
    } else if c == '<' {
        Instruction::DecrementPtr(n)
    } else if c == '+' {
        Instruction::Increment(n)
    } else {
        Instruction::Decrement(n)
    }
}

fn make_run(c: char, n: usize) -> (r: Instruction)
    requires
        c == '>' || c == '<' || c == '+' || c == '-',
    ensures
        r == run_node(c, n),
{
    if c == '>' {
        Instruction::IncrementPtr(n)
    } else if c == '<' {
        Instruction::DecrementPtr(n)
    } else if c == '+' {
        Instruction::Increment(n)
    } else {
        Instruction::Decrement(n)
    }
}

/// The count of `i` if it is a run of the opcode `c`.
fn run_count(i: &Instruction, c: char) -> (r: Option<usize>)
    requires
        c == '>' || c == '<' || c == '+' || c == '-',
    ensures
        r is Some <==> same_run(*i, run_node(c, 0)),
        r is Some ==> *i == run_node(c, r->0),
{
    match i {
        Instruction::IncrementPtr(n) => if c == '>' { Some(*n) } else { None },
        Instruction::DecrementPtr(n) => if c == '<' { Some(*n) } else { None },
        Instruction::Increment(n) => if c == '+' { Some(*n) } else { None },
        Instruction::Decrement(n) => if c == '-' { Some(*n) } else { None },
        _ => None,
    }
}

/// Appends one opcode `c` of a run to `p`, lengthening its last run when that
/// is a run of `c`.
fn push_run(p: &mut Vec<Instruction>, c: char)
    requires
        c == '>' || c == '<' || c == '+' || c == '-',
        canonical(old(p)@),
        render(old(p)@).len() < usize::MAX,
    ensures
        render(final(p)@) == render(old(p)@).push(c),
        canonical(final(p)@),
{
    let len = p.len();
    if len > 0 {
        if let Some(n) = run_count(&p[len - 1], c) {
            proof {
                lemma_last_run_len(p@, c, n);
                lemma_repeat_len(c, n as nat);
            }
            let node = make_run(c, n + 1);
            let ghost q = p@;
            p.set(len - 1, node);
            proof {
                lemma_run_node(c, (n + 1) as usize);
                lemma_run_node(c, n);
                if len >= 2 {
                    assert(same_run(q[len - 2], node) == same_run(q[len - 2], run_node(c, n)));
                    assert(p@[p@.len() - 2] == q[len - 2]);
                }
                assert(p@.drop_last() =~= q.drop_last());
                assert(render_one(node) == render_one(q.last()).push(c));
                assert(render(p@) =~= render(q).push(c));
            }
            return;
        }
    }
    let node = make_run(c, 1);
    let ghost q = p@;
    p.push(node);
    proof {
        lemma_run_node(c, 1);
        lemma_run_node(c, 0);
        assert(repeat(c, 0) =~= Seq::<char>::empty());
        assert(repeat(c, 1) =~= seq![c]);
        if len > 0 {
            assert(same_run(q.last(), node) == same_run(q.last(), run_node(c, 0)));
            assert(p@[p@.len() - 2] == q.last());
        }
        assert(p@.drop_last() =~= q);
        assert(render_one(node) =~= seq![c]);
        assert(render(p@) =~= render(q).push(c));
    }
}

proof fn lemma_take_step(s: Seq<char>, i: int)
    requires
        0 <= i < s.len(),
    ensures
        s.take(i + 1).drop_last() == s.take(i),
        s.take(i + 1).last() == s[i],
        s.take(i + 1).len() == i + 1,
{
    assert(s.take(i + 1).drop_last() =~= s.take(i));
}

/// Parses a source text into its tree of nodes.
///
/// Characters other than the eight opcodes are ignored; runs of `>`, `<`, `+`
/// and `-` become one node each; each matched pair of brackets becomes a loop.
pub fn parse(opcodes: Vec<char>) -> (r: Result<Vec<Instruction>, ParseError>)
    ensures
        r is Ok <==> well_bracketed(opcodes@),
        r matches Ok(p) ==> render(p@) == strip(opcodes@) && canonical(p@),
        r matches Err(ParseError::UnmatchedCloseBracket(i)) ==> close_error_at(opcodes@, i as int),
        r matches Err(ParseError::UnmatchedOpenBracket(i)) ==> open_error_at(opcodes@, i as int),
{
    let mut cur: Vec<Instruction> = Vec::new();
    let mut outer: Vec<Vec<Instruction>> = Vec::new();
    let mut start: usize = 0;
    let mut i: usize = 0;
    proof {
        assert(opcodes@.take(0) =~= Seq::<char>::empty());
        assert(render_stack(outer@) + render(cur@) =~= strip(opcodes@.take(0)));
    }
    while i < opcodes.len()
        invariant
            0 <= i <= opcodes.len(),
            prefix_nonnegative(opcodes@, i as int),
            outer.len() == depth(opcodes@.take(i as int)),
            render_stack(outer@) + render(cur@) == strip(opcodes@.take(i as int)),
            canonical(cur@),
            forall|k: int| 0 <= k < outer.len() ==> canonical(#[trigger] outer@[k]@),
            outer.len() > 0 ==> {
                &&& start < i
                &&& opcodes@[start as int] == '['
                &&& depth(opcodes@.take(start as int)) == 0
                &&& forall|j: int| start < j <= i ==> depth(#[trigger] opcodes@.take(j)) > 0
            },
        decreases opcodes.len() - i,
    {
        let c = opcodes[i];
        let ghost s = opcodes@;
        let ghost old_cur = cur@;
        let ghost old_outer = outer@;
        proof {
            lemma_take_step(s, i as int);
            lemma_strip_len(s.take(i as int));
            lemma_render_stack_len(outer@);
        }
        if c == '[' {
            if outer.len() == 0 {
                start = i;
            }
            outer.push(cur);
            cur = Vec::new();
            proof {
                assert(canonical(cur@));
                assert(outer@.drop_last() =~= old_outer);
                assert(render_stack(outer@) + render(cur@) =~= strip(s.take(i + 1)));
                assert forall|k: int| 0 <= k < outer.len() implies canonical(#[trigger] outer@[k]@) by {
                    if k < old_outer.len() {
                        assert(outer@[k] == old_outer[k]);
                    }
                }
            }
        } else if c == ']' {
            if outer.len() == 0 {
                return Err(ParseError::UnmatchedCloseBracket(i));
            }
            let mut parent = outer.pop().unwrap();
            let ghost old_parent = parent@;
            parent.push(Instruction::Loop(cur));
            cur = parent;
            proof {
                assert(old_outer.drop_last() =~= outer@);
                assert(old_outer.last()@ == old_parent);
                assert(cur@.drop_last() =~= old_parent);
                assert(canonical(old_parent)) by {
                    assert(old_outer[old_outer.len() - 1]@ == old_parent);
                }
                assert(render_one(cur@.last()) == seq!['['] + render(old_cur) + seq![']']);
                assert(node_ok(cur@.last()));
                if cur@.len() >= 2 {
                    assert(cur@[cur@.len() - 2] == old_parent.last());
                }
                assert(canonical(cur@));
                assert(render_stack(outer@) + render(cur@) =~= strip(s.take(i + 1)));
                assert forall|k: int| 0 <= k < outer.len() implies canonical(#[trigger] outer@[k]@) by {
                    assert(outer@[k] == old_outer[k]);
                }
            }
        } else if c == '>' || c == '<' || c == '+' || c == '-' {
            push_run(&mut cur, c);
            proof {
                assert(canonical(cur@));
                assert(render_stack(outer@) + render(cur@) =~= strip(s.take(i + 1)));
            }
        } else if c == '.' || c == ',' {
            let node = if c == '.' {
                Instruction::PrintData
            } else {
                Instruction::ReadStdin
            };
            cur.push(node);
            proof {
                assert(cur@.drop_last() =~= old_cur);
                assert(render_one(node) =~= seq![c]);
                assert(node_ok(node));
                if old_cur.len() > 0 {
                    assert(cur@[cur@.len() - 2] == old_cur.last());
                    assert(!same_run(old_cur.last(), node));
                }
                assert(cur@.last() == node);
                assert(canonical(cur@));
                assert(render_stack(outer@) + render(cur@) =~= strip(s.take(i + 1)));
            }
        } else {
            proof {
                assert(render_stack(outer@) + render(cur@) =~= strip(s.take(i + 1)));
            }
        }
        i += 1;
    }
    proof {
        assert(opcodes@.take(opcodes.len() as int) =~= opcodes@);
    }
    if outer.len() > 0 {
        return Err(ParseError::UnmatchedOpenBracket(start));
    }
    proof {
        assert(render_stack(outer@) =~= Seq::<char>::empty());
        assert(render(cur@) =~= strip(opcodes@));
    }
    Ok(cur)
}

} // verus!

verus! {

/// How many times `c` occurs in `s`.
pub open spec fn count_char(s: Seq<char>, c: char) -> nat
    decreases s.len(),
{
    if s.len() == 0 {
        0
    } else {
        count_char(s.drop_last(), c) + if s.last() == c { 1nat } else { 0nat }
    }
}

/// How many loop nodes a node holds, itself included.
pub open spec fn loops_in_one(i: Instruction) -> nat
    decreases i,
{
    match i {
        Instruction::Loop(body) => 1 + loops_in(body@),
        _ => 0,
    }
}

/// How many loop nodes a sequence holds, at every depth.
pub open spec fn loops_in(p: Seq<Instruction>) -> nat
    decreases p,
{
    if p.len() == 0 {
        0
    } else {
        loops_in(p.drop_last()) + loops_in_one(p.last())
    }
}

proof fn lemma_count_concat(a: Seq<char>, b: Seq<char>, c: char)
    ensures
        count_char(a + b, c) == count_char(a, c) + count_char(b, c),
    decreases b.len(),
{
    if b.len() == 0 {
        assert(a + b =~= a);
    } else {
        assert((a + b).drop_last() =~= a + b.drop_last());
        lemma_count_concat(a, b.drop_last(), c);
    }
}

proof fn lemma_count_repeat(r: char, n: nat, c: char)
    requires
        r != c,
    ensures
        count_char(repeat(r, n), c) == 0,
    decreases n,
{
    if n > 0 {
        assert(repeat(r, n).drop_last() =~= repeat(r, (n - 1) as nat));
        lemma_count_repeat(r, (n - 1) as nat, c);
    }
}

proof fn lemma_brackets_leaf(i: Instruction)
    requires
        !(i is Loop),
    ensures
        count_char(render_one(i), '[') == 0,
        count_char(render_one(i), ']') == 0,
{
    let (r, n): (char, nat) = match i {
        Instruction::IncrementPtr(n) => ('>', n as nat),
        Instruction::DecrementPtr(n) => ('<', n as nat),
        Instruction::Increment(n) => ('+', n as nat),
        Instruction::Decrement(n) => ('-', n as nat),
        Instruction::PrintData => ('.', 1),
        _ => (',', 1),
    };
    assert(repeat(r, 0) =~= Seq::<char>::empty());
    assert(repeat(r, 1) =~= seq![r]);
    assert(render_one(i) =~= repeat(r, n));
    lemma_count_repeat(r, n, '[');
    lemma_count_repeat(r, n, ']');
}

proof fn lemma_brackets_one(i: Instruction)
    ensures
        count_char(render_one(i), '[') == loops_in_one(i),
        count_char(render_one(i), ']') == loops_in_one(i),
    decreases i, 0nat,
{
    if let Instruction::Loop(body) = i {
        let open = seq!['['];
        let close = seq![']'];
        assert(open.drop_last() =~= Seq::<char>::empty());
        assert(close.drop_last() =~= Seq::<char>::empty());
        lemma_brackets(body@);
        lemma_count_concat(open, render(body@), '[');
        lemma_count_concat(open, render(body@), ']');
        lemma_count_concat(open + render(body@), close, '[');
        lemma_count_concat(open + render(body@), close, ']');
    } else {
        lemma_brackets_leaf(i);
    }
}

/// Each loop node stands for one `[` and one `]` of the text it renders to,
/// and no other node stands for a bracket.
pub proof fn lemma_brackets(p: Seq<Instruction>)
    ensures
        count_char(render(p), '[') == loops_in(p),
        count_char(render(p), ']') == loops_in(p),
    decreases p, 1nat,
{
    if p.len() > 0 {
        lemma_brackets(p.drop_last());
        lemma_brackets_one(p.last());
        lemma_count_concat(render(p.drop_last()), render_one(p.last()), '[');
        lemma_count_concat(render(p.drop_last()), render_one(p.last()), ']');
    }
}

/// A parsed program holds exactly as many loop nodes as its source has
/// bracket pairs.
pub proof fn lemma_parsed_loops(s: Seq<char>, p: Seq<Instruction>)
    requires
        render(p) == strip(s),
    ensures
        loops_in(p) == count_char(strip(s), '['),
        loops_in(p) == count_char(strip(s), ']'),
{
    lemma_brackets(p);
}

} // verus!

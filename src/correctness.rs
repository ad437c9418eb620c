use vstd::prelude::*;
use vstd::arithmetic::div_mod::{lemma_add_mod_noop_right, lemma_sub_mod_noop_right};
use crate::ir::Instruction;
use crate::semantics::{move_to, run_loop, run_seq, step, wrap_sub, Machine, RunError};
use crate::codegen::{is_clear, lowers_one, lowers_seq, op_count, op_loop, op_seq, op_step, ptr_chunks, Op, MAX_IMM};

verus! {

/// The result of a run that did not stop for want of fuel.
pub open spec fn finished(r: Result<Machine, RunError>) -> bool {
    r != Err::<Machine, RunError>(RunError::OutOfFuel)
}

/// Running `a` and then `b` is running their concatenation.
pub proof fn lemma_op_seq_concat(a: Seq<Op>, b: Seq<Op>, m: Machine, f: nat)
    ensures
        op_seq(a + b, m, f) == (match op_seq(a, m, f) {
            Ok(m2) => op_seq(b, m2, f),
            Err(e) => Err(e),
        }),
    decreases b.len(),
{
    if b.len() == 0 {
        assert(a + b =~= a);
    } else {
        assert((a + b).drop_last() =~= a + b.drop_last());
        assert((a + b).last() == b.last());
        lemma_op_seq_concat(a, b.drop_last(), m, f);
    }
}

proof fn lemma_op_seq_single(o: Op, m: Machine, f: nat)
    ensures
        op_seq(seq![o], m, f) == op_step(o, m, f),
{
    assert(seq![o].drop_last() =~= Seq::<Op>::empty());
    assert(op_seq(Seq::<Op>::empty(), m, f) == Ok::<Machine, RunError>(m));
    assert(seq![o].last() == o);
}

/// The chunks of a pointer move do what the move does.
proof fn lemma_chunks(n: nat, up: bool, m: Machine, f: nat)
    requires
        m.wf(),
    ensures
        op_seq(ptr_chunks(n, up), m, f) == move_to(m, if up { m.ptr + n } else { m.ptr - n }),
    decreases n,
{
    if n == 0 {
        assert(Machine { ptr: m.ptr, ..m } == m);
    } else if n <= MAX_IMM {
        lemma_op_seq_single(if up { Op::AddPtr(n as u32) } else { Op::SubPtr(n as u32) }, m, f);
    } else {
        let o = if up { Op::AddPtr(MAX_IMM) } else { Op::SubPtr(MAX_IMM) };
        let rest = ptr_chunks((n - MAX_IMM) as nat, up);
        lemma_op_seq_concat(seq![o], rest, m, f);
        lemma_op_seq_single(o, m, f);
        let next_ptr = if up { m.ptr + MAX_IMM } else { m.ptr - MAX_IMM };
        if 0 <= next_ptr < m.tape.len() {
            let m1 = Machine { ptr: next_ptr, ..m };
            lemma_chunks((n - MAX_IMM) as nat, up, m1, f);
            assert(Machine { ptr: if up { m.ptr + n } else { m.ptr - n }, ..m1 } == Machine {
                ptr: if up { m.ptr + n } else { m.ptr - n },
                ..m
            });
        }
    }
}

/// `[-]` clears the current cell, in as many rounds as the cell's value.
pub proof fn lemma_clear_loop(m: Machine, f: nat)
    requires
        m.wf(),
    ensures
        run_loop(seq![Instruction::Decrement(1)], m, f) == (if f >= m.cell() {
            Ok::<Machine, RunError>(m.with_cell(0))
        } else {
            Err::<Machine, RunError>(RunError::OutOfFuel)
        }),
    decreases m.cell(),
{
    let body = seq![Instruction::Decrement(1)];
    if m.cell() == 0 {
        assert(m.with_cell(0).tape =~= m.tape);
    } else if f > 0 {
        let m1 = m.with_cell(wrap_sub(m.cell(), 1));
        assert(body.drop_last() =~= Seq::<Instruction>::empty());
        assert(run_seq(Seq::<Instruction>::empty(), m, (f - 1) as nat) == Ok::<Machine, RunError>(m));
        assert(body.last() == Instruction::Decrement(1));
        assert(step(Instruction::Decrement(1), m, (f - 1) as nat) == Ok::<Machine, RunError>(m1));
        assert(run_seq(body, m, (f - 1) as nat) == Ok::<Machine, RunError>(m1));
        assert(m1.cell() == m.cell() - 1);
        lemma_clear_loop(m1, (f - 1) as nat);
        assert(m1.with_cell(0).tape =~= m.with_cell(0).tape);
    }
}

proof fn lemma_leaf(i: Instruction, ops: Seq<Op>, m: Machine, f: nat)
    requires
        lowers_one(i, ops),
        m.wf(),
        !(i is Loop),
    ensures
        op_seq(ops, m, f) == step(i, m, f),
        step(i, m, f) matches Ok(m2) ==> m2.wf(),
{
    match i {
        Instruction::IncrementPtr(n) => lemma_chunks(n as nat, true, m, f),
        Instruction::DecrementPtr(n) => lemma_chunks(n as nat, false, m, f),
        Instruction::Increment(n) => {
            assert(ops =~= seq![ops[0]]);
            lemma_op_seq_single(ops[0], m, f);
            lemma_add_mod_noop_right(m.cell() as int, n as int, 256);
        },
        Instruction::Decrement(n) => {
            assert(ops =~= seq![ops[0]]);
            lemma_op_seq_single(ops[0], m, f);
            lemma_sub_mod_noop_right(m.cell() as int, n as int, 256);
        },
        _ => {
            assert(ops =~= seq![ops[0]]);
            lemma_op_seq_single(ops[0], m, f);
        },
    }
}

/// A node that finishes runs as its lowering does, with the same fuel.
proof fn lemma_fwd_one(i: Instruction, ops: Seq<Op>, m: Machine, f: nat)
    requires
        lowers_one(i, ops),
        m.wf(),
        finished(step(i, m, f)),
    ensures
        op_seq(ops, m, f) == step(i, m, f),
        step(i, m, f) matches Ok(m2) ==> m2.wf(),
    decreases f, i, 0nat,
{
    match i {
        Instruction::Loop(body) => {
            assert(ops =~= seq![ops[0]]);
            lemma_op_seq_single(ops[0], m, f);
            if is_clear(body@) {
                assert(body@ =~= seq![Instruction::Decrement(1)]);
                lemma_clear_loop(m, f);
            } else {
                match ops[0] {
                    Op::Loop(v) => lemma_fwd_loop(body@, v@, m, f),
                    _ => {},
                }
            }
        },
        _ => lemma_leaf(i, ops, m, f),
    }
}

proof fn lemma_fwd_loop(body: Seq<Instruction>, v: Seq<Op>, m: Machine, f: nat)
    requires
        lowers_seq(body, v),
        m.wf(),
        finished(run_loop(body, m, f)),
    ensures
        op_loop(v, m, f) == run_loop(body, m, f),
        run_loop(body, m, f) matches Ok(m2) ==> m2.wf(),
    decreases f, body, 2nat,
{
    if m.cell() != 0 && f > 0 {
        let f1 = (f - 1) as nat;
        lemma_fwd_seq(body, v, m, f1);
        if let Ok(m2) = run_seq(body, m, f1) {
            lemma_fwd_loop(body, v, m2, f1);
        }
    }
}

proof fn lemma_fwd_seq(p: Seq<Instruction>, ops: Seq<Op>, m: Machine, f: nat)
    requires
        lowers_seq(p, ops),
        m.wf(),
        finished(run_seq(p, m, f)),
    ensures
        op_seq(ops, m, f) == run_seq(p, m, f),
        run_seq(p, m, f) matches Ok(m2) ==> m2.wf(),
    decreases f, p, 1nat,
{
    if p.len() > 0 {
        let k = ops.len() - op_count(p.last());
        let a = ops.take(k);
        let b = ops.skip(k);
        assert(ops =~= a + b);
        lemma_op_seq_concat(a, b, m, f);
        lemma_fwd_seq(p.drop_last(), a, m, f);
        if let Ok(m2) = run_seq(p.drop_last(), m, f) {
            lemma_fwd_one(p.last(), b, m2, f);
        }
    }
}

/// Lowered code that finishes runs as its node does, given 256 more rounds
/// per loop: a `[-]` needs up to 255 rounds that its lowering does not.
proof fn lemma_bwd_one(i: Instruction, ops: Seq<Op>, m: Machine, f: nat)
    requires
        lowers_one(i, ops),
        m.wf(),
        finished(op_seq(ops, m, f)),
    ensures
        step(i, m, f + 256) == op_seq(ops, m, f),
        op_seq(ops, m, f) matches Ok(m2) ==> m2.wf(),
    decreases f, i, 0nat,
{
    match i {
        Instruction::Loop(body) => {
            assert(ops =~= seq![ops[0]]);
            lemma_op_seq_single(ops[0], m, f);
            if is_clear(body@) {
                assert(body@ =~= seq![Instruction::Decrement(1)]);
                lemma_clear_loop(m, f + 256);
            } else {
                match ops[0] {
                    Op::Loop(v) => lemma_bwd_loop(body@, v@, m, f),
                    _ => {},
                }
            }
        },
        _ => {
            lemma_leaf(i, ops, m, f);
            lemma_leaf(i, ops, m, f + 256);
        },
    }
}

proof fn lemma_bwd_loop(body: Seq<Instruction>, v: Seq<Op>, m: Machine, f: nat)
    requires
        lowers_seq(body, v),
        m.wf(),
        finished(op_loop(v, m, f)),
    ensures
        run_loop(body, m, f + 256) == op_loop(v, m, f),
        op_loop(v, m, f) matches Ok(m2) ==> m2.wf(),
    decreases f, body, 2nat,
{
    if m.cell() != 0 && f > 0 {
        let f1 = (f - 1) as nat;
        lemma_bwd_seq(body, v, m, f1);
        assert(f1 + 256 == (f + 256 - 1) as nat);
        if let Ok(m2) = op_seq(v, m, f1) {
            lemma_bwd_loop(body, v, m2, f1);
        }
    }
}

proof fn lemma_bwd_seq(p: Seq<Instruction>, ops: Seq<Op>, m: Machine, f: nat)
    requires
        lowers_seq(p, ops),
        m.wf(),
        finished(op_seq(ops, m, f)),
    ensures
        run_seq(p, m, f + 256) == op_seq(ops, m, f),
        op_seq(ops, m, f) matches Ok(m2) ==> m2.wf(),
    decreases f, p, 1nat,
{
    if p.len() > 0 {
        let k = ops.len() - op_count(p.last());
        let a = ops.take(k);
        let b = ops.skip(k);
        assert(ops =~= a + b);
        lemma_op_seq_concat(a, b, m, f);
        lemma_bwd_seq(p.drop_last(), a, m, f);
        if let Ok(m2) = op_seq(a, m, f) {
            lemma_bwd_one(p.last(), b, m2, f);
        }
    }
}

/// The lowered code computes what the program computes. A run of the program
/// that finishes ends exactly as its lowering does with the same fuel; a run of
/// the lowering that finishes ends exactly as the program does with 256 more
/// rounds allowed per loop.
pub proof fn lemma_lowering_correct(p: Seq<Instruction>, ops: Seq<Op>, m: Machine, f: nat)
    requires
        lowers_seq(p, ops),
        m.wf(),
    ensures
        finished(run_seq(p, m, f)) ==> op_seq(ops, m, f) == run_seq(p, m, f),
        finished(op_seq(ops, m, f)) ==> run_seq(p, m, f + 256) == op_seq(ops, m, f),
{
    if finished(run_seq(p, m, f)) {
        lemma_fwd_seq(p, ops, m, f);
    }
    if finished(op_seq(ops, m, f)) {
        lemma_bwd_seq(p, ops, m, f);
    }
}

/// The peephole rewrites preserve termination: the lowered code finishes for
/// some fuel exactly when the program does.
pub proof fn lemma_lowering_preserves_termination(p: Seq<Instruction>, ops: Seq<Op>, m: Machine)
    requires
        lowers_seq(p, ops),
        m.wf(),
    ensures
        (exists|f: nat| finished(#[trigger] run_seq(p, m, f))) <==> (exists|f: nat| finished(#[trigger] op_seq(ops, m, f))),
{
    if exists|f: nat| finished(#[trigger] run_seq(p, m, f)) {
        let f = choose|f: nat| finished(#[trigger] run_seq(p, m, f));
        lemma_fwd_seq(p, ops, m, f);
        assert(finished(op_seq(ops, m, f)));
    }
    if exists|f: nat| finished(#[trigger] op_seq(ops, m, f)) {
        let f = choose|f: nat| finished(#[trigger] op_seq(ops, m, f));
        lemma_bwd_seq(p, ops, m, f);
        assert(finished(run_seq(p, m, f + 256)));
    }
}

/// A program of pointer and cell arithmetic alone: no loop, no input or output.
pub open spec fn arith_only(p: Seq<Instruction>) -> bool {
    forall|k: int|
        0 <= k < p.len() ==> match #[trigger] p[k] {
            Instruction::IncrementPtr(_) | Instruction::DecrementPtr(_) | Instruction::Increment(_)
            | Instruction::Decrement(_) => true,
            _ => false,
        }
}

proof fn lemma_arith_only_finishes(p: Seq<Instruction>, m: Machine, f: nat)
    requires
        arith_only(p),
    ensures
        finished(run_seq(p, m, f)),
    decreases p.len(),
{
    if p.len() > 0 {
        assert(arith_only(p.drop_last())) by {
            assert forall|k: int| 0 <= k < p.drop_last().len() implies #[trigger] p.drop_last()[k] == p[k] by {}
        }
        lemma_arith_only_finishes(p.drop_last(), m, f);
        let x = p.last();
        assert(x == p[p.len() - 1]);
        assert(!(x is Loop) && !(x is PrintData) && !(x is ReadStdin));
        if let Ok(m2) = run_seq(p.drop_last(), m, f) {
            assert(run_seq(p, m, f) == step(x, m2, f));
            match x {
                Instruction::IncrementPtr(n) => assert(finished(move_to(m2, m2.ptr + n))),
                Instruction::DecrementPtr(n) => assert(finished(move_to(m2, m2.ptr - n))),
                Instruction::Increment(n) => {},
                Instruction::Decrement(n) => {},
                _ => {},
            }
        }
    }
}

/// On a program of pointer and cell arithmetic alone, the lowered code and the
/// interpreter end in the same state, tape included, whatever the fuel.
pub proof fn lemma_arith_only_same_result(p: Seq<Instruction>, ops: Seq<Op>, m: Machine, f: nat)
    requires
        arith_only(p),
        lowers_seq(p, ops),
        m.wf(),
    ensures
        op_seq(ops, m, f) == run_seq(p, m, f),
        run_seq(p, m, f) is Ok ==> op_seq(ops, m, f)->Ok_0.tape == run_seq(p, m, f)->Ok_0.tape,
{
    lemma_arith_only_finishes(p, m, f);
    lemma_fwd_seq(p, ops, m, f);
}

/// Cell arithmetic is modulo 256: adding or subtracting `n` leaves
/// `(old + n) mod 256` or `(old - n) mod 256` in the current cell, and every
/// other cell and the pointer as they were.
pub proof fn lemma_cell_arithmetic(m: Machine, n: usize, f: nat)
    requires
        m.wf(),
    ensures
        step(Instruction::Increment(n), m, f) matches Ok(m2) && m2.wf() && m2.ptr == m.ptr
            && m2.cell() == (m.cell() + n) % 256
            && forall|j: int| 0 <= j < m.tape.len() && j != m.ptr ==> #[trigger] m2.tape[j] == m.tape[j],
        step(Instruction::Decrement(n), m, f) matches Ok(m2) && m2.wf() && m2.ptr == m.ptr
            && m2.cell() == (m.cell() - n) % 256
            && forall|j: int| 0 <= j < m.tape.len() && j != m.ptr ==> #[trigger] m2.tape[j] == m.tape[j],
{
}

} // verus!

use vstd::prelude::*;
use crate::ir::{Instruction, MEMORY_SIZE};
use crate::interp::zero_tape;
use crate::semantics::{get, move_to, put, wrap_add, wrap_sub, Machine, RunError};

verus! {

broadcast use vstd::std_specs::vec::group_vec_axioms;

/// The largest pointer displacement that one instruction of the generated code
/// carries: the largest 32-bit signed immediate.
pub const MAX_IMM: u32 = 0x7fff_ffff;

/// One operation of the generated native code. The code generator emits each
/// as a fixed instruction sequence; a loop becomes a test of the current cell,
/// its body, and a jump back.
#[derive(Debug, PartialEq, Eq)]
pub enum Op {
    /// Adds an immediate to the data pointer register.
    AddPtr(u32),
    /// Subtracts an immediate from the data pointer register.
    SubPtr(u32),
    /// Adds a byte to the current cell.
    AddCell(u8),
    /// Subtracts a byte from the current cell.
    SubCell(u8),
    /// Stores zero in the current cell.
    ZeroCell,
    /// Calls the output helper on the current cell.
    Output,
    /// Calls the input helper on the current cell.
    Input,
    /// Runs the body while the current cell is not zero.
    Loop(Vec<Op>),
}

/// The tape that generated code runs against.
pub struct State {
    pub data: Vec<u8>,
}

impl State {
    /// `MEMORY_SIZE` zero cells.
    pub fn new() -> (r: State)
        ensures
            r.data@ == Seq::new(MEMORY_SIZE as nat, |i: int| 0u8),
    {
        State { data: zero_tape() }
    }
}

/// What one operation does.
pub open spec fn op_step(o: Op, m: Machine, fuel: nat) -> Result<Machine, RunError>
    decreases fuel, o, 0nat,
{
    match o {
        Op::AddPtr(k) => move_to(m, m.ptr + k),
        Op::SubPtr(k) => move_to(m, m.ptr - k),
        Op::AddCell(b) => Ok(m.with_cell(wrap_add(m.cell(), b as int))),
        Op::SubCell(b) => Ok(m.with_cell(wrap_sub(m.cell(), b as int))),
        Op::ZeroCell => Ok(m.with_cell(0)),
        Op::Output => Ok(put(m)),
        Op::Input => get(m),
        Op::Loop(body) => op_loop(body@, m, fuel),
    }
}

/// What a sequence of operations does, in order.
pub open spec fn op_seq(p: Seq<Op>, m: Machine, fuel: nat) -> Result<Machine, RunError>
    decreases fuel, p, 0nat,
{
    if p.len() == 0 {
        Ok(m)
    } else {
        match op_seq(p.drop_last(), m, fuel) {
            Ok(m2) => op_step(p.last(), m2, fuel),
            Err(e) => Err(e),
        }
    }
}

/// A loop of operations; it may go round at most `fuel` times.
pub open spec fn op_loop(body: Seq<Op>, m: Machine, fuel: nat) -> Result<Machine, RunError>
    decreases fuel, body, 1nat,
{
    if m.cell() == 0 {
        Ok(m)
    } else if fuel == 0 {
        Err(RunError::OutOfFuel)
    } else {
        match op_seq(body, m, (fuel - 1) as nat) {
            Ok(m2) => op_loop(body, m2, (fuel - 1) as nat),
            Err(e) => Err(e),
        }
    }
}

/// A pointer move by `n`, split into immediates of at most `MAX_IMM`: full
/// chunks first, the remainder last.
pub open spec fn ptr_chunks(n: nat, up: bool) -> Seq<Op>
    decreases n,
{
    if n == 0 {
        seq![]
    } else if n <= MAX_IMM {
        seq![if up { Op::AddPtr(n as u32) } else { Op::SubPtr(n as u32) }]
    } else {
        seq![if up { Op::AddPtr(MAX_IMM) } else { Op::SubPtr(MAX_IMM) }] + ptr_chunks((n - MAX_IMM) as nat, up)
    }
}

/// The loop `[-]`, which clears the current cell.
pub open spec fn is_clear(body: Seq<Instruction>) -> bool {
    body.len() == 1 && body[0] == Instruction::Decrement(1)
}

/// How many operations one node becomes at its own level.
pub open spec fn op_count(i: Instruction) -> nat {
    match i {
        Instruction::IncrementPtr(n) => ptr_chunks(n as nat, true).len(),
        Instruction::DecrementPtr(n) => ptr_chunks(n as nat, false).len(),
        _ => 1,
    }
}

/// `ops` is what the node `i` is lowered to.
pub open spec fn lowers_one(i: Instruction, ops: Seq<Op>) -> bool
    decreases i, 0nat,
{
    match i {
        Instruction::IncrementPtr(n) => ops == ptr_chunks(n as nat, true),
        Instruction::DecrementPtr(n) => ops == ptr_chunks(n as nat, false),
        Instruction::Increment(n) => ops == seq![Op::AddCell((n % 256) as u8)],
        Instruction::Decrement(n) => ops == seq![Op::SubCell((n % 256) as u8)],
        Instruction::PrintData => ops == seq![Op::Output],
        Instruction::ReadStdin => ops == seq![Op::Input],
        Instruction::Loop(body) => if is_clear(body@) {
            ops == seq![Op::ZeroCell]
        } else {
            ops.len() == 1 && match ops[0] {
                Op::Loop(v) => lowers_seq(body@, v@),
                _ => false,
            }
        },
    }
}

/// `ops` is what the sequence `p` is lowered to: the lowerings of its nodes,
/// one after the other.
pub open spec fn lowers_seq(p: Seq<Instruction>, ops: Seq<Op>) -> bool
    decreases p, 1nat,
{
    if p.len() == 0 {
        ops.len() == 0
    } else {
        let k = ops.len() - op_count(p.last());
        &&& 0 <= k
        &&& lowers_seq(p.drop_last(), ops.take(k))
        &&& lowers_one(p.last(), ops.skip(k))
    }
}

proof fn lemma_lowers_one_len(i: Instruction, ops: Seq<Op>)
    requires
        lowers_one(i, ops),
    ensures
        ops.len() == op_count(i),
{
}

/// Appends the chunks of a pointer move by `n`.
fn push_chunks(out: &mut Vec<Op>, n: usize, up: bool)
    ensures
        final(out)@ == old(out)@ + ptr_chunks(n as nat, up),
{
    let mut rem: usize = n;
    while rem > MAX_IMM as usize
        invariant
            out@ + ptr_chunks(rem as nat, up) == old(out)@ + ptr_chunks(n as nat, up),
        decreases rem,
    {
        let ghost before = out@;
        let o = if up { Op::AddPtr(MAX_IMM) } else { Op::SubPtr(MAX_IMM) };
        out.push(o);
        proof {
            assert(ptr_chunks(rem as nat, up) == seq![o] + ptr_chunks((rem - MAX_IMM) as nat, up));
            assert(out@ + ptr_chunks((rem - MAX_IMM) as nat, up) =~= before + ptr_chunks(rem as nat, up));
        }
        rem = rem - MAX_IMM as usize;
    }
    if rem > 0 {
        let ghost before = out@;
        let o = if up { Op::AddPtr(rem as u32) } else { Op::SubPtr(rem as u32) };
        out.push(o);
        proof {
            assert(ptr_chunks(rem as nat, up) == seq![o]);
            assert(out@ =~= before + ptr_chunks(rem as nat, up));
        }
    } else {
        proof {
            assert(out@ =~= out@ + ptr_chunks(0, up));
        }
    }
}

/// Whether a loop body is `[-]`.
fn body_is_clear(body: &Vec<Instruction>) -> (r: bool)
    ensures
        r == is_clear(body@),
{
    if body.len() == 1 {
        match &body[0] {
            Instruction::Decrement(n) => *n == 1,
            _ => false,
        }
    } else {
        false
    }
}

/// Appends the lowering of one node.
fn lower_into(i: &Instruction, out: &mut Vec<Op>)
    ensures
        final(out)@.len() >= old(out)@.len(),
        final(out)@.take(old(out)@.len() as int) == old(out)@,
        lowers_one(*i, final(out)@.skip(old(out)@.len() as int)),
    decreases i, 0nat,
{
    let ghost before = out@;
    match i {
        Instruction::IncrementPtr(n) => push_chunks(out, *n, true),
        Instruction::DecrementPtr(n) => push_chunks(out, *n, false),
        Instruction::Increment(n) => out.push(Op::AddCell((*n % 256) as u8)),
        Instruction::Decrement(n) => out.push(Op::SubCell((*n % 256) as u8)),
        Instruction::PrintData => out.push(Op::Output),
        Instruction::ReadStdin => out.push(Op::Input),
        Instruction::Loop(body) => {
            if body_is_clear(body) {
                out.push(Op::ZeroCell);
            } else {
                let inner = lower(body);
                out.push(Op::Loop(inner));
            }
        },
    }
    proof {
        assert(out@.take(before.len() as int) =~= before);
        let ops = out@.skip(before.len() as int);
        let ii = *i;
        match ii {
            Instruction::IncrementPtr(n) => assert(ops =~= ptr_chunks(n as nat, true)),
            Instruction::DecrementPtr(n) => assert(ops =~= ptr_chunks(n as nat, false)),
            Instruction::Increment(n) => assert(ops =~= seq![Op::AddCell((n % 256) as u8)]),
            Instruction::Decrement(n) => assert(ops =~= seq![Op::SubCell((n % 256) as u8)]),
            Instruction::PrintData => assert(ops =~= seq![Op::Output]),
            Instruction::ReadStdin => assert(ops =~= seq![Op::Input]),
            Instruction::Loop(body) => {
                if is_clear(body@) {
                    assert(ops =~= seq![Op::ZeroCell]);
                } else {
                    assert(ops.len() == 1);
                    assert(ops[0] == out@.last());
                }
            },
        }
    }
}

/// Lowers a program to the operations of the generated code.
///
/// Each node is lowered in order: pointer moves are split into immediates of
/// at most `MAX_IMM`, cell arithmetic is taken modulo 256, a `[-]` loop
/// becomes a single store of zero, and any other loop a loop over the
/// lowering of its body.
pub fn lower(program: &Vec<Instruction>) -> (r: Vec<Op>)
    ensures
        lowers_seq(program@, r@),
    decreases program@, 1nat,
{
    let mut out: Vec<Op> = Vec::new();
    let mut k: usize = 0;
    proof {
        assert(program@.take(0) =~= Seq::<Instruction>::empty());
    }
    while k < program.len()
        invariant
            k <= program.len(),
            lowers_seq(program@.take(k as int), out@),
        decreases program.len() - k,
    {
        let ghost before = out@;
        lower_into(&program[k], &mut out);
        proof {
            let prefix = program@.take(k + 1);
            assert(prefix.drop_last() =~= program@.take(k as int));
            assert(prefix.last() == program@[k as int]);
            lemma_lowers_one_len(program@[k as int], out@.skip(before.len() as int));
            assert(lowers_seq(prefix, out@));
        }
        k += 1;
    }
    proof {
        assert(program@.take(program.len() as int) =~= program@);
    }
    out
}

} // verus!

use vstd::prelude::*;

verus! {

/// Number of cells on the tape.
pub const MEMORY_SIZE: usize = 16000;

/// One node of the intermediate representation.
///
/// The four counted variants carry the length of a run of identical opcodes.
#[derive(Debug, PartialEq, Eq)]
pub enum Instruction {
    IncrementPtr(usize),
    DecrementPtr(usize),
    Increment(usize),
    Decrement(usize),
    PrintData,
    ReadStdin,
    Loop(Vec<Instruction>),
}

/// The eight characters that mean something; every other one is a comment.
pub open spec fn is_opcode(c: char) -> bool {
    c == '>' || c == '<' || c == '+' || c == '-' || c == '.' || c == ',' || c == '[' || c == ']'
}

/// The source with its comments removed.
pub open spec fn strip(s: Seq<char>) -> Seq<char>
    decreases s.len(),
{
    if s.len() == 0 {
        seq![]
    } else if is_opcode(s.last()) {
        strip(s.drop_last()).push(s.last())
    } else {
        strip(s.drop_last())
    }
}

/// `n` copies of `c`.
pub open spec fn repeat(c: char, n: nat) -> Seq<char>
    decreases n,
{
    if n == 0 {
        seq![]
    } else {
        repeat(c, (n - 1) as nat).push(c)
    }
}

/// The opcodes that one node stands for.
pub open spec fn render_one(i: Instruction) -> Seq<char>
    decreases i,
{
    match i {
        Instruction::IncrementPtr(n) => repeat('>', n as nat),
        Instruction::DecrementPtr(n) => repeat('<', n as nat),
        Instruction::Increment(n) => repeat('+', n as nat),
        Instruction::Decrement(n) => repeat('-', n as nat),
        Instruction::PrintData => seq!['.'],
        Instruction::ReadStdin => seq![','],
        Instruction::Loop(body) => seq!['['] + render(body@) + seq![']'],
    }
}

/// The opcodes that a sequence of nodes stands for, read in order.
pub open spec fn render(p: Seq<Instruction>) -> Seq<char>
    decreases p,
{
    if p.len() == 0 {
        seq![]
    } else {
        render(p.drop_last()) + render_one(p.last())
    }
}

/// Both nodes are runs of the same opcode.
pub open spec fn same_run(a: Instruction, b: Instruction) -> bool {
    match (a, b) {
        (Instruction::IncrementPtr(_), Instruction::IncrementPtr(_)) => true,
        (Instruction::DecrementPtr(_), Instruction::DecrementPtr(_)) => true,
        (Instruction::Increment(_), Instruction::Increment(_)) => true,
        (Instruction::Decrement(_), Instruction::Decrement(_)) => true,
        _ => false,
    }
}

/// A node whose runs are non-empty and whose loop body is canonical.
pub open spec fn node_ok(i: Instruction) -> bool
    decreases i,
{
    match i {
        Instruction::IncrementPtr(n) => n >= 1,
        Instruction::DecrementPtr(n) => n >= 1,
        Instruction::Increment(n) => n >= 1,
        Instruction::Decrement(n) => n >= 1,
        Instruction::Loop(body) => canonical(body@),
        _ => true,
    }
}

/// Every run is non-empty and maximal: no two neighbours, at any level of
/// nesting, are runs of the same opcode.
pub open spec fn canonical(p: Seq<Instruction>) -> bool
    decreases p,
{
    if p.len() == 0 {
        true
    } else {
        &&& canonical(p.drop_last())
        &&& node_ok(p.last())
        &&& (p.len() >= 2 ==> !same_run(p[p.len() - 2], p.last()))
    }
}

} // verus!

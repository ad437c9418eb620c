use vstd::prelude::*;
use crate::ir::Instruction;

verus! {

/// The whole observable state of a running program.
pub struct Machine {
    /// The cells.
    pub tape: Seq<u8>,
    /// The data pointer, an index into `tape`.
    pub ptr: int,
    /// The input bytes not read yet.
    pub input: Seq<u8>,
    /// The bytes written so far.
    pub output: Seq<u8>,
}

/// Why a run stops before the end of its program.
#[derive(Debug, Clone, Copy, PartialEq, Eq, Structural)]
pub enum RunError {
    /// The data pointer would leave the tape.
    PointerOutOfRange,
    /// A byte was to be read and none was left.
    InputExhausted,
    /// A loop went on longer than it was allowed to.
    OutOfFuel,
}

impl Machine {
    /// The data pointer designates a cell.
    pub open spec fn wf(self) -> bool {
        0 <= self.ptr < self.tape.len()
    }

    /// The cell under the data pointer.
    pub open spec fn cell(self) -> u8 {
        self.tape[self.ptr]
    }

    pub open spec fn with_cell(self, v: u8) -> Machine {
        Machine { tape: self.tape.update(self.ptr, v), ..self }
    }
}

/// A fresh machine: `size` zero cells, the pointer on the first one.
pub open spec fn initial(size: nat, input: Seq<u8>) -> Machine {
    Machine { tape: Seq::new(size, |i: int| 0u8), ptr: 0, input, output: seq![] }
}

/// `v + n` on a cell: arithmetic modulo 256.
pub open spec fn wrap_add(v: u8, n: int) -> u8 {
    ((v + n) % 256) as u8
}

/// `v - n` on a cell: arithmetic modulo 256.
pub open spec fn wrap_sub(v: u8, n: int) -> u8 {
    ((v - n) % 256) as u8
}

/// The pointer moved to `p`, or the fault if `p` is off the tape.
pub open spec fn move_to(m: Machine, p: int) -> Result<Machine, RunError> {
    if 0 <= p < m.tape.len() {
        Ok(Machine { ptr: p, ..m })
    } else {
        Err(RunError::PointerOutOfRange)
    }
}

/// Writes the current cell to the output.
pub open spec fn put(m: Machine) -> Machine {
    Machine { output: m.output.push(m.cell()), ..m }
}

/// Reads one input byte into the current cell.
pub open spec fn get(m: Machine) -> Result<Machine, RunError> {
    if m.input.len() == 0 {
        Err(RunError::InputExhausted)
    } else {
        Ok(Machine { tape: m.tape.update(m.ptr, m.input[0]), input: m.input.drop_first(), ..m })
    }
}

/// What one node does. Each loop may go round at most `fuel` times, and the
/// loops inside its body one time fewer.
pub open spec fn step(i: Instruction, m: Machine, fuel: nat) -> Result<Machine, RunError>
    decreases fuel, i, 0nat,
{
    match i {
        Instruction::IncrementPtr(n) => move_to(m, m.ptr + n),
        Instruction::DecrementPtr(n) => move_to(m, m.ptr - n),
        Instruction::Increment(n) => Ok(m.with_cell(wrap_add(m.cell(), n as int))),
        Instruction::Decrement(n) => Ok(m.with_cell(wrap_sub(m.cell(), n as int))),
        Instruction::PrintData => Ok(put(m)),
        Instruction::ReadStdin => get(m),
        Instruction::Loop(body) => run_loop(body@, m, fuel),
    }
}

/// What a sequence of nodes does, in order.
pub open spec fn run_seq(p: Seq<Instruction>, m: Machine, fuel: nat) -> Result<Machine, RunError>
    decreases fuel, p, 0nat,
{
    if p.len() == 0 {
        Ok(m)
    } else {
        match run_seq(p.drop_last(), m, fuel) {
            Ok(m2) => step(p.last(), m2, fuel),
            Err(e) => Err(e),
        }
    }
}

/// A loop: its body runs while the current cell is not zero.
pub open spec fn run_loop(body: Seq<Instruction>, m: Machine, fuel: nat) -> Result<Machine, RunError>
    decreases fuel, body, 1nat,
{
    if m.cell() == 0 {
        Ok(m)
    } else if fuel == 0 {
        Err(RunError::OutOfFuel)
    } else {
        match run_seq(body, m, (fuel - 1) as nat) {
            Ok(m2) => run_loop(body, m2, (fuel - 1) as nat),
            Err(e) => Err(e),
        }
    }
}

} // verus!

use vstd::prelude::*;
use vstd::arithmetic::div_mod::{lemma_add_mod_noop_right, lemma_sub_mod_noop_right, lemma_mod_add_multiples_vanish};
use crate::ir::{Instruction, MEMORY_SIZE};
use crate::semantics::{get, initial, put, run_loop, run_seq, step, wrap_add, wrap_sub, Machine, RunError};

verus! {

broadcast use vstd::std_specs::vec::group_vec_axioms;

/// The interpreter's state: the tape, the data pointer, and byte buffers
/// standing for the input and output streams.
pub struct Environment {
    pub data: Vec<u8>,
    pub idx: usize,
    pub input: Vec<u8>,
    pub input_pos: usize,
    pub output: Vec<u8>,
}

impl Environment {
    /// The pointer is on the tape and the read position within the input.
    pub open spec fn wf(&self) -> bool {
        &&& self.idx < self.data.len()
        &&& self.input_pos <= self.input.len()
    }

    /// The machine state that this environment holds.
    pub open spec fn machine(&self) -> Machine {
        Machine {
            tape: self.data@,
            ptr: self.idx as int,
            input: self.input@.skip(self.input_pos as int),
            output: self.output@,
        }
    }

    /// A zeroed tape of `MEMORY_SIZE` cells, the pointer on the first, reading
    /// from `input`.
    pub fn new(input: Vec<u8>) -> (r: Environment)
        ensures
            r.wf(),
            r.machine() == initial(MEMORY_SIZE as nat, input@),
    {
        let data = zero_tape();
        let r = Environment { data, idx: 0, input, input_pos: 0, output: Vec::new() };
        proof {
            assert(r.input@.skip(0) =~= input@);
            assert(r.machine() =~= initial(MEMORY_SIZE as nat, input@));
        }
        r
    }
}

/// `MEMORY_SIZE` zero cells.
pub fn zero_tape() -> (r: Vec<u8>)
    ensures
        r@ == Seq::new(MEMORY_SIZE as nat, |i: int| 0u8),
{
    let mut data: Vec<u8> = Vec::new();
    let mut k: usize = 0;
    while k < MEMORY_SIZE
        invariant
            k <= MEMORY_SIZE,
            data@ == Seq::new(k as nat, |i: int| 0u8),
        decreases MEMORY_SIZE - k,
    {
        data.push(0u8);
        k += 1;
        proof {
            assert(data@ =~= Seq::new(k as nat, |i: int| 0u8));
        }
    }
    data
}

/// `(a + n) mod 256`.
fn cell_add(a: u8, n: usize) -> (r: u8)
    ensures
        r == wrap_add(a, n as int),
{
    proof {
        lemma_add_mod_noop_right(a as int, n as int, 256);
    }
    let k: u16 = (n % 256) as u16;
    let s: u16 = a as u16 + k;
    (s % 256) as u8
}

/// `(a - n) mod 256`.
fn cell_sub(a: u8, n: usize) -> (r: u8)
    ensures
        r == wrap_sub(a, n as int),
{
    let k: u16 = (n % 256) as u16;
    proof {
        lemma_sub_mod_noop_right(a as int, n as int, 256);
        lemma_mod_add_multiples_vanish(a as int - k as int, 256);
    }
    let s: u16 = a as u16 + 256 - k;
    (s % 256) as u8
}

/// Carries out one node on `env`, as `step` says.
pub fn eval(inst: &Instruction, env: &mut Environment, fuel: u64) -> (r: Result<(), RunError>)
    requires
        old(env).wf(),
    ensures
        final(env).wf(),
        r matches Ok(()) ==> step(*inst, old(env).machine(), fuel as nat) == Ok::<Machine, RunError>(final(env).machine()),
        r matches Err(e) ==> step(*inst, old(env).machine(), fuel as nat) == Err::<Machine, RunError>(e),
    decreases fuel, inst, 0nat,
{
    let ghost m = env.machine();
    match inst {
        Instruction::IncrementPtr(n) => {
            if *n < env.data.len() - env.idx {
                env.idx = env.idx + *n;
                proof { assert(env.machine() =~= Machine { ptr: m.ptr + *n, ..m }); }
                Ok(())
            } else {
                Err(RunError::PointerOutOfRange)
            }
        },
        Instruction::DecrementPtr(n) => {
            if *n <= env.idx {
                env.idx = env.idx - *n;
                proof { assert(env.machine() =~= Machine { ptr: m.ptr - *n, ..m }); }
                Ok(())
            } else {
                Err(RunError::PointerOutOfRange)
            }
        },
        Instruction::Increment(n) => {
            let v = cell_add(env.data[env.idx], *n);
            env.data.set(env.idx, v);
            proof { assert(env.machine() =~= m.with_cell(v)); }
            Ok(())
        },
        Instruction::Decrement(n) => {
            let v = cell_sub(env.data[env.idx], *n);
            env.data.set(env.idx, v);
            proof { assert(env.machine() =~= m.with_cell(v)); }
            Ok(())
        },
        Instruction::PrintData => {
            let v = env.data[env.idx];
            env.output.push(v);
            proof { assert(env.machine() =~= put(m)); }
            Ok(())
        },
        Instruction::ReadStdin => {
            if env.input_pos < env.input.len() {
                let v = env.input[env.input_pos];
                env.data.set(env.idx, v);
                env.input_pos = env.input_pos + 1;
                proof {
                    assert(env.input@.skip(env.input_pos as int) =~= m.input.drop_first());
                    assert(env.machine() =~= get(m)->Ok_0);
                }
                Ok(())
            } else {
                Err(RunError::InputExhausted)
            }
        },
        Instruction::Loop(body) => eval_loop(body, env, fuel),
    }
}

/// Runs a loop on `env`, as `run_loop` says.
fn eval_loop(body: &Vec<Instruction>, env: &mut Environment, fuel: u64) -> (r: Result<(), RunError>)
    requires
        old(env).wf(),
    ensures
        final(env).wf(),
        r matches Ok(()) ==> run_loop(body@, old(env).machine(), fuel as nat) == Ok::<Machine, RunError>(final(env).machine()),
        r matches Err(e) ==> run_loop(body@, old(env).machine(), fuel as nat) == Err::<Machine, RunError>(e),
    decreases fuel, body@, 1nat,
{
    let ghost goal = run_loop(body@, env.machine(), fuel as nat);
    let mut f: u64 = fuel;
    loop
        invariant
            env.wf(),
            f <= fuel,
            run_loop(body@, env.machine(), f as nat) == goal,
            goal == run_loop(body@, old(env).machine(), fuel as nat),
        decreases f,
    {
        let ghost mb = env.machine();
        if env.data[env.idx] == 0 {
            proof { assert(run_loop(body@, mb, f as nat) == Ok::<Machine, RunError>(mb)); }
            return Ok(());
        }
        if f == 0 {
            proof { assert(run_loop(body@, mb, f as nat) == Err::<Machine, RunError>(RunError::OutOfFuel)); }
            return Err(RunError::OutOfFuel);
        }
        f = f - 1;
        let r = run(body, env, f);
        proof {
            assert(run_loop(body@, mb, (f + 1) as nat) == (match run_seq(body@, mb, f as nat) {
                Ok(m2) => run_loop(body@, m2, f as nat),
                Err(e) => Err(e),
            }));
        }
        if let Err(e) = r {
            return Err(e);
        }
    }
}

/// Runs a sequence of nodes on `env`, as `run_seq` says. Each loop may go
/// round at most `fuel` times.
pub fn run(program: &Vec<Instruction>, env: &mut Environment, fuel: u64) -> (r: Result<(), RunError>)
    requires
        old(env).wf(),
    ensures
        final(env).wf(),
        r matches Ok(()) ==> run_seq(program@, old(env).machine(), fuel as nat) == Ok::<Machine, RunError>(final(env).machine()),
        r matches Err(e) ==> run_seq(program@, old(env).machine(), fuel as nat) == Err::<Machine, RunError>(e),
    decreases fuel, program@, 2nat,
{
    let ghost m0 = env.machine();
    let mut k: usize = 0;
    proof { assert(program@.take(0) =~= Seq::<Instruction>::empty()); }
    while k < program.len()
        invariant
            env.wf(),
            k <= program.len(),
            m0 == old(env).machine(),
            run_seq(program@.take(k as int), m0, fuel as nat) == Ok::<Machine, RunError>(env.machine()),
        decreases program.len() - k,
    {
        proof {
            assert(program@.take(k + 1).drop_last() =~= program@.take(k as int));
        }
        let ghost mk = env.machine();
        let r = eval(&program[k], env, fuel);
        proof {
            assert(program@.take(k + 1).last() == program@[k as int]);
            assert(run_seq(program@.take(k + 1), m0, fuel as nat) == step(program@[k as int], mk, fuel as nat));
        }
        k += 1;
        if let Err(e) = r {
            proof { lemma_seq_err(program@, k as int, m0, fuel as nat, e); }
            return Err(e);
        }
    }
    proof { assert(program@.take(program.len() as int) =~= program@); }
    Ok(())
}

/// A fault part way through a sequence is the fault of the whole sequence.
proof fn lemma_seq_err(p: Seq<Instruction>, k: int, m: Machine, fuel: nat, e: RunError)
    requires
        0 < k <= p.len(),
        run_seq(p.take(k), m, fuel) == Err::<Machine, RunError>(e),
    ensures
        run_seq(p, m, fuel) == Err::<Machine, RunError>(e),
    decreases p.len() - k,
{
    if k < p.len() {
        assert(p.take(k + 1).drop_last() =~= p.take(k));
        lemma_seq_err(p, k + 1, m, fuel, e);
    } else {
        assert(p.take(k) =~= p);
    }
}

} // verus!

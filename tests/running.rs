use bfc::{eval, parse, run, Environment, Instruction, RunError, MEMORY_SIZE};

fn program(s: &str) -> Vec<Instruction> {
    parse(s.chars().collect()).unwrap()
}

fn interpret(s: &str, input: &[u8], fuel: u64) -> (Result<(), RunError>, Environment) {
    let p = program(s);
    let mut env = Environment::new(input.to_vec());
    let r = run(&p, &mut env, fuel);
    (r, env)
}

#[test]
fn prints_capital_a() {
    let (r, env) = interpret("++++++++[>++++++++<-]>+.", b"", 1000);
    assert_eq!(r, Ok(()));
    assert_eq!(env.output, vec![0x41]);
}

#[test]
fn echoes_one_byte() {
    let (r, env) = interpret(",.", b"Z", 1000);
    assert_eq!(r, Ok(()));
    assert_eq!(env.output, b"Z".to_vec());
}

#[test]
fn echo_loop_stops_on_exhausted_input() {
    let (r, env) = interpret(",[.,]", b"hi", 1000);
    assert_eq!(r, Err(RunError::InputExhausted));
    assert_eq!(env.output, b"hi".to_vec());
}

#[test]
fn endless_loop_runs_out_of_fuel() {
    let (r, _) = interpret("+[]", b"", 10_000);
    assert_eq!(r, Err(RunError::OutOfFuel));
}

#[test]
fn clear_then_add_prints_three() {
    let (r, env) = interpret("[-]+++.", b"", 1000);
    assert_eq!(r, Ok(()));
    assert_eq!(env.output, vec![3]);
}

#[test]
fn clear_leaves_neighbour_alone() {
    let (r, env) = interpret("+++>+++<[-]", b"", 1000);
    assert_eq!(r, Ok(()));
    assert_eq!(env.data[0], 0);
    assert_eq!(env.data[1], 3);
    assert_eq!(env.idx, 0);
}

#[test]
fn clear_needs_as_many_rounds_as_the_cell_value() {
    let (r, _) = interpret("+++++[-]", b"", 4);
    assert_eq!(r, Err(RunError::OutOfFuel));
    let (r, env) = interpret("+++++[-]", b"", 5);
    assert_eq!(r, Ok(()));
    assert_eq!(env.data[0], 0);
}

#[test]
fn cell_arithmetic_wraps() {
    let mut env = Environment::new(vec![]);
    assert_eq!(eval(&Instruction::Decrement(1), &mut env, 0), Ok(()));
    assert_eq!(env.data[0], 255);
    assert_eq!(eval(&Instruction::Increment(258), &mut env, 0), Ok(()));
    assert_eq!(env.data[0], 1);
    assert_eq!(eval(&Instruction::Decrement(513), &mut env, 0), Ok(()));
    assert_eq!(env.data[0], 0);
}

#[test]
fn pointer_may_not_leave_the_tape() {
    let (r, _) = interpret("<", b"", 10);
    assert_eq!(r, Err(RunError::PointerOutOfRange));
    let mut env = Environment::new(vec![]);
    assert_eq!(eval(&Instruction::IncrementPtr(MEMORY_SIZE - 1), &mut env, 0), Ok(()));
    assert_eq!(env.idx, MEMORY_SIZE - 1);
    assert_eq!(eval(&Instruction::IncrementPtr(1), &mut env, 0), Err(RunError::PointerOutOfRange));
}

#[test]
fn output_interleaves_with_arithmetic() {
    let (r, env) = interpret("+.>++.<+.>.", b"", 10);
    assert_eq!(r, Ok(()));
    assert_eq!(env.output, vec![1, 2, 2, 2]);
    assert_eq!(env.idx, 1);
}

#[test]
fn fresh_environment_is_zeroed() {
    let env = Environment::new(vec![7]);
    assert_eq!(env.data.len(), MEMORY_SIZE);
    assert!(env.data.iter().all(|&c| c == 0));
    assert_eq!(env.idx, 0);
    assert_eq!(env.input_pos, 0);
    assert!(env.output.is_empty());
}

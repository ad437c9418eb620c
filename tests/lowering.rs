use bfc::{lower, parse, Instruction, Op, State, MAX_IMM, MEMORY_SIZE};

fn lowered(s: &str) -> Vec<Op> {
    lower(&parse(s.chars().collect()).unwrap())
}

#[test]
fn clear_loop_becomes_a_store_of_zero() {
    assert_eq!(lowered("[-]"), vec![Op::ZeroCell]);
    assert_eq!(lowered("+[-]."), vec![Op::AddCell(1), Op::ZeroCell, Op::Output]);
}

#[test]
fn seek_left_stays_a_loop() {
    assert_eq!(lowered("[<]"), vec![Op::Loop(vec![Op::SubPtr(1)])]);
}

#[test]
fn other_loops_lower_their_bodies() {
    assert_eq!(
        lowered(",[--.>]"),
        vec![Op::Input, Op::Loop(vec![Op::SubCell(2), Op::Output, Op::AddPtr(1)])]
    );
    assert_eq!(lowered("[--]"), vec![Op::Loop(vec![Op::SubCell(2)])]);
}

#[test]
fn cell_counts_are_taken_modulo_256() {
    let p = vec![Instruction::Increment(300), Instruction::Decrement(256)];
    assert_eq!(lower(&p), vec![Op::AddCell(44), Op::SubCell(0)]);
}

#[test]
fn long_pointer_moves_are_split() {
    let max = MAX_IMM as usize;
    let p = vec![Instruction::IncrementPtr(max + 5), Instruction::DecrementPtr(2 * max)];
    assert_eq!(
        lower(&p),
        vec![Op::AddPtr(MAX_IMM), Op::AddPtr(5), Op::SubPtr(MAX_IMM), Op::SubPtr(MAX_IMM)]
    );
    assert_eq!(lower(&vec![Instruction::IncrementPtr(max)]), vec![Op::AddPtr(MAX_IMM)]);
}

#[test]
fn empty_program_lowers_to_nothing() {
    assert_eq!(lower(&vec![]), vec![]);
}

#[test]
fn state_tape_is_zeroed() {
    let s = State::new();
    assert_eq!(s.data.len(), MEMORY_SIZE);
    assert!(s.data.iter().all(|&c| c == 0));
}

use bfc::{parse, Instruction, ParseError};

fn chars(s: &str) -> Vec<char> {
    s.chars().collect()
}

#[test]
fn coalesces_runs() {
    let p = parse(chars("+++>><<")).unwrap();
    assert_eq!(
        p,
        vec![Instruction::Increment(3), Instruction::IncrementPtr(2), Instruction::DecrementPtr(2)]
    );
}

#[test]
fn comments_are_ignored_and_do_not_split_runs() {
    let p = parse(chars("+ add + one\n+ -x-")).unwrap();
    assert_eq!(p, vec![Instruction::Increment(3), Instruction::Decrement(2)]);
}

#[test]
fn empty_source_is_empty_program() {
    assert_eq!(parse(chars("")).unwrap(), vec![]);
    assert_eq!(parse(chars("just words")).unwrap(), vec![]);
}

#[test]
fn neighbours_are_never_the_same_run() {
    let p = parse(chars("+-+>.>,<")).unwrap();
    assert_eq!(
        p,
        vec![
            Instruction::Increment(1),
            Instruction::Decrement(1),
            Instruction::Increment(1),
            Instruction::IncrementPtr(1),
            Instruction::PrintData,
            Instruction::IncrementPtr(1),
            Instruction::ReadStdin,
            Instruction::DecrementPtr(1),
        ]
    );
}

#[test]
fn loops_nest() {
    let p = parse(chars("+[>[-]<-]")).unwrap();
    assert_eq!(
        p,
        vec![
            Instruction::Increment(1),
            Instruction::Loop(vec![
                Instruction::IncrementPtr(1),
                Instruction::Loop(vec![Instruction::Decrement(1)]),
                Instruction::DecrementPtr(1),
                Instruction::Decrement(1),
            ]),
        ]
    );
}

#[test]
fn runs_do_not_merge_across_a_loop() {
    let p = parse(chars("+[]+")).unwrap();
    assert_eq!(
        p,
        vec![Instruction::Increment(1), Instruction::Loop(vec![]), Instruction::Increment(1)]
    );
}

#[test]
fn unmatched_close_bracket_reports_its_position() {
    assert_eq!(parse(chars("]")), Err(ParseError::UnmatchedCloseBracket(0)));
    assert_eq!(parse(chars("a+]b")), Err(ParseError::UnmatchedCloseBracket(2)));
    assert_eq!(parse(chars("[]]][")), Err(ParseError::UnmatchedCloseBracket(2)));
}

#[test]
fn unmatched_open_bracket_reports_the_outermost_open() {
    assert_eq!(parse(chars("[[]")), Err(ParseError::UnmatchedOpenBracket(0)));
    assert_eq!(parse(chars("[]x[")), Err(ParseError::UnmatchedOpenBracket(3)));
    assert_eq!(parse(chars("+[[+]")), Err(ParseError::UnmatchedOpenBracket(1)));
}

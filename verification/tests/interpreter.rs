use brainfuck::InputSource;
use brainfuck::OutputSink;
use brainfuck::ParseError;
use brainfuck::Program;
use brainfuck::State;

const FUEL: u64 = 1 << 40;

fn run(src: &str, input: &[u8]) -> (State, Vec<u8>) {
    let program = Program::parse(src.as_bytes()).unwrap();
    let mut reader = InputSource::new(input.to_vec());
    let mut writer = OutputSink::new();
    let mut state = State::new();
    let done = state.execute(&program, &mut reader, &mut writer, FUEL);
    assert!(done);
    (state, writer.into_vec())
}

#[test]
fn lib_test_cat_a() {
    let (_, output) = run(" <,.", b"A");
    assert_eq!("A", std::str::from_utf8(&output).unwrap());
}

#[test]
fn main_test_cat_a() {
    let (_, output) = run(" <,.", b"A");
    assert_eq!("A", std::str::from_utf8(&output).unwrap());
}

#[test]
fn test_empty() {
    let (_, output) = run("", b"");
    assert_eq!("", std::str::from_utf8(&output).unwrap());
}

#[test]
fn lib_test_a() {
    let (_, output) = run("++++++++[>++++++++<-]>+.", b"");
    assert_eq!("A", std::str::from_utf8(&output).unwrap());
}

#[test]
fn main_test_a() {
    let (_, output) = run("++++++++[>++++++++<-]>+.", b"");
    assert_eq!("A", std::str::from_utf8(&output).unwrap());
}

#[test]
fn lib_test_hello_world() {
    let (_, output) = run("+[-[<<[+[--->]-[<<<]]]>>>-]>-.---.>..>.<<<<-.<+.>>>>>.>.<<.<-.", b"");
    assert_eq!("hello world", std::str::from_utf8(&output).unwrap());
}

#[test]
fn main_test_hello_world() {
    let (_, output) = run("+[-[<<[+[--->]-[<<<]]]>>>-]>-.---.>..>.<<<<-.<+.>>>>>.>.<<.<-.", b"");
    assert_eq!("hello world", std::str::from_utf8(&output).unwrap());
}

#[test]
fn test_missing_bracket() {
    let program: Result<Program, ParseError> = Program::parse("[".as_bytes());
    assert_eq!(Err(ParseError::MissingClosingBracket(1)), program);
}

#[test]
fn test_missing_bracket_depth_three() {
    let program: Result<Program, ParseError> = Program::parse("[[[".as_bytes());
    assert_eq!(Err(ParseError::MissingClosingBracket(3)), program);
}

#[test]
fn test_empty_program_leaves_fresh_tape() {
    let (state, output) = run("", b"");
    assert!(output.is_empty());
    assert_eq!(state.tape_len(), 1);
    assert_eq!(state.cursor(), 0);
    assert_eq!(state.cell(), 0);
}

#[test]
fn test_comment_only_program_leaves_fresh_tape() {
    let (state, output) = run("no operators at all? {such text is a comment}", b"xyz");
    assert!(output.is_empty());
    assert_eq!(state.tape_len(), 1);
    assert_eq!(state.cursor(), 0);
    assert_eq!(state.cell(), 0);
}

#[test]
fn test_wraparound_add_from_255() {
    let src = format!("{}.", "+".repeat(256));
    let (_, output) = run(&src, b"");
    assert_eq!(output, vec![0]);
}

#[test]
fn test_wraparound_sub_from_zero() {
    let (_, output) = run("-.", b"");
    assert_eq!(output, vec![255]);
}

#[test]
fn test_fold_longer_than_one_count() {
    // 300 folds into tokens of 255 and 45; the sum still lands on 300 mod 256.
    let src = format!("{}.", "+".repeat(300));
    let (_, output) = run(&src, b"");
    assert_eq!(output, vec![44]);
}

#[test]
fn test_move_right_then_left_returns_cursor() {
    let (state, output) = run("+>>><<<.", b"");
    assert_eq!(output, vec![1]);
    assert_eq!(state.cursor(), 0);
}

#[test]
fn test_move_left_materializes_low_cell() {
    let (state, _) = run("<", b"");
    assert_eq!(state.cursor(), 0);
    assert_eq!(state.tape_len(), 2);
    assert_eq!(state.cell(), 0);
}

#[test]
fn test_unmatched_close_truncates() {
    // A closing bracket with no opener ends the parse: the rest is dropped.
    let (_, output) = run("+.]+.", b"");
    assert_eq!(output, vec![1]);
}

#[test]
fn test_input_exhaustion_zero_fills() {
    let (_, output) = run(",.,.", b"A");
    assert_eq!(output, vec![65, 0]);
}

#[test]
fn test_fuel_runs_out_on_endless_loop() {
    let program = Program::parse("+[]".as_bytes()).unwrap();
    let mut reader = InputSource::new(Vec::new());
    let mut writer = OutputSink::new();
    let mut state = State::new();
    let done = state.execute(&program, &mut reader, &mut writer, 10);
    assert!(!done);
}

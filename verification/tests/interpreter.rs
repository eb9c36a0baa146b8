use brainfuck::executor::BrainFuckExecutor;
use brainfuck::lexer::lex;
use brainfuck::lexer::Commands;
use brainfuck::structurer::BracketMismatch;
use brainfuck::structurer::ProgramNode;
use brainfuck::structurer::TokenSequence;

const FUEL: u64 = 1_000_000;

fn run_source(src: &[u8], input: Vec<u8>) -> Result<BrainFuckExecutor, BracketMismatch> {
    let cmds = lex(src);
    let program = TokenSequence::structure(&cmds)?;
    let mut exec = BrainFuckExecutor::new(input);
    let ok = exec.run(&program, FUEL);
    assert!(ok, "run did not finish within the fuel bound");
    Ok(exec)
}

#[test]
fn lex_maps_the_eight_command_bytes() {
    let cmds = lex(b"<>+-.,[]");
    assert_eq!(
        cmds,
        vec![
            Commands::PTR_LEFT,
            Commands::PRT_RIGHT,
            Commands::INCR,
            Commands::DECR,
            Commands::OUTP,
            Commands::INPT,
            Commands::IF_ZERO,
            Commands::JMP_NZERO,
        ]
    );
}

#[test]
fn lex_skips_comment_bytes() {
    let cmds = lex(b"a + b [ c ] d\n,.");
    assert_eq!(
        cmds,
        vec![
            Commands::INCR,
            Commands::IF_ZERO,
            Commands::JMP_NZERO,
            Commands::INPT,
            Commands::OUTP,
        ]
    );
    assert_eq!(lex(b""), vec![]);
    assert_eq!(lex(b"hello world"), vec![]);
}

#[test]
fn command_bytes_round_trip() {
    for b in 0u8..=255u8 {
        match Commands::try_from_byte(b) {
            Some(c) => assert_eq!(c.as_byte(), b),
            None => assert!(!b"<>+-.,[]".contains(&b)),
        }
    }
}

#[test]
fn not_block_is_false_exactly_on_brackets() {
    assert!(Commands::INCR.not_block());
    assert!(Commands::DECR.not_block());
    assert!(Commands::PTR_LEFT.not_block());
    assert!(Commands::PRT_RIGHT.not_block());
    assert!(Commands::OUTP.not_block());
    assert!(Commands::INPT.not_block());
    assert!(!Commands::IF_ZERO.not_block());
    assert!(!Commands::JMP_NZERO.not_block());
}

#[test]
fn new_and_with_capacity_start_empty() {
    assert_eq!(TokenSequence::new().tokens.len(), 0);
    assert_eq!(TokenSequence::with_capacity(64).tokens.len(), 0);
}

#[test]
fn structuring_builds_nested_loop_blocks() {
    let cmds = lex(b"+[>[-]<]");
    let seq = TokenSequence::new();
    let nodes = seq.divide_cmd_slice(&cmds).unwrap();
    assert_eq!(
        nodes,
        vec![
            ProgramNode::Leaf(Commands::INCR),
            ProgramNode::Loop(vec![
                ProgramNode::Leaf(Commands::PRT_RIGHT),
                ProgramNode::Loop(vec![ProgramNode::Leaf(Commands::DECR)]),
                ProgramNode::Leaf(Commands::PTR_LEFT),
            ]),
        ]
    );
}

#[test]
fn structuring_an_empty_sequence_succeeds() {
    let nodes = TokenSequence::new().divide_cmd_slice(&[]).unwrap();
    assert_eq!(nodes, vec![]);
}

#[test]
fn unmatched_close_is_reported_at_its_position() {
    let cmds = lex(b"]");
    let r = TokenSequence::structure(&cmds);
    assert_eq!(r.err(), Some(BracketMismatch::UnexpectedClose(0)));

    let cmds = lex(b"++]..");
    let r = TokenSequence::structure(&cmds);
    assert_eq!(r.err(), Some(BracketMismatch::UnexpectedClose(2)));

    let cmds = lex(b"[+]]-");
    let r = TokenSequence::structure(&cmds);
    assert_eq!(r.err(), Some(BracketMismatch::UnexpectedClose(3)));
}

#[test]
fn unmatched_open_is_reported_at_its_position() {
    let cmds = lex(b"[");
    let r = TokenSequence::structure(&cmds);
    assert_eq!(r.err(), Some(BracketMismatch::UnclosedOpen(0)));

    let cmds = lex(b"+[+[");
    let r = TokenSequence::structure(&cmds);
    assert_eq!(r.err(), Some(BracketMismatch::UnclosedOpen(1)));

    let cmds = lex(b"[][");
    let r = TokenSequence::structure(&cmds);
    assert_eq!(r.err(), Some(BracketMismatch::UnclosedOpen(2)));
}

#[test]
fn three_increments_output_three() {
    let exec = run_source(b"+++.", vec![]).unwrap();
    assert_eq!(exec.output, vec![3]);
}

#[test]
fn clear_loop_ends_with_zero_cell_and_no_output() {
    let exec = run_source(b"+++[-]", vec![]).unwrap();
    assert_eq!(exec.output, vec![]);
    assert_eq!(exec.cells[0], 0);
}

#[test]
fn input_byte_is_echoed() {
    let exec = run_source(b",.", vec![65]).unwrap();
    assert_eq!(exec.output, vec![65]);
}

#[test]
fn exhausted_input_leaves_the_cell_unchanged() {
    let exec = run_source(b",.,.", vec![9]).unwrap();
    assert_eq!(exec.output, vec![9, 9]);
}

#[test]
fn cell_increment_wraps_after_two_hundred_fifty_six_steps() {
    let mut src = vec![b'+'; 256];
    src.push(b'.');
    let exec = run_source(&src, vec![]).unwrap();
    assert_eq!(exec.output, vec![0]);
}

#[test]
fn cell_decrement_from_zero_wraps_to_top_value() {
    let exec = run_source(b"-.", vec![]).unwrap();
    assert_eq!(exec.output, vec![255]);
}

#[test]
fn pointer_wraps_left_from_zero_and_right_from_top() {
    let exec = run_source(b"<", vec![]).unwrap();
    assert_eq!(exec.ptr, 255);

    let src = vec![b'>'; 256];
    let exec = run_source(&src, vec![]).unwrap();
    assert_eq!(exec.ptr, 0);

    let exec = run_source(b"<-.", vec![]).unwrap();
    assert_eq!(exec.ptr, 255);
    assert_eq!(exec.output, vec![255]);
}

#[test]
fn loop_with_zero_cell_runs_zero_times() {
    let exec = run_source(b"[.]", vec![]).unwrap();
    assert_eq!(exec.output, vec![]);
    let exec = run_source(b"[+++.]>.", vec![]).unwrap();
    assert_eq!(exec.output, vec![0]);
}

#[test]
fn moving_data_between_cells() {
    // Move cell 0's value to cell 1, then print cell 1.
    let exec = run_source(b"+++[->+<]>.", vec![]).unwrap();
    assert_eq!(exec.output, vec![3]);
    assert_eq!(exec.cells[0], 0);
}

#[test]
fn endless_loop_exhausts_the_fuel_bound() {
    let cmds = lex(b"+[]");
    let program = TokenSequence::structure(&cmds).unwrap();
    let mut exec = BrainFuckExecutor::new(vec![]);
    let ok = exec.run(&program, 1000);
    assert!(!ok);
}

#[test]
fn fresh_executor_starts_zeroed() {
    let exec = BrainFuckExecutor::new(vec![1, 2, 3]);
    assert_eq!(exec.ptr, 0);
    assert_eq!(exec.cells.len(), 256);
    assert!(exec.cells.iter().all(|&c| c == 0));
    assert_eq!(exec.input, vec![1, 2, 3]);
    assert_eq!(exec.in_pos, 0);
    assert_eq!(exec.output, vec![]);
}

use emoji_tape::command::Command;
use emoji_tape::machine::{find_pool, Machine};
use emoji_tape::parser::{Parser, ParserError};
use emoji_tape::semantics::{MachineError, TAPE_LEN};

const LEFT: &str = "\u{2764}\u{fe0f}";
const RIGHT: &str = "\u{1f496}";
const ADD: &str = "\u{1f449}\u{1f448}";
const SUB: &str = "\u{1f97a}";
const LOOP: &str = "\u{1fac2}";
const POOL: &str = "\u{2728}";

fn parsed(source: &str) -> Result<Vec<Command>, ParserError> {
    Parser::new(source).collect()
}

fn spelled(program: &[Command]) -> String {
    let mut text = String::new();
    for command in program {
        text.push_str(match command {
            Command::Left => LEFT,
            Command::Right => RIGHT,
            Command::Add => ADD,
            Command::Sub => SUB,
            Command::Input => ",",
            Command::Output => ".",
            Command::Loop => LOOP,
            Command::Pool => POOL,
        });
    }
    text
}

fn is_subsequence(a: &str, b: &str) -> bool {
    let mut rest = b.chars();
    a.chars().all(|c| rest.any(|d| d == c))
}

fn machine_on(source: &str, input: &[u8]) -> (Machine, Result<(), MachineError>) {
    let program = parsed(source).expect("the source is a program");
    let mut machine = Machine::new(input.to_vec(), Vec::new());
    let result = machine.run(&program);
    (machine, result)
}

#[test]
fn every_lexeme_gives_its_command() {
    let source = format!("{LEFT}{RIGHT}{ADD}{SUB},.{LOOP}{POOL}");
    assert_eq!(
        parsed(&source),
        Ok(vec![
            Command::Left,
            Command::Right,
            Command::Add,
            Command::Sub,
            Command::Input,
            Command::Output,
            Command::Loop,
            Command::Pool,
        ])
    );
}

#[test]
fn heart_moves_down_and_sparkling_heart_moves_up() {
    let (machine, result) = machine_on(RIGHT, b"");
    assert_eq!(result, Ok(()));
    assert_eq!(machine.pointer(), 1);
    let (machine, result) = machine_on(&format!("{RIGHT}{RIGHT}{LEFT}"), b"");
    assert_eq!(result, Ok(()));
    assert_eq!(machine.pointer(), 1);
}

#[test]
fn spelling_of_the_program_is_a_subsequence_of_the_source() {
    let source = format!("say {ADD} and\n{LEFT}then, {LOOP}x{SUB}y{POOL} \u{fe0f}stop.");
    let program = parsed(&source).unwrap();
    assert_eq!(
        program,
        vec![
            Command::Add,
            Command::Left,
            Command::Input,
            Command::Loop,
            Command::Sub,
            Command::Pool,
            Command::Output,
        ]
    );
    assert!(is_subsequence(&spelled(&program), &source));
    assert!(!is_subsequence(&format!("{}{ADD}{ADD}", spelled(&program)), &source));
}

#[test]
fn ignored_code_points_change_nothing() {
    let bare = format!("{ADD}{LOOP}{SUB}{POOL}{LEFT}.");
    let padded = format!(" {ADD}a{LOOP}\n{SUB}\u{1f448}{POOL}\t{LEFT}\u{fe0f}.z");
    assert_eq!(parsed(&padded), parsed(&bare));
    assert_eq!(parsed(&bare).unwrap().len(), 6);
}

#[test]
fn a_code_point_between_the_two_of_a_lexeme_breaks_it() {
    assert_eq!(parsed("\u{2764} \u{fe0f}"), Err(ParserError::IncompleteHeart));
    assert_eq!(parsed("\u{1f449} \u{1f448}"), Err(ParserError::InvalidFingers));
}

#[test]
fn source_of_ignored_code_points_is_the_empty_program() {
    assert_eq!(parsed("hello, world".replace(',', "").as_str()), Ok(vec![]));
    assert_eq!(parsed("\u{fe0f}\u{1f448} \n+-<>[]"), Ok(vec![]));
}

#[test]
fn pointing_finger_at_the_end_is_invalid() {
    assert_eq!(parsed("\u{1f449}"), Err(ParserError::InvalidFingers));
    assert_eq!(parsed(".\u{1f449}"), Err(ParserError::InvalidFingers));
    assert_eq!(parsed("\u{1f449}."), Err(ParserError::InvalidFingers));
}

#[test]
fn heart_at_the_end_is_incomplete() {
    assert_eq!(parsed("\u{2764}"), Err(ParserError::IncompleteHeart));
    assert_eq!(parsed(",\u{2764}"), Err(ParserError::IncompleteHeart));
}

#[test]
fn first_error_wins() {
    assert_eq!(parsed("\u{2764}x\u{1f449}y"), Err(ParserError::IncompleteHeart));
    assert_eq!(parsed("\u{1f449}y\u{2764}x"), Err(ParserError::InvalidFingers));
}

#[test]
fn next_yields_tokens_one_by_one() {
    let source = format!("a{ADD}b.c");
    let mut parser = Parser::new(&source);
    assert_eq!(parser.next(), Some(Ok(Command::Add)));
    assert_eq!(parser.next(), Some(Ok(Command::Output)));
    assert_eq!(parser.next(), None);
    assert_eq!(parser.next(), None);
}

#[test]
fn next_consumes_the_code_point_that_did_not_fit() {
    let mut parser = Parser::new("\u{1f449},.\u{2764}..");
    assert_eq!(parser.next(), Some(Err(ParserError::InvalidFingers)));
    assert_eq!(parser.next(), Some(Ok(Command::Output)));
    assert_eq!(parser.next(), Some(Err(ParserError::IncompleteHeart)));
    assert_eq!(parser.next(), Some(Ok(Command::Output)));
    assert_eq!(parser.next(), None);
}

#[test]
fn new_machine_is_zeroed() {
    let machine = Machine::new(vec![1, 2, 3], vec![9]);
    assert_eq!(machine.tape().len(), 30_000);
    assert_eq!(TAPE_LEN, 30_000);
    assert!(machine.tape().iter().all(|cell| *cell == 0));
    assert_eq!(machine.pointer(), 0);
    assert_eq!(machine.output(), &vec![9]);
    assert_eq!(machine.fuel(), u64::MAX);
}

#[test]
fn output_goes_behind_what_the_sink_holds() {
    let mut machine = Machine::new(vec![b'x'], vec![b'>']);
    assert_eq!(machine.run(&[Command::Input, Command::Output]), Ok(()));
    assert_eq!(machine.output(), &b">x".to_vec());
}

#[test]
fn two_adds_on_255_leave_1() {
    let (machine, result) = machine_on(&format!(",{ADD}{ADD}"), &[255]);
    assert_eq!(result, Ok(()));
    assert_eq!(machine.tape()[0], 1);
}

#[test]
fn sub_on_zero_leaves_255() {
    let (machine, result) = machine_on(SUB, b"");
    assert_eq!(result, Ok(()));
    assert_eq!(machine.tape()[0], 255);
    assert!(machine.tape()[1..].iter().all(|cell| *cell == 0));
}

#[test]
fn cells_above_127_are_written_as_two_bytes() {
    let (machine, result) = machine_on(",.,.,.,.", &[200, 127, 128, 255]);
    assert_eq!(result, Ok(()));
    assert_eq!(machine.output(), &vec![0xc3, 0x88, 0x7f, 0xc2, 0x80, 0xc3, 0xbf]);
    assert_eq!(String::from_utf8(machine.output().clone()).unwrap(), "\u{c8}\u{7f}\u{80}\u{ff}");
}

#[test]
fn input_is_read_byte_by_byte() {
    let (machine, result) = machine_on(&format!(",{RIGHT},{RIGHT},"), &[7, 8, 9, 10]);
    assert_eq!(result, Ok(()));
    assert_eq!(&machine.tape()[..4], &[7, 8, 9, 0]);
    assert_eq!(machine.pointer(), 2);
}

#[test]
fn input_at_the_end_of_the_stream_fails() {
    let (machine, result) = machine_on(",.,.", &[b'a']);
    assert_eq!(result, Err(MachineError::UnexpectedEof));
    assert_eq!(machine.output(), &b"a".to_vec());
    assert_eq!(machine.tape()[0], b'a');
}

#[test]
fn lone_pool_is_unmatched() {
    let (_, result) = machine_on(POOL, b"");
    assert_eq!(result, Err(MachineError::UnmatchedPool));
}

#[test]
fn pool_behind_a_closed_block_is_unmatched() {
    let (machine, result) = machine_on(&format!("{ADD}.{LOOP}{SUB}{POOL}.{POOL}."), b"");
    assert_eq!(result, Err(MachineError::UnmatchedPool));
    assert_eq!(machine.output(), &vec![1, 0]);
}

#[test]
fn lone_loop_has_no_end() {
    let (_, result) = machine_on(LOOP, b"");
    assert_eq!(result, Err(MachineError::UnexpectedEof));
}

#[test]
fn open_block_fails_when_it_is_reached() {
    let (machine, result) = machine_on(&format!("{ADD}.{LOOP}{LOOP}{POOL}."), b"");
    assert_eq!(result, Err(MachineError::UnexpectedEof));
    assert_eq!(machine.output(), &vec![1]);
}

#[test]
fn loop_on_zero_has_no_effect() {
    let (machine, result) = machine_on(&format!("{LOOP}.{ADD},{RIGHT}{POOL}"), &[5]);
    assert_eq!(result, Ok(()));
    assert!(machine.output().is_empty());
    assert_eq!(machine.pointer(), 0);
    assert!(machine.tape().iter().all(|cell| *cell == 0));
    assert_eq!(machine.fuel(), u64::MAX);
    let mut rest = machine;
    assert_eq!(rest.run(&[Command::Input]), Ok(()));
    assert_eq!(rest.tape()[0], 5);
}

#[test]
fn loop_pool_is_a_no_op() {
    let (machine, result) = machine_on(&format!("{LOOP}{POOL}"), &[1]);
    assert_eq!(result, Ok(()));
    assert!(machine.output().is_empty());
    assert_eq!(machine.pointer(), 0);
    assert!(machine.tape().iter().all(|cell| *cell == 0));
}

#[test]
fn loop_pool_on_a_cell_that_is_not_zero_only_burns_fuel() {
    let mut machine = Machine::new(vec![3, 4], Vec::new());
    assert_eq!(machine.run(&[Command::Input]), Ok(()));
    machine.refuel(1_000);
    assert_eq!(machine.run(&[Command::Loop, Command::Pool]), Err(MachineError::OutOfFuel));
    assert_eq!(machine.fuel(), 0);
    assert_eq!(machine.tape()[0], 3);
    assert!(machine.tape()[1..].iter().all(|cell| *cell == 0));
    assert_eq!(machine.pointer(), 0);
    assert!(machine.output().is_empty());
    machine.refuel(5);
    assert_eq!(machine.run(&[Command::Input, Command::Output]), Ok(()));
    assert_eq!(machine.output(), &vec![4]);
}

#[test]
fn each_round_costs_one_unit_of_fuel() {
    let program = parsed(&format!(",{LOOP}{SUB}{POOL}")).unwrap();
    let mut machine = Machine::new(vec![10], Vec::new());
    machine.refuel(10);
    assert_eq!(machine.run(&program), Ok(()));
    assert_eq!(machine.fuel(), 0);
    assert_eq!(machine.tape()[0], 0);
    let mut machine = Machine::new(vec![10], Vec::new());
    machine.refuel(9);
    assert_eq!(machine.run(&program), Err(MachineError::OutOfFuel));
    assert_eq!(machine.tape()[0], 1);
}

#[test]
fn nested_loops_multiply() {
    let source = format!(
        ",{RIGHT},{LEFT}{LOOP}{RIGHT}{LOOP}{RIGHT}{ADD}{RIGHT}{ADD}{LEFT}{LEFT}{SUB}{POOL}\
         {RIGHT}{RIGHT}{LOOP}{LEFT}{LEFT}{ADD}{RIGHT}{RIGHT}{SUB}{POOL}{LEFT}{LEFT}{LEFT}{SUB}{POOL}\
         {RIGHT}{RIGHT}."
    );
    let (machine, result) = machine_on(&source, &[6, 7]);
    assert_eq!(result, Ok(()));
    assert_eq!(machine.output(), &vec![42]);
    assert_eq!(machine.fuel(), u64::MAX - (6 + 6 * 7 + 6 * 7));
}

#[test]
fn pointer_wraps_over_the_machine_word() {
    let (machine, result) = machine_on(LEFT, b"");
    assert_eq!(result, Ok(()));
    assert_eq!(machine.pointer(), usize::MAX);
    let (machine, result) = machine_on(&format!("{LEFT}{RIGHT}{ADD}"), b"");
    assert_eq!(result, Ok(()));
    assert_eq!(machine.pointer(), 0);
    assert_eq!(machine.tape()[0], 1);
}

#[test]
fn cell_outside_the_tape_is_an_error() {
    for source in [
        format!("{LEFT}{ADD}"),
        format!("{LEFT}{SUB}"),
        format!("{LEFT}."),
        format!("{LEFT}{LOOP}{POOL}"),
    ] {
        let (machine, result) = machine_on(&source, b"");
        assert_eq!(result, Err(MachineError::OutOfTape));
        assert!(machine.tape().iter().all(|cell| *cell == 0));
        assert!(machine.output().is_empty());
    }
}

#[test]
fn input_outside_the_tape_still_reads() {
    let mut machine = Machine::new(vec![1, 2], Vec::new());
    assert_eq!(machine.run(&[Command::Left, Command::Input]), Err(MachineError::OutOfTape));
    assert_eq!(machine.run(&[Command::Right, Command::Input]), Ok(()));
    assert_eq!(machine.tape()[0], 2);
}

#[test]
fn last_cell_is_on_the_tape() {
    let mut machine = Machine::new(Vec::new(), Vec::new());
    let mut program = vec![Command::Right; 29_999];
    program.push(Command::Add);
    assert_eq!(machine.run(&program), Ok(()));
    assert_eq!(machine.tape()[29_999], 1);
    assert_eq!(machine.run(&[Command::Right, Command::Add]), Err(MachineError::OutOfTape));
    assert_eq!(machine.pointer(), 30_000);
}

#[test]
fn step_leaves_brackets_alone() {
    let mut machine = Machine::new(vec![4], Vec::new());
    assert_eq!(machine.step(Command::Loop), Ok(()));
    assert_eq!(machine.step(Command::Pool), Ok(()));
    assert_eq!(machine.step(Command::Input), Ok(()));
    assert_eq!(machine.step(Command::Sub), Ok(()));
    assert_eq!(machine.step(Command::Output), Ok(()));
    assert_eq!(machine.step(Command::Input), Err(MachineError::UnexpectedEof));
    assert_eq!(machine.output(), &vec![3]);
    assert_eq!(machine.pointer(), 0);
}

#[test]
fn find_pool_counts_nesting() {
    let program = parsed(&format!("{LOOP}{LOOP}.{POOL}{ADD}{LOOP}{POOL}{POOL}{POOL}{LOOP}")).unwrap();
    assert_eq!(find_pool(&program, 0), Some(7));
    assert_eq!(find_pool(&program, 1), Some(3));
    assert_eq!(find_pool(&program, 5), Some(6));
    assert_eq!(find_pool(&program, 9), None);
    assert_eq!(find_pool(&program, 10), None);
    assert_eq!(find_pool(&program, usize::MAX), None);
    assert_eq!(find_pool(&[], 0), None);
}

#[test]
fn terminating_loops_end_with_fuel_to_spare() {
    let program = parsed(&format!(",{LOOP}{SUB}{RIGHT}{ADD}{ADD}{LEFT}{POOL}{RIGHT}.")).unwrap();
    for fuel in [100, 1_000, u64::MAX] {
        let mut machine = Machine::new(vec![100], Vec::new());
        machine.refuel(fuel);
        assert_eq!(machine.run(&program), Ok(()));
        assert_eq!(machine.output(), &vec![0xc3, 0x88]);
        assert_eq!(machine.fuel(), fuel - 100);
    }
}

#[test]
fn endless_loop_runs_out_of_fuel() {
    let program = parsed(&format!("{ADD}{LOOP}{RIGHT}{ADD}{LEFT}{POOL}")).unwrap();
    let mut machine = Machine::new(Vec::new(), Vec::new());
    machine.refuel(300);
    assert_eq!(machine.run(&program), Err(MachineError::OutOfFuel));
    assert_eq!(machine.tape()[1], 44);
    assert_eq!(machine.fuel(), 0);
}

#[test]
fn errors_have_their_words() {
    assert_eq!(ParserError::InvalidFingers.describe(), "missing matching \u{1f448}");
    assert_eq!(ParserError::IncompleteHeart.describe(), "incomplete \u{2764}\u{fe0f}");
    assert_eq!(MachineError::UnexpectedEof.describe(), "unexpected end of file");
    assert_eq!(MachineError::UnmatchedPool.describe(), "unmatched \u{2728}");
    assert_eq!(MachineError::OutOfTape.describe(), "pointer outside the tape");
    assert_eq!(MachineError::OutOfFuel.describe(), "out of fuel");
}

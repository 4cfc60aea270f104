use emoji_tape::command::Command;
use emoji_tape::machine::{find_loop, find_pool, Machine};
use emoji_tape::parser::Parser;
use emoji_tape::semantics::MachineError;

const LEFT: &str = "\u{2764}\u{fe0f}";
const RIGHT: &str = "\u{1f496}";
const ADD: &str = "\u{1f449}\u{1f448}";
const SUB: &str = "\u{1f97a}";
const LOOP: &str = "\u{1fac2}";
const POOL: &str = "\u{2728}";

fn commands(source: &str) -> Vec<Command> {
    Parser::new(source).collect().expect("the source is a program")
}

/// Steps through `program` until the machine rests or `limit` steps are
/// taken; the number of steps comes with the result.
fn stepped(
    machine: &mut Machine,
    program: &[Command],
    limit: usize,
) -> (Option<Result<(), MachineError>>, usize) {
    let mut at = 0;
    for taken in 0..limit {
        match machine.advance(program, at) {
            Ok(Some(next)) => at = next,
            Ok(None) => return (Some(Ok(())), taken + 1),
            Err(e) => return (Some(Err(e)), taken + 1),
        }
    }
    (None, limit)
}

#[test]
fn find_loop_is_the_inverse_of_find_pool() {
    let program = commands(&format!("{LOOP}{LOOP}.{POOL}{ADD}{LOOP}{POOL}{POOL}{POOL}{LOOP}"));
    assert_eq!(find_loop(&program, 7), Some(0));
    assert_eq!(find_loop(&program, 3), Some(1));
    assert_eq!(find_loop(&program, 6), Some(5));
    assert_eq!(find_loop(&program, 8), None);
    assert_eq!(find_loop(&program, 2), None);
    assert_eq!(find_loop(&program, 0), None);
    assert_eq!(find_loop(&program, 10), None);
    assert_eq!(find_loop(&program, usize::MAX), None);
    for open in 0..program.len() {
        if let Some(end) = find_pool(&program, open) {
            if program[open] == Command::Loop {
                assert_eq!(find_loop(&program, end), Some(open));
            }
        }
    }
}

#[test]
fn advance_takes_one_step() {
    let program = commands(&format!("{ADD}{LOOP}{SUB}{POOL}."));
    let mut machine = Machine::new(Vec::new(), Vec::new());
    assert_eq!(machine.advance(&program, 0), Ok(Some(1)));
    assert_eq!(machine.tape()[0], 1);
    assert_eq!(machine.advance(&program, 1), Ok(Some(2)));
    assert_eq!(machine.advance(&program, 2), Ok(Some(3)));
    assert_eq!(machine.tape()[0], 0);
    assert_eq!(machine.advance(&program, 3), Ok(Some(1)));
    assert_eq!(machine.advance(&program, 1), Ok(Some(4)));
    assert_eq!(machine.advance(&program, 4), Ok(Some(5)));
    assert_eq!(machine.output(), &vec![0]);
    assert_eq!(machine.advance(&program, 5), Ok(None));
    assert_eq!(machine.advance(&program, 6), Ok(None));
    assert_eq!(machine.fuel(), u64::MAX);
}

#[test]
fn advance_reports_what_run_reports() {
    let mut machine = Machine::new(Vec::new(), Vec::new());
    assert_eq!(machine.advance(&[Command::Pool], 0), Err(MachineError::UnmatchedPool));
    assert_eq!(machine.advance(&[Command::Loop], 0), Err(MachineError::UnexpectedEof));
    assert_eq!(machine.advance(&[Command::Input], 0), Err(MachineError::UnexpectedEof));
    assert_eq!(machine.advance(&[Command::Left], 0), Ok(Some(1)));
    assert_eq!(machine.advance(&[Command::Output], 0), Err(MachineError::OutOfTape));
    assert_eq!(
        machine.advance(&[Command::Loop, Command::Pool], 0),
        Err(MachineError::OutOfTape)
    );
}

#[test]
fn fed_bytes_are_read_in_order() {
    let mut machine = Machine::new(vec![1], Vec::new());
    assert_eq!(machine.unread(), 1);
    machine.feed(2);
    machine.feed(3);
    assert_eq!(machine.unread(), 3);
    assert_eq!(machine.run(&[Command::Input, Command::Output, Command::Input]), Ok(()));
    assert_eq!(machine.unread(), 1);
    assert_eq!(machine.tape()[0], 2);
    assert_eq!(machine.take_output(), vec![1]);
    assert!(machine.output().is_empty());
    assert_eq!(machine.run(&[Command::Input, Command::Output]), Ok(()));
    assert_eq!(machine.take_output(), vec![3]);
    assert_eq!(machine.unread(), 0);
}

#[test]
fn steps_and_run_come_to_the_same_end() {
    let sources = [
        String::new(),
        format!(",{LOOP}{SUB}{RIGHT}{ADD}{ADD}{LEFT}{POOL}{RIGHT}."),
        format!(",{LOOP}{RIGHT},{LOOP}.{SUB}{POOL}{LEFT}{SUB}{POOL}"),
        format!("{ADD}{LOOP}{LEFT}{ADD}{POOL}"),
        format!(",.,.,."),
        format!("{LOOP}{LOOP}{POOL}{POOL}{SUB}."),
    ];
    for source in sources {
        let program = commands(&source);
        let mut whole = Machine::new(vec![3, 2, 1], Vec::new());
        let result = whole.run(&program);
        let mut single = Machine::new(vec![3, 2, 1], Vec::new());
        let (rest, _) = stepped(&mut single, &program, 10_000);
        assert_eq!(rest, Some(result));
        assert_eq!(single.tape(), whole.tape());
        assert_eq!(single.pointer(), whole.pointer());
        assert_eq!(single.output(), whole.output());
        assert_eq!(single.unread(), whole.unread());
    }
}

#[test]
fn endless_program_neither_rests_nor_completes() {
    let program = commands(&format!("{ADD}{LOOP}{RIGHT}{ADD}{LEFT}{POOL}"));
    let mut single = Machine::new(Vec::new(), Vec::new());
    assert_eq!(stepped(&mut single, &program, 5_000), (None, 5_000));
    for fuel in [0, 1, 10, 1_000] {
        let mut whole = Machine::new(Vec::new(), Vec::new());
        whole.refuel(fuel);
        assert_eq!(whole.run(&program), Err(MachineError::OutOfFuel));
    }
}

#[test]
fn steps_outnumber_the_fuel_burnt() {
    let program = commands(&format!(",{LOOP}{SUB}{POOL}"));
    let mut whole = Machine::new(vec![9], Vec::new());
    whole.refuel(20);
    assert_eq!(whole.run(&program), Ok(()));
    assert_eq!(whole.fuel(), 11);
    let mut single = Machine::new(vec![9], Vec::new());
    assert_eq!(stepped(&mut single, &program, 1_000), (Some(Ok(())), 1 + 9 * 3 + 1 + 1));
}

//! What a program means: a mathematical model of the machine and of a run.

use crate::command::Command;
use vstd::prelude::*;
use vstd::utf8::encode_scalar;

verus! {

/// The number of cells on the tape.
pub const TAPE_LEN: usize = 30_000;

/// Why a run stopped before the end of the program.
#[derive(Debug, Clone, Copy, PartialEq, Eq, Structural)]
pub enum MachineError {
    /// The input was exhausted at an `Input`, or a `Loop` has no matching
    /// `Pool`.
    UnexpectedEof,
    /// A `Pool` that closes no `Loop` was reached.
    UnmatchedPool,
    /// A cell was needed while the pointer stood outside the tape.
    OutOfTape,
    /// The machine had used up its allowance of loop iterations.
    OutOfFuel,
}

impl MachineError {
    /// The words for this error.
    pub open spec fn wording(self) -> Seq<char> {
        match self {
            MachineError::UnexpectedEof => "unexpected end of file"@,
            MachineError::UnmatchedPool => "unmatched \u{2728}"@,
            MachineError::OutOfTape => "pointer outside the tape"@,
            MachineError::OutOfFuel => "out of fuel"@,
        }
    }

    /// The words for this error.
    pub fn describe(&self) -> (text: &'static str)
        ensures
            text@ == self.wording(),
    {
        match self {
            MachineError::UnexpectedEof => "unexpected end of file",
            MachineError::UnmatchedPool => "unmatched \u{2728}",
            MachineError::OutOfTape => "pointer outside the tape",
            MachineError::OutOfFuel => "out of fuel",
        }
    }
}

/// The machine at one moment.
pub struct State {
    /// The cells.
    pub tape: Seq<u8>,
    /// The index of the current cell; it may stand outside the tape.
    pub pointer: usize,
    /// The bytes not yet read.
    pub input: Seq<u8>,
    /// The bytes written so far.
    pub output: Seq<u8>,
    /// The number of loop iterations the machine may still begin.
    pub fuel: nat,
}

/// How a run ended: the machine as it was left, and whether the end of the
/// program was reached.
pub struct Outcome {
    /// The machine as the run left it.
    pub state: State,
    /// `Ok` at the end of the program, else the error that stopped the run.
    pub result: Result<(), MachineError>,
}

/// The run that ends in `state` without an error.
pub open spec fn done(state: State) -> Outcome {
    Outcome { state, result: Ok(()) }
}

/// The run that stops in `state` with `error`.
pub open spec fn fail(state: State, error: MachineError) -> Outcome {
    Outcome { state, result: Err(error) }
}

/// The bytes that `Output` writes for a cell holding `cell`: the UTF-8
/// encoding of the code point of the same number.
pub open spec fn written(cell: u8) -> Seq<u8> {
    encode_scalar(cell as u32)
}

impl State {
    /// The machine before its first instruction: a tape of zeros and the
    /// pointer on the first cell.
    pub open spec fn initial(input: Seq<u8>, output: Seq<u8>, fuel: nat) -> State {
        State { tape: Seq::new(TAPE_LEN as nat, |i: int| 0u8), pointer: 0, input, output, fuel }
    }

    /// The pointer stands on a cell.
    pub open spec fn on_tape(self) -> bool {
        self.pointer < self.tape.len()
    }

    /// The current cell.
    pub open spec fn cell(self) -> u8
        recommends
            self.on_tape(),
    {
        self.tape[self.pointer as int]
    }

    /// This state with `value` in the current cell.
    pub open spec fn store(self, value: u8) -> State
        recommends
            self.on_tape(),
    {
        State { tape: self.tape.update(self.pointer as int, value), ..self }
    }

    /// This state with one unit of fuel less.
    pub open spec fn burn(self) -> State
        recommends
            self.fuel > 0,
    {
        State { fuel: (self.fuel - 1) as nat, ..self }
    }

    /// The effect of one instruction other than `Loop` and `Pool`, which
    /// have none of their own.
    pub open spec fn step(self, command: Command) -> Outcome {
        match command {
            Command::Left => done(
                State {
                    pointer: if self.pointer == 0 {
                        usize::MAX
                    } else {
                        (self.pointer - 1) as usize
                    },
                    ..self
                },
            ),
            Command::Right => done(
                State {
                    pointer: if self.pointer == usize::MAX {
                        0
                    } else {
                        (self.pointer + 1) as usize
                    },
                    ..self
                },
            ),
            Command::Add => if self.on_tape() {
                done(self.store(((self.cell() + 1) % 256) as u8))
            } else {
                fail(self, MachineError::OutOfTape)
            },
            Command::Sub => if self.on_tape() {
                done(self.store(((self.cell() + 255) % 256) as u8))
            } else {
                fail(self, MachineError::OutOfTape)
            },
            Command::Input => if self.input.len() == 0 {
                fail(self, MachineError::UnexpectedEof)
            } else {
                let read = State { input: self.input.skip(1), ..self };
                if read.on_tape() {
                    done(read.store(self.input[0]))
                } else {
                    fail(read, MachineError::OutOfTape)
                }
            },
            Command::Output => if self.on_tape() {
                done(State { output: self.output + written(self.cell()), ..self })
            } else {
                fail(self, MachineError::OutOfTape)
            },
            Command::Loop | Command::Pool => done(self),
        }
    }
}

/// The position of the first `Pool` at or behind `at` that closes more
/// blocks than were opened since `at`, `level` of them being open there.
pub open spec fn seek(program: Seq<Command>, at: int, level: nat) -> Option<int>
    decreases program.len() - at,
{
    if at < 0 || at >= program.len() {
        None
    } else if program[at] == Command::Loop {
        seek(program, at + 1, level + 1)
    } else if program[at] == Command::Pool {
        if level <= 1 {
            Some(at)
        } else {
            seek(program, at + 1, (level - 1) as nat)
        }
    } else {
        seek(program, at + 1, level)
    }
}

/// The position of the `Pool` that closes the block opened at `open`.
pub open spec fn matching_pool(program: Seq<Command>, open: int) -> Option<int> {
    seek(program, open + 1, 1)
}

/// What `seek` finds is a `Pool` at or behind the place it started from.
pub proof fn lemma_seek_finds_pool(program: Seq<Command>, at: int, level: nat)
    requires
        0 <= at,
    ensures
        seek(program, at, level) matches Some(end) ==> at <= end < program.len() && program[end]
            == Command::Pool,
    decreases program.len() - at,
{
    if at < program.len() {
        if program[at] == Command::Loop {
            lemma_seek_finds_pool(program, at + 1, level + 1);
        } else if program[at] == Command::Pool {
            if level > 1 {
                lemma_seek_finds_pool(program, at + 1, (level - 1) as nat);
            }
        } else {
            lemma_seek_finds_pool(program, at + 1, level);
        }
    }
}

/// The run of `program` from position `at` on, begun in `state`.
///
/// A `Loop` is resolved when it is reached: without a matching `Pool` the
/// run fails there, whatever the cell holds. With one, the block between
/// them runs as a program of its own for as long as the current cell is
/// not zero, each round at the price of one unit of fuel, and the run goes
/// on behind the `Pool`. A `Pool` met in any other way closes nothing.
///
/// A round never returns fuel; the test for it only shows that the
/// definition is well founded.
pub open spec fn run_from(program: Seq<Command>, at: int, state: State) -> Outcome
    decreases state.fuel, program.len() - at,
{
    if at < 0 || at >= program.len() {
        done(state)
    } else if program[at] == Command::Pool {
        fail(state, MachineError::UnmatchedPool)
    } else if program[at] == Command::Loop {
        match matching_pool(program, at) {
            None => fail(state, MachineError::UnexpectedEof),
            Some(end) => {
                if !state.on_tape() {
                    fail(state, MachineError::OutOfTape)
                } else if state.cell() == 0 {
                    proof {
                        lemma_seek_finds_pool(program, at + 1, 1);
                    }
                    run_from(program, end + 1, state)
                } else if state.fuel == 0 {
                    fail(state, MachineError::OutOfFuel)
                } else {
                    let round = run_from(program.subrange(at + 1, end), 0, state.burn());
                    if round.result is Ok && round.state.fuel < state.fuel {
                        run_from(program, at, round.state)
                    } else {
                        round
                    }
                }
            },
        }
    } else {
        let next = state.step(program[at]);
        if next.result is Ok {
            run_from(program, at + 1, next.state)
        } else {
            next
        }
    }
}

/// No run leaves the machine with more fuel than it began with.
pub proof fn lemma_fuel_never_grows(program: Seq<Command>, at: int, state: State)
    ensures
        run_from(program, at, state).state.fuel <= state.fuel,
    decreases state.fuel, program.len() - at,
{
    if 0 <= at < program.len() && program[at] != Command::Pool {
        if program[at] == Command::Loop {
            if let Some(end) = matching_pool(program, at) {
                lemma_seek_finds_pool(program, at + 1, 1);
                if state.on_tape() {
                    if state.cell() == 0 {
                        lemma_fuel_never_grows(program, end + 1, state);
                    } else if state.fuel > 0 {
                        let round = run_from(program.subrange(at + 1, end), 0, state.burn());
                        lemma_fuel_never_grows(program.subrange(at + 1, end), 0, state.burn());
                        if round.result is Ok {
                            lemma_fuel_never_grows(program, at, round.state);
                        }
                    }
                }
            }
        } else {
            let next = state.step(program[at]);
            if next.result is Ok {
                lemma_fuel_never_grows(program, at + 1, next.state);
            }
        }
    }
}

/// The run of the whole of `program`, begun in `state`.
pub open spec fn run(program: Seq<Command>, state: State) -> Outcome {
    run_from(program, 0, state)
}

} // verus!

//! What holds of every run.

use crate::command::Command;
use crate::parser::{parse, ParserError};
use crate::semantics::{
    done, lemma_seek_finds_pool, matching_pool, run, run_from, seek, MachineError, Outcome, State,
};
use vstd::prelude::*;

verus! {

/// The empty text is the empty program, and the empty program ends at
/// once and changes nothing.
pub proof fn lemma_empty_program(state: State)
    ensures
        parse(Seq::empty()) == Ok::<Seq<Command>, ParserError>(Seq::empty()),
        run(Seq::empty(), state) == done(state),
{
}

/// Two `Add`s on a cell that holds 255 leave 1 in it.
pub proof fn lemma_add_wraps(state: State)
    requires
        state.on_tape(),
        state.cell() == 255,
    ensures
        run(seq![Command::Add, Command::Add], state) == done(state.store(1)),
{
    let program = seq![Command::Add, Command::Add];
    let once = state.store(0);
    assert(state.step(Command::Add) == done(once));
    assert(once.step(Command::Add).state.tape =~= state.store(1).tape);
    assert(run_from(program, 2, once.step(Command::Add).state) == done(state.store(1)));
    assert(run_from(program, 1, once) == done(state.store(1)));
}

/// A `Loop` reached while the current cell holds zero has no effect: the
/// run is the run from behind its `Pool`.
pub proof fn lemma_loop_on_zero_is_skipped(program: Seq<Command>, at: int, state: State)
    requires
        0 <= at < program.len(),
        program[at] == Command::Loop,
        matching_pool(program, at) is Some,
        state.on_tape(),
        state.cell() == 0,
    ensures
        run_from(program, at, state) == run_from(program, matching_pool(program, at)->0 + 1, state),
{
}

/// Whatever the tape holds, the program `Loop Pool` changes neither the
/// tape nor the pointer, reads nothing and writes nothing. It ends well
/// where the current cell holds zero; where it does not, the block is
/// repeated until the fuel is gone.
pub proof fn lemma_loop_pool_changes_nothing(state: State)
    ensures
        run(seq![Command::Loop, Command::Pool], state) == (Outcome {
            state: State {
                fuel: if state.on_tape() && state.cell() != 0 {
                    0
                } else {
                    state.fuel
                },
                ..state
            },
            result: if !state.on_tape() {
                Err(MachineError::OutOfTape)
            } else if state.cell() == 0 {
                Ok(())
            } else {
                Err(MachineError::OutOfFuel)
            },
        }),
    decreases state.fuel,
{
    let program = seq![Command::Loop, Command::Pool];
    assert(seek(program, 1, 1) == Some(1int));
    if state.on_tape() {
        if state.cell() == 0 {
            assert(run_from(program, 2, state) == done(state));
        } else if state.fuel > 0 {
            assert(program.subrange(1, 1) =~= Seq::<Command>::empty());
            assert(run_from(program.subrange(1, 1), 0, state.burn()) == done(state.burn()));
            lemma_loop_pool_changes_nothing(state.burn());
        }
    }
}

/// A run neither lengthens nor shortens the tape, and every cell holds a
/// number from 0 to 255 when it ends.
pub proof fn lemma_tape_is_kept(program: Seq<Command>, at: int, state: State)
    ensures
        run_from(program, at, state).state.tape.len() == state.tape.len(),
        forall|i: int|
            0 <= i < state.tape.len() ==> 0 <= #[trigger] run_from(program, at, state).state.tape[i]
                <= 255,
    decreases state.fuel, program.len() - at,
{
    if 0 <= at < program.len() && program[at] != Command::Pool {
        if program[at] == Command::Loop {
            if let Some(end) = matching_pool(program, at) {
                lemma_seek_finds_pool(program, at + 1, 1);
                if state.on_tape() {
                    if state.cell() == 0 {
                        lemma_tape_is_kept(program, end + 1, state);
                    } else if state.fuel > 0 {
                        let body = program.subrange(at + 1, end);
                        let round = run_from(body, 0, state.burn());
                        lemma_tape_is_kept(body, 0, state.burn());
                        if round.result is Ok && round.state.fuel < state.fuel {
                            lemma_tape_is_kept(program, at, round.state);
                        }
                    }
                }
            }
        } else {
            let next = state.step(program[at]);
            if next.result is Ok {
                lemma_tape_is_kept(program, at + 1, next.state);
            }
        }
    }
}

} // verus!

//! The machine as it is usually built: one position in the program that
//! moves on by one instruction at a time and jumps between matching
//! brackets. A run with enough fuel and this machine come to the same end.

use crate::command::Command;
use crate::semantics::{
    lemma_fuel_never_grows, matching_pool, run, run_from, seek, MachineError, Outcome, State,
};
use vstd::prelude::*;

verus! {

/// What an instruction adds to the number of open blocks.
pub open spec fn weight(command: Command) -> int {
    match command {
        Command::Loop => 1,
        Command::Pool => -1,
        _ => 0,
    }
}

/// The number of blocks opened and not closed by the first `n`
/// instructions of `program`.
pub open spec fn depth(program: Seq<Command>, n: int) -> int
    decreases n,
{
    if n <= 0 {
        0
    } else {
        depth(program, n - 1) + weight(program[n - 1])
    }
}

/// Every `Pool` closes a block and every block is closed.
pub open spec fn balanced(program: Seq<Command>) -> bool {
    &&& depth(program, program.len() as int) == 0
    &&& forall|n: int| 0 <= n <= program.len() ==> #[trigger] depth(program, n) >= 0
}

/// The `Pool` at `end` closes the block that the `Loop` at `open` opens:
/// what stands between them is balanced.
pub open spec fn encloses(program: Seq<Command>, open: int, end: int) -> bool {
    &&& 0 <= open < end < program.len()
    &&& program[open] == Command::Loop
    &&& program[end] == Command::Pool
    &&& depth(program, end) == depth(program, open + 1)
    &&& forall|k: int|
        open < k <= end ==> #[trigger] depth(program, k) >= depth(program, open + 1)
}

/// The position of the `Loop` whose block the `Pool` at `end` closes.
pub open spec fn matching_loop(program: Seq<Command>, end: int) -> Option<int> {
    if exists|open: int| encloses(program, open, end) {
        Some(choose|open: int| encloses(program, open, end))
    } else {
        None
    }
}

/// What `seek` finds, said by depths: the first place at which the level
/// would fall to zero.
pub proof fn lemma_seek_by_depth(program: Seq<Command>, at: int, level: nat)
    requires
        0 <= at <= program.len(),
        level >= 1,
    ensures
        match seek(program, at, level) {
            Some(end) => {
                &&& at <= end < program.len()
                &&& program[end] == Command::Pool
                &&& depth(program, end) - depth(program, at) + level == 1
                &&& forall|k: int|
                    at <= k <= end ==> #[trigger] depth(program, k) - depth(program, at) + level >= 1
            },
            None => forall|k: int|
                at <= k <= program.len() ==> #[trigger] depth(program, k) - depth(program, at) + level
                    >= 1,
        },
    decreases program.len() - at,
{
    if at < program.len() {
        if program[at] == Command::Loop {
            lemma_seek_by_depth(program, at + 1, level + 1);
        } else if program[at] == Command::Pool {
            if level > 1 {
                lemma_seek_by_depth(program, at + 1, (level - 1) as nat);
            }
        } else {
            lemma_seek_by_depth(program, at + 1, level);
        }
    }
}

/// A `Loop` and the `Pool` that `matching_pool` finds for it enclose a
/// balanced block.
pub proof fn lemma_matching_pool_encloses(program: Seq<Command>, open: int)
    requires
        0 <= open < program.len(),
        program[open] == Command::Loop,
    ensures
        matching_pool(program, open) matches Some(end) ==> encloses(program, open, end),
        forall|end: int| encloses(program, open, end) ==> matching_pool(program, open) == Some(end),
{
    lemma_seek_by_depth(program, open + 1, 1);
    assert forall|end: int| encloses(program, open, end) implies matching_pool(program, open)
        == Some(end) by {
        assert(depth(program, end + 1) == depth(program, end) - 1);
        match matching_pool(program, open) {
            Some(found) => {
                assert(depth(program, found + 1) == depth(program, found) - 1);
                if found < end {
                    assert(depth(program, found + 1) >= depth(program, open + 1));
                } else if end < found {
                    assert(depth(program, end + 1) - depth(program, open + 1) + 1 >= 1);
                }
            },
            None => {
                assert(depth(program, end + 1) - depth(program, open + 1) + 1 >= 1);
            },
        }
    }
}

/// No `Pool` closes the blocks of two `Loop`s.
pub proof fn lemma_one_loop_per_pool(program: Seq<Command>, first: int, second: int, end: int)
    requires
        encloses(program, first, end),
        encloses(program, second, end),
    ensures
        first == second,
{
    if first < second {
        assert(depth(program, second) >= depth(program, first + 1));
        assert(depth(program, second + 1) == depth(program, second) + 1);
    } else if second < first {
        assert(depth(program, first) >= depth(program, second + 1));
        assert(depth(program, first + 1) == depth(program, first) + 1);
    }
}

/// The `Loop` that `matching_loop` finds for a `Pool` is the one whose
/// `matching_pool` it is.
pub proof fn lemma_matching_loop_inverts(program: Seq<Command>, open: int, end: int)
    requires
        encloses(program, open, end),
    ensures
        matching_loop(program, end) == Some(open),
{
    let found = choose|open: int| encloses(program, open, end);
    lemma_one_loop_per_pool(program, found, open, end);
}

/// The step-by-step machine at one moment.
pub struct Config {
    /// The position of the instruction to carry out next.
    pub at: int,
    /// Tape, pointer, input and output. The fuel plays no part.
    pub state: State,
    /// How the machine came to rest, once it has.
    pub halted: Option<Result<(), MachineError>>,
}

/// `state` with `fuel` for its fuel.
pub open spec fn fuelled(state: State, fuel: nat) -> State {
    State { fuel, ..state }
}

/// The step-by-step machine before its first step.
pub open spec fn start(state: State) -> Config {
    Config { at: 0, state: fuelled(state, 0), halted: None }
}

/// One step. A `Loop` goes on behind its `Pool` where the current cell
/// holds zero and into its block where it does not; a `Pool` goes back to
/// its `Loop`. A machine at rest stays as it is.
pub open spec fn advance(program: Seq<Command>, c: Config) -> Config {
    if c.halted is Some {
        c
    } else if c.at < 0 || c.at >= program.len() {
        Config { halted: Some(Ok(())), ..c }
    } else if program[c.at] == Command::Loop {
        match matching_pool(program, c.at) {
            None => Config { halted: Some(Err(MachineError::UnexpectedEof)), ..c },
            Some(end) => if !c.state.on_tape() {
                Config { halted: Some(Err(MachineError::OutOfTape)), ..c }
            } else if c.state.cell() == 0 {
                Config { at: end + 1, ..c }
            } else {
                Config { at: c.at + 1, ..c }
            },
        }
    } else if program[c.at] == Command::Pool {
        match matching_loop(program, c.at) {
            None => Config { halted: Some(Err(MachineError::UnmatchedPool)), ..c },
            Some(open) => Config { at: open, ..c },
        }
    } else {
        let next = c.state.step(program[c.at]);
        match next.result {
            Ok(_) => Config { at: c.at + 1, state: next.state, ..c },
            Err(e) => Config { state: next.state, halted: Some(Err(e)), ..c },
        }
    }
}

/// `n` steps.
pub open spec fn advance_by(program: Seq<Command>, c: Config, n: nat) -> Config
    decreases n,
{
    if n == 0 {
        c
    } else {
        advance_by(program, advance(program, c), (n - 1) as nat)
    }
}

/// `m` steps and then `n` more are `m + n` steps.
pub proof fn lemma_advance_by_sum(program: Seq<Command>, c: Config, m: nat, n: nat)
    ensures
        advance_by(program, c, m + n) == advance_by(program, advance_by(program, c, m), n),
    decreases m,
{
    if m > 0 {
        lemma_advance_by_sum(program, advance(program, c), (m - 1) as nat, n);
    }
}

/// A machine at rest stays at rest, as it came to it.
pub proof fn lemma_rest_is_kept(program: Seq<Command>, c: Config, n: nat)
    requires
        c.halted is Some,
    ensures
        advance_by(program, c, n) == c,
    decreases n,
{
    if n > 0 {
        lemma_rest_is_kept(program, c, (n - 1) as nat);
    }
}

/// The depths of a part of a program are those of the whole, counted from
/// where the part begins.
pub proof fn lemma_depth_of_part(program: Seq<Command>, lo: int, hi: int, n: int)
    requires
        0 <= lo <= hi <= program.len(),
        0 <= n <= hi - lo,
    ensures
        depth(program.subrange(lo, hi), n) == depth(program, lo + n) - depth(program, lo),
    decreases n,
{
    if n > 0 {
        lemma_depth_of_part(program, lo, hi, n - 1);
    }
}

/// What `seek` finds in a part of a program, it finds in the whole.
pub proof fn lemma_seek_in_part(program: Seq<Command>, lo: int, hi: int, at: int, level: nat)
    requires
        0 <= lo <= hi <= program.len(),
        0 <= at,
    ensures
        seek(program.subrange(lo, hi), at, level) matches Some(end) ==> seek(
            program,
            lo + at,
            level,
        ) == Some(lo + end),
    decreases hi - lo - at,
{
    let part = program.subrange(lo, hi);
    if at < part.len() {
        if part[at] == Command::Loop {
            lemma_seek_in_part(program, lo, hi, at + 1, level + 1);
        } else if part[at] == Command::Pool {
            if level > 1 {
                lemma_seek_in_part(program, lo, hi, at + 1, (level - 1) as nat);
            }
        } else {
            lemma_seek_in_part(program, lo, hi, at + 1, level);
        }
    }
}

/// The step-by-step machine in `c` stands where the run that ended in `o`
/// left off: with the same tape, pointer, input and output, at rest with
/// the run's error if it met one, and else at `hi` or, where the fuel gave
/// out, still under way.
pub open spec fn agrees(o: Outcome, c: Config, hi: int) -> bool {
    &&& c.state == fuelled(o.state, 0)
    &&& match o.result {
        Ok(_) => c.halted is None && c.at == hi,
        Err(MachineError::OutOfFuel) => c.halted is None && o.state.fuel == 0,
        Err(e) => c.halted == Some(Err::<(), MachineError>(e)),
    }
}

/// The step-by-step machine follows every run of a balanced part of a
/// program, and takes at least one step for each unit of fuel that the
/// run burns. The result is the number of steps it takes.
pub proof fn lemma_steps_follow_run(
    program: Seq<Command>,
    lo: int,
    hi: int,
    at: int,
    state: State,
) -> (n: nat)
    requires
        0 <= lo <= hi <= program.len(),
        0 <= at <= hi - lo,
        balanced(program.subrange(lo, hi)),
        depth(program.subrange(lo, hi), at) == 0,
    ensures
        n >= state.fuel - run_from(program.subrange(lo, hi), at, state).state.fuel,
        agrees(
            run_from(program.subrange(lo, hi), at, state),
            advance_by(
                program,
                Config { at: lo + at, state: fuelled(state, 0), halted: None },
                n,
            ),
            hi,
        ),
    decreases state.fuel, hi - lo - at,
{
    let part = program.subrange(lo, hi);
    let c = Config { at: lo + at, state: fuelled(state, 0), halted: None };
    if at >= part.len() {
        0
    } else {
        assert(part[at] == program[lo + at]);
        assert(depth(part, at + 1) == depth(part, at) + weight(part[at]));
        let c1 = advance(program, c);
        assert(advance_by(program, c, 1) == c1) by {
            assert(advance_by(program, c1, 0) == c1);
        }
        if part[at] == Command::Pool {
            0
        } else if part[at] == Command::Loop {
            lemma_seek_by_depth(part, at + 1, 1);
            match matching_pool(part, at) {
                None => {
                    assert(depth(part, part.len() as int) - depth(part, at + 1) + 1 >= 1);
                    0
                },
                Some(end) => {
                    lemma_seek_in_part(program, lo, hi, at + 1, 1);
                    assert(matching_pool(program, lo + at) == Some(lo + end));
                    if !state.on_tape() {
                        1
                    } else if state.cell() == 0 {
                        assert(depth(part, end + 1) == depth(part, end) + weight(part[end]));
                        let n1 = lemma_steps_follow_run(program, lo, hi, end + 1, state);
                        lemma_advance_by_sum(program, c, 1, n1);
                        n1 + 1
                    } else if state.fuel == 0 {
                        0
                    } else {
                        let body = part.subrange(at + 1, end);
                        assert(body =~= program.subrange(lo + at + 1, lo + end));
                        assert forall|k: int| 0 <= k <= body.len() implies #[trigger] depth(
                            body,
                            k,
                        ) >= 0 by {
                            lemma_depth_of_part(part, at + 1, end, k);
                            assert(depth(part, at + 1 + k) - depth(part, at + 1) + 1 >= 1);
                        }
                        lemma_depth_of_part(part, at + 1, end, end - at - 1);
                        let round = run_from(body, 0, state.burn());
                        let n1 = lemma_steps_follow_run(
                            program,
                            lo + at + 1,
                            lo + end,
                            0,
                            state.burn(),
                        );
                        lemma_fuel_never_grows(body, 0, state.burn());
                        assert(fuelled(state.burn(), 0) == fuelled(state, 0));
                        let c2 = advance_by(program, c1, n1);
                        lemma_advance_by_sum(program, c, 1, n1);
                        if round.result is Ok {
                            lemma_matching_pool_encloses(program, lo + at);
                            lemma_matching_loop_inverts(program, lo + at, lo + end);
                            let c3 = advance(program, c2);
                            assert(advance_by(program, c2, 1) == c3) by {
                                assert(advance_by(program, c3, 0) == c3);
                            }
                            let n2 = lemma_steps_follow_run(program, lo, hi, at, round.state);
                            lemma_advance_by_sum(program, c, 1 + n1, 1);
                            lemma_advance_by_sum(program, c, 1 + n1 + 1, n2);
                            n1 + n2 + 2
                        } else {
                            n1 + 1
                        }
                    }
                },
            }
        } else {
            let next = state.step(part[at]);
            assert(fuelled(state, 0).step(part[at]).state == fuelled(next.state, 0));
            assert(fuelled(state, 0).step(part[at]).result == next.result);
            if next.result is Ok {
                let n1 = lemma_steps_follow_run(program, lo, hi, at + 1, next.state);
                lemma_advance_by_sum(program, c, 1, n1);
                n1 + 1
            } else {
                1
            }
        }
    }
}

/// With some amount of fuel the run of `program` from `state` comes to an
/// end of its own: to the end of the program, or to an error other than
/// the want of fuel.
pub open spec fn completes(program: Seq<Command>, state: State) -> bool {
    exists|fuel: nat|
        run(program, #[trigger] fuelled(state, fuel)).result != Err::<(), MachineError>(
            MachineError::OutOfFuel,
        )
}

/// The step-by-step machine comes to rest on `program` from `state`.
pub open spec fn halts(program: Seq<Command>, state: State) -> bool {
    exists|n: nat| (#[trigger] advance_by(program, start(state), n)).halted is Some
}

/// Where a run of a balanced program does not end for want of fuel, the
/// step-by-step machine comes to rest with the same result and the same
/// tape, pointer, input and output. The result is the number of steps it
/// takes.
pub proof fn lemma_steps_end_as_run(program: Seq<Command>, state: State) -> (n: nat)
    requires
        balanced(program),
        run(program, state).result != Err::<(), MachineError>(MachineError::OutOfFuel),
    ensures
        advance_by(program, start(state), n).halted == Some(run(program, state).result),
        advance_by(program, start(state), n).state == fuelled(run(program, state).state, 0),
{
    let len = program.len() as int;
    assert(program.subrange(0, len) =~= program);
    let taken = lemma_steps_follow_run(program, 0, len, 0, state);
    let c = advance_by(program, start(state), taken);
    if run(program, state).result is Ok {
        assert(advance_by(program, c, 1) == advance(program, c)) by {
            assert(advance_by(program, advance(program, c), 0) == advance(program, c));
        }
        lemma_advance_by_sum(program, start(state), taken, 1);
        assert(run(program, state).result->Ok_0 == ());
        taken + 1
    } else {
        taken
    }
}

/// A balanced program comes to an end of its own with enough fuel exactly
/// where the step-by-step machine comes to rest on it: the price of a
/// round cuts a run short that would never end, and no other.
pub proof fn lemma_completes_iff_halts(program: Seq<Command>, state: State)
    requires
        balanced(program),
    ensures
        completes(program, state) <==> halts(program, state),
{
    let len = program.len() as int;
    assert(program.subrange(0, len) =~= program);
    if completes(program, state) {
        let fuel = choose|fuel: nat|
            run(program, #[trigger] fuelled(state, fuel)).result != Err::<(), MachineError>(
                MachineError::OutOfFuel,
            );
        let n = lemma_steps_end_as_run(program, fuelled(state, fuel));
        assert(start(fuelled(state, fuel)) == start(state));
        assert(advance_by(program, start(state), n).halted is Some);
    }
    if halts(program, state) {
        let n = choose|n: nat| (#[trigger] advance_by(program, start(state), n)).halted is Some;
        let enough = fuelled(state, n + 1);
        assert(start(enough) == start(state));
        if run(program, enough).result == Err::<(), MachineError>(MachineError::OutOfFuel) {
            let m = lemma_steps_follow_run(program, 0, len, 0, enough);
            let rest = advance_by(program, start(state), n);
            lemma_advance_by_sum(program, start(state), n, (m - n) as nat);
            lemma_rest_is_kept(program, rest, (m - n) as nat);
            assert(false);
        }
        assert(completes(program, state));
    }
}

} // verus!

//! The tape machine.

use crate::command::Command;
use crate::semantics::{
    lemma_fuel_never_grows, matching_pool, run, run_from, seek, written, MachineError, State,
    TAPE_LEN,
};
use crate::stepwise::{
    advance, depth, encloses, lemma_matching_loop_inverts, matching_loop, weight, Config,
};
use std::collections::VecDeque;
use vstd::prelude::*;
use vstd::slice::slice_subrange;

verus! {

/// A tape of bytes with a pointer on it, the input it reads from and the
/// output it has written.
pub struct Machine {
    memory: [u8; TAPE_LEN],
    pointer: usize,
    input: VecDeque<u8>,
    output: Vec<u8>,
    fuel: u64,
}

impl View for Machine {
    type V = State;

    closed spec fn view(&self) -> State {
        State {
            tape: self.memory@,
            pointer: self.pointer,
            input: self.input@,
            output: self.output@,
            fuel: self.fuel as nat,
        }
    }
}

/// The position of the `Pool` that closes the block opened at `open`, if
/// the program holds one.
pub fn find_pool(program: &[Command], open: usize) -> (end: Option<usize>)
    ensures
        match matching_pool(program@, open as int) {
            Some(e) => end == Some(e as usize) && open < e < program.len(),
            None => end is None,
        },
{
    if open >= program.len() {
        return None;
    }
    let mut at: usize = open + 1;
    let mut level: usize = 1;
    while at < program.len()
        invariant
            open < at <= program.len(),
            1 <= level <= at - open,
            seek(program@, at as int, level as nat) == matching_pool(program@, open as int),
        decreases program.len() - at,
    {
        match program[at] {
            Command::Loop => {
                level += 1;
            },
            Command::Pool => {
                if level == 1 {
                    return Some(at);
                }
                level -= 1;
            },
            _ => {},
        }
        at += 1;
    }
    None
}

/// The position of the `Loop` whose block the `Pool` at `end` closes, if
/// the program holds one.
pub fn find_loop(program: &[Command], end: usize) -> (open: Option<usize>)
    ensures
        match matching_loop(program@, end as int) {
            Some(o) => open == Some(o as usize) && o < end < program.len(),
            None => open is None,
        },
{
    if end >= program.len() {
        return None;
    }
    match program[end] {
        Command::Pool => {},
        _ => {
            return None;
        },
    }
    let mut at: usize = end;
    let mut level: usize = 1;
    while at > 0
        invariant
            at <= end < program.len(),
            program[end as int] == Command::Pool,
            1 <= level <= 1 + end - at,
            level == 1 + depth(program@, at as int) - depth(program@, end as int),
            forall|k: int|
                at <= k <= end ==> #[trigger] depth(program@, k) >= depth(program@, end as int),
            forall|o: int| at <= o < end ==> !encloses(program@, o, end as int),
        decreases at,
    {
        at -= 1;
        assert(depth(program@, at + 1) == depth(program@, at as int) + weight(program[at as int]));
        match program[at] {
            Command::Pool => {
                level += 1;
            },
            Command::Loop => {
                if level == 1 {
                    proof {
                        lemma_matching_loop_inverts(program@, at as int, end as int);
                    }
                    return Some(at);
                }
                level -= 1;
            },
            _ => {},
        }
    }
    None
}

impl Machine {
    /// A machine that reads `input` from its start and writes behind what
    /// `output` holds already. Its fuel is as large as can be.
    pub fn new(input: Vec<u8>, output: Vec<u8>) -> (machine: Machine)
        ensures
            machine@ == State::initial(input@, output@, u64::MAX as nat),
    {
        let memory = [0u8; TAPE_LEN];
        assert(memory@ =~= Seq::new(TAPE_LEN as nat, |i: int| 0u8));
        let mut unread: VecDeque<u8> = VecDeque::new();
        let mut i: usize = 0;
        while i < input.len()
            invariant
                i <= input.len(),
                unread@ == input@.take(i as int),
            decreases input.len() - i,
        {
            assert(input@.take(i as int).push(input[i as int]) =~= input@.take(i + 1));
            unread.push_back(input[i]);
            i += 1;
        }
        assert(input@.take(i as int) =~= input@);
        Machine { memory, pointer: 0, input: unread, output, fuel: u64::MAX }
    }

    /// The cells.
    pub fn tape(&self) -> (tape: &[u8; TAPE_LEN])
        ensures
            tape@ == self@.tape,
    {
        &self.memory
    }

    /// The index of the current cell.
    pub fn pointer(&self) -> (pointer: usize)
        ensures
            pointer == self@.pointer,
    {
        self.pointer
    }

    /// The bytes written so far.
    pub fn output(&self) -> (output: &Vec<u8>)
        ensures
            output@ == self@.output,
    {
        &self.output
    }

    /// The number of loop iterations that the machine may still begin.
    pub fn fuel(&self) -> (fuel: u64)
        ensures
            fuel == self@.fuel,
    {
        self.fuel
    }

    /// Sets the number of loop iterations that the machine may still begin.
    pub fn refuel(&mut self, fuel: u64)
        ensures
            final(self)@ == (State { fuel: fuel as nat, ..old(self)@ }),
    {
        self.fuel = fuel;
    }

    /// Writes the current cell: one byte below 128, two from there on.
    fn write(&mut self, cell: u8)
        ensures
            final(self)@ == (State { output: old(self)@.output + written(cell), ..old(self)@ }),
    {
        if cell < 128 {
            assert((cell as u32 & 0x7F) as u8 == cell) by (bit_vector)
                requires
                    cell < 128,
            ;
            assert(self.output@.push(cell) =~= self.output@ + written(cell));
            self.output.push(cell);
        } else {
            let high: u8 = 0xC0 | (cell >> 6);
            let low: u8 = 0x80 | (cell & 0x3F);
            assert(high == 0xC0 | ((cell as u32 >> 6) & 0x1F) as u8) by (bit_vector)
                requires
                    high == 0xC0 | (cell >> 6),
            ;
            assert(low == 0x80 | (cell as u32 & 0x3F) as u8) by (bit_vector)
                requires
                    low == 0x80 | (cell & 0x3F),
            ;
            assert(self.output@.push(high).push(low) =~= self.output@ + written(cell));
            self.output.push(high);
            self.output.push(low);
        }
    }

    /// Carries out one instruction other than `Loop` and `Pool`, which by
    /// themselves change nothing.
    pub fn step(&mut self, command: Command) -> (r: Result<(), MachineError>)
        ensures
            final(self)@ == old(self)@.step(command).state,
            r == old(self)@.step(command).result,
    {
        match command {
            Command::Left => {
                self.pointer = self.pointer.wrapping_sub(1);
                Ok(())
            },
            Command::Right => {
                self.pointer = self.pointer.wrapping_add(1);
                Ok(())
            },
            Command::Add => {
                if self.pointer >= TAPE_LEN {
                    return Err(MachineError::OutOfTape);
                }
                let value = self.memory[self.pointer].wrapping_add(1);
                self.memory[self.pointer] = value;
                Ok(())
            },
            Command::Sub => {
                if self.pointer >= TAPE_LEN {
                    return Err(MachineError::OutOfTape);
                }
                let value = self.memory[self.pointer].wrapping_sub(1);
                self.memory[self.pointer] = value;
                Ok(())
            },
            Command::Input => {
                let ghost unread = self.input@;
                let value = match self.input.pop_front() {
                    Some(value) => value,
                    None => {
                        return Err(MachineError::UnexpectedEof);
                    },
                };
                assert(self.input@ =~= unread.skip(1));
                if self.pointer >= TAPE_LEN {
                    return Err(MachineError::OutOfTape);
                }
                self.memory[self.pointer] = value;
                Ok(())
            },
            Command::Output => {
                if self.pointer >= TAPE_LEN {
                    return Err(MachineError::OutOfTape);
                }
                let cell = self.memory[self.pointer];
                self.write(cell);
                Ok(())
            },
            Command::Loop | Command::Pool => Ok(()),
        }
    }

    /// Puts `byte` behind the input that is still unread.
    pub fn feed(&mut self, byte: u8)
        ensures
            final(self)@ == (State { input: old(self)@.input.push(byte), ..old(self)@ }),
    {
        self.input.push_back(byte);
    }

    /// The number of bytes of input that are still unread.
    pub fn unread(&self) -> (n: usize)
        ensures
            n == self@.input.len(),
    {
        self.input.len()
    }

    /// Hands out what has been written and starts the output anew.
    pub fn take_output(&mut self) -> (output: Vec<u8>)
        ensures
            output@ == old(self)@.output,
            final(self)@ == (State { output: Seq::empty(), ..old(self)@ }),
    {
        let mut output = Vec::new();
        core::mem::swap(&mut output, &mut self.output);
        output
    }

    /// One step of the machine that goes through `program` instruction by
    /// instruction, taken at `at`: the position to go on from, or `None`
    /// behind the end of the program. Fuel plays no part.
    pub fn advance(&mut self, program: &[Command], at: usize) -> (next: Result<
        Option<usize>,
        MachineError,
    >)
        ensures
            ({
                let c = advance(
                    program@,
                    Config { at: at as int, state: old(self)@, halted: None },
                );
                &&& final(self)@ == c.state
                &&& next == match c.halted {
                    None => Ok::<Option<usize>, MachineError>(Some(c.at as usize)),
                    Some(Ok(_)) => Ok(None),
                    Some(Err(e)) => Err(e),
                }
                &&& c.halted is None ==> 0 <= c.at <= program.len()
            }),
    {
        if at >= program.len() {
            return Ok(None);
        }
        match program[at] {
            Command::Loop => match find_pool(program, at) {
                None => Err(MachineError::UnexpectedEof),
                Some(end) => if self.pointer >= TAPE_LEN {
                    Err(MachineError::OutOfTape)
                } else if self.memory[self.pointer] == 0 {
                    Ok(Some(end + 1))
                } else {
                    Ok(Some(at + 1))
                },
            },
            Command::Pool => match find_loop(program, at) {
                None => Err(MachineError::UnmatchedPool),
                Some(open) => Ok(Some(open)),
            },
            command => match self.step(command) {
                Ok(_) => Ok(Some(at + 1)),
                Err(e) => Err(e),
            },
        }
    }

    /// Runs `program` from its first instruction to its end, or to the
    /// first error. Each round of a block costs one unit of fuel, and a
    /// round that finds none left is an error.
    pub fn run(&mut self, program: &[Command]) -> (r: Result<(), MachineError>)
        ensures
            final(self)@ == run(program@, old(self)@).state,
            r == run(program@, old(self)@).result,
        decreases old(self)@.fuel, program.len(),
    {
        let mut at: usize = 0;
        while at < program.len()
            invariant
                at <= program.len(),
                self.fuel <= old(self).fuel,
                run_from(program@, at as int, self@) == run(program@, old(self)@),
            decreases program.len() - at,
        {
            match program[at] {
                Command::Pool => {
                    return Err(MachineError::UnmatchedPool);
                },
                Command::Loop => {
                    let end = match find_pool(program, at) {
                        Some(end) => end,
                        None => {
                            return Err(MachineError::UnexpectedEof);
                        },
                    };
                    let body = slice_subrange(program, at + 1, end);
                    loop
                        invariant
                            at < end < program.len(),
                            program[at as int] == Command::Loop,
                            matching_pool(program@, at as int) == Some(end as int),
                            body@ == program@.subrange(at + 1, end as int),
                            self.fuel <= old(self).fuel,
                            run_from(program@, at as int, self@) == run(program@, old(self)@),
                        ensures
                            run_from(program@, end + 1, self@) == run(program@, old(self)@),
                            self.fuel <= old(self).fuel,
                        decreases self.fuel,
                    {
                        if self.pointer >= TAPE_LEN {
                            return Err(MachineError::OutOfTape);
                        }
                        if self.memory[self.pointer] == 0 {
                            break ;
                        }
                        if self.fuel == 0 {
                            return Err(MachineError::OutOfFuel);
                        }
                        self.fuel -= 1;
                        proof {
                            lemma_fuel_never_grows(body@, 0, self@);
                        }
                        let round = self.run(body);
                        if round.is_err() {
                            return round;
                        }
                    }
                    at = end + 1;
                },
                command => {
                    let r = self.step(command);
                    if r.is_err() {
                        return r;
                    }
                    at += 1;
                },
            }
        }
        Ok(())
    }
}

} // verus!

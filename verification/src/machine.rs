//! One state machine of the engine, cycle by cycle.
//!
//! A state machine executes one instruction per cycle and idles for the
//! delay the instruction carries. Only `pull` can hold it up: it waits for as
//! long as the transmit queue is empty.

use vstd::prelude::*;
use crate::program::{Condition, Instruction, Operation, ProgramView, WaveformProgram, WORD_BITS, MAX_DELAY};
use crate::queue::{TransmitQueue, after_submit, after_take, front_of, QUEUE_DEPTH};

verus! {

/// The registers of one state machine.
#[derive(Clone, Copy, Debug, PartialEq, Eq, Structural)]
pub struct StateMachine {
    /// Position of the instruction that executes next.
    pub pc: u8,
    /// The bit counter.
    pub counter: u32,
    /// The test bit: the bit that left the input register last.
    pub bit: bool,
    /// The input register: the word that was pulled last.
    pub word: u32,
    /// How many bits of `word` have left the input register.
    pub consumed: u8,
    /// The level the machine drives on its pin.
    pub pin_high: bool,
    /// Whether the pin is an output.
    pub pin_output: bool,
    /// Idle cycles left before the next instruction executes.
    pub delay: u8,
    /// Whether the machine has been started.
    pub running: bool,
}

/// A state machine together with the words that wait in its transmit queue,
/// oldest first.
pub struct Lane {
    pub machine: StateMachine,
    pub pending: Seq<u32>,
}

/// Place in a word of the bit that leaves the input register once `consumed`
/// bits have left it. The sixteen padding bits of the lower half leave
/// first, the payload in the upper half follows, each half from its most
/// significant bit down.
pub open spec fn leaving_place(consumed: u8) -> u8 {
    if consumed < 16 {
        (15 - consumed) as u8
    } else {
        (47 - consumed) as u8
    }
}

impl StateMachine {
    /// The registers are in range for `program`.
    pub open spec fn wf(self, program: ProgramView) -> bool {
        &&& self.pc < program.code.len()
        &&& self.consumed <= WORD_BITS
        &&& self.delay <= MAX_DELAY
    }

    /// What the pin shows: high only while the machine drives it high.
    pub open spec fn level(self) -> bool {
        self.pin_output && self.pin_high
    }

    /// The machine executes an instruction in the coming cycle.
    pub open spec fn ready(self) -> bool {
        self.running && self.delay == 0
    }

    /// The machine executes a `pull` in the coming cycle.
    pub open spec fn pulls(self, program: ProgramView) -> bool {
        self.ready() && program.code[self.pc as int].operation == Operation::Pull
    }

    /// The bit that leaves the input register next; 0 once all have left.
    pub open spec fn next_bit(self) -> bool {
        self.consumed < WORD_BITS && (self.word >> (leaving_place(self.consumed) as u32)) & 1 == 1
    }

    /// Whether a jump on `condition` is taken.
    pub open spec fn takes(self, condition: Condition) -> bool {
        match condition {
            Condition::Always => true,
            Condition::BitClear => !self.bit,
            Condition::CounterNonZero => self.counter != 0,
        }
    }

    /// The bit counter after a jump on `condition`: `CounterNonZero` counts
    /// down, from 0 around to the largest value.
    pub open spec fn counted(self, condition: Condition) -> u32 {
        if condition == Condition::CounterNonZero {
            if self.counter == 0 {
                u32::MAX
            } else {
                (self.counter - 1) as u32
            }
        } else {
            self.counter
        }
    }

    /// How many bits have left the input register after `bits` more do.
    pub open spec fn consumed_after(self, bits: u8) -> u8 {
        if self.consumed + bits <= WORD_BITS {
            (self.consumed + bits) as u8
        } else {
            WORD_BITS
        }
    }

    /// The registers after the instruction at `pc` has executed, with `front`
    /// the oldest word of the transmit queue. A `pull` on an empty queue
    /// changes nothing.
    pub open spec fn execute(self, program: ProgramView, front: Option<u32>) -> StateMachine {
        let instruction = program.code[self.pc as int];
        let on = StateMachine {
            pc: program.successor(self.pc),
            delay: instruction.delay,
            ..self
        };
        match instruction.operation {
            Operation::Jump { condition, target } => StateMachine {
                pc: if self.takes(condition) {
                    target
                } else {
                    on.pc
                },
                counter: self.counted(condition),
                ..on
            },
            Operation::Pull => match front {
                Some(word) => StateMachine { word, consumed: 0, ..on },
                None => self,
            },
            Operation::Discard { bits } => StateMachine {
                consumed: self.consumed_after(bits),
                ..on
            },
            Operation::ShiftBit => StateMachine {
                bit: self.next_bit(),
                consumed: self.consumed_after(1),
                ..on
            },
            Operation::SetPin { high } => StateMachine { pin_high: high, ..on },
            Operation::SetDirection { output } => StateMachine { pin_output: output, ..on },
            Operation::SetCounter { value } => StateMachine { counter: value as u32, ..on },
            Operation::Nop => on,
        }
    }

    /// The registers one cycle on.
    pub open spec fn tick(self, program: ProgramView, front: Option<u32>) -> StateMachine {
        if !self.running {
            self
        } else if self.delay > 0 {
            StateMachine { delay: (self.delay - 1) as u8, ..self }
        } else {
            self.execute(program, front)
        }
    }
}

/// A lane one cycle on: the machine ticks, and a `pull` takes the oldest
/// pending word.
pub open spec fn step(program: ProgramView, lane: Lane) -> Lane {
    Lane {
        machine: lane.machine.tick(program, front_of(lane.pending)),
        pending: if lane.machine.pulls(program) {
            after_take(lane.pending)
        } else {
            lane.pending
        },
    }
}

/// A step keeps the registers in range and the queue no longer than it was,
/// and neither starts nor stops the machine.
pub proof fn lemma_step_wf(program: ProgramView, lane: Lane)
    requires
        program.wf(),
        lane.machine.wf(program),
    ensures
        step(program, lane).machine.wf(program),
        step(program, lane).machine.running == lane.machine.running,
        step(program, lane).pending.len() <= lane.pending.len(),
{
}

/// A lane `cycles` cycles on, with nothing submitted meanwhile.
pub open spec fn run(program: ProgramView, lane: Lane, cycles: nat) -> Lane
    decreases cycles,
{
    if cycles == 0 {
        lane
    } else {
        run(program, step(program, lane), (cycles - 1) as nat)
    }
}

/// What the pin of a lane shows in each of the next `cycles` cycles.
pub open spec fn wave(program: ProgramView, lane: Lane, cycles: nat) -> Seq<bool>
    decreases cycles,
{
    if cycles == 0 {
        Seq::empty()
    } else {
        let next = step(program, lane);
        seq![next.machine.level()] + wave(program, next, (cycles - 1) as nat)
    }
}

/// A queue after `word`, if there is one, was submitted to it.
pub open spec fn fed_queue(pending: Seq<u32>, word: Option<u32>) -> Seq<u32> {
    match word {
        Some(word) => after_submit(pending, QUEUE_DEPTH as nat, word),
        None => pending,
    }
}

/// A lane after a run in which `feed[t]`, if there is one, is submitted just
/// before cycle `t`.
pub open spec fn run_fed(program: ProgramView, lane: Lane, feed: Seq<Option<u32>>) -> Lane
    decreases feed.len(),
{
    if feed.len() == 0 {
        lane
    } else {
        let loaded = Lane { machine: lane.machine, pending: fed_queue(lane.pending, feed[0]) };
        run_fed(program, step(program, loaded), feed.drop_first())
    }
}

/// What the pin of a lane shows in each cycle of such a run.
pub open spec fn wave_fed(program: ProgramView, lane: Lane, feed: Seq<Option<u32>>) -> Seq<bool>
    decreases feed.len(),
{
    if feed.len() == 0 {
        Seq::empty()
    } else {
        let loaded = Lane { machine: lane.machine, pending: fed_queue(lane.pending, feed[0]) };
        let next = step(program, loaded);
        seq![next.machine.level()] + wave_fed(program, next, feed.drop_first())
    }
}

/// The registers of a machine that has not been started: it drives nothing.
pub open spec fn stopped_machine() -> StateMachine {
    StateMachine {
        pc: 0,
        counter: 0,
        bit: false,
        word: 0,
        consumed: WORD_BITS,
        pin_high: false,
        pin_output: false,
        delay: 0,
        running: false,
    }
}

/// The registers of a machine that was just started at the first instruction
/// of its program, its pin low and, if `pin_output` says so, an output.
pub open spec fn started_machine(pin_output: bool) -> StateMachine {
    StateMachine { pin_output, running: true, ..stopped_machine() }
}

impl StateMachine {
    /// A machine that has not been started.
    pub fn stopped() -> (r: StateMachine)
        ensures
            r == stopped_machine(),
    {
        StateMachine {
            pc: 0,
            counter: 0,
            bit: false,
            word: 0,
            consumed: WORD_BITS,
            pin_high: false,
            pin_output: false,
            delay: 0,
            running: false,
        }
    }

    /// A machine started at the first instruction of its program.
    pub fn started(pin_output: bool) -> (r: StateMachine)
        ensures
            r == started_machine(pin_output),
    {
        StateMachine {
            pc: 0,
            counter: 0,
            bit: false,
            word: 0,
            consumed: WORD_BITS,
            pin_high: false,
            pin_output,
            delay: 0,
            running: true,
        }
    }

    /// Tells what the pin shows.
    pub fn shows_high(&self) -> (r: bool)
        ensures
            r == self.level(),
    {
        self.pin_output && self.pin_high
    }

    /// Advances the machine by one cycle, taking a word from `queue` where a
    /// `pull` executes, and returns what the pin shows in that cycle.
    pub fn advance(&mut self, program: &WaveformProgram, queue: &mut TransmitQueue) -> (level: bool)
        requires
            old(self).wf(program@),
            old(queue).wf(),
        ensures
            (Lane { machine: *final(self), pending: final(queue)@ }) == step(
                program@,
                Lane { machine: *old(self), pending: old(queue)@ },
            ),
            level == final(self).level(),
            final(self).wf(program@),
            final(queue).wf(),
            final(queue).capacity() == old(queue).capacity(),
    {
        proof {
            use_type_invariant(program);
        }
        if !self.running {
            return self.pin_output && self.pin_high;
        }
        if self.delay > 0 {
            self.delay = self.delay - 1;
            return self.pin_output && self.pin_high;
        }
        let instruction: Instruction = program.instruction(self.pc as usize);
        let on: u8 = if self.pc == program.wrap_source() {
            program.wrap_target()
        } else {
            self.pc + 1
        };
        match instruction.operation {
            Operation::Jump { condition, target } => {
                let taken: bool = match condition {
                    Condition::Always => true,
                    Condition::BitClear => !self.bit,
                    Condition::CounterNonZero => self.counter != 0,
                };
                if condition == Condition::CounterNonZero {
                    self.counter = if self.counter == 0 {
                        u32::MAX
                    } else {
                        self.counter - 1
                    };
                }
                self.pc = if taken {
                    target
                } else {
                    on
                };
                self.delay = instruction.delay;
            },
            Operation::Pull => {
                match queue.take() {
                    Some(word) => {
                        self.word = word;
                        self.consumed = 0;
                        self.pc = on;
                        self.delay = instruction.delay;
                    },
                    None => {},
                }
            },
            Operation::Discard { bits } => {
                self.consumed = if bits <= WORD_BITS - self.consumed {
                    self.consumed + bits
                } else {
                    WORD_BITS
                };
                self.pc = on;
                self.delay = instruction.delay;
            },
            Operation::ShiftBit => {
                if self.consumed < WORD_BITS {
                    let place: u8 = if self.consumed < 16 {
                        15 - self.consumed
                    } else {
                        47 - self.consumed
                    };
                    self.bit = (self.word >> (place as u32)) & 1 == 1;
                    self.consumed = self.consumed + 1;
                } else {
                    self.bit = false;
                }
                self.pc = on;
                self.delay = instruction.delay;
            },
            Operation::SetPin { high } => {
                self.pin_high = high;
                self.pc = on;
                self.delay = instruction.delay;
            },
            Operation::SetDirection { output } => {
                self.pin_output = output;
                self.pc = on;
                self.delay = instruction.delay;
            },
            Operation::SetCounter { value } => {
                self.counter = value as u32;
                self.pc = on;
                self.delay = instruction.delay;
            },
            Operation::Nop => {
                self.pc = on;
                self.delay = instruction.delay;
            },
        }
        self.pin_output && self.pin_high
    }
}

} // verus!

//! One channel: a state machine of the engine, the pin and the settings it
//! was given, and its transmit queue.

use vstd::prelude::*;
use crate::machine::{Lane, StateMachine, started_machine, step, stopped_machine};
use crate::program::{ProgramView, WaveformProgram, WORD_BITS};
use crate::queue::{TransmitQueue, after_submit, QUEUE_DEPTH};
use crate::wave::SLOT_CYCLES;

verus! {

/// The end of the input register from which bits leave.
#[derive(Clone, Copy, Debug, PartialEq, Eq, Structural)]
pub enum ShiftDirection {
    /// The most significant bit leaves first.
    MsbFirst,
    /// The least significant bit leaves first.
    LsbFirst,
}

/// A clock divisor: the engine clock is divided by `integer + fraction / 256`.
/// The smaller the divisor, the shorter a cycle and the faster the bits.
#[derive(Clone, Copy, Debug, PartialEq, Eq, Structural)]
pub struct ClockDivisor {
    pub integer: u16,
    pub fraction: u8,
}

impl ClockDivisor {
    /// Ticks of the engine clock that one cycle of the state machine takes,
    /// in 256ths of a tick. An integer part of 0 stands for 65536.
    pub open spec fn scale(self) -> nat {
        let whole: nat = if self.integer == 0 {
            65536
        } else {
            self.integer as nat
        };
        whole * 256 + self.fraction as nat
    }

    /// Bits per second that a channel with this divisor sends on an engine
    /// clock of `clock_hz`, rounded down: one bit every `SLOT_CYCLES` cycles.
    pub open spec fn bit_rate(self, clock_hz: nat) -> nat {
        (clock_hz * 256) / (SLOT_CYCLES as nat * self.scale())
    }

    /// Computes `scale`.
    pub fn ticks_256(&self) -> (r: u32)
        ensures
            r == self.scale(),
            256 <= r <= 65536 * 256 + 255,
    {
        let whole: u32 = if self.integer == 0 {
            65536
        } else {
            self.integer as u32
        };
        whole * 256 + self.fraction as u32
    }

    /// Computes `bit_rate`.
    pub fn bit_rate_hz(&self, clock_hz: u32) -> (r: u32)
        ensures
            r == self.bit_rate(clock_hz as nat),
    {
        let scale: u64 = self.ticks_256() as u64;
        let slot: u64 = SLOT_CYCLES as u64;
        assert(slot * scale == 8 * scale);
        let ticks: u64 = slot * scale;
        let rate: u64 = (clock_hz as u64 * 256) / ticks;
        assert(rate <= clock_hz) by (nonlinear_arith)
            requires
                rate == (clock_hz * 256) as int / ticks as int,
                ticks >= 2048,
        ;
        rate as u32
    }
}

/// **The smaller the divisor, the faster the bits.** Of two divisors on one
/// engine clock the smaller gives the shorter slot and a bit rate that is no
/// lower.
pub proof fn lemma_smaller_divisor_is_faster(a: ClockDivisor, b: ClockDivisor, clock_hz: nat)
    requires
        a.scale() <= b.scale(),
    ensures
        SLOT_CYCLES * a.scale() <= SLOT_CYCLES * b.scale(),
        a.bit_rate(clock_hz) >= b.bit_rate(clock_hz),
{
    let n = (clock_hz * 256) as int;
    let x = (SLOT_CYCLES * a.scale()) as int;
    let y = (SLOT_CYCLES * b.scale()) as int;
    assert(0 < x <= y);
    vstd::arithmetic::div_mod::lemma_div_is_ordered_by_denominator(n, x, y);
}

/// The settings of one channel. They are chosen once, when the channel is
/// set up.
#[derive(Clone, Copy, Debug, PartialEq, Eq, Structural)]
pub struct ChannelConfig {
    /// The pin the channel drives.
    pub pin: u8,
    /// The clock divisor of the channel.
    pub clock_divisor: ClockDivisor,
    /// Order in which the bits of a word leave the input register.
    pub shift_direction: ShiftDirection,
    /// Number of bits that leave the input register before it counts as
    /// empty.
    pub pull_threshold: u8,
    /// Whether the input register is refilled from the queue on its own.
    pub autopull: bool,
}

/// The settings of a DShot channel on `pin` with the given clock divisor: a
/// full word per pull, the most significant bit first, refilled
/// automatically.
pub open spec fn dshot_config(pin: u8, clock_divisor: (u16, u8)) -> ChannelConfig {
    ChannelConfig {
        pin,
        clock_divisor: ClockDivisor { integer: clock_divisor.0, fraction: clock_divisor.1 },
        shift_direction: ShiftDirection::MsbFirst,
        pull_threshold: WORD_BITS,
        autopull: true,
    }
}

impl ChannelConfig {
    /// The settings of a DShot channel. The divisor is taken as it is given:
    /// which divisor makes which bit rate depends on the clock of the engine.
    pub fn dshot(pin: u8, clock_divisor: (u16, u8)) -> (r: ChannelConfig)
        ensures
            r == dshot_config(pin, clock_divisor),
    {
        ChannelConfig {
            pin,
            clock_divisor: ClockDivisor { integer: clock_divisor.0, fraction: clock_divisor.1 },
            shift_direction: ShiftDirection::MsbFirst,
            pull_threshold: WORD_BITS,
            autopull: true,
        }
    }
}

/// What a channel is: its settings, if it has any, and its lane.
pub struct ChannelView {
    pub config: Option<ChannelConfig>,
    pub lane: Lane,
}

impl ChannelView {
    /// The registers are in range for `program`, the queue is within its
    /// depth, and a channel without settings was never started.
    pub open spec fn wf(self, program: ProgramView) -> bool {
        &&& self.lane.machine.wf(program)
        &&& self.lane.pending.len() <= QUEUE_DEPTH
        &&& self.config is None ==> !self.lane.machine.running
    }

    /// The channel has no settings, was never started and holds no word: it
    /// has no pin and takes no part in anything.
    pub open spec fn unused(self) -> bool {
        &&& self.config is None
        &&& self.lane.machine == stopped_machine()
        &&& self.lane.pending.len() == 0
    }

    /// The channel has settings and its machine runs.
    pub open spec fn active(self) -> bool {
        self.config is Some && self.lane.machine.running
    }

    /// The channel after `word` was submitted to it.
    pub open spec fn submitted(self, word: u32) -> ChannelView {
        ChannelView {
            config: self.config,
            lane: Lane {
                machine: self.lane.machine,
                pending: after_submit(self.lane.pending, QUEUE_DEPTH as nat, word),
            },
        }
    }

    /// The channel one cycle on.
    pub open spec fn stepped(self, program: ProgramView) -> ChannelView {
        ChannelView { config: self.config, lane: step(program, self.lane) }
    }
}

/// A channel of an engine block.
pub struct Channel {
    config: Option<ChannelConfig>,
    machine: StateMachine,
    queue: TransmitQueue,
}

impl View for Channel {
    type V = ChannelView;

    closed spec fn view(&self) -> ChannelView {
        ChannelView {
            config: self.config,
            lane: Lane { machine: self.machine, pending: self.queue@ },
        }
    }
}

impl Channel {
    /// The queue is within its depth, which is `QUEUE_DEPTH`.
    pub closed spec fn wf(&self) -> bool {
        self.queue.wf() && self.queue.capacity() == QUEUE_DEPTH
    }

    /// A well-formed channel holds at most `QUEUE_DEPTH` words.
    pub proof fn lemma_depth(&self)
        requires
            self.wf(),
        ensures
            self@.lane.pending.len() <= QUEUE_DEPTH,
    {
        crate::queue::lemma_queue_bounded(self.queue);
    }

    /// A channel that is given no settings and is never started.
    pub fn unused(program: &WaveformProgram) -> (r: Channel)
        ensures
            r@.unused(),
            r.wf(),
            r@.wf(program@),
    {
        proof {
            use_type_invariant(program);
        }
        Channel {
            config: None,
            machine: StateMachine::stopped(),
            queue: TransmitQueue::new(QUEUE_DEPTH),
        }
    }

    /// A channel with the given settings, started at the first instruction
    /// of `program` with an empty queue. `pin_output` tells whether the pin
    /// is made an output before the start.
    pub fn start(program: &WaveformProgram, config: ChannelConfig, pin_output: bool) -> (r: Channel)
        ensures
            r@.config == Some(config),
            r@.lane.machine == started_machine(pin_output),
            r@.lane.pending.len() == 0,
            r.wf(),
            r@.wf(program@),
    {
        proof {
            use_type_invariant(program);
        }
        Channel {
            config: Some(config),
            machine: StateMachine::started(pin_output),
            queue: TransmitQueue::new(QUEUE_DEPTH),
        }
    }

    /// The settings of the channel; `None` for a channel that has none.
    pub fn config(&self) -> (r: Option<ChannelConfig>)
        ensures
            r == self@.config,
    {
        self.config
    }

    /// The registers of the state machine.
    pub fn machine(&self) -> (r: StateMachine)
        ensures
            r == self@.lane.machine,
    {
        self.machine
    }

    /// Number of words that wait in the queue.
    pub fn pending(&self) -> (r: usize)
        ensures
            r == self@.lane.pending.len(),
    {
        self.queue.len()
    }

    /// Tells what the pin shows.
    pub fn shows_high(&self) -> (r: bool)
        ensures
            r == self@.lane.machine.level(),
    {
        self.machine.shows_high()
    }

    /// Puts `word` at the back of the queue if there is room, and tells
    /// whether there was. A word that finds no room is dropped.
    pub fn submit(&mut self, word: u32) -> (accepted: bool)
        requires
            old(self).wf(),
        ensures
            accepted == (old(self)@.lane.pending.len() < QUEUE_DEPTH),
            final(self)@ == old(self)@.submitted(word),
            final(self).wf(),
    {
        self.queue.submit(word)
    }

    /// Advances the channel by one cycle and returns what its pin shows in
    /// that cycle.
    pub fn advance(&mut self, program: &WaveformProgram) -> (level: bool)
        requires
            old(self).wf(),
            old(self)@.wf(program@),
        ensures
            final(self)@ == old(self)@.stepped(program@),
            level == final(self)@.lane.machine.level(),
            final(self).wf(),
            final(self)@.wf(program@),
    {
        proof {
            crate::queue::lemma_queue_bounded(self.queue);
        }
        let level: bool = self.machine.advance(program, &mut self.queue);
        proof {
            crate::queue::lemma_queue_bounded(self.queue);
        }
        level
    }
}

} // verus!

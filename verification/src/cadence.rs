//! Frames at any cadence: whatever is submitted, and whenever, a channel
//! either waits with its pin low or is somewhere inside the frame of the
//! word it took last.
//!
//! The channel is held against a sender that knows nothing of instructions
//! and registers: it waits, takes a word, shows the waveform of its frame
//! for `FRAME_CYCLES` cycles, and waits again.

use vstd::prelude::*;
use crate::machine::{
    Lane, StateMachine, fed_queue, run, run_fed, started_machine, step, wave, wave_fed,
};
use crate::program::{ProgramView, dshot_program};
use crate::queue::{after_take, front_of};
use crate::timing::{idle_at_entry, lemma_frame, lemma_run_split, lemma_start, lemma_wave_len};
use crate::wave::{frame_wave, payload_of, FRAME_CYCLES};

verus! {

/// Where a channel stands in its work.
pub enum Phase {
    /// The machine has been started and makes its pin an output.
    Starting,
    /// The machine waits at `entry` for a word.
    Waiting,
    /// The machine took `word` `elapsed` cycles ago and is sending its frame.
    Sending { word: u32, elapsed: nat },
}

/// A sender: the phase of a channel and the words that wait in its queue.
pub struct Sender {
    pub phase: Phase,
    pub pending: Seq<u32>,
}

impl Sender {
    /// What the pin shows in the coming cycle: low while the sender starts,
    /// or waits with nothing to send; the first cycle of a frame when it
    /// waits and finds a word; the next cycle of its frame while it sends.
    pub open spec fn level(self) -> bool {
        match self.phase {
            Phase::Starting => false,
            Phase::Waiting => match front_of(self.pending) {
                Some(word) => frame_wave(payload_of(word))[0],
                None => false,
            },
            Phase::Sending { word, elapsed } => frame_wave(payload_of(word))[elapsed as int],
        }
    }

    /// The sender one cycle on. It takes the oldest word when it waits and at
    /// no other time; a frame it has begun it sends to the end.
    pub open spec fn stepped(self) -> Sender {
        match self.phase {
            Phase::Starting => Sender { phase: Phase::Waiting, pending: self.pending },
            Phase::Waiting => match front_of(self.pending) {
                Some(word) => Sender {
                    phase: Phase::Sending { word, elapsed: 1 },
                    pending: after_take(self.pending),
                },
                None => self,
            },
            Phase::Sending { word, elapsed } => Sender {
                phase: if elapsed + 1 < FRAME_CYCLES {
                    Phase::Sending { word, elapsed: elapsed + 1 }
                } else {
                    Phase::Waiting
                },
                pending: self.pending,
            },
        }
    }

    /// The sender after `word`, if there is one, was submitted to its queue.
    pub open spec fn fed(self, word: Option<u32>) -> Sender {
        Sender { phase: self.phase, pending: fed_queue(self.pending, word) }
    }

    /// The sender after a run in which `feed[t]`, if there is one, is
    /// submitted just before cycle `t`.
    pub open spec fn ran(self, feed: Seq<Option<u32>>) -> Sender
        decreases feed.len(),
    {
        if feed.len() == 0 {
            self
        } else {
            self.fed(feed[0]).stepped().ran(feed.drop_first())
        }
    }

    /// What the pin shows in each cycle of such a run.
    pub open spec fn shows(self, feed: Seq<Option<u32>>) -> Seq<bool>
        decreases feed.len(),
    {
        if feed.len() == 0 {
            Seq::empty()
        } else {
            seq![self.fed(feed[0]).level()] + self.fed(feed[0]).stepped().shows(feed.drop_first())
        }
    }
}

/// The lane from which the frame of `word` is reckoned: the registers at the
/// moment the word is taken, and the word at the front of the queue.
pub open spec fn frame_start(from: StateMachine, word: u32) -> Lane {
    Lane { machine: from, pending: seq![word, word] }
}

/// The registers `machine` are `elapsed` cycles into the frame of `word`,
/// which was taken when the registers were `from`.
pub open spec fn within_frame(
    machine: StateMachine,
    pin_setup: bool,
    from: StateMachine,
    word: u32,
    elapsed: nat,
) -> bool {
    &&& idle_at_entry(from, pin_setup)
    &&& machine == run(dshot_program(pin_setup), frame_start(from, word), elapsed).machine
}

/// The registers `machine` are somewhere in the middle of the frame of
/// `word`, `elapsed` cycles after the word was taken.
pub open spec fn sending(machine: StateMachine, pin_setup: bool, word: u32, elapsed: nat) -> bool {
    &&& 1 <= elapsed < FRAME_CYCLES
    &&& exists|from: StateMachine| #[trigger] within_frame(machine, pin_setup, from, word, elapsed)
}

/// The registers `machine` are those of a channel in `phase`.
pub open spec fn tracks(machine: StateMachine, phase: Phase, pin_setup: bool) -> bool {
    match phase {
        Phase::Starting => pin_setup && machine == started_machine(false),
        Phase::Waiting => idle_at_entry(machine, pin_setup),
        Phase::Sending { word, elapsed } => sending(machine, pin_setup, word, elapsed),
    }
}

/// Running one cycle more is running and taking one step.
pub proof fn lemma_run_one_more(program: ProgramView, lane: Lane, cycles: nat)
    ensures
        run(program, lane, cycles + 1) == step(program, run(program, lane, cycles)),
{
    lemma_run_split(program, lane, cycles, 1);
    let mid = run(program, lane, cycles);
    assert(run(program, step(program, mid), 0) == step(program, mid));
}

/// The queue of a lane never grows while nothing is submitted.
pub proof fn lemma_pending_shrinks(program: ProgramView, lane: Lane, cycles: nat)
    ensures
        run(program, lane, cycles).pending.len() <= lane.pending.len(),
    decreases cycles,
{
    if cycles > 0 {
        lemma_pending_shrinks(program, step(program, lane), (cycles - 1) as nat);
    }
}

/// Entry `t` of a wave is what the pin shows after `t + 1` cycles.
pub proof fn lemma_wave_at(program: ProgramView, lane: Lane, cycles: nat, t: int)
    requires
        0 <= t < cycles,
    ensures
        wave(program, lane, cycles)[t] == run(program, lane, (t + 1) as nat).machine.level(),
    decreases cycles,
{
    let next = step(program, lane);
    let rest = wave(program, next, (cycles - 1) as nat);
    lemma_wave_len(program, next, (cycles - 1) as nat);
    assert(wave(program, lane, cycles) == seq![next.machine.level()] + rest);
    if t == 0 {
        assert(run(program, next, 0) == next);
        assert(run(program, lane, 1) == next);
    } else {
        lemma_wave_at(program, next, (cycles - 1) as nat, t - 1);
        assert(run(program, lane, (t + 1) as nat) == run(program, next, t as nat));
        assert((seq![next.machine.level()] + rest)[t] == rest[t - 1]);
    }
}

/// In the middle of a frame the machine takes nothing from its queue: from
/// the cycle after the word is taken to the end of the frame no `pull`
/// executes.
pub proof fn lemma_no_pull_within_frame(pin_setup: bool, from: StateMachine, word: u32, elapsed: nat)
    requires
        idle_at_entry(from, pin_setup),
        1 <= elapsed < FRAME_CYCLES,
    ensures
        !run(dshot_program(pin_setup), frame_start(from, word), elapsed).machine.pulls(
            dshot_program(pin_setup),
        ),
{
    let program = dshot_program(pin_setup);
    let start = frame_start(from, word);
    let first = step(program, start);
    let now = run(program, start, elapsed);
    let rest = (FRAME_CYCLES - elapsed - 1) as nat;
    // One word is left after the first cycle, and one is left at the end.
    assert(first.pending =~= seq![word]);
    lemma_frame(pin_setup, start);
    assert(start.pending.drop_first() =~= seq![word]);
    // So one is left all the way between.
    lemma_run_split(program, start, 1, (elapsed - 1) as nat);
    assert(run(program, start, 1) == first) by {
        assert(run(program, first, 0) == first);
    }
    lemma_pending_shrinks(program, first, (elapsed - 1) as nat);
    lemma_run_one_more(program, start, elapsed);
    lemma_run_split(program, start, elapsed + 1, rest);
    lemma_pending_shrinks(program, run(program, start, elapsed + 1), rest);
    assert(now.pending.len() <= 1);
    assert(step(program, now).pending.len() >= 1);
}

/// What one cycle does to a lane, held against what it does to the sender.
pub open spec fn steps_as_sender(pin_setup: bool, lane: Lane, phase: Phase) -> bool {
    let after = step(dshot_program(pin_setup), lane);
    let sender = Sender { phase, pending: lane.pending };
    &&& tracks(after.machine, sender.stepped().phase, pin_setup)
    &&& after.machine.level() == sender.level()
    &&& after.pending == sender.stepped().pending
}

/// The first cycle of a machine whose program makes its pin an output.
proof fn lemma_step_starting(pin_setup: bool, lane: Lane)
    requires
        tracks(lane.machine, Phase::Starting, pin_setup),
    ensures
        steps_as_sender(pin_setup, lane, Phase::Starting),
{
    let program = dshot_program(pin_setup);
    let after = step(program, lane);
    lemma_start(pin_setup, lane);
    assert(run(program, after, 0) == after);
    assert(run(program, lane, 1) == after);
    let sender = Sender { phase: Phase::Starting, pending: lane.pending };
    assert(sender.stepped().phase == Phase::Waiting);
    assert(idle_at_entry(after.machine, pin_setup));
    assert(tracks(after.machine, Phase::Waiting, pin_setup));
    assert(!after.machine.level());
}

/// A cycle of a machine that waits at `entry`.
proof fn lemma_step_waiting(pin_setup: bool, lane: Lane)
    requires
        tracks(lane.machine, Phase::Waiting, pin_setup),
    ensures
        steps_as_sender(pin_setup, lane, Phase::Waiting),
{
    let program = dshot_program(pin_setup);
    let after = step(program, lane);
    match front_of(lane.pending) {
        Some(word) => {
            let start = frame_start(lane.machine, word);
            assert(run(program, step(program, start), 0) == step(program, start));
            assert(after.machine == run(program, start, 1).machine);
            lemma_frame(pin_setup, start);
            lemma_wave_at(program, start, FRAME_CYCLES as nat, 0);
            let sender = Sender { phase: Phase::Waiting, pending: lane.pending };
            let onward = Phase::Sending { word, elapsed: 1 };
            assert(sender.stepped().phase == onward);
            assert(within_frame(after.machine, pin_setup, lane.machine, word, 1));
            assert(sending(after.machine, pin_setup, word, 1));
            assert(tracks(after.machine, onward, pin_setup));
        },
        None => {
            assert(after == lane);
        },
    }
}

/// A cycle of a machine in the middle of a frame.
proof fn lemma_step_sending(pin_setup: bool, lane: Lane, word: u32, elapsed: nat)
    requires
        tracks(lane.machine, Phase::Sending { word, elapsed }, pin_setup),
    ensures
        steps_as_sender(pin_setup, lane, Phase::Sending { word, elapsed }),
{
    let program = dshot_program(pin_setup);
    let after = step(program, lane);
    assert(sending(lane.machine, pin_setup, word, elapsed));
    let from = choose|from: StateMachine|
        #[trigger] within_frame(lane.machine, pin_setup, from, word, elapsed);
    let start = frame_start(from, word);
    let now = run(program, start, elapsed);
    lemma_no_pull_within_frame(pin_setup, from, word, elapsed);
    lemma_run_one_more(program, start, elapsed);
    assert(after.machine == step(program, now).machine);
    assert(after.pending == lane.pending);
    lemma_frame(pin_setup, start);
    lemma_wave_at(program, start, FRAME_CYCLES as nat, elapsed as int);
    let sender = Sender { phase: Phase::Sending { word, elapsed }, pending: lane.pending };
    if elapsed + 1 < FRAME_CYCLES {
        let more: nat = elapsed + 1;
        let onward = Phase::Sending { word, elapsed: more };
        assert(sender.stepped().phase == onward);
        assert(within_frame(after.machine, pin_setup, from, word, more));
        assert(sending(after.machine, pin_setup, word, more));
        assert(tracks(after.machine, onward, pin_setup));
    } else {
        assert(sender.stepped().phase == Phase::Waiting);
        assert(idle_at_entry(after.machine, pin_setup));
        assert(tracks(after.machine, Phase::Waiting, pin_setup));
    }
}

/// **One cycle.** A channel in any phase, with any queue, does in one cycle
/// what the sender does: it goes to the sender's next phase, its pin shows
/// what the sender shows, and its queue loses its oldest word just when the
/// sender takes one.
pub proof fn lemma_cadence_step(pin_setup: bool, lane: Lane, phase: Phase)
    requires
        tracks(lane.machine, phase, pin_setup),
    ensures
        steps_as_sender(pin_setup, lane, phase),
{
    match phase {
        Phase::Starting => lemma_step_starting(pin_setup, lane),
        Phase::Waiting => lemma_step_waiting(pin_setup, lane),
        Phase::Sending { word, elapsed } => lemma_step_sending(pin_setup, lane, word, elapsed),
    }
}

/// **Frames at any cadence.** Whatever is submitted to a channel, and
/// whenever, its pin shows what the sender shows and its queue holds what
/// the sender's holds: the pin is low while nothing is sent, every frame
/// that begins is sent whole and unchanged, in `FRAME_CYCLES` cycles, and
/// the frames are those of the accepted words in the order of submission.
pub proof fn lemma_any_cadence(pin_setup: bool, lane: Lane, phase: Phase, feed: Seq<Option<u32>>)
    requires
        tracks(lane.machine, phase, pin_setup),
    ensures
        ({
            let program = dshot_program(pin_setup);
            let sender = Sender { phase, pending: lane.pending };
            &&& wave_fed(program, lane, feed) == sender.shows(feed)
            &&& run_fed(program, lane, feed).pending == sender.ran(feed).pending
            &&& tracks(run_fed(program, lane, feed).machine, sender.ran(feed).phase, pin_setup)
        }),
    decreases feed.len(),
{
    if feed.len() > 0 {
        let program = dshot_program(pin_setup);
        let loaded = Lane { machine: lane.machine, pending: fed_queue(lane.pending, feed[0]) };
        let sender = Sender { phase, pending: lane.pending };
        lemma_cadence_step(pin_setup, loaded, phase);
        let next = step(program, loaded);
        assert(sender.fed(feed[0]) == Sender { phase, pending: loaded.pending });
        let after = sender.fed(feed[0]).stepped();
        assert(after == Sender { phase: after.phase, pending: next.pending });
        lemma_any_cadence(pin_setup, next, after.phase, feed.drop_first());
    }
}

/// A channel that has just been set up is in its first phase: it starts
/// where the program makes the pin an output, and waits where the set-up
/// did.
pub proof fn lemma_cadence_begins(pin_setup: bool)
    ensures
        tracks(
            started_machine(!pin_setup),
            if pin_setup {
                Phase::Starting
            } else {
                Phase::Waiting
            },
            pin_setup,
        ),
{
}

} // verus!

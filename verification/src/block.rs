//! An engine block: one program in its instruction memory, and four
//! channels that run it side by side without touching one another.

use vstd::prelude::*;
use crate::channel::{Channel, ChannelView};
use crate::machine::{Lane, fed_queue, lemma_step_wf, run, run_fed, wave, wave_fed};
use crate::program::{ProgramView, WaveformProgram};
use crate::queue::QUEUE_DEPTH;
use crate::timing::lemma_stopped;
use crate::wave::steady;

verus! {

/// Number of state machines in an engine block.
pub const CHANNELS: usize = 4;

/// What an engine block is: its program and its four channels.
pub struct BlockView {
    pub program: ProgramView,
    pub channels: Seq<ChannelView>,
}

impl BlockView {
    /// The program is well formed, there are four channels, and each is in
    /// range for the program.
    pub open spec fn wf(self) -> bool {
        &&& self.program.wf()
        &&& self.channels.len() == CHANNELS
        &&& forall|i: int| 0 <= i < CHANNELS ==> (#[trigger] self.channels[i]).wf(self.program)
    }

    /// The block after `word` was submitted to channel `slot`.
    pub open spec fn submitted(self, slot: int, word: u32) -> BlockView {
        BlockView {
            program: self.program,
            channels: self.channels.update(slot, self.channels[slot].submitted(word)),
        }
    }

    /// The block one cycle on: every channel steps on its own.
    pub open spec fn stepped(self) -> BlockView {
        BlockView {
            program: self.program,
            channels: Seq::new(
                self.channels.len(),
                |i: int| self.channels[i].stepped(self.program),
            ),
        }
    }

    /// The block `cycles` cycles on, with nothing submitted meanwhile.
    pub open spec fn ran(self, cycles: nat) -> BlockView
        decreases cycles,
    {
        if cycles == 0 {
            self
        } else {
            self.stepped().ran((cycles - 1) as nat)
        }
    }

    /// What the pin of channel `slot` shows in each of the next `cycles`
    /// cycles.
    pub open spec fn pin_wave(self, slot: int, cycles: nat) -> Seq<bool>
        decreases cycles,
    {
        if cycles == 0 {
            Seq::empty()
        } else {
            seq![self.stepped().channels[slot].lane.machine.level()] + self.stepped().pin_wave(
                slot,
                (cycles - 1) as nat,
            )
        }
    }

    /// The block after `words[i]`, if there is one, was submitted to channel
    /// `i`, for each of the channels.
    pub open spec fn fed(self, words: Seq<Option<u32>>) -> BlockView {
        BlockView {
            program: self.program,
            channels: Seq::new(
                self.channels.len(),
                |i: int|
                    ChannelView {
                        config: self.channels[i].config,
                        lane: Lane {
                            machine: self.channels[i].lane.machine,
                            pending: fed_queue(self.channels[i].lane.pending, word_for(words, i)),
                        },
                    },
            ),
        }
    }

    /// The block after a run in which the words of `feed[t]` are submitted
    /// just before cycle `t`, each to its channel.
    pub open spec fn ran_fed(self, feed: Seq<Seq<Option<u32>>>) -> BlockView
        decreases feed.len(),
    {
        if feed.len() == 0 {
            self
        } else {
            self.fed(feed[0]).stepped().ran_fed(feed.drop_first())
        }
    }

    /// What the pin of channel `slot` shows in each cycle of such a run.
    pub open spec fn pin_wave_fed(self, slot: int, feed: Seq<Seq<Option<u32>>>) -> Seq<bool>
        decreases feed.len(),
    {
        if feed.len() == 0 {
            Seq::empty()
        } else {
            let next = self.fed(feed[0]).stepped();
            seq![next.channels[slot].lane.machine.level()] + next.pin_wave_fed(
                slot,
                feed.drop_first(),
            )
        }
    }

    /// What the four pins show in the coming cycle.
    pub open spec fn levels(self) -> Seq<bool> {
        Seq::new(self.channels.len(), |i: int| self.stepped().channels[i].lane.machine.level())
    }
}

/// The word of `words` that is meant for channel `slot`.
pub open spec fn word_for(words: Seq<Option<u32>>, slot: int) -> Option<u32> {
    if 0 <= slot < words.len() {
        words[slot]
    } else {
        None
    }
}

/// What a feed of a block holds for channel `slot`, cycle by cycle.
pub open spec fn feed_of(feed: Seq<Seq<Option<u32>>>, slot: int) -> Seq<Option<u32>> {
    Seq::new(feed.len(), |t: int| word_for(feed[t], slot))
}

/// The words of one cycle in which `word` goes to channel `slot` and nothing
/// to the others.
pub open spec fn only(slot: int, word: u32) -> Seq<Option<u32>> {
    Seq::new(CHANNELS as nat, |i: int| if i == slot { Some(word) } else { None })
}

/// Feeding one word to one channel is submitting it there.
pub proof fn lemma_fed_one(block: BlockView, slot: int, word: u32)
    requires
        0 <= slot < block.channels.len() <= CHANNELS,
    ensures
        block.fed(only(slot, word)) == block.submitted(slot, word),
{
    assert(block.fed(only(slot, word)).channels =~= block.submitted(slot, word).channels);
}

/// A well-formed block stays well formed as it runs.
pub proof fn lemma_ran_wf(block: BlockView, cycles: nat)
    requires
        block.wf(),
    ensures
        block.ran(cycles).wf(),
    decreases cycles,
{
    if cycles > 0 {
        let next = block.stepped();
        assert forall|i: int| 0 <= i < CHANNELS implies (#[trigger] next.channels[i]).wf(
            next.program,
        ) by {
            assert(block.channels[i].wf(block.program));
            lemma_step_wf(block.program, block.channels[i].lane);
        }
        lemma_ran_wf(next, (cycles - 1) as nat);
    }
}

/// A channel of a running block goes the way of its own lane, whatever the
/// other channels do: its state after `cycles` cycles and what its pin shows
/// meanwhile are those of the lane run alone.
pub proof fn lemma_channel_runs_alone(block: BlockView, slot: int, cycles: nat)
    requires
        0 <= slot < block.channels.len(),
    ensures
        block.ran(cycles).program == block.program,
        block.ran(cycles).channels.len() == block.channels.len(),
        block.ran(cycles).channels[slot].config == block.channels[slot].config,
        block.ran(cycles).channels[slot].lane == run(
            block.program,
            block.channels[slot].lane,
            cycles,
        ),
        block.pin_wave(slot, cycles) == wave(block.program, block.channels[slot].lane, cycles),
    decreases cycles,
{
    if cycles > 0 {
        lemma_channel_runs_alone(block.stepped(), slot, (cycles - 1) as nat);
    }
}

/// A channel of a block that is fed goes the way of its own lane fed with
/// its own words, whatever is fed to the other channels and whatever they do.
pub proof fn lemma_channel_fed_alone(block: BlockView, slot: int, feed: Seq<Seq<Option<u32>>>)
    requires
        0 <= slot < block.channels.len(),
    ensures
        block.ran_fed(feed).program == block.program,
        block.ran_fed(feed).channels.len() == block.channels.len(),
        block.ran_fed(feed).channels[slot].config == block.channels[slot].config,
        block.ran_fed(feed).channels[slot].lane == run_fed(
            block.program,
            block.channels[slot].lane,
            feed_of(feed, slot),
        ),
        block.pin_wave_fed(slot, feed) == wave_fed(
            block.program,
            block.channels[slot].lane,
            feed_of(feed, slot),
        ),
    decreases feed.len(),
{
    if feed.len() > 0 {
        let next = block.fed(feed[0]).stepped();
        lemma_channel_fed_alone(next, slot, feed.drop_first());
        assert(feed_of(feed, slot).drop_first() =~= feed_of(feed.drop_first(), slot));
    } else {
        assert(feed_of(feed, slot).len() == 0);
    }
}

/// **Channels do not interact.** Take two runs of one block that differ in
/// what is submitted to the other channels, and when, but not in what is
/// submitted to channel `slot`. The channel ends in one state in both, and
/// its pin has shown the same in every cycle.
pub proof fn lemma_channels_independent(
    block: BlockView,
    slot: int,
    one: Seq<Seq<Option<u32>>>,
    other: Seq<Seq<Option<u32>>>,
)
    requires
        0 <= slot < block.channels.len(),
        feed_of(one, slot) == feed_of(other, slot),
    ensures
        block.ran_fed(one).channels[slot] == block.ran_fed(other).channels[slot],
        block.pin_wave_fed(slot, one) == block.pin_wave_fed(slot, other),
{
    lemma_channel_fed_alone(block, slot, one);
    lemma_channel_fed_alone(block, slot, other);
}

/// **Unused channels are inert.** A channel that was given no settings has
/// no pin, never starts, takes no word and shows nothing, for as long as the
/// block runs.
pub proof fn lemma_unused_inert(block: BlockView, slot: int, cycles: nat)
    requires
        0 <= slot < block.channels.len(),
        block.channels[slot].unused(),
    ensures
        block.ran(cycles).channels[slot] == block.channels[slot],
        block.ran(cycles).channels[slot].unused(),
        block.pin_wave(slot, cycles) == steady(false, cycles),
{
    lemma_channel_runs_alone(block, slot, cycles);
    lemma_stopped(block.program, block.channels[slot].lane, cycles);
}

/// An engine block that holds one program, shared by its four channels.
pub struct EngineBlock {
    program: WaveformProgram,
    sm0: Channel,
    sm1: Channel,
    sm2: Channel,
    sm3: Channel,
}

impl View for EngineBlock {
    type V = BlockView;

    closed spec fn view(&self) -> BlockView {
        BlockView {
            program: self.program@,
            channels: seq![self.sm0@, self.sm1@, self.sm2@, self.sm3@],
        }
    }
}

impl EngineBlock {
    /// The block and its queues are in order.
    pub closed spec fn wf(&self) -> bool {
        &&& self@.wf()
        &&& self.sm0.wf()
        &&& self.sm1.wf()
        &&& self.sm2.wf()
        &&& self.sm3.wf()
    }

    /// A well-formed block is well formed as a value.
    pub proof fn lemma_wf(&self)
        requires
            self.wf(),
        ensures
            self@.wf(),
    {
    }

    /// A block that holds `program` and the four given channels.
    pub fn new(program: WaveformProgram, sm0: Channel, sm1: Channel, sm2: Channel, sm3: Channel) -> (r:
        EngineBlock)
        requires
            sm0.wf() && sm0@.wf(program@),
            sm1.wf() && sm1@.wf(program@),
            sm2.wf() && sm2@.wf(program@),
            sm3.wf() && sm3@.wf(program@),
        ensures
            r.wf(),
            r@.program == program@,
            r@.channels == seq![sm0@, sm1@, sm2@, sm3@],
    {
        proof {
            use_type_invariant(&program);
        }
        EngineBlock { program, sm0, sm1, sm2, sm3 }
    }

    /// The program of the block.
    pub fn program(&self) -> (r: &WaveformProgram)
        ensures
            r@ == self@.program,
    {
        &self.program
    }

    /// Channel `slot` of the block.
    pub fn channel(&self, slot: usize) -> (r: &Channel)
        requires
            slot < CHANNELS,
        ensures
            r@ == self@.channels[slot as int],
    {
        if slot == 0 {
            &self.sm0
        } else if slot == 1 {
            &self.sm1
        } else if slot == 2 {
            &self.sm2
        } else {
            &self.sm3
        }
    }

    /// Puts `word` at the back of the queue of channel `slot` if there is
    /// room, and tells whether there was. Nothing else changes.
    pub fn submit(&mut self, slot: usize, word: u32) -> (accepted: bool)
        requires
            old(self).wf(),
            slot < CHANNELS,
        ensures
            final(self).wf(),
            accepted == (old(self)@.channels[slot as int].lane.pending.len() < QUEUE_DEPTH),
            final(self)@ == old(self)@.submitted(slot as int, word),
    {
        let accepted: bool = if slot == 0 {
            self.sm0.submit(word)
        } else if slot == 1 {
            self.sm1.submit(word)
        } else if slot == 2 {
            self.sm2.submit(word)
        } else {
            self.sm3.submit(word)
        };
        proof {
            assert(final(self)@.channels =~= old(self)@.submitted(slot as int, word).channels);
            self.sm0.lemma_depth();
            self.sm1.lemma_depth();
            self.sm2.lemma_depth();
            self.sm3.lemma_depth();
        }
        accepted
    }

    /// Advances every channel by one cycle and returns what the four pins
    /// show in that cycle.
    pub fn advance(&mut self) -> (levels: [bool; 4])
        requires
            old(self).wf(),
        ensures
            final(self).wf(),
            final(self)@ == old(self)@.stepped(),
            levels@ == old(self)@.levels(),
    {
        let l0: bool = self.sm0.advance(&self.program);
        let l1: bool = self.sm1.advance(&self.program);
        let l2: bool = self.sm2.advance(&self.program);
        let l3: bool = self.sm3.advance(&self.program);
        let levels: [bool; 4] = [l0, l1, l2, l3];
        proof {
            assert(final(self)@.channels =~= old(self)@.stepped().channels);
            assert(levels@ =~= old(self)@.levels());
        }
        levels
    }

    /// Runs the block for `cycles` cycles and returns what the pin of
    /// channel `slot` shows in each of them.
    pub fn record(&mut self, slot: usize, cycles: usize) -> (levels: Vec<bool>)
        requires
            old(self).wf(),
            slot < CHANNELS,
        ensures
            final(self).wf(),
            final(self)@ == old(self)@.ran(cycles as nat),
            levels@ == old(self)@.pin_wave(slot as int, cycles as nat),
            levels@ == wave(
                old(self)@.program,
                old(self)@.channels[slot as int].lane,
                cycles as nat,
            ),
    {
        let mut levels: Vec<bool> = Vec::new();
        let mut done: usize = 0;
        while done < cycles
            invariant
                done <= cycles,
                slot < CHANNELS,
                self.wf(),
                self@.channels.len() == CHANNELS,
                old(self)@.ran(cycles as nat) == self@.ran((cycles - done) as nat),
                old(self)@.pin_wave(slot as int, cycles as nat) == levels@ + self@.pin_wave(
                    slot as int,
                    (cycles - done) as nat,
                ),
            decreases cycles - done,
        {
            let ghost before = self@;
            let ghost so_far = levels@;
            let now: [bool; 4] = self.advance();
            levels.push(now[slot]);
            done = done + 1;
            proof {
                assert(levels@ + self@.pin_wave(slot as int, (cycles - done) as nat) =~= so_far
                    + before.pin_wave(slot as int, (cycles - done + 1) as nat));
            }
        }
        proof {
            assert(levels@ =~= levels@ + self@.pin_wave(slot as int, 0));
            lemma_channel_runs_alone(old(self)@, slot as int, cycles as nat);
        }
        levels
    }
}

} // verus!

//! The drivers: one to four DShot channels on one engine block, all running
//! the one DShot program, each fed through its own transmit queue.

use vstd::prelude::*;
use crate::block::{
    BlockView, EngineBlock, lemma_channel_runs_alone, lemma_ran_wf, lemma_unused_inert, CHANNELS,
};
use crate::channel::{Channel, ChannelConfig, ChannelView, dshot_config};
use crate::machine::{Lane, started_machine, stopped_machine};
use crate::program::{WaveformProgram, dshot_program};
use crate::queue::QUEUE_DEPTH;
use crate::wave::{frame_word, pack};

verus! {

/// The operations every driver of `N` motors offers. Each takes one value
/// per motor, has it encoded as a DShot frame, submits the frame to the
/// motor's channel, and tells for each channel whether the frame was
/// accepted.
pub trait DshotPioTrait<const N: usize> {
    /// Sets the direction of rotation of each motor.
    fn reverse(&mut self, reverse: [bool; N]) -> [bool; N];

    /// Sets the throttle of each motor, held within the range of the
    /// protocol.
    fn throttle_clamp(&mut self, throttle: [u16; N]) -> [bool; N];

    /// Sets the throttle of every motor to zero.
    fn throttle_minimum(&mut self) -> [bool; N];
}

/// A channel that has just been set up for DShot on `pin`.
pub open spec fn fresh_channel(pin: u8, clk_div: (u16, u8), pin_setup: bool) -> ChannelView {
    ChannelView {
        config: Some(dshot_config(pin, clk_div)),
        lane: Lane { machine: started_machine(!pin_setup), pending: Seq::empty() },
    }
}

/// A channel that no motor is wired to.
pub open spec fn dummy_channel() -> ChannelView {
    ChannelView { config: None, lane: Lane { machine: stopped_machine(), pending: Seq::empty() } }
}

/// The block of a driver that has just been made for the motors on `pins`:
/// the DShot program, a fresh channel for each pin in order, and dummies in
/// the slots that are left.
pub open spec fn fresh_block(pins: Seq<u8>, clk_div: (u16, u8), pin_setup: bool) -> BlockView {
    BlockView {
        program: dshot_program(pin_setup),
        channels: Seq::new(
            CHANNELS as nat,
            |i: int|
                if i < pins.len() {
                    fresh_channel(pins[i], clk_div, pin_setup)
                } else {
                    dummy_channel()
                },
        ),
    }
}

/// What holds of the block of a driver of `n` motors at all times: it runs
/// the DShot program, its first `n` channels are active, and the others are
/// unused.
pub open spec fn drives(block: BlockView, n: int, pin_setup: bool) -> bool {
    &&& block.wf()
    &&& 1 <= n <= CHANNELS
    &&& block.program == dshot_program(pin_setup)
    &&& forall|i: int| 0 <= i < n ==> (#[trigger] block.channels[i]).active()
    &&& forall|i: int| n <= i < CHANNELS ==> (#[trigger] block.channels[i]).unused()
}

/// The block after one frame was submitted to each of the first
/// `frames.len()` channels, packed into a word.
pub open spec fn sent(block: BlockView, frames: Seq<u16>) -> BlockView {
    BlockView {
        program: block.program,
        channels: Seq::new(
            block.channels.len(),
            |i: int|
                if i < frames.len() {
                    block.channels[i].submitted(frame_word(frames[i]))
                } else {
                    block.channels[i]
                },
        ),
    }
}

/// Sending frames is feeding each channel the word of its frame.
pub proof fn lemma_sent_is_fed(block: BlockView, frames: Seq<u16>)
    ensures
        sent(block, frames) == block.fed(
            Seq::new(frames.len(), |i: int| Some(frame_word(frames[i]))),
        ),
{
    let words = Seq::new(frames.len(), |i: int| Some(frame_word(frames[i])));
    assert(sent(block, frames).channels =~= block.fed(words).channels);
}

/// Builds the DShot program that a block is to hold.
pub fn configure_pio_instance(pin_setup: bool) -> (installed: WaveformProgram)
    ensures
        installed@ == dshot_program(pin_setup),
        installed@.wf(),
{
    WaveformProgram::dshot(pin_setup)
}

/// Sets up one channel for DShot on `pin` and starts it. Where the program
/// does not make the pin an output itself, the set-up does.
pub fn setup_state_machine(installed: &WaveformProgram, clk_div: (u16, u8), pin: u8, pin_setup: bool) -> (r:
    Channel)
    ensures
        r@ == fresh_channel(pin, clk_div, pin_setup),
        r.wf(),
        r@.wf(installed@),
{
    let r = Channel::start(installed, ChannelConfig::dshot(pin, clk_div), !pin_setup);
    proof {
        assert(r@.lane.pending =~= Seq::empty());
    }
    r
}

/// Makes the channel of a slot that no motor is wired to: it gets no
/// settings and no pin, and is never started.
pub fn dummy_state_machine(installed: &WaveformProgram) -> (r: Channel)
    ensures
        r@ == dummy_channel(),
        r.wf(),
        r@.wf(installed@),
{
    let r = Channel::unused(installed);
    proof {
        assert(r@.lane.pending =~= Seq::empty());
    }
    r
}

/// A driver of `N` motors, one to four, on one engine block. A full queue
/// refuses a frame, and the driver says so.
pub struct DshotPio<const N: usize> {
    block: EngineBlock,
    pin_setup: bool,
}

/// Sets up the block of a driver of four motors.
fn quad_block(pin0: u8, pin1: u8, pin2: u8, pin3: u8, clk_div: (u16, u8), pin_setup: bool) -> (r:
    EngineBlock)
    ensures
        r.wf(),
        r@ == fresh_block(seq![pin0, pin1, pin2, pin3], clk_div, pin_setup),
        drives(r@, 4, pin_setup),
{
    let installed = configure_pio_instance(pin_setup);
    let sm0 = setup_state_machine(&installed, clk_div, pin0, pin_setup);
    let sm1 = setup_state_machine(&installed, clk_div, pin1, pin_setup);
    let sm2 = setup_state_machine(&installed, clk_div, pin2, pin_setup);
    let sm3 = setup_state_machine(&installed, clk_div, pin3, pin_setup);
    let r = EngineBlock::new(installed, sm0, sm1, sm2, sm3);
    proof {
        assert(r@.channels =~= fresh_block(seq![pin0, pin1, pin2, pin3], clk_div, pin_setup).channels);
        r.lemma_wf();
    }
    r
}

impl<const N: usize> View for DshotPio<N> {
    type V = BlockView;

    closed spec fn view(&self) -> BlockView {
        self.block@
    }
}

impl DshotPio<1> {
    /// A driver of one motor on `pin0`. The other three slots get dummies.
    pub fn new(pin0: u8, clk_div: (u16, u8)) -> (r: DshotPio<1>)
        ensures
            r.wf(),
            !r.sets_pin_up(),
            r@ == fresh_block(seq![pin0], clk_div, false),
    {
        let installed = configure_pio_instance(false);
        let sm0 = setup_state_machine(&installed, clk_div, pin0, false);
        let sm1 = dummy_state_machine(&installed);
        let sm2 = dummy_state_machine(&installed);
        let sm3 = dummy_state_machine(&installed);
        let r = DshotPio { block: EngineBlock::new(installed, sm0, sm1, sm2, sm3), pin_setup: false };
        proof {
            assert(r@.channels =~= fresh_block(seq![pin0], clk_div, false).channels);
            r.block.lemma_wf();
        }
        r
    }
}

impl DshotPio<2> {
    /// A driver of two motors. The other two slots get dummies.
    pub fn new(pin0: u8, pin1: u8, clk_div: (u16, u8)) -> (r: DshotPio<2>)
        ensures
            r.wf(),
            !r.sets_pin_up(),
            r@ == fresh_block(seq![pin0, pin1], clk_div, false),
    {
        let installed = configure_pio_instance(false);
        let sm0 = setup_state_machine(&installed, clk_div, pin0, false);
        let sm1 = setup_state_machine(&installed, clk_div, pin1, false);
        let sm2 = dummy_state_machine(&installed);
        let sm3 = dummy_state_machine(&installed);
        let r = DshotPio { block: EngineBlock::new(installed, sm0, sm1, sm2, sm3), pin_setup: false };
        proof {
            assert(r@.channels =~= fresh_block(seq![pin0, pin1], clk_div, false).channels);
            r.block.lemma_wf();
        }
        r
    }
}

impl DshotPio<3> {
    /// A driver of three motors. The last slot gets a dummy.
    pub fn new(pin0: u8, pin1: u8, pin2: u8, clk_div: (u16, u8)) -> (r: DshotPio<3>)
        ensures
            r.wf(),
            !r.sets_pin_up(),
            r@ == fresh_block(seq![pin0, pin1, pin2], clk_div, false),
    {
        let installed = configure_pio_instance(false);
        let sm0 = setup_state_machine(&installed, clk_div, pin0, false);
        let sm1 = setup_state_machine(&installed, clk_div, pin1, false);
        let sm2 = setup_state_machine(&installed, clk_div, pin2, false);
        let sm3 = dummy_state_machine(&installed);
        let r = DshotPio { block: EngineBlock::new(installed, sm0, sm1, sm2, sm3), pin_setup: false };
        proof {
            assert(r@.channels =~= fresh_block(seq![pin0, pin1, pin2], clk_div, false).channels);
            r.block.lemma_wf();
        }
        r
    }
}

impl DshotPio<4> {
    /// A driver of four motors.
    pub fn new(pin0: u8, pin1: u8, pin2: u8, pin3: u8, clk_div: (u16, u8)) -> (r: DshotPio<4>)
        ensures
            r.wf(),
            !r.sets_pin_up(),
            r@ == fresh_block(seq![pin0, pin1, pin2, pin3], clk_div, false),
    {
        DshotPio { block: quad_block(pin0, pin1, pin2, pin3, clk_div, false), pin_setup: false }
    }
}

impl<const N: usize> DshotPio<N> {
    /// Whether the program of the driver makes the pins outputs itself.
    pub closed spec fn sets_pin_up(&self) -> bool {
        self.pin_setup
    }

    /// The driver is in order: its block is, and it drives `N` motors.
    pub closed spec fn wf(&self) -> bool {
        self.block.wf() && drives(self.block@, N as int, self.pin_setup)
    }

    /// What being in order means for the block of the driver.
    pub proof fn lemma_wf(&self)
        requires
            self.wf(),
        ensures
            drives(self@, N as int, self.sets_pin_up()),
    {
    }

    /// Number of motors.
    pub fn motors(&self) -> (r: usize)
        ensures
            r == N,
    {
        N
    }

    /// The block of the driver.
    pub fn block(&self) -> (r: &EngineBlock)
        ensures
            r@ == self@,
    {
        &self.block
    }

    /// Submits `word` to the queue of channel `channel` and tells whether it
    /// was accepted: it is if the channel belongs to a motor and its queue
    /// has room. Nothing else changes, and a word that is not accepted
    /// changes nothing.
    pub fn submit(&mut self, channel: usize, word: u32) -> (accepted: bool)
        requires
            old(self).wf(),
        ensures
            final(self).wf(),
            final(self).sets_pin_up() == old(self).sets_pin_up(),
            accepted == (channel < N && old(self)@.channels[channel as int].lane.pending.len()
                < QUEUE_DEPTH),
            final(self)@ == if channel < N {
                old(self)@.submitted(channel as int, word)
            } else {
                old(self)@
            },
            !accepted ==> final(self)@ == old(self)@,
    {
        if channel < N {
            let accepted: bool = self.block.submit(channel, word);
            proof {
                final(self).block.lemma_wf();
                if !accepted {
                    assert(final(self)@.channels =~= old(self)@.channels);
                }
            }
            accepted
        } else {
            false
        }
    }

    /// Submits one frame to each motor's channel, packed into a word, and
    /// tells for each whether its queue accepted it.
    pub fn send_frames(&mut self, frames: [u16; N]) -> (accepted: [bool; N])
        requires
            old(self).wf(),
        ensures
            final(self).wf(),
            final(self).sets_pin_up() == old(self).sets_pin_up(),
            final(self)@ == sent(old(self)@, frames@),
            forall|i: int|
                0 <= i < N ==> accepted@[i] == (old(self)@.channels[i].lane.pending.len()
                    < QUEUE_DEPTH),
    {
        let mut accepted: [bool; N] = [false; N];
        let mut i: usize = 0;
        proof {
            self.block.lemma_wf();
            assert(self@.channels =~= sent(self@, frames@.take(0)).channels);
        }
        while i < N
            invariant
                i <= N,
                self.wf(),
                self.sets_pin_up() == old(self).sets_pin_up(),
                self@ == sent(old(self)@, frames@.take(i as int)),
                forall|k: int|
                    0 <= k < i ==> accepted@[k] == (old(self)@.channels[k].lane.pending.len()
                        < QUEUE_DEPTH),
            decreases N - i,
        {
            let ghost before = self@;
            let ghost flags = accepted@;
            let word: u32 = pack(frames[i]);
            let ok: bool = self.submit(i, word);
            accepted[i] = ok;
            proof {
                assert(self@.channels =~= sent(old(self)@, frames@.take(i + 1)).channels);
            }
            i = i + 1;
        }
        proof {
            assert(frames@.take(N as int) =~= frames@);
        }
        accepted
    }

    /// Advances every channel by one cycle and returns what the four pins
    /// show in that cycle.
    pub fn advance(&mut self) -> (levels: [bool; 4])
        requires
            old(self).wf(),
        ensures
            final(self).wf(),
            final(self).sets_pin_up() == old(self).sets_pin_up(),
            final(self)@ == old(self)@.stepped(),
            levels@ == old(self)@.levels(),
    {
        proof {
            self.block.lemma_wf();
        }
        let levels: [bool; 4] = self.block.advance();
        proof {
            final(self).block.lemma_wf();
            assert(old(self)@.stepped().ran(0) == old(self)@.stepped());
            assert(old(self)@.ran(1) == old(self)@.stepped());
            lemma_drives_on(old(self)@, N as int, self.pin_setup, 1);
        }
        levels
    }

    /// Runs the block for `cycles` cycles and returns what the pin of
    /// channel `channel` shows in each of them.
    pub fn record(&mut self, channel: usize, cycles: usize) -> (levels: Vec<bool>)
        requires
            old(self).wf(),
            channel < CHANNELS,
        ensures
            final(self).wf(),
            final(self).sets_pin_up() == old(self).sets_pin_up(),
            final(self)@ == old(self)@.ran(cycles as nat),
            levels@ == old(self)@.pin_wave(channel as int, cycles as nat),
    {
        proof {
            self.block.lemma_wf();
        }
        let levels: Vec<bool> = self.block.record(channel, cycles);
        proof {
            final(self).block.lemma_wf();
            lemma_drives_on(old(self)@, N as int, self.pin_setup, cycles as nat);
        }
        levels
    }
}

/// A driver of four motors whose program makes the pins outputs itself and
/// whose queues do not tell whether they had room: every frame counts as
/// accepted, and one that meets a full queue is lost.
pub struct QuadDshotPio {
    pio_instance: DshotPio<4>,
}

impl View for QuadDshotPio {
    type V = BlockView;

    closed spec fn view(&self) -> BlockView {
        self.pio_instance@
    }
}

impl QuadDshotPio {
    /// The driver is in order.
    pub closed spec fn wf(&self) -> bool {
        self.pio_instance.wf() && self.pio_instance.sets_pin_up()
    }

    /// What being in order means for the block of the driver.
    pub proof fn lemma_wf(&self)
        requires
            self.wf(),
        ensures
            drives(self@, 4, true),
    {
        self.pio_instance.lemma_wf();
    }

    /// A driver of four motors.
    pub fn new(pin0: u8, pin1: u8, pin2: u8, pin3: u8, clk_div: (u16, u8)) -> (r: QuadDshotPio)
        ensures
            r.wf(),
            r@ == fresh_block(seq![pin0, pin1, pin2, pin3], clk_div, true),
    {
        QuadDshotPio {
            pio_instance: DshotPio {
                block: quad_block(pin0, pin1, pin2, pin3, clk_div, true),
                pin_setup: true,
            },
        }
    }

    /// The block of the driver.
    pub fn block(&self) -> (r: &EngineBlock)
        ensures
            r@ == self@,
    {
        self.pio_instance.block()
    }

    /// Submits one frame to each motor's channel, packed into a word. Every
    /// frame is reported as accepted, also one that met a full queue and was
    /// lost.
    pub fn send_frames(&mut self, frames: (u16, u16, u16, u16)) -> (accepted: (bool, bool, bool, bool))
        requires
            old(self).wf(),
        ensures
            final(self).wf(),
            final(self)@ == sent(old(self)@, seq![frames.0, frames.1, frames.2, frames.3]),
            accepted == (true, true, true, true),
    {
        let each: [u16; 4] = [frames.0, frames.1, frames.2, frames.3];
        proof {
            assert(each@ =~= seq![frames.0, frames.1, frames.2, frames.3]);
        }
        let _ = self.pio_instance.send_frames(each);
        (true, true, true, true)
    }

    /// Advances every channel by one cycle and returns what the four pins
    /// show in that cycle.
    pub fn advance(&mut self) -> (levels: [bool; 4])
        requires
            old(self).wf(),
        ensures
            final(self).wf(),
            final(self)@ == old(self)@.stepped(),
            levels@ == old(self)@.levels(),
    {
        self.pio_instance.advance()
    }

    /// Runs the block for `cycles` cycles and returns what the pin of
    /// channel `channel` shows in each of them.
    pub fn record(&mut self, channel: usize, cycles: usize) -> (levels: Vec<bool>)
        requires
            old(self).wf(),
            channel < CHANNELS,
        ensures
            final(self).wf(),
            final(self)@ == old(self)@.ran(cycles as nat),
            levels@ == old(self)@.pin_wave(channel as int, cycles as nat),
    {
        self.pio_instance.record(channel, cycles)
    }
}

/// A block that drives `n` motors still does so after any number of cycles.
pub proof fn lemma_drives_on(block: BlockView, n: int, pin_setup: bool, cycles: nat)
    requires
        drives(block, n, pin_setup),
    ensures
        drives(block.ran(cycles), n, pin_setup),
{
    let after = block.ran(cycles);
    lemma_ran_wf(block, cycles);
    assert forall|i: int| 0 <= i < n implies (#[trigger] after.channels[i]).active() by {
        lemma_channel_runs_alone(block, i, cycles);
        lemma_running_on(block, i, cycles);
    }
    assert forall|i: int| n <= i < CHANNELS implies (#[trigger] after.channels[i]).unused() by {
        lemma_unused_inert(block, i, cycles);
    }
    lemma_channel_runs_alone(block, 0, cycles);
}

/// A machine that runs keeps running.
pub proof fn lemma_running_on(block: BlockView, slot: int, cycles: nat)
    requires
        0 <= slot < block.channels.len(),
        block.channels[slot].lane.machine.running,
    ensures
        block.ran(cycles).channels[slot].lane.machine.running,
    decreases cycles,
{
    if cycles > 0 {
        lemma_running_on(block.stepped(), slot, (cycles - 1) as nat);
    }
}

} // verus!

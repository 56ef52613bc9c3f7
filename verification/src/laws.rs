//! What holds of the drivers as a whole, stated over what their pins show.

use vstd::prelude::*;
use crate::block::{
    BlockView, feed_of, lemma_channel_fed_alone, lemma_channel_runs_alone, CHANNELS,
};
use crate::cadence::{Phase, Sender, lemma_any_cadence, tracks};
use crate::driver::{drives, fresh_block, sent};
use crate::machine::{Lane, run, wave};
use crate::program::{dshot_entry, dshot_program, FRAME_BITS};
use crate::queue::{after_submit, QUEUE_DEPTH};
use crate::timing::{
    idle_at_entry, lemma_frame, lemma_frames_in_order, lemma_run_split, lemma_start,
    lemma_stopped_fed,
};
use crate::wave::{
    frame_wave, frame_word, frames_wave, high_cycles, lemma_frame_shape, lemma_payload_round_trip,
    payload_bit, payload_of, pulse_train, slot, steady, FRAME_CYCLES, GAP_CYCLES, LEAD_CYCLES,
    MIN_GAP_CYCLES, SLOT_CYCLES,
};

verus! {

/// **Sixteen equal slots and the gap.** Whatever word a waiting machine
/// takes, the frame it sends has sixteen slots of `SLOT_CYCLES` cycles each.
/// In the slot of bit `k` of the payload the pin is high for the first
/// `HIGH_CYCLES_ONE` cycles if the bit is 1 and for the first
/// `HIGH_CYCLES_ZERO` if it is 0, and low for the rest of the slot. After
/// the last slot the pin is low for `GAP_CYCLES` cycles, no less than
/// `MIN_GAP_CYCLES`, before the next frame can begin.
pub proof fn lemma_emitted_levels(pin_setup: bool, lane: Lane)
    requires
        idle_at_entry(lane.machine, pin_setup),
        lane.pending.len() > 0,
    ensures
        ({
            let emitted = wave(dshot_program(pin_setup), lane, FRAME_CYCLES as nat);
            let payload = payload_of(lane.pending[0]);
            &&& emitted.len() == LEAD_CYCLES + FRAME_BITS * SLOT_CYCLES + GAP_CYCLES
            &&& forall|k: int, i: int|
                0 <= k < FRAME_BITS && 0 <= i < SLOT_CYCLES ==> #[trigger] emitted[LEAD_CYCLES + k
                    * SLOT_CYCLES + i] == (i < high_cycles(payload_bit(payload, k)))
            &&& forall|t: int| 0 <= t < LEAD_CYCLES ==> !#[trigger] emitted[t]
            &&& forall|t: int|
                FRAME_CYCLES - GAP_CYCLES <= t < FRAME_CYCLES ==> !#[trigger] emitted[t]
            &&& GAP_CYCLES >= MIN_GAP_CYCLES
        }),
{
    let emitted = wave(dshot_program(pin_setup), lane, FRAME_CYCLES as nat);
    let payload = payload_of(lane.pending[0]);
    lemma_frame(pin_setup, lane);
    lemma_frame_shape(payload);
    assert forall|k: int, i: int| 0 <= k < FRAME_BITS && 0 <= i < SLOT_CYCLES implies #[trigger] emitted[LEAD_CYCLES
        + k * SLOT_CYCLES + i] == (i < high_cycles(payload_bit(payload, k))) by {
        let train = pulse_train(payload);
        let one = train.subrange(k * SLOT_CYCLES, (k + 1) * SLOT_CYCLES);
        assert(one == slot(payload_bit(payload, k)));
        assert(one[i] == train[k * SLOT_CYCLES + i]);
        assert(emitted.subrange(LEAD_CYCLES as int, LEAD_CYCLES + FRAME_BITS * SLOT_CYCLES)[k
            * SLOT_CYCLES + i] == emitted[LEAD_CYCLES + k * SLOT_CYCLES + i]);
    }
    assert forall|t: int| 0 <= t < LEAD_CYCLES implies !#[trigger] emitted[t] by {
        assert(emitted.subrange(0, LEAD_CYCLES as int)[t] == emitted[t]);
    }
    assert forall|t: int| FRAME_CYCLES - GAP_CYCLES <= t < FRAME_CYCLES implies !#[trigger] emitted[t] by {
        assert(emitted.subrange(FRAME_CYCLES - GAP_CYCLES, FRAME_CYCLES as int)[t - (FRAME_CYCLES
            - GAP_CYCLES)] == emitted[t]);
    }
}

/// **A frame carries its payload.** A waiting machine with an empty queue
/// that is handed the packed word of `payload` sends the frame of `payload`.
pub proof fn lemma_frame_carries_payload(pin_setup: bool, lane: Lane, payload: u16)
    requires
        idle_at_entry(lane.machine, pin_setup),
        lane.pending.len() == 0,
    ensures
        ({
            let handed = Lane {
                machine: lane.machine,
                pending: after_submit(lane.pending, QUEUE_DEPTH as nat, frame_word(payload)),
            };
            wave(dshot_program(pin_setup), handed, FRAME_CYCLES as nat) == frame_wave(payload)
        }),
{
    let handed = Lane {
        machine: lane.machine,
        pending: after_submit(lane.pending, QUEUE_DEPTH as nat, frame_word(payload)),
    };
    lemma_payload_round_trip(payload);
    lemma_frame(pin_setup, handed);
}

/// A queue after the words of `words` were submitted to it one after
/// another.
pub open spec fn after_submits(pending: Seq<u32>, capacity: nat, words: Seq<u32>) -> Seq<u32>
    decreases words.len(),
{
    if words.len() == 0 {
        pending
    } else {
        after_submits(after_submit(pending, capacity, words[0]), capacity, words.drop_first())
    }
}

/// Words that all find room wait in the queue in the order in which they
/// were submitted, behind those that waited before.
pub proof fn lemma_submitted_in_order(pending: Seq<u32>, capacity: nat, words: Seq<u32>)
    requires
        pending.len() + words.len() <= capacity,
    ensures
        after_submits(pending, capacity, words) == pending + words,
    decreases words.len(),
{
    if words.len() == 0 {
        assert(pending + words =~= pending);
    } else {
        lemma_submitted_in_order(pending.push(words[0]), capacity, words.drop_first());
        assert(pending.push(words[0]) + words.drop_first() =~= pending + words);
    }
}

/// **First in, first out.** Words submitted to a waiting channel with an
/// empty queue, none of them dropped, are sent as frames in the order of
/// their submission: the wave of the channel is the frame of the first word,
/// the frame of the second, and so on to the last.
pub proof fn lemma_fifo_order(pin_setup: bool, lane: Lane, words: Seq<u32>)
    requires
        idle_at_entry(lane.machine, pin_setup),
        lane.pending.len() == 0,
        words.len() <= QUEUE_DEPTH,
    ensures
        ({
            let program = dshot_program(pin_setup);
            let loaded = Lane {
                machine: lane.machine,
                pending: after_submits(lane.pending, QUEUE_DEPTH as nat, words),
            };
            let cycles = words.len() * FRAME_CYCLES as nat;
            &&& loaded.pending == words
            &&& wave(program, loaded, cycles) == frames_wave(words)
            &&& idle_at_entry(run(program, loaded, cycles).machine, pin_setup)
            &&& run(program, loaded, cycles).pending.len() == 0
        }),
{
    let loaded = Lane {
        machine: lane.machine,
        pending: after_submits(lane.pending, QUEUE_DEPTH as nat, words),
    };
    lemma_submitted_in_order(lane.pending, QUEUE_DEPTH as nat, words);
    assert(lane.pending + words =~= words);
    lemma_frames_in_order(pin_setup, loaded);
}

/// **The first frames of a new driver.** A driver is made for the motors on
/// `pins` and one frame is sent to each. The pin of motor `i` is low until
/// its machine stands at `entry`, shows the frame `frames[i]`, and is at
/// `entry` again after it.
pub proof fn lemma_first_frames(
    pins: Seq<u8>,
    clk_div: (u16, u8),
    pin_setup: bool,
    frames: Seq<u16>,
    i: int,
)
    requires
        1 <= pins.len() <= CHANNELS,
        frames.len() == pins.len(),
        0 <= i < pins.len(),
    ensures
        ({
            let block = sent(fresh_block(pins, clk_div, pin_setup), frames);
            let lead = dshot_entry(pin_setup) as nat;
            &&& block.pin_wave(i, lead + FRAME_CYCLES as nat) == steady(false, lead) + frame_wave(
                frames[i],
            )
            &&& idle_at_entry(
                block.ran(lead + FRAME_CYCLES as nat).channels[i].lane.machine,
                pin_setup,
            )
        }),
{
    let program = dshot_program(pin_setup);
    let block = sent(fresh_block(pins, clk_div, pin_setup), frames);
    let lead = dshot_entry(pin_setup) as nat;
    let lane = block.channels[i].lane;
    assert(lane.pending =~= seq![frame_word(frames[i])]);
    lemma_channel_runs_alone(block, i, lead + FRAME_CYCLES as nat);
    lemma_start(pin_setup, lane);
    lemma_frame(pin_setup, run(program, lane, lead));
    lemma_run_split(program, lane, lead, FRAME_CYCLES as nat);
    lemma_payload_round_trip(frames[i]);
}

/// **A driver is its senders.** Whatever is submitted to the channels of a
/// driver, and whenever, the pin of each motor shows what a sender shows
/// that is fed the words of that motor alone: low while nothing is sent,
/// and the frames of the accepted words, whole, one after another in the
/// order of submission.
pub proof fn lemma_driver_follows_senders(
    block: BlockView,
    n: int,
    pin_setup: bool,
    slot: int,
    phase: Phase,
    feed: Seq<Seq<Option<u32>>>,
)
    requires
        drives(block, n, pin_setup),
        0 <= slot < n,
        tracks(block.channels[slot].lane.machine, phase, pin_setup),
    ensures
        ({
            let sender = Sender { phase, pending: block.channels[slot].lane.pending };
            let after = block.ran_fed(feed).channels[slot];
            &&& block.pin_wave_fed(slot, feed) == sender.shows(feed_of(feed, slot))
            &&& after.lane.pending == sender.ran(feed_of(feed, slot)).pending
            &&& tracks(after.lane.machine, sender.ran(feed_of(feed, slot)).phase, pin_setup)
            &&& after.config == block.channels[slot].config
        }),
{
    lemma_channel_fed_alone(block, slot, feed);
    lemma_any_cadence(pin_setup, block.channels[slot].lane, phase, feed_of(feed, slot));
}

/// **Unused slots stay silent.** In the block of a driver of `n` motors the
/// slots from `n` on have no settings and no pin, never start, and show
/// nothing, however long the block runs and whatever is submitted to it.
pub proof fn lemma_unused_slots_silent(
    block: BlockView,
    n: int,
    pin_setup: bool,
    slot: int,
    feed: Seq<Seq<Option<u32>>>,
)
    requires
        drives(block, n, pin_setup),
        n <= slot < CHANNELS,
    ensures
        block.channels[slot].config is None,
        block.ran_fed(feed).channels[slot].config is None,
        !block.ran_fed(feed).channels[slot].lane.machine.running,
        block.pin_wave_fed(slot, feed) == steady(false, feed.len()),
{
    lemma_channel_fed_alone(block, slot, feed);
    lemma_stopped_fed(block.program, block.channels[slot].lane, feed_of(feed, slot));
}

} // verus!

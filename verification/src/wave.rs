//! The waveform of a frame, cycle by cycle: what the pin must show for a
//! given payload.

use vstd::prelude::*;
use crate::program::FRAME_BITS;

verus! {

/// Length of one bit slot, in cycles.
pub const SLOT_CYCLES: usize = 8;

/// Cycles for which the pin is high in the slot of a 1.
pub const HIGH_CYCLES_ONE: usize = 6;

/// Cycles for which the pin is high in the slot of a 0.
pub const HIGH_CYCLES_ZERO: usize = 3;

/// Cycles between the moment a word is taken and the first slot.
pub const LEAD_CYCLES: usize = 3;

/// Idle cycles that follow the last slot of a frame.
pub const GAP_CYCLES: usize = 129;

/// Shortest idle gap that separates two frames: the length of one frame's
/// sixteen slots.
pub const MIN_GAP_CYCLES: usize = 128;

/// Cycles from one frame to the next while words keep coming.
pub const FRAME_CYCLES: usize = 260;

/// The 32-bit word that carries `payload`: the payload in the upper half,
/// sixteen padding bits below it.
pub open spec fn frame_word(payload: u16) -> u32 {
    (payload as u32) << 16
}

/// The payload that a word carries.
pub open spec fn payload_of(word: u32) -> u16 {
    (word >> 16) as u16
}

/// The `k`-th bit of a frame in the order of transmission, the most
/// significant bit first.
pub open spec fn payload_bit(payload: u16, k: int) -> bool {
    (payload >> ((15 - k) as u16)) & 1 == 1
}

/// `n` cycles at one level.
pub open spec fn steady(level: bool, n: nat) -> Seq<bool> {
    Seq::new(n, |i: int| level)
}

/// Cycles for which the pin is high in the slot of `bit`.
pub open spec fn high_cycles(bit: bool) -> nat {
    if bit {
        HIGH_CYCLES_ONE as nat
    } else {
        HIGH_CYCLES_ZERO as nat
    }
}

/// One bit slot: high first, low for the rest.
pub open spec fn slot(bit: bool) -> Seq<bool> {
    steady(true, high_cycles(bit)) + steady(false, (SLOT_CYCLES - high_cycles(bit)) as nat)
}

/// The slots of the bits `from..16` of a frame, one after another.
pub open spec fn slots_from(payload: u16, from: int) -> Seq<bool>
    decreases FRAME_BITS - from,
{
    if 0 <= from < FRAME_BITS {
        slot(payload_bit(payload, from)) + slots_from(payload, from + 1)
    } else {
        Seq::empty()
    }
}

/// The sixteen slots of a frame.
pub open spec fn pulse_train(payload: u16) -> Seq<bool> {
    slots_from(payload, 0)
}

/// A whole frame as the pin shows it from the cycle in which its word is
/// taken: the lead-in, the sixteen slots, the idle gap.
pub open spec fn frame_wave(payload: u16) -> Seq<bool> {
    steady(false, LEAD_CYCLES as nat) + pulse_train(payload) + steady(false, GAP_CYCLES as nat)
}

/// The frames of `words`, in order.
pub open spec fn frames_wave(words: Seq<u32>) -> Seq<bool>
    decreases words.len(),
{
    if words.len() == 0 {
        Seq::empty()
    } else {
        frame_wave(payload_of(words[0])) + frames_wave(words.drop_first())
    }
}

/// Packs a payload into the word that is handed to a transmit queue.
pub fn pack(payload: u16) -> (word: u32)
    ensures
        word == frame_word(payload),
        payload_of(word) == payload,
{
    let word: u32 = (payload as u32) << 16;
    proof {
        lemma_payload_round_trip(payload);
    }
    word
}

/// Reads the payload back out of a word.
pub fn unpack(word: u32) -> (payload: u16)
    ensures
        payload == payload_of(word),
{
    (word >> 16) as u16
}

/// Unpacking a packed payload gives the payload back.
pub proof fn lemma_payload_round_trip(payload: u16)
    ensures
        payload_of(frame_word(payload)) == payload,
{
    assert((((payload as u32) << 16) >> 16) as u16 == payload) by (bit_vector);
}

/// A slot lasts `SLOT_CYCLES` cycles whatever its bit. The pin is high for
/// the first `HIGH_CYCLES_ONE` of them if the bit is 1 and for the first
/// `HIGH_CYCLES_ZERO` if it is 0, and low for all the rest.
pub proof fn lemma_slot_shape(bit: bool)
    ensures
        slot(bit).len() == SLOT_CYCLES,
        high_cycles(bit) == if bit { HIGH_CYCLES_ONE } else { HIGH_CYCLES_ZERO },
        0 < high_cycles(bit) < SLOT_CYCLES,
        forall|i: int| 0 <= i < high_cycles(bit) ==> slot(bit)[i],
        forall|i: int| high_cycles(bit) <= i < SLOT_CYCLES ==> !slot(bit)[i],
{
}

/// The slots of the bits `from..16` take `SLOT_CYCLES` each, and the slot of
/// bit `k` stands at its own place among them.
pub proof fn lemma_slots_from(payload: u16, from: int)
    requires
        0 <= from <= FRAME_BITS,
    ensures
        slots_from(payload, from).len() == (FRAME_BITS - from) * SLOT_CYCLES,
        forall|k: int|
            from <= k < FRAME_BITS ==> #[trigger] slots_from(payload, from).subrange(
                (k - from) * SLOT_CYCLES,
                (k - from + 1) * SLOT_CYCLES,
            ) == slot(payload_bit(payload, k)),
    decreases FRAME_BITS - from,
{
    if from < FRAME_BITS {
        lemma_slots_from(payload, from + 1);
        let head = slot(payload_bit(payload, from));
        let tail = slots_from(payload, from + 1);
        let all = slots_from(payload, from);
        assert(all == head + tail);
        assert forall|k: int| from <= k < FRAME_BITS implies #[trigger] all.subrange(
            (k - from) * SLOT_CYCLES,
            (k - from + 1) * SLOT_CYCLES,
        ) == slot(payload_bit(payload, k)) by {
            if k == from {
                assert(all.subrange(0, SLOT_CYCLES as int) =~= head);
            } else {
                let lo = (k - (from + 1)) * SLOT_CYCLES;
                let hi = (k - (from + 1) + 1) * SLOT_CYCLES;
                assert(tail.subrange(lo, hi) == slot(payload_bit(payload, k)));
                assert(all.subrange(lo + SLOT_CYCLES, hi + SLOT_CYCLES) =~= tail.subrange(lo, hi));
            }
        }
    }
}

/// Every frame is sixteen slots of `SLOT_CYCLES` cycles each, bit `k` of the
/// payload in slot `k`, and after them the pin idles for `GAP_CYCLES`, which
/// is no less than `MIN_GAP_CYCLES`.
pub proof fn lemma_frame_shape(payload: u16)
    ensures
        pulse_train(payload).len() == FRAME_BITS * SLOT_CYCLES,
        forall|k: int|
            0 <= k < FRAME_BITS ==> #[trigger] pulse_train(payload).subrange(
                k * SLOT_CYCLES,
                (k + 1) * SLOT_CYCLES,
            ) == slot(payload_bit(payload, k)),
        frame_wave(payload).len() == FRAME_CYCLES,
        frame_wave(payload).subrange(0, LEAD_CYCLES as int) == steady(false, LEAD_CYCLES as nat),
        frame_wave(payload).subrange(
            LEAD_CYCLES as int,
            LEAD_CYCLES + FRAME_BITS * SLOT_CYCLES,
        ) == pulse_train(payload),
        frame_wave(payload).subrange(
            LEAD_CYCLES + FRAME_BITS * SLOT_CYCLES,
            FRAME_CYCLES as int,
        ) == steady(false, GAP_CYCLES as nat),
        GAP_CYCLES >= MIN_GAP_CYCLES,
{
    lemma_slots_from(payload, 0);
    assert forall|k: int| 0 <= k < FRAME_BITS implies #[trigger] pulse_train(payload).subrange(
        k * SLOT_CYCLES,
        (k + 1) * SLOT_CYCLES,
    ) == slot(payload_bit(payload, k)) by {
        assert(slots_from(payload, 0).subrange((k - 0) * SLOT_CYCLES, (k - 0 + 1) * SLOT_CYCLES)
            == slot(payload_bit(payload, k)));
    }
    let wave = frame_wave(payload);
    assert(wave.subrange(0, LEAD_CYCLES as int) =~= steady(false, LEAD_CYCLES as nat));
    assert(wave.subrange(LEAD_CYCLES as int, LEAD_CYCLES + FRAME_BITS * SLOT_CYCLES) =~= pulse_train(
        payload,
    ));
    assert(wave.subrange(LEAD_CYCLES + FRAME_BITS * SLOT_CYCLES, FRAME_CYCLES as int) =~= steady(
        false,
        GAP_CYCLES as nat,
    ));
}

/// Appends `n` cycles at `level` to `levels`.
fn hold(levels: &mut Vec<bool>, level: bool, n: usize)
    ensures
        final(levels)@ == old(levels)@ + steady(level, n as nat),
{
    let mut i: usize = 0;
    while i < n
        invariant
            i <= n,
            levels@ == old(levels)@ + steady(level, i as nat),
        decreases n - i,
    {
        levels.push(level);
        i = i + 1;
        assert(levels@ =~= old(levels)@ + steady(level, i as nat));
    }
    assert(levels@ =~= old(levels)@ + steady(level, n as nat));
}

/// The waveform of the frame that carries `payload`, cycle by cycle.
pub fn reference_wave(payload: u16) -> (levels: Vec<bool>)
    ensures
        levels@ == frame_wave(payload),
{
    let mut levels: Vec<bool> = Vec::new();
    hold(&mut levels, false, LEAD_CYCLES);
    let mut k: u8 = 0;
    while k < FRAME_BITS
        invariant
            k <= FRAME_BITS,
            levels@ + slots_from(payload, k as int) == steady(false, LEAD_CYCLES as nat)
                + pulse_train(payload),
        decreases FRAME_BITS - k,
    {
        let ghost so_far = levels@;
        let bit: bool = (payload >> ((15 - k) as u16)) & 1 == 1;
        let high: usize = if bit {
            HIGH_CYCLES_ONE
        } else {
            HIGH_CYCLES_ZERO
        };
        hold(&mut levels, true, high);
        hold(&mut levels, false, SLOT_CYCLES - high);
        proof {
            assert(bit == payload_bit(payload, k as int));
            assert(levels@ =~= so_far + slot(bit));
            assert(levels@ + slots_from(payload, k + 1) =~= so_far + slots_from(payload, k as int));
        }
        k = k + 1;
    }
    proof {
        assert(levels@ =~= steady(false, LEAD_CYCLES as nat) + pulse_train(payload));
    }
    hold(&mut levels, false, GAP_CYCLES);
    levels
}

} // verus!

//! What the DShot program makes of a word: the proof that a state machine
//! running it shows exactly the waveform of the frame, frame after frame.

use vstd::prelude::*;
use crate::machine::{Lane, StateMachine, fed_queue, run, run_fed, step, wave, wave_fed};
use crate::program::{ProgramView, dshot_entry, dshot_program, FRAME_BITS, LOOP, ONE, ZERO};
use crate::wave::{
    frame_wave, frames_wave, payload_bit, payload_of, slot, slots_from, steady, FRAME_CYCLES,
    GAP_CYCLES, LEAD_CYCLES, SLOT_CYCLES,
};

verus! {

/// Running `a + b` cycles is running `a` and, from there, `b` more.
pub proof fn lemma_run_split(program: ProgramView, lane: Lane, a: nat, b: nat)
    ensures
        run(program, lane, a + b) == run(program, run(program, lane, a), b),
        wave(program, lane, a + b) == wave(program, lane, a) + wave(
            program,
            run(program, lane, a),
            b,
        ),
    decreases a,
{
    if a == 0 {
        assert(wave(program, lane, a + b) =~= wave(program, lane, a) + wave(
            program,
            run(program, lane, a),
            b,
        ));
    } else {
        let next = step(program, lane);
        lemma_run_split(program, next, (a - 1) as nat, b);
        assert((a + b - 1) as nat == (a - 1) as nat + b);
        assert(wave(program, lane, a + b) =~= wave(program, lane, a) + wave(
            program,
            run(program, lane, a),
            b,
        ));
    }
}

/// A wave has one entry for each cycle.
pub proof fn lemma_wave_len(program: ProgramView, lane: Lane, cycles: nat)
    ensures
        wave(program, lane, cycles).len() == cycles,
    decreases cycles,
{
    if cycles > 0 {
        lemma_wave_len(program, step(program, lane), (cycles - 1) as nat);
    }
}

/// A machine that was never started stays as it is, and so do its queue
/// and its pin.
pub proof fn lemma_stopped(program: ProgramView, lane: Lane, cycles: nat)
    requires
        !lane.machine.running,
    ensures
        run(program, lane, cycles) == lane,
        wave(program, lane, cycles) == steady(lane.machine.level(), cycles),
    decreases cycles,
{
    if cycles > 0 {
        assert(step(program, lane) == lane);
        lemma_stopped(program, lane, (cycles - 1) as nat);
    }
    assert(wave(program, lane, cycles) =~= steady(lane.machine.level(), cycles));
}

/// A machine that was never started shows nothing and stays as it is,
/// whatever is submitted to its queue.
pub proof fn lemma_stopped_fed(program: ProgramView, lane: Lane, feed: Seq<Option<u32>>)
    requires
        !lane.machine.running,
    ensures
        run_fed(program, lane, feed).machine == lane.machine,
        wave_fed(program, lane, feed) == steady(lane.machine.level(), feed.len()),
    decreases feed.len(),
{
    if feed.len() > 0 {
        let loaded = Lane { machine: lane.machine, pending: fed_queue(lane.pending, feed[0]) };
        lemma_stopped_fed(program, step(program, loaded), feed.drop_first());
    }
    assert(wave_fed(program, lane, feed) =~= steady(lane.machine.level(), feed.len()));
}

/// While a delay runs down nothing but the delay changes.
pub proof fn lemma_hold(program: ProgramView, lane: Lane)
    requires
        lane.machine.running,
    ensures
        run(program, lane, lane.machine.delay as nat) == (Lane {
            machine: StateMachine { delay: 0, ..lane.machine },
            pending: lane.pending,
        }),
        wave(program, lane, lane.machine.delay as nat) == steady(
            lane.machine.level(),
            lane.machine.delay as nat,
        ),
    decreases lane.machine.delay,
{
    let d = lane.machine.delay as nat;
    if d > 0 {
        let next = step(program, lane);
        assert(next == Lane {
            machine: StateMachine { delay: (d - 1) as u8, ..lane.machine },
            pending: lane.pending,
        });
        lemma_hold(program, next);
    }
    assert(wave(program, lane, d) =~= steady(lane.machine.level(), d));
}

/// The lane once the instruction at `pc` and its delay are over.
pub open spec fn completed(program: ProgramView, lane: Lane) -> Lane {
    let next = step(program, lane);
    Lane { machine: StateMachine { delay: 0, ..next.machine }, pending: next.pending }
}

/// An instruction that is not held up takes one cycle and its delay, and
/// the pin shows one level throughout: the one the instruction leaves.
pub proof fn lemma_instruction(program: ProgramView, lane: Lane)
    requires
        lane.machine.ready(),
        lane.machine.pulls(program) ==> lane.pending.len() > 0,
    ensures
        run(program, lane, program.code[lane.machine.pc as int].cycles()) == completed(
            program,
            lane,
        ),
        wave(program, lane, program.code[lane.machine.pc as int].cycles()) == steady(
            completed(program, lane).machine.level(),
            program.code[lane.machine.pc as int].cycles(),
        ),
{
    let instruction = program.code[lane.machine.pc as int];
    let next = step(program, lane);
    assert(next.machine.delay == instruction.delay);
    assert(next.machine.running);
    lemma_hold(program, next);
    assert(run(program, lane, instruction.cycles()) == run(program, next, instruction.delay as nat));
    assert(wave(program, lane, instruction.cycles()) =~= steady(
        next.machine.level(),
        instruction.cycles(),
    ));
}

/// After `a` cycles the lane executes an instruction that is not held up:
/// the wave grows by one level for as long as the instruction takes.
pub proof fn lemma_next_instruction(program: ProgramView, lane: Lane, a: nat)
    requires
        run(program, lane, a).machine.ready(),
        run(program, lane, a).machine.pulls(program) ==> run(program, lane, a).pending.len() > 0,
    ensures
        ({
            let mid = run(program, lane, a);
            let cycles = program.code[mid.machine.pc as int].cycles();
            &&& run(program, lane, a + cycles) == completed(program, mid)
            &&& wave(program, lane, a + cycles) == wave(program, lane, a) + steady(
                completed(program, mid).machine.level(),
                cycles,
            )
        }),
{
    let mid = run(program, lane, a);
    let cycles = program.code[mid.machine.pc as int].cycles();
    lemma_instruction(program, mid);
    lemma_run_split(program, lane, a, cycles);
}

/// The machine waits at `entry` of the DShot program with its pin low: the
/// state in which every frame begins and ends.
pub open spec fn idle_at_entry(machine: StateMachine, pin_setup: bool) -> bool {
    &&& machine.ready()
    &&& machine.pc == dshot_entry(pin_setup)
    &&& machine.pin_output
    &&& !machine.pin_high
}

/// The machine is about to send bit `k` of the payload of the word it holds.
pub open spec fn at_slot(machine: StateMachine, pin_setup: bool, k: int) -> bool {
    &&& machine.ready()
    &&& machine.pc == dshot_entry(pin_setup) + LOOP
    &&& machine.pin_output
    &&& machine.consumed == FRAME_BITS + k
    &&& machine.counter == FRAME_BITS - 1 - k
}

/// The machine has sent the last slot and is about to jump to `reset`, from
/// the branch of a 1 or from that of a 0.
pub open spec fn at_frame_end(machine: StateMachine, pin_setup: bool) -> bool {
    &&& machine.ready()
    &&& (machine.pc == dshot_entry(pin_setup) + ONE + 2 || machine.pc == dshot_entry(pin_setup)
        + ZERO + 2)
    &&& machine.pin_output
    &&& !machine.pin_high
}

/// The bit that leaves the input register as bit `k` of the frame is bit `k`
/// of the payload of the word, the most significant first.
pub proof fn lemma_next_bit(machine: StateMachine, k: int)
    requires
        0 <= k < FRAME_BITS,
        machine.consumed == FRAME_BITS + k,
    ensures
        machine.next_bit() == payload_bit(payload_of(machine.word), k),
{
    let word = machine.word;
    let place: u32 = (31 - k) as u32;
    let shift: u16 = (15 - k) as u16;
    assert(((word >> place) & 1 == 1) == ((((word >> 16) as u16) >> shift) & 1 == 1))
        by (bit_vector)
        requires
            place == shift + 16,
            shift < 16,
    ;
}

/// Taking a word and making ready for its first bit takes `LEAD_CYCLES`
/// cycles, in which the pin stays low.
pub proof fn lemma_lead_in(pin_setup: bool, lane: Lane)
    requires
        idle_at_entry(lane.machine, pin_setup),
        lane.pending.len() > 0,
    ensures
        ({
            let program = dshot_program(pin_setup);
            let after = run(program, lane, LEAD_CYCLES as nat);
            &&& wave(program, lane, LEAD_CYCLES as nat) == steady(false, LEAD_CYCLES as nat)
            &&& at_slot(after.machine, pin_setup, 0)
            &&& !after.machine.pin_high
            &&& after.machine.word == lane.pending[0]
            &&& after.pending == lane.pending.drop_first()
        }),
{
    let program = dshot_program(pin_setup);
    assert(run(program, lane, 0) == lane);
    lemma_next_instruction(program, lane, 0);
    lemma_next_instruction(program, lane, 1);
    lemma_next_instruction(program, lane, 2);
    assert(wave(program, lane, 3) =~= steady(false, 3));
}

/// One slot: from `loop` back to `loop`, or on to the jump to `reset` after
/// the last bit, in `SLOT_CYCLES` cycles, whatever the bit. The pin shows
/// the slot of the bit.
pub proof fn lemma_slot(pin_setup: bool, lane: Lane, k: int)
    requires
        0 <= k < FRAME_BITS,
        at_slot(lane.machine, pin_setup, k),
    ensures
        ({
            let program = dshot_program(pin_setup);
            let after = run(program, lane, SLOT_CYCLES as nat);
            let bit = payload_bit(payload_of(lane.machine.word), k);
            &&& wave(program, lane, SLOT_CYCLES as nat) == slot(bit)
            &&& after.pending == lane.pending
            &&& after.machine.word == lane.machine.word
            &&& !after.machine.pin_high
            &&& k < FRAME_BITS - 1 ==> at_slot(after.machine, pin_setup, k + 1)
            &&& k == FRAME_BITS - 1 ==> at_frame_end(after.machine, pin_setup)
        }),
{
    let program = dshot_program(pin_setup);
    let bit = payload_bit(payload_of(lane.machine.word), k);
    lemma_next_bit(lane.machine, k);
    assert(run(program, lane, 0) == lane);
    lemma_next_instruction(program, lane, 0);
    lemma_next_instruction(program, lane, 1);
    lemma_next_instruction(program, lane, 2);
    let at_branch = run(program, lane, 3);
    assert(at_branch.machine.bit == bit);
    assert(wave(program, lane, 3) =~= steady(true, 3));
    if bit {
        lemma_next_instruction(program, lane, 3);
        lemma_next_instruction(program, lane, 6);
        lemma_next_instruction(program, lane, 7);
        assert(wave(program, lane, 8) =~= slot(true));
    } else {
        lemma_next_instruction(program, lane, 3);
        lemma_next_instruction(program, lane, 7);
        assert(wave(program, lane, 8) =~= slot(false));
    }
}

/// The idle gap: the jump to `reset`, and the four long delays there, take
/// `GAP_CYCLES` cycles with the pin low and end at `entry`.
pub proof fn lemma_gap(pin_setup: bool, lane: Lane)
    requires
        at_frame_end(lane.machine, pin_setup),
    ensures
        ({
            let program = dshot_program(pin_setup);
            let after = run(program, lane, GAP_CYCLES as nat);
            &&& wave(program, lane, GAP_CYCLES as nat) == steady(false, GAP_CYCLES as nat)
            &&& idle_at_entry(after.machine, pin_setup)
            &&& after.pending == lane.pending
            &&& after.machine.word == lane.machine.word
        }),
{
    let program = dshot_program(pin_setup);
    assert(run(program, lane, 0) == lane);
    lemma_next_instruction(program, lane, 0);
    lemma_next_instruction(program, lane, 1);
    lemma_next_instruction(program, lane, 33);
    lemma_next_instruction(program, lane, 65);
    lemma_next_instruction(program, lane, 97);
    assert(wave(program, lane, 129) =~= steady(false, 129));
}

/// The slots of the bits `k..16`, one after another; after them the machine
/// stands before the jump to `reset`.
pub proof fn lemma_slots(pin_setup: bool, lane: Lane, k: int)
    requires
        0 <= k < FRAME_BITS,
        at_slot(lane.machine, pin_setup, k),
    ensures
        ({
            let program = dshot_program(pin_setup);
            let cycles = ((FRAME_BITS - k) * SLOT_CYCLES) as nat;
            let after = run(program, lane, cycles);
            &&& wave(program, lane, cycles) == slots_from(payload_of(lane.machine.word), k)
            &&& at_frame_end(after.machine, pin_setup)
            &&& after.pending == lane.pending
            &&& after.machine.word == lane.machine.word
        }),
    decreases FRAME_BITS - k,
{
    let program = dshot_program(pin_setup);
    let payload = payload_of(lane.machine.word);
    let rest = ((FRAME_BITS - k - 1) * SLOT_CYCLES) as nat;
    let next = run(program, lane, SLOT_CYCLES as nat);
    lemma_slot(pin_setup, lane, k);
    lemma_run_split(program, lane, SLOT_CYCLES as nat, rest);
    assert(SLOT_CYCLES as nat + rest == ((FRAME_BITS - k) * SLOT_CYCLES) as nat);
    if k < FRAME_BITS - 1 {
        lemma_slots(pin_setup, next, k + 1);
    } else {
        assert(run(program, next, rest) == next);
        assert(wave(program, next, rest) =~= slots_from(payload, k + 1));
    }
}

/// **A frame.** A machine that waits at `entry` with a word pending takes
/// the word and shows the frame of its payload: `LEAD_CYCLES` low, sixteen
/// slots of `SLOT_CYCLES` each with the bits from the most significant
/// down, `GAP_CYCLES` low. `FRAME_CYCLES` cycles on it waits at `entry`
/// again, and the other pending words are as they were.
pub proof fn lemma_frame(pin_setup: bool, lane: Lane)
    requires
        idle_at_entry(lane.machine, pin_setup),
        lane.pending.len() > 0,
    ensures
        ({
            let program = dshot_program(pin_setup);
            let after = run(program, lane, FRAME_CYCLES as nat);
            &&& wave(program, lane, FRAME_CYCLES as nat) == frame_wave(payload_of(lane.pending[0]))
            &&& idle_at_entry(after.machine, pin_setup)
            &&& after.pending == lane.pending.drop_first()
        }),
{
    let program = dshot_program(pin_setup);
    let payload = payload_of(lane.pending[0]);
    let train = (FRAME_BITS * SLOT_CYCLES) as nat;
    lemma_lead_in(pin_setup, lane);
    let first = run(program, lane, LEAD_CYCLES as nat);
    lemma_slots(pin_setup, first, 0);
    let last = run(program, first, train);
    lemma_gap(pin_setup, last);
    lemma_run_split(program, lane, LEAD_CYCLES as nat, train);
    lemma_run_split(program, lane, LEAD_CYCLES as nat + train, GAP_CYCLES as nat);
    assert(LEAD_CYCLES as nat + train + GAP_CYCLES as nat == FRAME_CYCLES as nat);
}

/// **No word, no pulse.** A machine that waits at `entry` with nothing
/// pending waits on, its pin low, for as long as nothing is submitted.
pub proof fn lemma_waiting(pin_setup: bool, lane: Lane, cycles: nat)
    requires
        idle_at_entry(lane.machine, pin_setup),
        lane.pending.len() == 0,
    ensures
        run(dshot_program(pin_setup), lane, cycles) == lane,
        wave(dshot_program(pin_setup), lane, cycles) == steady(false, cycles),
    decreases cycles,
{
    let program = dshot_program(pin_setup);
    if cycles > 0 {
        assert(step(program, lane) == lane);
        lemma_waiting(pin_setup, lane, (cycles - 1) as nat);
    }
    assert(wave(program, lane, cycles) =~= steady(false, cycles));
}

/// **First in, first out.** A machine that waits at `entry` sends the
/// pending words as frames in the order in which they were submitted, one
/// every `FRAME_CYCLES` cycles, and waits at `entry` when the queue is
/// empty.
pub proof fn lemma_frames_in_order(pin_setup: bool, lane: Lane)
    requires
        idle_at_entry(lane.machine, pin_setup),
    ensures
        ({
            let program = dshot_program(pin_setup);
            let cycles = lane.pending.len() * FRAME_CYCLES as nat;
            let after = run(program, lane, cycles);
            &&& wave(program, lane, cycles) == frames_wave(lane.pending)
            &&& idle_at_entry(after.machine, pin_setup)
            &&& after.pending.len() == 0
        }),
    decreases lane.pending.len(),
{
    let program = dshot_program(pin_setup);
    let count = lane.pending.len();
    if count == 0 {
        assert(wave(program, lane, 0) =~= frames_wave(lane.pending));
    } else {
        lemma_frame(pin_setup, lane);
        let next = run(program, lane, FRAME_CYCLES as nat);
        lemma_frames_in_order(pin_setup, next);
        let rest = (count - 1) as nat * FRAME_CYCLES as nat;
        lemma_run_split(program, lane, FRAME_CYCLES as nat, rest);
        assert(FRAME_CYCLES as nat + rest == count * FRAME_CYCLES as nat) by (nonlinear_arith)
            requires
                rest == (count - 1) as nat * FRAME_CYCLES as nat,
                count > 0,
        ;
    }
}

/// **Start.** A machine started on the DShot program reaches `entry` with
/// its pin a low output: at once where the set-up made the pin an output,
/// after the one cycle in which the program does so otherwise.
pub proof fn lemma_start(pin_setup: bool, lane: Lane)
    requires
        lane.machine == crate::machine::started_machine(!pin_setup),
    ensures
        ({
            let program = dshot_program(pin_setup);
            let cycles = dshot_entry(pin_setup) as nat;
            let after = run(program, lane, cycles);
            &&& wave(program, lane, cycles) == steady(false, cycles)
            &&& idle_at_entry(after.machine, pin_setup)
            &&& after.pending == lane.pending
        }),
{
    let program = dshot_program(pin_setup);
    assert(run(program, lane, 0) == lane);
    if pin_setup {
        lemma_next_instruction(program, lane, 0);
        assert(wave(program, lane, 1) =~= steady(false, 1));
    } else {
        assert(wave(program, lane, 0) =~= steady(false, 0));
    }
}

} // verus!

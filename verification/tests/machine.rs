use dshot_pio::machine::StateMachine;
use dshot_pio::program::WaveformProgram;
use dshot_pio::queue::TransmitQueue;
use dshot_pio::wave::{pack, reference_wave};

fn run(
    machine: &mut StateMachine,
    program: &WaveformProgram,
    queue: &mut TransmitQueue,
    cycles: usize,
) -> Vec<bool> {
    let mut levels = Vec::new();
    for _ in 0..cycles {
        levels.push(machine.advance(program, queue));
    }
    levels
}

#[test]
fn stopped_machine_does_nothing() {
    let program = WaveformProgram::dshot(false);
    let mut queue = TransmitQueue::new(4);
    assert!(queue.submit(pack(0xFFFF)));
    let mut machine = StateMachine::stopped();
    let before = machine;
    let levels = run(&mut machine, &program, &mut queue, 600);
    assert!(levels.iter().all(|level| !*level));
    assert_eq!(machine, before);
    assert_eq!(queue.len(), 1);
    assert!(!machine.running);
    assert!(!machine.shows_high());
}

#[test]
fn started_machine_waits_for_a_word() {
    let program = WaveformProgram::dshot(false);
    let mut queue = TransmitQueue::new(4);
    let mut machine = StateMachine::started(true);
    let before = machine;
    let levels = run(&mut machine, &program, &mut queue, 1000);
    assert!(levels.iter().all(|level| !*level));
    assert_eq!(machine, before);
    assert_eq!(machine.pc, 0);
}

#[test]
fn machine_sends_the_frame_of_the_word() {
    let program = WaveformProgram::dshot(false);
    for payload in [0x0000u16, 0xFFFF, 0x0606, 0x02A8, 0x028A, 0x8000, 0x0001, 0xA5A5, 0x1234] {
        let mut queue = TransmitQueue::new(4);
        assert!(queue.submit(pack(payload)));
        let mut machine = StateMachine::started(true);
        let levels = run(&mut machine, &program, &mut queue, 260);
        assert_eq!(levels, reference_wave(payload));
        assert_eq!(machine.pc, 0);
        assert_eq!(machine.delay, 0);
        assert_eq!(queue.len(), 0);
    }
}

#[test]
fn machine_sends_many_payloads_exactly() {
    let program = WaveformProgram::dshot(false);
    let mut queue = TransmitQueue::new(4);
    let mut machine = StateMachine::started(true);
    for payload in (0..=u16::MAX).step_by(61) {
        assert!(queue.submit(pack(payload)));
        let levels = run(&mut machine, &program, &mut queue, 260);
        assert_eq!(levels, reference_wave(payload));
    }
}

#[test]
fn padding_does_not_reach_the_pin() {
    let program = WaveformProgram::dshot(false);
    let mut queue = TransmitQueue::new(4);
    assert!(queue.submit(0x0606_FFFF));
    assert!(queue.submit(0x0606_1234));
    let mut machine = StateMachine::started(true);
    assert_eq!(run(&mut machine, &program, &mut queue, 260), reference_wave(0x0606));
    assert_eq!(run(&mut machine, &program, &mut queue, 260), reference_wave(0x0606));
}

#[test]
fn machine_state_after_a_frame() {
    let program = WaveformProgram::dshot(false);
    let mut queue = TransmitQueue::new(4);
    assert!(queue.submit(pack(0x0607)));
    let mut machine = StateMachine::started(true);
    run(&mut machine, &program, &mut queue, 260);
    assert_eq!(machine.word, 0x0607_0000);
    assert_eq!(machine.consumed, 32);
    assert_eq!(machine.counter, u32::MAX);
    assert!(machine.bit);
    assert!(!machine.pin_high);
    assert!(machine.pin_output);
    assert!(machine.running);
}

#[test]
fn machine_register_steps_through_the_lead_in() {
    let program = WaveformProgram::dshot(false);
    let mut queue = TransmitQueue::new(4);
    assert!(queue.submit(pack(0x8000)));
    let mut machine = StateMachine::started(true);
    assert!(!machine.advance(&program, &mut queue));
    assert_eq!((machine.pc, machine.consumed, machine.word), (1, 0, 0x8000_0000));
    assert!(!machine.advance(&program, &mut queue));
    assert_eq!((machine.pc, machine.consumed), (2, 16));
    assert!(!machine.advance(&program, &mut queue));
    assert_eq!((machine.pc, machine.counter), (3, 15));
    assert!(machine.advance(&program, &mut queue));
    assert_eq!(machine.pc, 4);
    assert!(machine.advance(&program, &mut queue));
    assert_eq!((machine.pc, machine.consumed, machine.bit), (5, 17, true));
    assert!(machine.advance(&program, &mut queue));
    assert_eq!(machine.pc, 6);
    assert!(machine.advance(&program, &mut queue));
    assert_eq!((machine.pc, machine.delay), (7, 2));
    assert!(machine.advance(&program, &mut queue));
    assert!(machine.advance(&program, &mut queue));
    assert_eq!((machine.pc, machine.delay), (7, 0));
    assert!(!machine.advance(&program, &mut queue));
    assert_eq!(machine.pc, 8);
    assert!(!machine.advance(&program, &mut queue));
    assert_eq!((machine.pc, machine.counter), (3, 14));
}

#[test]
fn program_with_pin_setup_makes_the_pin_an_output_first() {
    let program = WaveformProgram::dshot(true);
    let mut queue = TransmitQueue::new(4);
    assert!(queue.submit(pack(0x0606)));
    let mut machine = StateMachine::started(false);
    assert!(!machine.pin_output);
    assert!(!machine.advance(&program, &mut queue));
    assert!(machine.pin_output);
    assert_eq!(machine.pc, 1);
    assert_eq!(run(&mut machine, &program, &mut queue, 260), reference_wave(0x0606));
    assert_eq!(machine.pc, 1);
}

#[test]
fn pin_that_is_no_output_shows_nothing() {
    let program = WaveformProgram::dshot(false);
    let mut queue = TransmitQueue::new(4);
    assert!(queue.submit(pack(0xFFFF)));
    let mut machine = StateMachine::started(false);
    let levels = run(&mut machine, &program, &mut queue, 260);
    assert!(levels.iter().all(|level| !*level));
    assert_eq!(queue.len(), 0);
}

#[test]
fn frames_follow_one_another_every_260_cycles() {
    let program = WaveformProgram::dshot(false);
    let mut queue = TransmitQueue::new(4);
    let payloads = [0x02A8u16, 0x028A, 0x0606, 0xFFFF];
    for payload in payloads {
        assert!(queue.submit(pack(payload)));
    }
    let mut machine = StateMachine::started(true);
    let levels = run(&mut machine, &program, &mut queue, 4 * 260);
    let mut expected = Vec::new();
    for payload in payloads {
        expected.extend(reference_wave(payload));
    }
    assert_eq!(levels, expected);
    let idle = run(&mut machine, &program, &mut queue, 500);
    assert!(idle.iter().all(|level| !*level));
}

#[test]
fn word_submitted_late_starts_its_frame_when_it_comes() {
    let program = WaveformProgram::dshot(false);
    let mut queue = TransmitQueue::new(4);
    let mut machine = StateMachine::started(true);
    let idle = run(&mut machine, &program, &mut queue, 77);
    assert!(idle.iter().all(|level| !*level));
    assert!(queue.submit(pack(0x1234)));
    assert_eq!(run(&mut machine, &program, &mut queue, 260), reference_wave(0x1234));
}

/// A sender that knows nothing of instructions: it waits, takes a word, and
/// plays the waveform of its frame for 260 cycles.
struct Sender {
    pending: std::collections::VecDeque<u32>,
    playing: Option<(Vec<bool>, usize)>,
}

impl Sender {
    fn submit(&mut self, word: u32) -> bool {
        if self.pending.len() < 4 {
            self.pending.push_back(word);
            true
        } else {
            false
        }
    }

    fn advance(&mut self) -> bool {
        if self.playing.is_none() {
            if let Some(word) = self.pending.pop_front() {
                self.playing = Some((reference_wave((word >> 16) as u16), 0));
            }
        }
        match self.playing.take() {
            Some((frame, at)) => {
                let level = frame[at];
                if at + 1 < frame.len() {
                    self.playing = Some((frame, at + 1));
                }
                level
            }
            None => false,
        }
    }
}

/// A small generator of numbers that look random and are the same each run.
fn scramble(state: &mut u64) -> u64 {
    *state = state.wrapping_mul(6364136223846793005).wrapping_add(1442695040888963407);
    *state >> 33
}

#[test]
fn machine_follows_the_sender_at_any_cadence() {
    let program = WaveformProgram::dshot(false);
    for seed in 1..=20u64 {
        let mut state = seed;
        let mut queue = TransmitQueue::new(4);
        let mut machine = StateMachine::started(true);
        let mut sender = Sender { pending: Default::default(), playing: None };
        let density = 20 + 40 * seed;
        for _ in 0..20_000 {
            if scramble(&mut state) % density == 0 {
                let word = scramble(&mut state) as u32;
                assert_eq!(queue.submit(word), sender.submit(word));
            }
            assert_eq!(machine.advance(&program, &mut queue), sender.advance());
            assert_eq!(queue.len(), sender.pending.len());
        }
    }
}

#[test]
fn words_submitted_within_a_frame_wait_for_its_end() {
    let program = WaveformProgram::dshot(false);
    let mut queue = TransmitQueue::new(4);
    let mut machine = StateMachine::started(true);
    assert!(queue.submit(pack(0xAAAA)));
    let mut levels = Vec::new();
    for cycle in 0..520 {
        if cycle == 1 || cycle == 100 {
            assert!(queue.submit(pack(0x5555)));
        }
        levels.push(machine.advance(&program, &mut queue));
    }
    let mut expected = reference_wave(0xAAAA);
    expected.extend(reference_wave(0x5555));
    assert_eq!(levels, expected);
    assert_eq!(queue.len(), 1);
}

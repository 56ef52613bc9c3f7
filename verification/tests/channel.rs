use dshot_pio::channel::{Channel, ChannelConfig, ClockDivisor, ShiftDirection};
use dshot_pio::program::WaveformProgram;
use dshot_pio::wave::{pack, reference_wave};

#[test]
fn divisor_scale() {
    assert_eq!(ClockDivisor { integer: 1, fraction: 0 }.ticks_256(), 256);
    assert_eq!(ClockDivisor { integer: 26, fraction: 11 }.ticks_256(), 6667);
    assert_eq!(ClockDivisor { integer: 65535, fraction: 255 }.ticks_256(), 65535 * 256 + 255);
    assert_eq!(ClockDivisor { integer: 0, fraction: 0 }.ticks_256(), 65536 * 256);
}

#[test]
fn bit_rates_on_a_125_mhz_clock() {
    let clock = 125_000_000;
    assert_eq!(ClockDivisor { integer: 1, fraction: 0 }.bit_rate_hz(clock), 15_625_000);
    assert_eq!(ClockDivisor { integer: 13, fraction: 5 }.bit_rate_hz(clock), 1_200_120);
    assert_eq!(ClockDivisor { integer: 26, fraction: 11 }.bit_rate_hz(clock), 599_970);
    assert_eq!(ClockDivisor { integer: 52, fraction: 21 }.bit_rate_hz(clock), 300_007);
    assert_eq!(ClockDivisor { integer: 104, fraction: 43 }.bit_rate_hz(clock), 149_998);
    assert_eq!(ClockDivisor { integer: 0, fraction: 0 }.bit_rate_hz(clock), 238);
    assert_eq!(ClockDivisor { integer: 1, fraction: 0 }.bit_rate_hz(u32::MAX), u32::MAX / 8);
    assert_eq!(ClockDivisor { integer: 1, fraction: 0 }.bit_rate_hz(0), 0);
}

#[test]
fn smaller_divisor_gives_faster_bits() {
    let clock = 125_000_000;
    let divisors = [(1u16, 0u8), (1, 1), (13, 5), (26, 11), (26, 12), (52, 21), (104, 43), (65535, 255), (0, 0)];
    for pair in divisors.windows(2) {
        let fast = ClockDivisor { integer: pair[0].0, fraction: pair[0].1 };
        let slow = ClockDivisor { integer: pair[1].0, fraction: pair[1].1 };
        assert!(fast.ticks_256() < slow.ticks_256());
        assert!(fast.bit_rate_hz(clock) >= slow.bit_rate_hz(clock));
    }
}

#[test]
fn dshot_settings() {
    let config = ChannelConfig::dshot(7, (26, 11));
    assert_eq!(config.pin, 7);
    assert_eq!(config.clock_divisor, ClockDivisor { integer: 26, fraction: 11 });
    assert_eq!(config.shift_direction, ShiftDirection::MsbFirst);
    assert_eq!(config.pull_threshold, 32);
    assert!(config.autopull);
}

#[test]
fn settings_take_any_divisor_as_given() {
    for divisor in [(0u16, 0u8), (0, 255), (1, 0), (65535, 255)] {
        let config = ChannelConfig::dshot(255, divisor);
        assert_eq!(config.clock_divisor, ClockDivisor { integer: divisor.0, fraction: divisor.1 });
        assert_eq!(config.pin, 255);
    }
}

#[test]
fn unused_channel_never_moves() {
    let program = WaveformProgram::dshot(false);
    let mut channel = Channel::unused(&program);
    assert_eq!(channel.config(), None);
    assert_eq!(channel.pending(), 0);
    let before = channel.machine();
    for _ in 0..1000 {
        assert!(!channel.advance(&program));
    }
    assert_eq!(channel.machine(), before);
    assert!(!channel.shows_high());
}

#[test]
fn started_channel_sends_what_is_submitted() {
    let program = WaveformProgram::dshot(false);
    let config = ChannelConfig::dshot(3, (26, 11));
    let mut channel = Channel::start(&program, config, true);
    assert_eq!(channel.config(), Some(config));
    assert!(channel.machine().running);
    assert!(channel.submit(pack(0x0606)));
    assert_eq!(channel.pending(), 1);
    let mut levels = Vec::new();
    for _ in 0..260 {
        levels.push(channel.advance(&program));
    }
    assert_eq!(levels, reference_wave(0x0606));
    assert_eq!(channel.pending(), 0);
}

#[test]
fn channel_queue_holds_four_words() {
    let program = WaveformProgram::dshot(false);
    let mut channel = Channel::start(&program, ChannelConfig::dshot(3, (1, 0)), true);
    for n in 0..4 {
        assert!(channel.submit(n));
    }
    assert!(!channel.submit(4));
    assert_eq!(channel.pending(), 4);
}

use dshot_pio::wave::{
    pack, reference_wave, unpack, FRAME_CYCLES, GAP_CYCLES, HIGH_CYCLES_ONE, HIGH_CYCLES_ZERO,
    LEAD_CYCLES, MIN_GAP_CYCLES, SLOT_CYCLES,
};

/// The frame of `payload`, built slot by slot from the timing of the protocol.
fn expected_frame(payload: u16) -> Vec<bool> {
    let mut levels = vec![false; 3];
    for k in 0..16 {
        let bit = payload & (0x8000 >> k) != 0;
        let high = if bit { 6 } else { 3 };
        for i in 0..8 {
            levels.push(i < high);
        }
    }
    levels.extend(vec![false; 129]);
    levels
}

#[test]
fn timing_constants() {
    assert_eq!(SLOT_CYCLES, 8);
    assert_eq!(HIGH_CYCLES_ONE, 6);
    assert_eq!(HIGH_CYCLES_ZERO, 3);
    assert_eq!(LEAD_CYCLES, 3);
    assert_eq!(GAP_CYCLES, 129);
    assert_eq!(MIN_GAP_CYCLES, 16 * SLOT_CYCLES);
    assert!(GAP_CYCLES >= MIN_GAP_CYCLES);
    assert_eq!(FRAME_CYCLES, LEAD_CYCLES + 16 * SLOT_CYCLES + GAP_CYCLES);
    assert_eq!(FRAME_CYCLES, 260);
}

#[test]
fn pack_puts_payload_in_upper_half() {
    assert_eq!(pack(0x0000), 0x0000_0000);
    assert_eq!(pack(0x0001), 0x0001_0000);
    assert_eq!(pack(0x0606), 0x0606_0000);
    assert_eq!(pack(0x1234), 0x1234_0000);
    assert_eq!(pack(0xFFFF), 0xFFFF_0000);
}

#[test]
fn unpack_reads_upper_half() {
    assert_eq!(unpack(0x0000_0000), 0x0000);
    assert_eq!(unpack(0x0606_0000), 0x0606);
    assert_eq!(unpack(0xABCD_1234), 0xABCD);
    assert_eq!(unpack(0x0000_FFFF), 0x0000);
}

#[test]
fn unpack_undoes_pack_for_every_payload() {
    for payload in 0..=u16::MAX {
        assert_eq!(unpack(pack(payload)), payload);
    }
}

#[test]
fn reference_wave_of_zero_payload() {
    let wave = reference_wave(0x0000);
    assert_eq!(wave.len(), 260);
    assert_eq!(wave.iter().filter(|level| **level).count(), 16 * 3);
    assert_eq!(wave, expected_frame(0x0000));
}

#[test]
fn reference_wave_of_all_ones() {
    let wave = reference_wave(0xFFFF);
    assert_eq!(wave.len(), 260);
    assert_eq!(wave.iter().filter(|level| **level).count(), 16 * 6);
    assert_eq!(wave, expected_frame(0xFFFF));
}

#[test]
fn reference_wave_sends_most_significant_bit_first() {
    let wave = reference_wave(0x8000);
    let first: Vec<bool> = wave[3..11].to_vec();
    let second: Vec<bool> = wave[11..19].to_vec();
    assert_eq!(first, vec![true, true, true, true, true, true, false, false]);
    assert_eq!(second, vec![true, true, true, false, false, false, false, false]);
    let wave = reference_wave(0x0001);
    let last: Vec<bool> = wave[3 + 15 * 8..3 + 16 * 8].to_vec();
    assert_eq!(last, vec![true, true, true, true, true, true, false, false]);
}

#[test]
fn reference_wave_slots_have_one_length_whatever_the_bit() {
    for payload in [0x0000u16, 0xFFFF, 0x0606, 0xA5A5, 0x5A5A, 0x8001, 0x7FFE] {
        let wave = reference_wave(payload);
        for k in 0..16 {
            let slot = &wave[3 + 8 * k..3 + 8 * (k + 1)];
            let bit = payload & (0x8000 >> k) != 0;
            let high = slot.iter().take_while(|level| **level).count();
            let low = slot.iter().skip(high).take_while(|level| !**level).count();
            assert_eq!(high, if bit { 6 } else { 3 });
            assert_eq!(high + low, 8);
        }
        assert!(wave[..3].iter().all(|level| !*level));
        assert!(wave[131..].iter().all(|level| !*level));
        assert_eq!(wave.len() - 131, 129);
    }
}

#[test]
fn reference_wave_matches_slot_by_slot_construction() {
    for payload in (0..=u16::MAX).step_by(257) {
        assert_eq!(reference_wave(payload), expected_frame(payload));
    }
}

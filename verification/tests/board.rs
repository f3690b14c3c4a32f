use rp_display::board::{
    battery_millivolts, pio_clock_divider, ADC_FULL_SCALE, BATTERY_FULL_SCALE_MV,
    MAX_PIO_CLOCK_HZ,
};

#[test]
fn divider_rounds_up_to_stay_under_the_limit() {
    assert_eq!(pio_clock_divider(125_000_000), 4);
    assert_eq!(pio_clock_divider(133_000_000), 5);
    assert_eq!(pio_clock_divider(32_000_000), 1);
    assert_eq!(pio_clock_divider(32_000_001), 2);
    assert_eq!(pio_clock_divider(31_999_999), 1);
    assert_eq!(pio_clock_divider(64_000_000), 2);
    assert_eq!(pio_clock_divider(1), 1);
}

#[test]
fn divider_edge_cases() {
    assert_eq!(pio_clock_divider(0), 0);
    assert_eq!(pio_clock_divider(u32::MAX - MAX_PIO_CLOCK_HZ), 134);
}

#[test]
fn divider_is_the_smallest_that_fits() {
    for freq in [1u32, 12_000_000, 48_000_000, 96_000_001, 250_000_000, 4_000_000_000] {
        let d = pio_clock_divider(freq) as u64;
        assert!(d * MAX_PIO_CLOCK_HZ as u64 >= freq as u64);
        assert!((d - 1) * (MAX_PIO_CLOCK_HZ as u64) < freq as u64);
    }
}

#[test]
fn battery_reading_scales_to_millivolts() {
    assert_eq!(battery_millivolts(0), 0);
    assert_eq!(battery_millivolts(1), 2);
    assert_eq!(battery_millivolts(1000), 2416);
    assert_eq!(battery_millivolts(2048), 4950);
    assert_eq!(battery_millivolts(4095), 9897);
    assert_eq!(battery_millivolts(4096), 9900);
    assert_eq!(ADC_FULL_SCALE, 4096);
    assert_eq!(BATTERY_FULL_SCALE_MV, 9900);
}

#[test]
fn battery_reading_beyond_full_scale_is_cut_to_16_bits() {
    assert_eq!(battery_millivolts(65535), 27325);
}

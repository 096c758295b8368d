//! The baud-rate estimator, with its statistics in floating point around it.

use rustprobe::autobaud_estimator::{raw_to_cycles, BaudEstimator, FrequencyTable, SampleClass};

/// PIO clock the firmware runs autobaud at.
const CLOCK_HZ: u32 = 125_000_000;

const MIN_FREQUENCY: f32 = 0.05;

const VALIDITY_THRESHOLD: f32 = 0.6;

#[derive(Clone, Copy, Debug, PartialEq)]
struct Estimate {
    baud: u32,
    validity: f32,
}

/// The estimator with its thresholds.
struct Estimator {
    core: BaudEstimator,
    baud: f32,
}

impl Estimator {
    fn new(clock_hz: u32) -> Self {
        Estimator { core: BaudEstimator::new(clock_hz), baud: 0.0 }
    }

    fn baud_changed(&self, new_baud: f32) -> bool {
        let hi = (self.baud * 1.005) as u32;
        let lo = (self.baud * 0.995) as u32;
        let new = new_baud as u32;
        new > hi || new < lo
    }

    fn push(&mut self, raw: u32) -> Option<Estimate> {
        assert!(self.core.accepts(raw));
        let sample = self.core.observe(raw);
        let frequent = !(sample.count as f32 / (sample.total as f32) < MIN_FREQUENCY);
        let SampleClass::Candidate { excess, min_cycles } =
            self.core.classify(sample.cycles, frequent)
        else {
            return None;
        };
        if !((excess as f32) < min_cycles as f32 * 0.1) {
            return None;
        }
        let bits = self.core.one_bit(sample.cycles);
        let new_baud = self.core.clock_hz() as f32 / (bits.sum as f32 / bits.count as f32);
        if !self.baud_changed(new_baud) {
            return None;
        }
        let completeness = 1.0 - libm::expf(-(bits.total as f32) / 40.0);
        let noise_ratio = bits.outliers as f32 / bits.count as f32;
        let doubled = noise_ratio * 2.0;
        let consistency = 1.0 - if doubled < 1.0 { doubled } else { 1.0 };
        let validity = completeness * consistency;
        if validity > VALIDITY_THRESHOLD {
            self.baud = new_baud;
            return Some(Estimate { baud: libm::roundf(new_baud) as u32, validity });
        }
        None
    }

    fn push_batch(&mut self, raws: &[u32]) -> Option<Estimate> {
        let mut last = None;
        for &raw in raws {
            if let Some(est) = self.push(raw) {
                last = Some(est);
            }
        }
        last
    }
}

/// PIO cycles per bit at `baud` on our `CLOCK_HZ` clock.
fn bit_cycles(baud: u32) -> f32 {
    CLOCK_HZ as f32 / baud as f32
}

/// The raw FIFO word for a low pulse of `cycles` PIO clocks.
fn cycles_to_raw(cycles: u32) -> u32 {
    u32::MAX - (cycles / 2)
}

/// The low-pulse-width samples of a byte stream in 8N1 frames at `baud`.
fn frames_to_samples(baud: u32, bytes: &[u8], jitter: i32) -> Vec<u32> {
    let bit = bit_cycles(baud);
    let mut samples = Vec::new();
    let mut wobble: i32 = 0;
    for &b in bytes {
        let mut bits = [true; 10];
        bits[0] = false; // start bit is low
        for i in 0..8 {
            bits[1 + i] = (b >> i) & 1 != 0;
        }
        bits[9] = true; // stop bit is high
        let mut run = 0u32;
        for &high in &bits {
            if !high {
                run += 1;
            } else if run > 0 {
                let j = if jitter == 0 { 0 } else { (wobble % (2 * jitter + 1)) - jitter };
                wobble = wobble.wrapping_add(1);
                let width = (run as f32 * bit).round() as i32 + j;
                samples.push(cycles_to_raw(width.max(2) as u32));
                run = 0;
            }
        }
    }
    samples
}

#[test]
fn clean_single_bit_stream_115200() {
    let mut est = Estimator::new(CLOCK_HZ);
    let bytes = [0xFFu8; 200];
    let samples = frames_to_samples(115_200, &bytes, 0);
    let est_result = est.push_batch(&samples).expect("should publish");
    let err = (est_result.baud as f32 - 115_200.0).abs() / 115_200.0;
    assert!(err < 0.005, "baud {} off by {:.4}", est_result.baud, err);
    assert!(est_result.validity > 0.6);
}

#[test]
fn mixed_data_within_half_percent() {
    let msg = b"Hello, world! The quick brown fox jumps over 0123456789.\r\n";
    let mut bytes = Vec::new();
    for _ in 0..40 {
        bytes.extend_from_slice(msg);
    }
    for &baud in &[9600u32, 19200, 57600, 115_200, 230_400, 921_600] {
        let mut est = Estimator::new(CLOCK_HZ);
        let samples = frames_to_samples(baud, &bytes, 1);
        let est_result = est
            .push_batch(&samples)
            .unwrap_or_else(|| panic!("no estimate at baud {baud}"));
        let err = (est_result.baud as f32 - baud as f32).abs() / baud as f32;
        assert!(err < 0.005, "baud {baud}: estimated {} off by {:.4}", est_result.baud, err);
    }
}

#[test]
fn noise_does_not_publish() {
    let mut est = Estimator::new(CLOCK_HZ);
    let mut published = None;
    for i in 0..300u32 {
        let width = 100 + (i.wrapping_mul(2_654_435_761) % 4000);
        if let Some(e) = est.push(cycles_to_raw(width)) {
            published = Some(e);
        }
    }
    assert!(published.is_none(), "noise produced {published:?}");
}

#[test]
fn zero_cycle_sample_is_dropped() {
    let mut est = Estimator::new(CLOCK_HZ);
    assert_eq!(est.push(u32::MAX), None);
    assert_eq!(est.core.get_count(0), 0);
}

#[test]
fn raw_cycle_roundtrip() {
    for &c in &[2u32, 100, 1085, 13020, 65536] {
        assert_eq!(raw_to_cycles(cycles_to_raw(c)), c & !1);
    }
}

#[test]
fn wide_pulses_wrap() {
    assert_eq!(raw_to_cycles(u32::MAX), 0);
    assert_eq!(raw_to_cycles(0x7FFF_FFFF), 0);
    assert_eq!(raw_to_cycles(0), u32::MAX - 1);
    assert_eq!(raw_to_cycles(0x7FFF_FFFE), 2);
}

#[test]
fn table_counts_occurrences() {
    let mut table = FrequencyTable::new();
    for round in 1..=3u32 {
        for key in 1..=400u32 {
            table.insert(key * 1000);
            assert_eq!(table.get_count(key * 1000), round);
        }
    }
    assert_eq!(table.get_count(7), 0);
    assert!(table.is_searchable(7));
    for key in 401..=500u32 {
        table.insert(key * 1000);
    }
    // All 500 slots are taken.
    assert!(!table.is_searchable(7));
    assert!(table.is_searchable(500_000));
    assert_eq!(table.get_count(1000), 3);
    assert_eq!(table.get_count(500_000), 1);
}

#[test]
fn samples_are_classified() {
    let mut est = BaudEstimator::new(CLOCK_HZ);
    let first = est.observe(cycles_to_raw(1000));
    assert_eq!((first.cycles, first.count, first.total), (1000, 1, 1));
    assert_eq!(est.classify(1000, false), SampleClass::Noise);
    assert_eq!(est.classify(1000, true), SampleClass::NewMinimum);
    let second = est.observe(cycles_to_raw(1050));
    assert_eq!((second.count, second.total), (1, 2));
    assert_eq!(
        est.classify(1050, true),
        SampleClass::Candidate { excess: 50, min_cycles: 1000 }
    );
    let bits = est.one_bit(1050);
    assert_eq!((bits.sum, bits.count, bits.outliers, bits.total), (1050, 1, 0, 2));
    // A pulse of more than nine times the length makes the bits implausible.
    est.observe(cycles_to_raw(10_000));
    let bits = est.one_bit(1050);
    assert_eq!((bits.sum, bits.count, bits.outliers, bits.total), (2100, 2, 1, 3));
    // A new minimum starts over.
    assert_eq!(est.classify(500, true), SampleClass::NewMinimum);
    let bits = est.one_bit(500);
    assert_eq!((bits.sum, bits.count, bits.outliers), (500, 1, 1));
}

#[test]
fn reset_forgets_everything() {
    let mut est = BaudEstimator::new(1234);
    est.observe(cycles_to_raw(1000));
    est.classify(1000, true);
    est.reset();
    assert_eq!(est.clock_hz(), 1234);
    assert_eq!(est.get_count(1000), 0);
    assert_eq!(est.observe(cycles_to_raw(1000)).total, 1);
    assert_eq!(est.classify(2000, true), SampleClass::NewMinimum);
}

#[test]
fn zero_widths_are_never_counted() {
    let mut est = BaudEstimator::new(CLOCK_HZ);
    for raw in [u32::MAX, 0x7FFF_FFFF, u32::MAX - 4, u32::MAX] {
        assert!(est.accepts(raw));
        est.observe(raw);
    }
    assert_eq!(est.get_count(0), 0);
    assert_eq!(est.get_count(8), 1);
}

#[test]
fn a_reset_estimator_is_like_new() {
    let mut used = BaudEstimator::new(CLOCK_HZ);
    for raw in 0..300u32 {
        used.observe(u32::MAX - 2 * raw);
    }
    used.reset();
    let mut fresh = BaudEstimator::new(CLOCK_HZ);
    assert_eq!(used.clock_hz(), fresh.clock_hz());
    assert_eq!(used.get_count(40), 0);
    for raw in [u32::MAX - 20, u32::MAX - 20, u32::MAX - 9, u32::MAX - 21, u32::MAX - 9] {
        let a = used.observe(raw);
        let b = fresh.observe(raw);
        assert_eq!((a.cycles, a.count, a.total), (b.cycles, b.count, b.total));
        assert_eq!(used.classify(a.cycles, true), fresh.classify(b.cycles, true));
        let a = used.one_bit(a.cycles);
        let b = fresh.one_bit(b.cycles);
        assert_eq!(
            (a.sum, a.count, a.outliers, a.total),
            (b.sum, b.count, b.outliers, b.total)
        );
    }
}

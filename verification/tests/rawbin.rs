use sismokaos::rawbin::{f32_bits_is_nan, SampleLayout};

fn bits(v: &[f64]) -> Vec<u32> {
    v.iter().map(|&x| (x as f32).to_bits()).collect()
}

fn decode(bytes: &[u8]) -> Vec<f32> {
    bytes
        .chunks_exact(4)
        .map(|b| f32::from_le_bytes(b.try_into().unwrap()))
        .collect()
}

/// The continuation rule the writer applies: within half a sample of where
/// the last segment would have reached.
fn continues(layout: &SampleLayout<f64>, fs: f64, start_epoch: f64) -> bool {
    match layout.last_segment() {
        Some(s) => {
            let expected = s.start_epoch + (layout.samples() - s.sample_offset) as f64 / fs;
            (start_epoch - expected).abs() < 0.5 / fs
        }
        None => false,
    }
}

fn write(layout: &mut SampleLayout<f64>, e: &[f64], n: &[f64], z: &[f64], fs: f64, t: f64) -> Vec<u8> {
    let c = continues(layout, fs, t);
    layout.write_chunk(&bits(e), &bits(n), &bits(z), c, t)
}

#[test]
fn round_trips_values_and_records_one_segment_when_contiguous() {
    let mut w: SampleLayout<f64> = SampleLayout::new();
    let mut file = Vec::new();
    file.extend(write(&mut w, &[1.0, 2.0], &[3.0, 4.0], &[5.0, 6.0], 5.0, 1000.0));
    file.extend(write(&mut w, &[7.0], &[8.0], &[9.0], 5.0, 1000.4));
    assert_eq!(w.samples(), 3);
    assert_eq!(file.len(), 3 * 3 * 4);
    assert_eq!(decode(&file), vec![1.0, 3.0, 5.0, 2.0, 4.0, 6.0, 7.0, 8.0, 9.0]);
    assert_eq!(w.segments().len(), 1);
}

#[test]
fn opens_a_new_segment_across_a_time_gap() {
    let mut w: SampleLayout<f64> = SampleLayout::new();
    write(&mut w, &[1.0], &[1.0], &[1.0], 5.0, 1000.0);
    write(&mut w, &[2.0], &[2.0], &[2.0], 5.0, 4600.0);
    assert_eq!(w.segments().len(), 2);
    assert_eq!(w.segments()[1].sample_offset, 1);
    assert_eq!(w.segments()[1].start_epoch, 4600.0);
}

#[test]
fn nan_survives_and_is_counted() {
    let mut w: SampleLayout<f64> = SampleLayout::new();
    let bytes = write(&mut w, &[f64::NAN, 1.0], &[1.0, 1.0], &[1.0, f64::NAN], 5.0, 0.0);
    let vals = decode(&bytes);
    assert!(vals[0].is_nan(), "leading NaN must survive the f32 cast");
    assert!(vals[5].is_nan());
    assert_eq!(w.nan_counts(), (1, 0, 1));
}

#[test]
fn empty_chunk_changes_nothing() {
    let mut w: SampleLayout<f64> = SampleLayout::new();
    let b = w.write_chunk(&[], &bits(&[1.0]), &bits(&[1.0]), false, 3.0);
    assert!(b.is_empty());
    assert_eq!(w.samples(), 0);
    assert!(w.segments().is_empty());
    assert!(w.last_segment().is_none());
}

#[test]
fn only_the_common_length_is_written() {
    let mut w: SampleLayout<f64> = SampleLayout::new();
    let b = write(&mut w, &[1.0, 2.0, 3.0], &[4.0, 5.0], &[6.0, 7.0, 8.0, 9.0], 5.0, 0.0);
    assert_eq!(decode(&b), vec![1.0, 4.0, 6.0, 2.0, 5.0, 7.0]);
    assert_eq!(w.samples(), 2);
}

#[test]
fn nan_bit_patterns_are_recognised() {
    assert!(f32_bits_is_nan(f32::NAN.to_bits()));
    assert!(f32_bits_is_nan(0x7fc0_0001));
    assert!(f32_bits_is_nan(0xffc0_0000));
    assert!(!f32_bits_is_nan(f32::INFINITY.to_bits()));
    assert!(!f32_bits_is_nan(f32::NEG_INFINITY.to_bits()));
    assert!(!f32_bits_is_nan(1.5f32.to_bits()));
    assert!(!f32_bits_is_nan(0));
    assert!(f32_bits_is_nan((f64::NAN as f32).to_bits()));
}

use solhat::drizzle::{scaled_length, BilinearDrizzle, DrizzleError, Raster, Rotation, Scale};
use solhat::registration::Offset;

fn raster(width: usize, height: usize, num_bands: usize, f: impl Fn(usize) -> i64) -> Raster {
    Raster { width, height, num_bands, samples: (0..width * height * num_bands).map(f).collect() }
}

#[test]
fn scale_one_identity() {
    let frame = raster(7, 5, 3, |i| (i as i64 * 37) % 1001 - 300);
    let mut acc = BilinearDrizzle::new(7, 5, Scale::Scale1_0, 3);
    acc.add(&frame).unwrap();
    let out = acc.get_finalized().unwrap();
    assert_eq!((out.width, out.height, out.num_bands), (7, 5, 3));
    assert_eq!(out.samples, frame.samples);
}

#[test]
fn merged_groups_match_single_accumulator() {
    let frames: Vec<Raster> = (0..5).map(|k| raster(6, 4, 1, move |i| (i as i64 * (k + 3)) % 97)).collect();
    let offsets = [Offset { h: 0, v: 0 }, Offset { h: 1, v: -1 }, Offset { h: -2, v: 0 }, Offset { h: 0, v: 3 }, Offset { h: 5, v: 5 }];
    let rotations = [
        Rotation::identity(),
        Rotation { cos: 56756, sin: 32768 },
        Rotation { cos: 0, sin: 65536 },
        Rotation { cos: -65536, sin: 0 },
        Rotation { cos: 46341, sin: -46341 },
    ];
    let mut whole = BilinearDrizzle::new(6, 4, Scale::Scale1_5, 1);
    for k in 0..5 {
        whole.add_with_transform(&frames[k], offsets[k], rotations[k]).unwrap();
    }
    let template = BilinearDrizzle::new(6, 4, Scale::Scale1_5, 1);
    let mut parts = Vec::new();
    for range in [0..2, 2..3, 3..5] {
        let mut part = BilinearDrizzle::new(6, 4, Scale::Scale1_5, 1);
        for k in range {
            part.add_with_transform(&frames[k], offsets[k], rotations[k]).unwrap();
        }
        parts.push(part);
    }
    let mut merged = template;
    for part in parts.iter().rev() {
        merged.add_drizzle(part).unwrap();
    }
    assert_eq!(merged.get_finalized().unwrap().samples, whole.get_finalized().unwrap().samples);
}

#[test]
fn upscaled_output_interpolates() {
    let frame = Raster { width: 2, height: 1, num_bands: 1, samples: vec![10, 30] };
    let mut acc = BilinearDrizzle::new(2, 1, Scale::Scale2_0, 1);
    acc.add(&frame).unwrap();
    let out = acc.get_finalized().unwrap();
    assert_eq!((out.width, out.height), (4, 2));
    assert_eq!(out.samples, vec![10, 20, 30, 30, 10, 20, 30, 30]);
}

#[test]
fn half_turn_mirrors_frame() {
    let frame = raster(5, 5, 1, |i| i as i64);
    let mut acc = BilinearDrizzle::new(5, 5, Scale::Scale1_0, 1);
    acc.add_with_transform(&frame, Offset { h: 0, v: 0 }, Rotation { cos: -65536, sin: 0 }).unwrap();
    let out = acc.get_finalized().unwrap();
    for y in 0..5 {
        for x in 0..5 {
            assert_eq!(out.samples[y * 5 + x], frame.samples[(4 - y) * 5 + (4 - x)]);
        }
    }
}

#[test]
fn offset_leaves_uncovered_pixels_empty() {
    let frame = raster(4, 4, 1, |_| 100);
    let mut acc = BilinearDrizzle::new(4, 4, Scale::Scale1_0, 1);
    acc.add_with_transform(&frame, Offset { h: -2, v: 0 }, Rotation::identity()).unwrap();
    let out = acc.get_finalized().unwrap();
    for y in 0..4 {
        assert_eq!(&out.samples[y * 4..y * 4 + 4], &[100, 100, 0, 0]);
    }
}

#[test]
fn mono_frame_feeds_every_band() {
    let frame = raster(3, 3, 1, |i| 5 * i as i64);
    let mut acc = BilinearDrizzle::new(3, 3, Scale::Scale1_0, 3);
    acc.add(&frame).unwrap();
    acc.add(&frame).unwrap();
    let out = acc.get_finalized().unwrap();
    for b in 0..3 {
        assert_eq!(&out.samples[b * 9..b * 9 + 9], &frame.samples[..]);
    }
}

#[test]
fn mismatched_inputs_are_refused() {
    let mut acc = BilinearDrizzle::new(4, 4, Scale::Scale1_0, 1);
    assert_eq!(acc.add(&raster(3, 4, 1, |_| 1)), Err(DrizzleError::DimensionMismatch));
    assert_eq!(acc.add(&raster(4, 4, 2, |_| 1)), Err(DrizzleError::DimensionMismatch));
    let other = BilinearDrizzle::new(4, 4, Scale::Scale2_0, 1);
    assert_eq!(acc.add_drizzle(&other), Err(DrizzleError::DimensionMismatch));
}

#[test]
fn empty_accumulator_cannot_finalize() {
    let acc = BilinearDrizzle::new(4, 4, Scale::Scale3_0, 3);
    assert!(matches!(acc.get_finalized(), Err(DrizzleError::NoFrames)));
}

#[test]
fn mean_of_two_frames() {
    let a = raster(2, 2, 1, |_| 10);
    let b = raster(2, 2, 1, |_| 21);
    let mut acc = BilinearDrizzle::new(2, 2, Scale::Scale1_0, 1);
    acc.add(&a).unwrap();
    acc.add(&b).unwrap();
    assert_eq!(acc.get_finalized().unwrap().samples, vec![15, 15, 15, 15]);
    let neg = raster(2, 2, 1, |_| -21);
    let mut acc2 = BilinearDrizzle::new(2, 2, Scale::Scale1_0, 1);
    acc2.add(&neg).unwrap();
    acc2.add(&a).unwrap();
    assert_eq!(acc2.get_finalized().unwrap().samples, vec![-6, -6, -6, -6]);
}

#[test]
fn scale_sizes() {
    assert_eq!(Scale::Scale1_0.halves(), 2);
    assert_eq!(Scale::Scale1_5.halves(), 3);
    assert_eq!(Scale::Scale3_0.halves(), 6);
    let mut acc = BilinearDrizzle::new(5, 3, Scale::Scale1_5, 1);
    acc.add(&raster(5, 3, 1, |_| 1)).unwrap();
    let out = acc.get_finalized().unwrap();
    assert_eq!((out.width, out.height), (8, 5));
}

#[test]
fn center_crop_and_subframe() {
    let img = raster(4, 4, 2, |i| i as i64);
    let c = img.crop(2, 2);
    assert_eq!((c.width, c.height, c.num_bands), (2, 2, 2));
    assert_eq!(c.samples, vec![5, 6, 9, 10, 21, 22, 25, 26]);
    let s = img.get_subframe(1, 2, 3, 1);
    assert_eq!(s.samples, vec![9, 10, 11, 25, 26, 27]);
    let odd = raster(5, 3, 1, |i| i as i64).crop(2, 1);
    assert_eq!(odd.samples, vec![6, 7]);
    assert_eq!(scaled_length(5, Scale::Scale1_5), 8);
    assert_eq!(scaled_length(1200, Scale::Scale2_0), 2400);
}

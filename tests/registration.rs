use solhat::drizzle::Raster;
use solhat::registration::Offset;

fn disc(width: usize, height: usize, cx: i64, cy: i64, r: i64) -> Raster {
    let mut samples = vec![10i64; width * height];
    for y in 0..height {
        for x in 0..width {
            let dx = x as i64 - cx;
            let dy = y as i64 - cy;
            if dx * dx + dy * dy <= r * r {
                samples[y * width + x] = 5000;
            }
        }
    }
    Raster { width, height, num_bands: 1, samples }
}

#[test]
fn disc_off_center_is_pulled_back() {
    let img = disc(100, 100, 60, 45, 8);
    assert_eq!(img.calc_center_of_mass_offset(1000, 0), Offset { h: -10, v: 5 });
}

#[test]
fn centered_disc_needs_no_shift() {
    let img = disc(100, 80, 50, 40, 10);
    assert_eq!(img.calc_center_of_mass_offset(1000, 0), Offset { h: 0, v: 0 });
}

#[test]
fn nothing_bright_gives_no_shift() {
    let img = disc(20, 20, 3, 3, 2);
    assert_eq!(img.calc_center_of_mass_offset(10000, 0), Offset { h: 0, v: 0 });
}

#[test]
fn half_pixel_rounds_away_from_zero() {
    let mut samples = vec![0i64; 9];
    samples[0] = 1;
    let img = Raster { width: 3, height: 3, num_bands: 1, samples };
    assert_eq!(img.calc_center_of_mass_offset(1, 0), Offset { h: 2, v: 2 });
    let mut samples = vec![0i64; 3];
    samples[2] = 1;
    let row = Raster { width: 3, height: 1, num_bands: 1, samples };
    assert_eq!(row.calc_center_of_mass_offset(1, 0), Offset { h: -1, v: 1 });
}

#[test]
fn threshold_uses_requested_band() {
    let mut samples = vec![0i64; 8];
    samples[4 + 3] = 9;
    let img = Raster { width: 2, height: 2, num_bands: 2, samples };
    assert_eq!(img.calc_center_of_mass_offset(5, 0), Offset { h: 0, v: 0 });
    assert_eq!(img.calc_center_of_mass_offset(5, 1), Offset { h: 0, v: 0 });
    let mut samples = vec![0i64; 8];
    samples[4] = 9;
    let img = Raster { width: 2, height: 2, num_bands: 2, samples };
    assert_eq!(img.calc_center_of_mass_offset(5, 1), Offset { h: 1, v: 1 });
}

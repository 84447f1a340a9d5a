use milkdrop_pi::bands::{band_index, build_cell_bins, component_freq_bin, NUM_BANDS};
use milkdrop_pi::components::ComponentInfo;

/// The band by floating-point square roots, as a renderer would compute it.
fn float_band(x: f32, y: f32, width: f32, height: f32) -> usize {
    let nx = (x / width) * 2.0 - 1.0;
    let ny = (y / height) * 2.0 - 1.0;
    let r = (nx * nx + ny * ny).sqrt();
    let mapped = r.sqrt();
    ((mapped * NUM_BANDS as f32) as usize).min(NUM_BANDS - 1)
}

#[test]
fn centre_cell_is_bass() {
    let bins = build_cell_bins(80, 60);
    assert_eq!(bins[30 * 80 + 40], 0);
}

#[test]
fn corners_fall_into_last_band() {
    let bins = build_cell_bins(80, 60);
    assert_eq!(bins[0], NUM_BANDS - 1);
    assert_eq!(bins[59 * 80 + 79], NUM_BANDS - 1);
}

#[test]
fn quarter_distance_is_band_sixteen() {
    // nx = 0.25, ny = 0: (1/16)^(1/4) * 32 = 16.
    let bins = build_cell_bins(80, 60);
    assert_eq!(bins[30 * 80 + 50], 16);
}

#[test]
fn bins_cover_the_grid() {
    assert_eq!(build_cell_bins(80, 60).len(), 4800);
    assert_eq!(build_cell_bins(0, 60).len(), 0);
    assert_eq!(build_cell_bins(80, 0).len(), 0);
}

#[test]
fn row_bands_grow_outward() {
    let bins = build_cell_bins(80, 60);
    let row: Vec<usize> = (40..80).map(|x| bins[30 * 80 + x]).collect();
    let expected = vec![
        0, 5, 7, 8, 10, 11, 12, 13, 14, 15, 16, 16, 17, 18, 18, 19, 20, 20, 21, 22, 22, 23, 23, 24,
        24, 25, 25, 26, 26, 27, 27, 28, 28, 29, 29, 29, 30, 30, 31, 31,
    ];
    assert_eq!(row, expected);
    for w in row.windows(2) {
        assert!(w[0] <= w[1]);
    }
}

#[test]
fn bins_match_float_mapping_off_band_edges() {
    // Cells (34, 24) and (46, 24) lie exactly on the circle where band 16
    // starts (nx² + ny² = 1/16); single-precision rounding lands them just
    // inside it.
    let bins = build_cell_bins(80, 60);
    for y in 0..60 {
        for x in 0..80 {
            let exact = bins[y * 80 + x];
            let float = float_band(x as f32, y as f32, 80.0, 60.0);
            if (x == 34 || x == 46) && y == 24 {
                assert_eq!(exact, 16);
                assert_eq!(float, 15);
            } else {
                assert_eq!(exact, float, "cell ({}, {})", x, y);
            }
        }
    }
}

#[test]
fn component_band_uses_centroid() {
    // Four cells around the centre: centroid (39.5, 29.5).
    let info = ComponentInfo { sum_x: 158, sum_y: 118, count: 4 };
    assert_eq!(component_freq_bin(&info, 80, 60), 4);
    let single = ComponentInfo { sum_x: 50, sum_y: 30, count: 1 };
    assert_eq!(component_freq_bin(&single, 80, 60), 16);
}

#[test]
fn empty_component_counts_as_one_cell() {
    let info = ComponentInfo { sum_x: 0, sum_y: 0, count: 0 };
    assert_eq!(component_freq_bin(&info, 80, 60), NUM_BANDS - 1);
}

#[test]
fn band_index_small_grid() {
    assert_eq!(band_index(7, 3, 1, 8, 4), 30);
    assert_eq!(band_index(3, 0, 5, 8, 4), 31);
    assert_eq!(band_index(4, 2, 1, 8, 4), 0);
}

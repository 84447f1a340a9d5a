use milkdrop_pi::grid::{xorshift_step, Grid, INITIAL_DENSITY_PERCENT, RESPAWN_FILL_PERCENT};

fn grid_from(width: usize, height: usize, alive: &[(usize, usize)]) -> Grid {
    let mut cells = vec![false; width * height];
    for &(x, y) in alive {
        cells[y * width + x] = true;
    }
    Grid::from_cells(width, height, cells).unwrap()
}

fn alive_set(g: &Grid) -> Vec<(usize, usize)> {
    let mut v = Vec::new();
    for y in 0..g.height() {
        for x in 0..g.width() {
            if g.alive(x, y) {
                v.push((x, y));
            }
        }
    }
    v
}

#[test]
fn from_cells_rejects_bad_shapes() {
    assert!(Grid::from_cells(0, 3, vec![]).is_none());
    assert!(Grid::from_cells(2, 2, vec![false; 3]).is_none());
    assert!(Grid::from_cells(2, 2, vec![false; 4]).is_some());
}

#[test]
fn get_wraps_around_both_edges() {
    let g = grid_from(4, 3, &[(0, 0), (3, 2)]);
    assert!(g.get(4, 3));
    assert!(g.get(-1, -1));
    assert!(g.get(-4, 0));
    assert!(!g.get(1, 0));
    assert!(g.get(7, 5));
}

#[test]
fn neighbor_count_counts_toroidal_neighbours() {
    let g = grid_from(5, 5, &[(0, 0), (4, 4), (1, 0), (0, 4)]);
    // (0,0) sees (4,4), (1,0) and (0,4) through the wrap.
    assert_eq!(g.neighbor_count(0, 0), 3);
    assert_eq!(g.neighbor_count(2, 2), 0);
    assert_eq!(g.neighbor_count(1, 1), 2);
}

#[test]
fn blinker_oscillates_when_all_bins_fire() {
    let g = grid_from(5, 5, &[(1, 2), (2, 2), (3, 2)]);
    let bins = vec![0usize; 25];
    let next = g.partial_step(&bins, &[true]);
    assert_eq!(alive_set(&next), vec![(2, 1), (2, 2), (2, 3)]);
    let back = next.partial_step(&bins, &[true]);
    assert_eq!(alive_set(&back), vec![(1, 2), (2, 2), (3, 2)]);
}

#[test]
fn partial_step_leaves_unfired_cells_alone() {
    let g = grid_from(5, 5, &[(1, 2), (2, 2), (3, 2)]);
    // Column 2 uses bin 1, everything else bin 0; only bin 0 fires.
    let bins: Vec<usize> = (0..25).map(|i| if i % 5 == 2 { 1 } else { 0 }).collect();
    let next = g.partial_step(&bins, &[true, false]);
    // (1,2) and (3,2) die (one neighbour each); column 2 is frozen.
    assert_eq!(alive_set(&next), vec![(2, 2)]);
}

#[test]
fn tick_without_onsets_keeps_grid() {
    let g = grid_from(4, 4, &[(1, 1), (2, 1)]);
    let bins = vec![0usize; 16];
    let next = g.tick(&bins, false, &[false, false]);
    assert_eq!(alive_set(&next), alive_set(&g));
    let stepped = g.tick(&bins, true, &[false, false]);
    assert_eq!(alive_set(&stepped), Vec::<(usize, usize)>::new());
}

#[test]
fn empty_grid_stays_empty() {
    let g = grid_from(6, 4, &[]);
    let bins = vec![0usize; 24];
    let next = g.tick(&bins, true, &[true]);
    assert_eq!(next.alive_count(), 0);
}

#[test]
fn new_random_follows_xorshift_stream() {
    let seed = 0x1234_5678_9abc_def0u64;
    let g = Grid::new_random(8, 5, seed);
    let mut state = seed;
    for i in 0..40 {
        state ^= state << 13;
        state ^= state >> 7;
        state ^= state << 17;
        assert_eq!(g.cells()[i], state % 100 < INITIAL_DENSITY_PERCENT);
    }
    assert_eq!(xorshift_step(1), {
        let mut s = 1u64;
        s ^= s << 13;
        s ^= s >> 7;
        s ^= s << 17;
        s
    });
}

#[test]
fn seed_random_only_revives_dead_cells() {
    let mut g = grid_from(4, 2, &[(0, 0), (3, 1)]);
    let before = g.cells().clone();
    let seed = 42u64;
    g.seed_random(RESPAWN_FILL_PERCENT, seed);
    let mut state = seed;
    for i in 0..8 {
        if before[i] {
            assert!(g.cells()[i]);
        } else {
            state = xorshift_step(state);
            assert_eq!(g.cells()[i], state % 100 < RESPAWN_FILL_PERCENT);
        }
    }
}

#[test]
fn alive_count_counts_live_cells() {
    let g = grid_from(3, 3, &[(0, 0), (1, 1), (2, 2)]);
    assert_eq!(g.alive_count(), 3);
    assert_eq!(grid_from(3, 3, &[]).alive_count(), 0);
}

use milkdrop_pi::components::label_components;
use milkdrop_pi::grid::Grid;

fn grid_from(width: usize, height: usize, alive: &[(usize, usize)]) -> Grid {
    let mut cells = vec![false; width * height];
    for &(x, y) in alive {
        cells[y * width + x] = true;
    }
    Grid::from_cells(width, height, cells).unwrap()
}

#[test]
fn labels_separate_groups_in_scan_order() {
    let g = grid_from(5, 4, &[(0, 0), (1, 0), (4, 0), (3, 3), (4, 3)]);
    let (labels, infos) = label_components(&g);
    assert_eq!(infos.len(), 3);
    assert_eq!(labels[0], 1);
    assert_eq!(labels[1], 1);
    assert_eq!(labels[4], 2);
    assert_eq!(labels[3 * 5 + 3], 3);
    assert_eq!(labels[3 * 5 + 4], 3);
    assert_eq!(labels[2], 0);
    assert_eq!(infos[0].count, 2);
    assert_eq!(infos[0].sum_x, 1);
    assert_eq!(infos[0].sum_y, 0);
    assert_eq!(infos[2].count, 2);
    assert_eq!(infos[2].sum_x, 7);
    assert_eq!(infos[2].sum_y, 6);
}

#[test]
fn diagonal_neighbours_share_a_label() {
    let g = grid_from(3, 3, &[(0, 0), (1, 1), (2, 2)]);
    let (labels, infos) = label_components(&g);
    assert_eq!(infos.len(), 1);
    assert_eq!(labels[0], 1);
    assert_eq!(labels[4], 1);
    assert_eq!(labels[8], 1);
    assert_eq!(infos[0].count, 3);
    assert_eq!(infos[0].sum_x, 3);
    assert_eq!(infos[0].sum_y, 3);
}

#[test]
fn labelling_does_not_wrap_around_edges() {
    let g = grid_from(4, 2, &[(0, 0), (3, 0)]);
    let (labels, infos) = label_components(&g);
    assert_eq!(infos.len(), 2);
    assert_eq!(labels[0], 1);
    assert_eq!(labels[3], 2);
}

#[test]
fn u_shape_is_one_component() {
    // A U whose arms are joined only through the bottom row.
    let g = grid_from(
        5,
        4,
        &[(0, 0), (0, 1), (0, 2), (0, 3), (1, 3), (2, 3), (3, 3), (4, 3), (4, 2), (4, 1), (4, 0)],
    );
    let (labels, infos) = label_components(&g);
    assert_eq!(infos.len(), 1);
    assert_eq!(labels[4], 1);
    assert_eq!(infos[0].count, 11);
}

#[test]
fn empty_grid_has_no_components() {
    let g = grid_from(3, 2, &[]);
    let (labels, infos) = label_components(&g);
    assert!(infos.is_empty());
    assert!(labels.iter().all(|&l| l == 0));
}

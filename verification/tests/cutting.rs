use quick_noise::buffers::{filled, pick_component};
use quick_noise::cells::{fill_grid_indices, set_runs};
use quick_noise::grid_data::{
    clip, lattice_bounds, sample_count, GridData, GridDataLerp, Lerp, SimplexGridData,
};
use quick_noise::interpolation::InterpolationConfig;

#[test]
fn runs_end_where_a_fresh_sample_starts() {
    assert!(fill_grid_indices(&vec![]).is_empty());
    assert_eq!(fill_grid_indices(&vec![false]), [1]);
    assert_eq!(fill_grid_indices(&vec![true]), [1]);
    assert_eq!(fill_grid_indices(&vec![false, false, true, false, true]), [2, 4, 5]);
    assert_eq!(fill_grid_indices(&vec![true, true, true]), [1, 2, 3]);
}

#[test]
fn runs_take_the_vertices_on_both_sides() {
    let ends = fill_grid_indices(&vec![false, false, true, false, true]);
    let mut left = filled(0, 5);
    let mut right = filled(0, 5);
    set_runs(&ends, &vec![10, 20, 30, 40], &mut left, &mut right, 5);
    assert_eq!(left, [10, 10, 20, 20, 30]);
    assert_eq!(right, [20, 20, 30, 30, 40]);
}

#[test]
fn every_sample_lies_in_one_run() {
    for pattern in 0..64u32 {
        let fresh: Vec<bool> = (0..6).map(|i| pattern & (1 << i) != 0).collect();
        let ends = fill_grid_indices(&fresh);
        let mut start = 0;
        let mut seen = Vec::new();
        for end in ends {
            assert!(start < end);
            for s in start..end {
                seen.push(s);
                assert_eq!(s == start, s == 0 || fresh[s as usize]);
            }
            start = end;
        }
        assert_eq!(seen, (0..6).collect::<Vec<u32>>());
    }
}

#[test]
fn components_are_picked_by_number() {
    let table = [[1, 2], [3, 4], [5, 6]];
    assert_eq!(pick_component(&vec![2, 0, 1, 2], &table, 0), [5, 1, 3, 5]);
    assert_eq!(pick_component(&vec![2, 0, 1, 2], &table, 1), [6, 2, 4, 6]);
}

#[test]
fn samples_are_counted() {
    assert_eq!(sample_count(&[7, 3]), 21);
    assert_eq!(sample_count(&[7, 3, 2]), 42);
    assert_eq!(sample_count(&[usize::MAX, 1]), usize::MAX);
    assert_eq!(sample_count(&[5, 0, 9]), 0);
}

#[test]
fn grids_know_their_runs() {
    let grid = GridData::<u8, 2>::new(
        [4, 3],
        9,
        [-2, 5],
        [None, Some(8)],
        vec![vec![0, 1, 2, 3], vec![4, 5, 6]],
        &vec![vec![false, false, true, false], vec![false, true, true]],
    );
    assert_eq!(grid.total_size, 12);
    assert_eq!(grid.weight, 9);
    assert_eq!(grid.grid_start, [-2, 5]);
    assert_eq!(grid.octave_tiling, [None, Some(8)]);
    assert_eq!(grid.distances, [vec![0, 1, 2, 3], vec![4, 5, 6]]);
    assert_eq!(grid.grid_indices, [vec![2, 4], vec![1, 2, 3]]);
    assert_eq!(grid.num_loops, [2, 3]);
}

#[test]
fn fades_are_cubic_or_quintic() {
    assert!(matches!(Lerp::from_u8(0), Lerp::Cubic));
    assert!(matches!(Lerp::from_u8(1), Lerp::Quintic));
    for (lerp, factor) in [(0u8, 10u32), (1, 100)] {
        let grid = GridDataLerp::<u32, 3>::new(
            [2, 1, 3],
            7,
            [0, 1, 2],
            [3, 4, 5],
            [Some(2), None, None],
            vec![vec![1, 2], vec![3], vec![4, 5, 6]],
            &vec![vec![false, true], vec![false], vec![false, false, false]],
            Lerp::from_u8(lerp),
            |d: u32| d * 10,
            |d: u32| d * 100,
        );
        assert_eq!(grid.total_size, 6);
        assert_eq!(grid.increment, [3, 4, 5]);
        assert_eq!(grid.distances, [vec![1, 2], vec![3], vec![4, 5, 6]]);
        assert_eq!(
            grid.fade_factors,
            [
                vec![factor, 2 * factor],
                vec![3 * factor],
                vec![4 * factor, 5 * factor, 6 * factor],
            ]
        );
        assert_eq!(grid.num_loops, [2, 1, 1]);
        assert_eq!(grid.grid_indices, [vec![1, 2], vec![1], vec![3]]);
    }
}

#[test]
fn simplex_grids_are_fine_when_both_axes_are() {
    for (fine, per_cell) in [
        ([true, true], true),
        ([true, false], false),
        ([false, true], false),
        ([false, false], false),
    ] {
        let grid = SimplexGridData::new(
            [6, 4],
            1,
            [2, 3],
            [4, 5],
            [-1, -2],
            [None, Some(3)],
            fine,
        );
        assert_eq!(grid.per_cell, per_cell);
        assert_eq!(grid.total_size, 24);
        assert_eq!(grid.grid_start, [-1, -2]);
        assert_eq!(grid.origin, [4, 5]);
    }
}

fn plane(size: [usize; 2]) -> SimplexGridData<i32> {
    SimplexGridData::new(size, 1, [1, 1], [0, 0], [0, 0], [None, None], [true, true])
}

#[test]
fn cells_around_the_grid() {
    // The corners of the grid lie in cells (3, -4), (3 + 10, -4), (3, -4 - 20) and
    // (3 + 10, -4 - 20); one more cell is taken on every side.
    let bounds = plane([10, 20]).cell_bounds(|x, y| (3 + x, -4 - y));
    assert_eq!(bounds, [2, 14, -25, -3]);
    let bounds = plane([10, 20]).cell_bounds(|x, _| (if x == 0 { 7 } else { -7 }, 0));
    assert_eq!(bounds, [-8, 8, -1, 1]);
}

#[test]
fn bounds_are_tight() {
    assert_eq!(lattice_bounds(&[(3, 9), (-2, 4), (5, 4), (0, -1)]), (-2, 5, -1, 9));
    assert_eq!(lattice_bounds(&[(1, 1); 4]), (1, 1, 1, 1));
    assert_eq!(
        lattice_bounds(&[(i32::MIN, 0), (i32::MAX, 0), (0, i32::MIN), (0, i32::MAX)]),
        (i32::MIN, i32::MAX, i32::MIN, i32::MAX)
    );
}

#[test]
fn boxes_are_clipped_to_the_grid() {
    assert_eq!(clip([-3, 4, 2, 90], 10, 20), Some([0, 4, 2, 20]));
    assert_eq!(clip([0, 10, 0, 20], 10, 20), Some([0, 10, 0, 20]));
    assert_eq!(clip([10, 12, 0, 5], 10, 20), None);
    assert_eq!(clip([-9, 0, 0, 5], 10, 20), None);
    assert_eq!(clip([0, 5, 20, 25], 10, 20), None);
    assert_eq!(clip([0, 5, -5, 0], 10, 20), None);

    let grid = plane([10, 20]);
    assert_eq!(grid.cell_bbox(1, 2, |i, j| [i - 4, i + 4, j, j + 30]), Some([0, 5, 2, 20]));
    assert_eq!(grid.cell_bbox(9, 9, |_, _| [11, 12, 0, 1]), None);
}

#[test]
fn rows_are_cut_into_groups_and_a_tail() {
    let c = InterpolationConfig::new(2, 8, 37);
    assert_eq!((c.num_blocks, c.lanes, c.block_lanes), (2, 8, 16));
    assert_eq!((c.block_tail_start, c.tail_size, c.block_tail_size), (32, 5, 1));
    assert!(c.has_block_head && c.has_block_tail);

    let c = InterpolationConfig::new(2, 8, 44);
    assert_eq!((c.block_tail_start, c.tail_size, c.block_tail_size), (32, 12, 2));

    let c = InterpolationConfig::new(4, 8, 64);
    assert_eq!((c.block_tail_start, c.tail_size, c.block_tail_size), (64, 0, 0));
    assert!(c.has_block_head && !c.has_block_tail);

    let c = InterpolationConfig::new(4, 8, 7);
    assert_eq!((c.block_tail_start, c.tail_size, c.block_tail_size), (0, 7, 1));
    assert!(!c.has_block_head && c.has_block_tail);
}

#[test]
fn every_column_lies_in_one_register() {
    for width in 0..70 {
        let c = InterpolationConfig::new(2, 8, width);
        let mut seen = Vec::new();
        for x in (0..c.block_tail_start).step_by(c.block_lanes) {
            for b in 0..c.num_blocks {
                seen.extend(x + b * c.lanes..x + (b + 1) * c.lanes);
            }
        }
        for b in 0..c.block_tail_size {
            let start = c.block_tail_start + b * c.lanes;
            seen.extend(start..(start + c.lanes).min(width));
        }
        assert_eq!(seen, (0..width).collect::<Vec<usize>>());
    }
}

use quick_noise::cellular::batch_2d;
use quick_noise::cellular::grid_2d::{
    measure_block, sample_grid, split_hash, CellJitters, Kernels, NEIGHBORS_12,
};
use quick_noise::combine::{Combiner, Layout, Pass, Sink};
use quick_noise::grid_data::GridData;
use quick_noise::hash::hash_axis;

type Four = [(u32, u32); 4];
type Lanes = [(u32, u32); 8];

fn axis(position: f32, increment: f32, size: usize) -> (i32, Vec<f32>, Vec<bool>) {
    let start = (position * increment).floor();
    let first = position * increment - start;
    let at: Vec<f32> = (0..size).map(|i| first + i as f32 * increment).collect();
    let fresh = (0..size).map(|i| i > 0 && at[i].floor() > at[i - 1].floor()).collect();
    (start as i32, at.iter().map(|a| a.fract()).collect(), fresh)
}

fn plane(
    size: [usize; 2],
    position: [i32; 2],
    freq: f32,
    tiling: [Option<u32>; 2],
) -> GridData<f32, 2> {
    let (x, dx, fx) = axis(position[0] as f32, freq, size[0]);
    let (y, dy, fy) = axis(position[1] as f32, freq, size[1]);
    GridData::new(size, 1.0, [x, y], tiling, vec![dx, dy], &vec![fx, fy])
}

/// The squared distances from the samples of a block to the points of four
/// cells, the least of them and of those found before.
fn nearest(
    grid: &GridData<f32, 2>,
    mut found: Vec<f32>,
    y: usize,
    index: usize,
    first: usize,
    four: Four,
) -> Vec<f32> {
    let sy = grid.distances[1][y];
    for (c, (tx, ty)) in four.iter().enumerate() {
        let (ox, oy) = NEIGHBORS_12[first + c];
        let jx = 1.5 - f32::from_bits(*tx) + ox as f32;
        let jy = 1.5 - f32::from_bits(*ty) + oy as f32;
        for (n, best) in found.iter_mut().enumerate() {
            let dx = grid.distances[0][index + n] - jx;
            let dy = sy - jy;
            *best = best.min(dx * dx + dy * dy);
        }
    }
    found
}

fn measure(
    grid: &GridData<f32, 2>,
    y: usize,
    index: usize,
    len: usize,
    four: Four,
) -> (Vec<f32>, bool, bool) {
    let found = nearest(grid, vec![f32::MAX; len], y, index, 0, four);
    let sy = grid.distances[1][y];
    let edge = |n: usize, near: bool| {
        let sx = grid.distances[0][index + n];
        let e = if near { (sx + 0.5).min(sy + 0.5) } else { (1.5 - sx).min(1.5 - sy) };
        e * e
    };
    let near = (0..len).any(|n| found[n] > edge(n, true));
    let far = (0..len).any(|n| found[n] > edge(n, false));
    (found, near, far)
}

fn widen(
    grid: &GridData<f32, 2>,
    found: Vec<f32>,
    y: usize,
    index: usize,
    _: usize,
    first: usize,
    four: Four,
) -> Vec<f32> {
    nearest(grid, found, y, index, first, four)
}

fn finish(grid: &GridData<f32, 2>, found: Vec<f32>, _: usize) -> Vec<f32> {
    found.iter().map(|f| f.sqrt() * grid.weight).collect()
}

fn keep(value: Vec<f32>) -> (Vec<Vec<f32>>, Vec<f32>) {
    (Vec::new(), value)
}

fn sum(state: Vec<Vec<f32>>, result: Vec<f32>, value: Vec<f32>) -> (Vec<Vec<f32>>, Vec<f32>) {
    (state, result.iter().zip(&value).map(|(r, v)| r + v).collect())
}

fn done(_: Vec<Vec<f32>>, result: Vec<f32>) -> Vec<f32> {
    result
}

fn fill(seed: u32, grid: &GridData<f32, 2>, lanes: usize, init: bool, dst: &mut Vec<f32>) {
    let combiner = Combiner { initialize: keep, apply: sum, finalize: done };
    let sink = Sink {
        combiner: &combiner,
        pass: Pass { init, last: true },
        layout: Layout { total_size: grid.total_size, state_size: 0 },
    };
    let kernels = Kernels { measure, widen, finish };
    sample_grid(seed, grid, &kernels, lanes, &sink, &mut Vec::new(), dst);
}

#[test]
fn a_first_octave_forgets_the_output() {
    let grid = plane([37, 21], [-7, 4], 0.11, [None, Some(3)]);
    let mut one = vec![0.0; grid.total_size + 2];
    let mut two = vec![-9.5; grid.total_size + 2];
    fill(5, &grid, 8, true, &mut one);
    fill(5, &grid, 8, true, &mut two);
    assert_eq!(one[..grid.total_size], two[..grid.total_size]);
    assert_eq!(one[grid.total_size..], [0.0, 0.0]);
    assert_eq!(two[grid.total_size..], [-9.5, -9.5]);
}

#[test]
fn cellular_grid_2d_sanity() {
    let grid = plane([32, 32], [0, 0], 1.0 / 16.0, [None, None]);
    let mut result = vec![0.0; 1024];
    fill(42, &grid, 8, true, &mut result);
    verify_slice(result.as_slice());
}

fn verify_slice(slice: &[f32]) {
    let mut min = f32::MAX;
    let mut max = f32::NEG_INFINITY;
    let mut dif_total = 0.0;
    let mut prev = slice[0];

    for val in slice.iter() {
        min = val.min(min);
        max = val.max(max);

        let dif = (*val - prev).abs();
        dif_total += dif;
        prev = *val;
    }

    assert!(min >= 0.0, "Cellular distance of {min} was negative!");
    assert!(max < 10.0, "Maximum value of {max} was above 10!");
    assert!(dif_total > 0.0, "Output is constant of {}!", slice[0]);
}

#[test]
fn cellular_grid_2d_reference() {
    let seed = 123456789;

    for freq in [1.0 / 32.0, 1.0 / 8.0, 1.0 / 6.0, 1.0 / 4.0, 1.0 / 3.0, 1.0 / 2.0] {
        check_reference(64, 64, seed, -5, 3, freq);
    }

    check_reference(32, 96, seed, -5, 3, 1.0 / 6.0);
}

fn check_reference(w: usize, h: usize, seed: u32, offset_x: i32, offset_y: i32, freq: f32) {
    let grid = plane([w, h], [offset_x, offset_y], freq, [None, None]);
    let mut result = vec![0.0; w * h];
    fill(seed, &grid, 8, true, &mut result);

    let mut max_diff = 0.0f32;
    for y in 0..h {
        for x in 0..w {
            let px = offset_x as f32 + x as f32;
            let py = offset_y as f32 + y as f32;
            let reference = reference(seed, px, py, freq);
            let actual = result[y * w + x];
            max_diff = max_diff.max((actual - reference).abs());
        }
    }
    assert!(
        max_diff < 1e-4,
        "Grid cellular at freq {freq} diverges from the brute-force Cellular by {max_diff}"
    );
}

/// Eight times the same place, as a batch.
fn reference(seed: u32, px: f32, py: f32, freq: f32) -> f32 {
    let (x, y) = (px * freq, py * freq);
    let (gx, gy) = (x.floor(), y.floor());
    let (x_lo, y_lo) = (x - gx - 1.5, y - gy - 1.5);
    let (x_hi, y_hi) = (1.0 - x_lo, 1.0 - y_lo);
    let edge = (x_lo.min(y_lo) + 2.0).min(x_hi.min(y_hi) - 1.0);
    let least = |found: [f32; 8], jitters: &[Lanes], offsets: &[(i32, i32)]| {
        let mut found = found;
        for (lanes, (ox, oy)) in jitters.iter().zip(offsets) {
            for (best, (tx, ty)) in found.iter_mut().zip(lanes) {
                let dx = f32::from_bits(*tx) + x_lo - *ox as f32;
                let dy = f32::from_bits(*ty) + y_lo - *oy as f32;
                *best = best.min(dx * dx + dy * dy);
            }
        }
        found
    };
    let found = batch_2d::sample_batch(
        seed,
        [gx as i32; 8],
        [gy as i32; 8],
        |base: [Lanes; 4]| {
            let found = least([f32::MAX; 8], &base, &batch_2d::BASE_4);
            (found, found.iter().any(|f| *f > edge * edge))
        },
        |found: [f32; 8], ring: [Lanes; 8]| least(found, &ring, &batch_2d::RING_8),
    );
    assert_eq!(found, [found[0]; 8]);
    found[0].sqrt()
}

#[test]
fn registers_do_not_change_the_result() {
    let grid = plane([45, 13], [7, -9], 0.17, [Some(3), Some(5)]);
    let mut one = vec![0.0; grid.total_size];
    let mut wide = vec![0.0; grid.total_size];
    fill(7, &grid, 1, true, &mut one);
    fill(7, &grid, 16, true, &mut wide);
    for (a, b) in one.iter().zip(&wide) {
        assert!((a - b).abs() < 1e-6);
    }
}

#[test]
fn tiled_cells_repeat() {
    // Sixteen samples make a period of four cells.
    let grid = plane([32, 32], [0, 0], 0.25, [Some(4), Some(4)]);
    let mut dst = vec![0.0; 1024];
    fill(99, &grid, 8, true, &mut dst);
    for y in 0..16 {
        for x in 0..16 {
            assert!((dst[y * 32 + x + 16] - dst[y * 32 + x]).abs() < 1e-4);
            assert!((dst[(y + 16) * 32 + x] - dst[y * 32 + x]).abs() < 1e-4);
        }
    }
}

#[test]
fn cellular_octaves_are_summed() {
    let grid = plane([20, 5], [0, 0], 0.125, [None, None]);
    let mut once = vec![f32::NAN; 100];
    fill(3, &grid, 8, true, &mut once);
    let mut twice = once.clone();
    fill(3, &grid, 8, false, &mut twice);
    for (a, b) in once.iter().zip(&twice) {
        assert_eq!(a + a, *b);
    }
}

/// Records the cells that a block asked for.
fn asked(near: bool, far: bool) -> Vec<(u32, u32)> {
    let grid = GridData::<(u32, u32), 2>::new(
        [1, 1],
        (0, 0),
        [0, 0],
        [None, None],
        vec![vec![(0, 0)], vec![(0, 0)]],
        &vec![vec![false], vec![false]],
    );
    let mut jitters = CellJitters::new();
    for c in 0..12u32 {
        jitters.parts[c as usize] = (c, 100 + c);
    }
    let kernels = Kernels {
        measure: |_: &GridData<(u32, u32), 2>, _: usize, _: usize, _: usize, four: Four| {
            (four.to_vec(), near, far)
        },
        widen: |_: &GridData<(u32, u32), 2>,
                mut seen: Vec<(u32, u32)>,
                _: usize,
                _: usize,
                _: usize,
                first: usize,
                four: Four| {
            assert_eq!(four[0].0 as usize, first);
            seen.extend(four);
            seen
        },
        finish: |_: &GridData<(u32, u32), 2>, seen: Vec<(u32, u32)>, len: usize| {
            vec![(seen.len() as u32, seen.iter().map(|s| s.0).sum()); len]
        },
    };
    measure_block(&grid, &jitters, &kernels, 0, 0, 1)
}

#[test]
fn the_ring_is_asked_for_when_it_may_be_nearer() {
    assert_eq!(asked(false, false), [(4, 6)]);
    assert_eq!(asked(true, false), [(8, 28)]);
    assert_eq!(asked(false, true), [(8, 44)]);
    assert_eq!(asked(true, true), [(12, 66)]);
}

#[test]
fn a_sample_takes_the_nearest_of_twelve_points() {
    let grid = plane([40, 40], [-20, -20], 0.3, [None, None]);
    let mut dst = vec![0.0; 1600];
    fill(5, &grid, 8, true, &mut dst);
    for y in 0..40 {
        for x in 0..40 {
            let (px, py) = ((x as f32 - 20.0) * 0.3, (y as f32 - 20.0) * 0.3);
            let mut best = f32::MAX;
            for (ox, oy) in NEIGHBORS_12 {
                let (cx, cy) = (px.floor() as i32 + ox, py.floor() as i32 + oy);
                let h = hash_axis(cx, 5);
                let (tx, ty) = split_hash(h.wrapping_mul(hash_axis(cy, 5)) ^ h);
                let dx = px - (cx as f32 + 1.5 - f32::from_bits(tx));
                let dy = py - (cy as f32 + 1.5 - f32::from_bits(ty));
                best = best.min(dx * dx + dy * dy);
            }
            assert!((dst[y * 40 + x] - best.sqrt()).abs() < 1e-4);
        }
    }
}

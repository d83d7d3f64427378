use quick_noise::blending::Kernels;
use quick_noise::combine::{Combiner, Layout, Pass, Sink};
use quick_noise::grid_data::{GridDataLerp, Lerp};
use quick_noise::hash::hash_axis;
use quick_noise::interpolation::InterpolationConfig;
use quick_noise::perlin;
use quick_noise::perlin::dots::Dots;
use quick_noise::perlin::grid_2d::PerlinGradients2D;
use quick_noise::tiling::tile;
use quick_noise::value;
use quick_noise::value::grid_2d::ValueGradients2D;

const SEED: u32 = 123456789;

type Tiling = [Option<u32>; 2];

/// Distances along one axis, and where a new cell begins.
fn axis(position: f32, increment: f32, size: usize) -> (i32, Vec<f32>, Vec<bool>) {
    let start = (position * increment).floor();
    let first = position * increment - start;
    let at: Vec<f32> = (0..size).map(|i| first + i as f32 * increment).collect();
    let fresh = (0..size).map(|i| i > 0 && at[i].floor() > at[i - 1].floor()).collect();
    (start as i32, at.iter().map(|a| a.fract()).collect(), fresh)
}

fn quintic(d: f32) -> f32 {
    d * d * d * (d * (d * 6.0 - 15.0) + 10.0)
}

fn cubic(d: f32) -> f32 {
    d * d * (3.0 - 2.0 * d)
}

fn plane(
    size: [usize; 2],
    position: [f32; 2],
    increment: [f32; 2],
    tiling: Tiling,
) -> GridDataLerp<f32, 2> {
    let (x, dx, fx) = axis(position[0], increment[0], size[0]);
    let (y, dy, fy) = axis(position[1], increment[1], size[1]);
    GridDataLerp::new(
        size,
        0.5,
        [x, y],
        increment,
        tiling,
        vec![dx, dy],
        &vec![fx, fy],
        Lerp::from_u8(1),
        cubic,
        quintic,
    )
}

/// The cell of each sample along one axis.
fn cells(ends: &[u32]) -> Vec<usize> {
    let mut start = 0;
    let mut at = Vec::new();
    for (k, end) in ends.iter().enumerate() {
        at.extend((start..*end).map(|_| k));
        start = *end;
    }
    at
}

fn keep(value: Vec<f32>) -> (Vec<Vec<f32>>, Vec<f32>) {
    (Vec::new(), value)
}

fn sum(state: Vec<Vec<f32>>, result: Vec<f32>, value: Vec<f32>) -> (Vec<Vec<f32>>, Vec<f32>) {
    (state, result.iter().zip(&value).map(|(r, v)| r + v).collect())
}

fn done(_: Vec<Vec<f32>>, result: Vec<f32>) -> Vec<f32> {
    result
}

/// What a register of a band carries from row to row.
struct Factors {
    top: Vec<f32>,
    dif: Vec<f32>,
    d_top: Vec<f32>,
    d_dif: Vec<f32>,
}

fn blend(grid: &GridDataLerp<f32, 2>, f: &Factors, y: usize, len: usize) -> (Vec<f32>, Factors) {
    let y_lerp = grid.fade_factors[1][y];
    let value = (0..len).map(|i| y_lerp * f.dif[i] + f.top[i]).collect();
    let next = Factors {
        top: (0..len).map(|i| f.top[i] + f.d_top[i]).collect(),
        dif: (0..len).map(|i| f.dif[i] + f.d_dif[i]).collect(),
        d_top: f.d_top.clone(),
        d_dif: f.d_dif.clone(),
    };
    (value, next)
}

fn lerp(t: f32, a: f32, b: f32) -> f32 {
    t * (b - a) + a
}

const TABLE: [[f32; 2]; 8] = [
    [1.5, 0.0],
    [1.0, 1.0],
    [0.0, 1.5],
    [-1.0, 1.0],
    [-1.5, 0.0],
    [-1.0, -1.0],
    [0.0, -1.5],
    [1.0, -1.0],
];

fn dot_left(g: f32, d: f32) -> f32 {
    g * d
}

fn dot_right(g: f32, d: f32) -> f32 {
    g * d - g
}

fn prepare_perlin(
    grid: &GridDataLerp<f32, 2>,
    g: &PerlinGradients2D<f32>,
    y: usize,
    x: usize,
    len: usize,
) -> Factors {
    let hi = grid.distances[1][y];
    let lo = hi - 1.0;
    let step = grid.increment[1] * grid.weight;
    let mut f = Factors { top: vec![], dif: vec![], d_top: vec![], d_dif: vec![] };
    for i in x..x + len {
        let t = grid.fade_factors[0][i];
        let tl = g.tl[0][i] + g.tl[1][i] * hi;
        let tr = g.tr[0][i] + g.tr[1][i] * hi;
        let bl = g.bl[0][i] + g.bl[1][i] * lo;
        let br = g.br[0][i] + g.br[1][i] * lo;
        let top = lerp(t, tl, tr) * grid.weight;
        let d_top = lerp(t, g.tl[1][i], g.tr[1][i]) * step;
        f.top.push(top);
        f.dif.push(lerp(t, bl, br) * grid.weight - top);
        f.d_top.push(d_top);
        f.d_dif.push(lerp(t, g.bl[1][i], g.br[1][i]) * step - d_top);
    }
    f
}

fn number(grid: &GridDataLerp<f32, 2>, i: usize, k: usize) -> usize {
    let x = tile(grid.grid_start[0] + i as i32, grid.octave_tiling[0]);
    let y = tile(grid.grid_start[1] + k as i32, grid.octave_tiling[1]);
    (hash_axis(y, SEED).wrapping_mul(hash_axis(x, SEED)) >> 29) as usize
}

fn perlin_at(grid: &GridDataLerp<f32, 2>, x: usize, y: usize) -> f32 {
    let i = cells(&grid.grid_indices[0])[x];
    let k = cells(&grid.grid_indices[1])[y];
    let (dx, dy) = (grid.distances[0][x], grid.distances[1][y]);
    let dot = |i: usize, k: usize, dx: f32, dy: f32| {
        let g = TABLE[number(grid, i, k)];
        g[0] * dx + g[1] * dy
    };
    let top = lerp(quintic(dx), dot(i, k, dx, dy), dot(i + 1, k, dx - 1.0, dy));
    let bottom = lerp(
        quintic(dx),
        dot(i, k + 1, dx, dy - 1.0),
        dot(i + 1, k + 1, dx - 1.0, dy - 1.0),
    );
    lerp(quintic(dy), top, bottom) * grid.weight
}

fn fill_perlin(grid: &GridDataLerp<f32, 2>, blocks: usize, dst: &mut Vec<f32>, init: bool) {
    let config = InterpolationConfig::new(blocks, 8, grid.grid_size[0]);
    let combiner = Combiner { initialize: keep, apply: sum, finalize: done };
    let sink = Sink {
        combiner: &combiner,
        pass: Pass { init, last: true },
        layout: Layout { total_size: grid.total_size, state_size: 0 },
    };
    let kernels = Kernels { prepare: prepare_perlin, blend };
    perlin::grid_2d::sample_grid(
        SEED,
        grid,
        &TABLE,
        &Dots { left: dot_left, right: dot_right },
        &config,
        &kernels,
        0.0,
        &sink,
        &mut Vec::new(),
        dst,
    );
}

fn close(actual: f32, expected: f32) {
    assert!((actual - expected).abs() < 1e-4, "{actual} is not {expected}");
}

#[test]
fn perlin_planes_match_single_samples() {
    for (size, tiling) in [
        ([64, 64], [None, None]),
        ([37, 20], [Some(3), Some(2)]),
        ([7, 9], [None, Some(4)]),
        ([16, 1], [Some(1), None]),
    ] {
        for freq in [1.0 / 32.0, 1.0 / 6.0, 1.0 / 2.0] {
            let grid = plane(size, [-5.0, 3.0], [freq, freq], tiling);
            let mut dst = vec![f32::NAN; grid.total_size];
            fill_perlin(&grid, 2, &mut dst, true);
            for y in 0..size[1] {
                for x in 0..size[0] {
                    close(dst[y * size[0] + x], perlin_at(&grid, x, y));
                }
            }
        }
    }
}

#[test]
fn groups_do_not_change_the_result() {
    let grid = plane([45, 13], [2.0, -8.0], [0.2, 0.3], [None, None]);
    let mut one = vec![0.0; grid.total_size];
    let mut four = vec![0.0; grid.total_size];
    fill_perlin(&grid, 1, &mut one, true);
    fill_perlin(&grid, 4, &mut four, true);
    assert_eq!(one, four);
}

#[test]
fn perlin_octaves_are_summed() {
    let coarse = plane([33, 10], [0.0, 0.0], [0.05, 0.05], [None, None]);
    let fine = plane([33, 10], [0.0, 0.0], [0.25, 0.25], [None, None]);
    let mut dst = vec![f32::NAN; 330];
    fill_perlin(&coarse, 2, &mut dst, true);
    fill_perlin(&fine, 2, &mut dst, false);
    for y in 0..10 {
        for x in 0..33 {
            close(dst[y * 33 + x], perlin_at(&coarse, x, y) + perlin_at(&fine, x, y));
        }
    }
}

#[test]
fn first_octaves_of_planes_forget_the_output() {
    let grid = plane([45, 13], [2.0, -8.0], [0.2, 0.3], [None, Some(2)]);
    let mut one = vec![0.0; grid.total_size];
    let mut two = vec![-7.5; grid.total_size];
    fill_perlin(&grid, 2, &mut one, true);
    fill_perlin(&grid, 2, &mut two, true);
    assert_eq!(one, two);
    fill_perlin(&grid, 2, &mut two, false);
    assert_ne!(one, two);
}

#[test]
fn tiled_planes_repeat() {
    // Sixteen samples make a period of four cells.
    let grid = plane([32, 32], [0.0, 0.0], [0.25, 0.25], [Some(4), Some(4)]);
    let mut dst = vec![0.0; 1024];
    fill_perlin(&grid, 2, &mut dst, true);
    for y in 0..16 {
        for x in 0..16 {
            close(dst[y * 32 + x + 16], dst[y * 32 + x]);
            close(dst[(y + 16) * 32 + x], dst[y * 32 + x]);
        }
    }
}

#[test]
fn perlin_gradients_swap_and_come_back() {
    let mut g = PerlinGradients2D::new(4, 3);
    assert_eq!(g.tl, [vec![4, 4, 4], vec![4, 4, 4]]);
    g.tl[0][1] = 7;
    g.br[1][2] = 9;
    g.swap_top_bottom();
    assert_eq!(g.bl[0], [4, 7, 4]);
    assert_eq!(g.tr[1], [4, 4, 9]);
    assert_eq!(g.tl[0], [4, 4, 4]);
    g.swap_top_bottom();
    assert_eq!(g.tl[0], [4, 7, 4]);
    assert_eq!(g.br[1], [4, 4, 9]);
}

fn prepare_value(
    grid: &GridDataLerp<f32, 2>,
    g: &ValueGradients2D<u32>,
    _: usize,
    x: usize,
    len: usize,
) -> Factors {
    let at = |bits: &Vec<u32>, i: usize| f32::from_bits(bits[i]) - 3.0;
    let mut f = Factors { top: vec![], dif: vec![], d_top: vec![0.0; len], d_dif: vec![0.0; len] };
    for i in x..x + len {
        let t = grid.fade_factors[0][i];
        let top = lerp(t, at(&g.tl, i), at(&g.tr, i)) * grid.weight;
        f.top.push(top);
        f.dif.push(lerp(t, at(&g.bl, i), at(&g.br, i)) * grid.weight - top);
    }
    f
}

fn value_at(grid: &GridDataLerp<f32, 2>, x: usize, y: usize) -> f32 {
    let i = cells(&grid.grid_indices[0])[x];
    let k = cells(&grid.grid_indices[1])[y];
    let at = |i: usize, k: usize| {
        let x = hash_axis(tile(grid.grid_start[0] + i as i32, grid.octave_tiling[0]), SEED);
        let y = hash_axis(tile(grid.grid_start[1] + k as i32, grid.octave_tiling[1]), SEED);
        let h = y.wrapping_mul(y).wrapping_mul(x);
        f32::from_bits((h & 0x007f_ffff) | 0x4000_0000) - 3.0
    };
    let tx = quintic(grid.distances[0][x]);
    let top = lerp(tx, at(i, k), at(i + 1, k));
    let bottom = lerp(tx, at(i, k + 1), at(i + 1, k + 1));
    lerp(quintic(grid.distances[1][y]), top, bottom) * grid.weight
}

#[test]
fn value_planes_match_single_samples() {
    for (size, tiling) in [
        ([64, 64], [None, None]),
        ([37, 20], [Some(3), Some(2)]),
        ([5, 3], [Some(7), None]),
    ] {
        for freq in [1.0 / 32.0, 1.0 / 6.0, 1.0 / 2.0] {
            let grid = plane(size, [-5.0, 3.0], [freq, freq], tiling);
            let config = InterpolationConfig::new(4, 8, size[0]);
            let combiner = Combiner { initialize: keep, apply: sum, finalize: done };
            let sink = Sink {
                combiner: &combiner,
                pass: Pass { init: true, last: true },
                layout: Layout { total_size: grid.total_size, state_size: 0 },
            };
            let kernels = Kernels { prepare: prepare_value, blend };
            let mut dst = vec![f32::NAN; grid.total_size];
            value::grid_2d::sample_grid(
                SEED,
                &grid,
                &config,
                &kernels,
                &sink,
                &mut Vec::new(),
                &mut dst,
            );
            for y in 0..size[1] {
                for x in 0..size[0] {
                    let v = dst[y * size[0] + x];
                    close(v, value_at(&grid, x, y));
                    assert!((-0.5..=0.5).contains(&v));
                }
            }
        }
    }
}

#[test]
fn value_gradients_swap_and_come_back() {
    let mut g = ValueGradients2D::new(0, 2);
    g.tl = vec![1, 2];
    g.br = vec![3, 4];
    g.swap_top_bottom();
    assert_eq!((&g.bl, &g.tr), (&vec![1, 2], &vec![3, 4]));
    g.swap_top_bottom();
    assert_eq!((&g.tl, &g.br), (&vec![1, 2], &vec![3, 4]));
}

#[test]
fn tiled_rows_repeat() {
    let grid = plane([40, 8], [-9.0, -7.0], [0.2, 0.5], [None, Some(3)]);
    let dots = Dots { left: dot_left, right: dot_right };
    let row = |y: usize| {
        let mut g = PerlinGradients2D::new(0.0, 40);
        perlin::grid_2d::grid_gradients_2d(SEED, &grid, &TABLE, &dots, &mut g.tl, &mut g.tr, y);
        (g.tl, g.tr)
    };
    assert_eq!(row(1), row(4));
    assert_ne!(row(1), row(2));
    let values = |y: usize| {
        let mut g = ValueGradients2D::new(0, 40);
        value::grid_2d::grid_gradients_2d(SEED, &grid, &mut g.tl, &mut g.tr, y);
        (g.tl, g.tr)
    };
    assert_eq!(values(0), values(3));
    assert_ne!(values(0), values(1));
}

#[test]
fn neighbouring_bands_share_a_lattice_row() {
    let grid = plane([40, 8], [0.0, 0.0], [0.2, 0.5], [None, None]);
    let dots = Dots { left: dot_left, right: dot_right };
    let mut upper = PerlinGradients2D::new(0.0, 40);
    let mut lower = PerlinGradients2D::new(0.0, 40);
    let mut tops = upper.tl.clone();
    perlin::grid_2d::grid_gradients_2d(SEED, &grid, &TABLE, &dots, &mut upper.bl, &mut upper.br, 2);
    perlin::grid_2d::grid_gradients_2d(SEED, &grid, &TABLE, &dots, &mut lower.tl, &mut lower.tr, 2);
    assert_eq!(upper.bl, lower.tl);
    assert_eq!(upper.br, lower.tr);
    perlin::grid_2d::grid_gradients_2d(SEED, &grid, &TABLE, &dots, &mut tops, &mut lower.br, 1);
    assert_ne!(tops, lower.tl);
    let cell = cells(&grid.grid_indices[0]);
    for s in 0..40 {
        let d = grid.distances[0][s];
        let l = TABLE[number(&grid, cell[s], 2)];
        let r = TABLE[number(&grid, cell[s] + 1, 2)];
        assert_eq!([lower.tl[0][s], lower.tl[1][s]], [l[0] * d, l[1]]);
        assert_eq!([lower.tr[0][s], lower.tr[1][s]], [r[0] * d - r[0], r[1]]);
    }
}

use quick_noise::blending::{Kernels, SlabKernels};
use quick_noise::combine::{Combiner, Layout, Pass, Sink};
use quick_noise::grid_data::{GridDataLerp, Lerp};
use quick_noise::hash::{hash_axis, hash_word};
use quick_noise::interpolation::InterpolationConfig;
use quick_noise::perlin;
use quick_noise::perlin::dots::Dots;
use quick_noise::perlin::grid_3d::{DottedTrilerpBuffers, DottedTrilerpSource, PerlinGradients3D};
use quick_noise::tiling::tile;
use quick_noise::value;
use quick_noise::value::grid_3d::{TrilerpBuffers, ValueGradients3D};

const SEED: u32 = 987654321;

type Tiling = [Option<u32>; 3];

fn axis(position: f32, increment: f32, size: usize) -> (i32, Vec<f32>, Vec<bool>) {
    let start = (position * increment).floor();
    let first = position * increment - start;
    let at: Vec<f32> = (0..size).map(|i| first + i as f32 * increment).collect();
    let fresh = (0..size).map(|i| i > 0 && at[i].floor() > at[i - 1].floor()).collect();
    (start as i32, at.iter().map(|a| a.fract()).collect(), fresh)
}

fn quintic(d: f32) -> f32 {
    d * d * d * (d * (d * 6.0 - 15.0) + 10.0)
}

fn solid(
    size: [usize; 3],
    position: [f32; 3],
    increment: [f32; 3],
    tiling: Tiling,
) -> GridDataLerp<f32, 3> {
    let (x, dx, fx) = axis(position[0], increment[0], size[0]);
    let (y, dy, fy) = axis(position[1], increment[1], size[1]);
    let (z, dz, fz) = axis(position[2], increment[2], size[2]);
    GridDataLerp::new(
        size,
        0.25,
        [x, y, z],
        increment,
        tiling,
        vec![dx, dy, dz],
        &vec![fx, fy, fz],
        Lerp::from_u8(1),
        |d: f32| d,
        quintic,
    )
}

fn cells(ends: &[u32]) -> Vec<usize> {
    let mut start = 0;
    let mut at = Vec::new();
    for (k, end) in ends.iter().enumerate() {
        at.extend((start..*end).map(|_| k));
        start = *end;
    }
    at
}

fn keep(value: Vec<f32>) -> (Vec<Vec<f32>>, Vec<f32>) {
    (vec![value.clone()], value)
}

fn sum(_: Vec<Vec<f32>>, result: Vec<f32>, value: Vec<f32>) -> (Vec<Vec<f32>>, Vec<f32>) {
    (vec![value.clone()], result.iter().zip(&value).map(|(r, v)| r + v).collect())
}

fn done(_: Vec<Vec<f32>>, result: Vec<f32>) -> Vec<f32> {
    result
}

fn lerp(t: f32, a: f32, b: f32) -> f32 {
    t * (b - a) + a
}

struct Factors {
    top: Vec<f32>,
    dif: Vec<f32>,
    d_top: Vec<f32>,
    d_dif: Vec<f32>,
}

fn blend(grid: &GridDataLerp<f32, 3>, f: &Factors, y: usize, len: usize) -> (Vec<f32>, Factors) {
    let y_lerp = grid.fade_factors[1][y];
    let value = (0..len).map(|i| y_lerp * f.dif[i] + f.top[i]).collect();
    let next = Factors {
        top: (0..len).map(|i| f.top[i] + f.d_top[i]).collect(),
        dif: (0..len).map(|i| f.dif[i] + f.d_dif[i]).collect(),
        d_top: f.d_top.clone(),
        d_dif: f.d_dif.clone(),
    };
    (value, next)
}

/// Sixteen different gradients.
fn table() -> [[f32; 3]; 16] {
    std::array::from_fn(|n| {
        let n = n as f32;
        [(n - 7.5) / 8.0, ((n * 5.0) % 16.0 - 7.5) / 8.0, ((n * 11.0) % 16.0 - 7.5) / 8.0]
    })
}

fn dots() -> Dots<fn(f32, f32) -> f32, fn(f32, f32) -> f32> {
    Dots { left: |g, d| g * d, right: |g, d| g * d - g }
}

fn gather_perlin(
    grid: &GridDataLerp<f32, 3>,
    g: &PerlinGradients3D<f32>,
    y: usize,
    z: usize,
    x: usize,
    len: usize,
) -> DottedTrilerpBuffers<f32> {
    let mut b = DottedTrilerpBuffers::new(0.0, len);
    let y_hi = grid.distances[1][y];
    let z_hi = grid.distances[2][z];
    let (y_lo, z_lo) = (y_hi - 1.0, z_hi - 1.0);
    let y_step = grid.increment[1] * grid.weight;
    let z_step = grid.increment[2] * grid.weight;
    for n in 0..len {
        let i = x + n;
        let t = grid.fade_factors[0][i];
        let dot = |c: &[Vec<f32>; 3], dy: f32, dz: f32| c[0][i] + c[1][i] * dy + c[2][i] * dz;
        let along = |l: &[Vec<f32>; 3], r: &[Vec<f32>; 3], c: usize| lerp(t, l[c][i], r[c][i]);
        b.z_tf_offset[n] = along(&g.tlf, &g.trf, 2) * z_step;
        b.z_bf_offset[n] = along(&g.blf, &g.brf, 2) * z_step;
        b.z_top_offset_dif[n] = along(&g.tlb, &g.trb, 2) * z_step - b.z_tf_offset[n];
        b.z_bottom_offset_dif[n] = along(&g.blb, &g.brb, 2) * z_step - b.z_bf_offset[n];
        b.y_tf_offset[n] = along(&g.tlf, &g.trf, 1) * y_step;
        b.y_bf_offset[n] = along(&g.blf, &g.brf, 1) * y_step;
        b.y_top_offset_dif[n] = along(&g.tlb, &g.trb, 1) * y_step - b.y_tf_offset[n];
        b.y_bottom_offset_dif[n] = along(&g.blb, &g.brb, 1) * y_step - b.y_bf_offset[n];
        let tf = lerp(t, dot(&g.tlf, y_hi, z_hi), dot(&g.trf, y_hi, z_hi));
        let bf = lerp(t, dot(&g.blf, y_lo, z_hi), dot(&g.brf, y_lo, z_hi));
        let tb = lerp(t, dot(&g.tlb, y_hi, z_lo), dot(&g.trb, y_hi, z_lo));
        let bb = lerp(t, dot(&g.blb, y_lo, z_lo), dot(&g.brb, y_lo, z_lo));
        b.tf_base[n] = tf * grid.weight;
        b.bf_base[n] = bf * grid.weight;
        b.top_base_dif[n] = (tb - tf) * grid.weight;
        b.bottom_base_dif[n] = (bb - bf) * grid.weight;
    }
    b
}

fn prepare_perlin(
    grid: &GridDataLerp<f32, 3>,
    source: &DottedTrilerpSource<f32>,
    z: usize,
    x: usize,
    len: usize,
) -> Factors {
    let b = &source.buffers;
    let steps = (z - source.z_start) as f32;
    let t = grid.fade_factors[2][z];
    let mut f = Factors { top: vec![], dif: vec![], d_top: vec![], d_dif: vec![] };
    for i in x..x + len {
        let z_top = t * b.z_top_offset_dif[i] + b.z_tf_offset[i];
        let z_bottom = t * b.z_bottom_offset_dif[i] + b.z_bf_offset[i];
        let top = steps * z_top + t * b.top_base_dif[i] + b.tf_base[i];
        let bottom = steps * z_bottom + t * b.bottom_base_dif[i] + b.bf_base[i];
        let d_top = t * b.y_top_offset_dif[i] + b.y_tf_offset[i];
        let d_bottom = t * b.y_bottom_offset_dif[i] + b.y_bf_offset[i];
        f.top.push(top);
        f.dif.push(bottom - top);
        f.d_top.push(d_top);
        f.d_dif.push(d_bottom - d_top);
    }
    f
}

fn hashes(grid: &GridDataLerp<f32, 3>, i: usize, k: usize, l: usize) -> (u32, u32, u32) {
    let z = grid.grid_start[2] + l as i32;
    let layer = match grid.octave_tiling[2] {
        None => hash_axis(z, SEED),
        Some(t) => hash_word(z.rem_euclid(t as i32) as u32),
    };
    (
        hash_axis(tile(grid.grid_start[0] + i as i32, grid.octave_tiling[0]), SEED),
        hash_axis(tile(grid.grid_start[1] + k as i32, grid.octave_tiling[1]), SEED),
        layer,
    )
}

fn perlin_at(grid: &GridDataLerp<f32, 3>, at: [usize; 3]) -> f32 {
    let cell: [usize; 3] = std::array::from_fn(|a| cells(&grid.grid_indices[a])[at[a]]);
    let d: [f32; 3] = std::array::from_fn(|a| grid.distances[a][at[a]]);
    let dot = |o: [usize; 3]| {
        let (x, y, z) = hashes(grid, cell[0] + o[0], cell[1] + o[1], cell[2] + o[2]);
        let g = table()[(z.wrapping_mul(y).wrapping_mul(x) >> 28) as usize];
        (0..3).map(|a| g[a] * (d[a] - o[a] as f32)).sum::<f32>()
    };
    let row = |y: usize, z: usize| lerp(quintic(d[0]), dot([0, y, z]), dot([1, y, z]));
    let slice = |z: usize| lerp(quintic(d[1]), row(0, z), row(1, z));
    lerp(quintic(d[2]), slice(0), slice(1)) * grid.weight
}

fn close(actual: f32, expected: f32) {
    assert!((actual - expected).abs() < 1e-4, "{actual} is not {expected}");
}

const CASES: [([usize; 3], Tiling); 3] = [
    ([20, 9, 10], [None, None, None]),
    ([33, 6, 7], [Some(3), Some(2), Some(4)]),
    ([5, 8, 3], [None, Some(4), Some(1)]),
];

#[test]
fn perlin_solids_match_single_samples() {
    for (size, tiling) in CASES {
        for freq in [1.0 / 32.0, 1.0 / 6.0, 1.0 / 2.0] {
            let grid = solid(size, [-5.0, 3.0, 11.0], [freq, freq, freq], tiling);
            let config = InterpolationConfig::new(2, 8, size[0]);
            let combiner = Combiner { initialize: keep, apply: sum, finalize: done };
            let sink = Sink {
                combiner: &combiner,
                pass: Pass { init: true, last: false },
                layout: Layout { total_size: grid.total_size, state_size: 1 },
            };
            let kernels = SlabKernels {
                gather: gather_perlin,
                rows: Kernels { prepare: prepare_perlin, blend },
            };
            let mut dst = vec![f32::NAN; grid.total_size];
            let mut state = vec![f32::NAN; grid.total_size];
            perlin::grid_3d::sample_grid(
                SEED,
                &grid,
                &table(),
                &dots(),
                &config,
                &kernels,
                0.0,
                &sink,
                &mut state,
                &mut dst,
            );
            assert_eq!(state, dst);
            for z in 0..size[2] {
                for y in 0..size[1] {
                    for x in 0..size[0] {
                        let n = (z * size[1] + y) * size[0] + x;
                        close(dst[n], perlin_at(&grid, [x, y, z]));
                    }
                }
            }
        }
    }
}

fn gather_value(
    grid: &GridDataLerp<f32, 3>,
    g: &ValueGradients3D<u32>,
    x: usize,
    len: usize,
) -> TrilerpBuffers<f32> {
    let mut b = TrilerpBuffers::new(0.0, len);
    for n in 0..len {
        let i = x + n;
        let t = grid.fade_factors[0][i];
        let along = |l: &Vec<u32>, r: &Vec<u32>| {
            lerp(t, f32::from_bits(l[i]) - 3.0, f32::from_bits(r[i]) - 3.0) * grid.weight
        };
        b.tf_base[n] = along(&g.tlf, &g.trf);
        b.bf_base[n] = along(&g.blf, &g.brf);
        b.top_base_dif[n] = along(&g.tlb, &g.trb) - b.tf_base[n];
        b.bottom_base_dif[n] = along(&g.blb, &g.brb) - b.bf_base[n];
    }
    b
}

fn prepare_value(
    grid: &GridDataLerp<f32, 3>,
    b: &TrilerpBuffers<f32>,
    z: usize,
    x: usize,
    len: usize,
) -> Factors {
    let t = grid.fade_factors[2][z];
    let top: Vec<f32> = (x..x + len).map(|i| t * b.top_base_dif[i] + b.tf_base[i]).collect();
    let dif = (0..len)
        .map(|n| t * b.bottom_base_dif[x + n] + b.bf_base[x + n] - top[n])
        .collect();
    Factors { top, dif, d_top: vec![0.0; len], d_dif: vec![0.0; len] }
}

fn value_at(grid: &GridDataLerp<f32, 3>, at: [usize; 3]) -> f32 {
    let cell: [usize; 3] = std::array::from_fn(|a| cells(&grid.grid_indices[a])[at[a]]);
    let t: [f32; 3] = std::array::from_fn(|a| quintic(grid.distances[a][at[a]]));
    let corner = |o: [usize; 3]| {
        let (x, y, z) = hashes(grid, cell[0] + o[0], cell[1] + o[1], cell[2] + o[2]);
        let h = z.wrapping_mul(y).wrapping_add(x.wrapping_mul(y));
        f32::from_bits((h & 0x007f_ffff) | 0x4000_0000) - 3.0
    };
    let row = |y: usize, z: usize| lerp(t[0], corner([0, y, z]), corner([1, y, z]));
    let slice = |z: usize| lerp(t[1], row(0, z), row(1, z));
    lerp(t[2], slice(0), slice(1)) * grid.weight
}

#[test]
fn value_solids_match_single_samples() {
    for (size, tiling) in CASES {
        for freq in [1.0 / 32.0, 1.0 / 6.0, 1.0 / 2.0] {
            let grid = solid(size, [-5.0, 3.0, 11.0], [freq, freq, freq], tiling);
            let config = InterpolationConfig::new(4, 8, size[0]);
            let combiner = Combiner { initialize: keep, apply: sum, finalize: done };
            let sink = Sink {
                combiner: &combiner,
                pass: Pass { init: false, last: true },
                layout: Layout { total_size: grid.total_size, state_size: 1 },
            };
            let kernels = SlabKernels {
                gather: gather_value,
                rows: Kernels { prepare: prepare_value, blend },
            };
            let mut dst = vec![10.0; grid.total_size];
            let mut state = vec![0.0; grid.total_size];
            value::grid_3d::sample_grid(
                SEED,
                &grid,
                &config,
                &kernels,
                0.0,
                &sink,
                &mut state,
                &mut dst,
            );
            assert_eq!(state, vec![0.0; grid.total_size]);
            for z in 0..size[2] {
                for y in 0..size[1] {
                    for x in 0..size[0] {
                        let n = (z * size[1] + y) * size[0] + x;
                        close(dst[n], 10.0 + value_at(&grid, [x, y, z]));
                    }
                }
            }
        }
    }
}

#[test]
fn first_octaves_of_solids_forget_the_buffers() {
    let grid = solid([21, 5, 6], [3.0, -2.0, 9.0], [0.2, 0.3, 0.25], [None, Some(2), None]);
    let config = InterpolationConfig::new(2, 8, 21);
    let combiner = Combiner { initialize: keep, apply: sum, finalize: done };
    let kernels =
        SlabKernels { gather: gather_value, rows: Kernels { prepare: prepare_value, blend } };
    let fill = |last: bool, held: f32| {
        let sink = Sink {
            combiner: &combiner,
            pass: Pass { init: true, last },
            layout: Layout { total_size: grid.total_size, state_size: 1 },
        };
        let mut state = vec![held; grid.total_size];
        let mut dst = vec![held; grid.total_size];
        value::grid_3d::sample_grid(
            SEED, &grid, &config, &kernels, 0.0, &sink, &mut state, &mut dst,
        );
        (state, dst)
    };
    assert_eq!(fill(false, 1.0), fill(false, -4.0));
    let (state, dst) = fill(true, 1.0);
    assert_eq!(state, vec![1.0; grid.total_size]);
    assert_eq!(dst, fill(true, -4.0).1);
}

#[test]
fn corners_swap_and_come_back() {
    let mut g = PerlinGradients3D::new(1, 2);
    g.tlf[2] = vec![5, 6];
    g.trb[0] = vec![7, 8];
    g.swap_top_bottom();
    assert_eq!((&g.blf[2], &g.brb[0]), (&vec![5, 6], &vec![7, 8]));
    assert_eq!(g.scratch, [vec![0, 0], vec![0, 0]]);
    g.swap_top_bottom();
    assert_eq!((&g.tlf[2], &g.trb[0]), (&vec![5, 6], &vec![7, 8]));

    let mut g = ValueGradients3D::new(1, 2);
    g.tlb = vec![5, 6];
    g.brf = vec![7, 8];
    g.swap_top_bottom();
    assert_eq!((&g.blb, &g.trf), (&vec![5, 6], &vec![7, 8]));
    g.swap_top_bottom();
    assert_eq!((&g.tlb, &g.brf), (&vec![5, 6], &vec![7, 8]));
}

#[test]
fn neighbouring_slabs_share_a_lattice_layer() {
    let grid = solid([20, 4, 8], [0.0, 0.0, 0.0], [0.2, 0.5, 0.5], [None, None, None]);
    let t = table();
    let mut here = PerlinGradients3D::new(0.0, 20);
    let mut behind = PerlinGradients3D::new(0.0, 20);
    perlin::grid_3d::grid_gradients_3d(SEED, &grid, &t, &dots(), &mut here, 1, 2);
    perlin::grid_3d::grid_gradients_3d(SEED, &grid, &t, &dots(), &mut behind, 1, 3);
    assert_eq!(here.blb, behind.blf);
    assert_eq!(here.brb, behind.brf);
    assert_ne!(here.blf, behind.blf);

    let mut here = ValueGradients3D::new(0, 20);
    let mut behind = ValueGradients3D::new(0, 20);
    value::grid_3d::grid_gradients_3d(SEED, &grid, &mut here, 1, 2);
    value::grid_3d::grid_gradients_3d(SEED, &grid, &mut behind, 1, 3);
    assert_eq!(here.blb, behind.blf);
    assert_eq!(here.brb, behind.brf);
    assert_ne!(here.blf, behind.blf);
}

#[test]
fn pieces_are_put_into_their_buffers() {
    let mut b = TrilerpBuffers::new(0, 5);
    let piece = TrilerpBuffers {
        tf_base: vec![1, 2],
        bf_base: vec![3, 4],
        top_base_dif: vec![5, 6],
        bottom_base_dif: vec![7, 8],
    };
    b.put(2, &piece);
    assert_eq!(b.tf_base, [0, 0, 1, 2, 0]);
    assert_eq!(b.bf_base, [0, 0, 3, 4, 0]);
    assert_eq!(b.top_base_dif, [0, 0, 5, 6, 0]);
    assert_eq!(b.bottom_base_dif, [0, 0, 7, 8, 0]);
}

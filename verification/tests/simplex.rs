use quick_noise::combine::{Combiner, Layout, Pass, Sink};
use quick_noise::grid_data::SimplexGridData;
use quick_noise::simplex::batch_2d::{corner_numbers, sample_batch};
use quick_noise::simplex::counts::RowSplitCounts;
use quick_noise::simplex::grid_2d::{
    build_gradient_table, chunk_gradients, sample_gradients, sample_grid, Corners, Gradients,
    Kernels, Place,
};
use std::cell::Cell;

const SQRT_3: f32 = 1.732_050_8;
const SKEW: f32 = (SQRT_3 - 1.0) / 2.0;
const UNSKEW: f32 = (3.0 - SQRT_3) / 6.0;

fn gradients() -> Gradients<f32> {
    let a = 80.0;
    let b = (2.0f32.sqrt() / 2.0) * a;
    Gradients { x: [a, b, 0.0, -b, -a, -b, 0.0, b], y: [0.0, b, a, b, 0.0, -b, -a, -b] }
}

/// Where a place lies, and its distances to the low corner of its cell.
fn locate(x: f32, y: f32) -> (Place, f32, f32) {
    let s = (x + y) * SKEW;
    let (i, j) = ((x + s).floor(), (y + s).floor());
    let t = (i + j) * UNSKEW;
    let (x0, y0) = (x - (i - t), y - (j - t));
    (Place { i: i as i32, j: j as i32, upper: x0 > y0 }, x0, y0)
}

fn fade(gx: f32, gy: f32, x: f32, y: f32) -> f32 {
    let t = (0.5 - (x * x + y * y)).max(0.0);
    t * t * t * t * (gx * x + gy * y)
}

fn value(x0: f32, y0: f32, upper: bool, c: &Corners<f32>) -> f32 {
    let (mx, my) = if upper { (UNSKEW - 1.0, UNSKEW) } else { (UNSKEW, UNSKEW - 1.0) };
    let far = 2.0 * UNSKEW - 1.0;
    fade(c.lo.0, c.lo.1, x0, y0)
        + fade(c.mi.0, c.mi.1, x0 + mx, y0 + my)
        + fade(c.hi.0, c.hi.1, x0 + far, y0 + far)
}

fn keep(value: Vec<f32>) -> (Vec<Vec<f32>>, Vec<f32>) {
    (Vec::new(), value)
}

fn sum(state: Vec<Vec<f32>>, result: Vec<f32>, value: Vec<f32>) -> (Vec<Vec<f32>>, Vec<f32>) {
    (state, result.iter().zip(&value).map(|(r, v)| r + v).collect())
}

fn done(_: Vec<Vec<f32>>, result: Vec<f32>) -> Vec<f32> {
    result
}

fn fill(
    seed: u32,
    size: [usize; 2],
    position: [i32; 2],
    freq: f32,
    mut counters: RowSplitCounts,
    clock: impl Fn() -> u64,
) -> (Vec<f32>, RowSplitCounts) {
    let origin = [position[0] as f32 * freq, position[1] as f32 * freq];
    let at = |ox: usize, oy: usize| {
        locate(origin[0] + ox as f32 * freq, origin[1] + oy as f32 * freq)
    };
    let start = at(0, 0).0;
    let grid = SimplexGridData::new(
        size,
        1.0,
        [freq, freq],
        origin,
        [start.i, start.j],
        [None, None],
        [freq < 1.0, freq < 1.0],
    );
    let corner = |ox: usize, oy: usize| {
        let p = at(ox, oy).0;
        (p.i, p.j)
    };
    let (w, h) = (size[0] - 1, size[1] - 1);
    let corners = [corner(0, 0), corner(w, 0), corner(0, h), corner(w, h)];
    let kernels = Kernels {
        locate: |oy: usize, ox: usize| -> [Place; 8] { std::array::from_fn(|k| at(ox + k, oy).0) },
        value: |oy: usize, ox: usize, places: [Place; 8], corners: Vec<Corners<f32>>| {
            (0..8)
                .map(|k| {
                    let (_, x0, y0) = at(ox + k, oy);
                    value(x0, y0, places[k].upper, &corners[k]) * grid.weight
                })
                .collect()
        },
        locate_one: |oy: usize, ox: usize| at(ox, oy).0,
        value_one: |oy: usize, ox: usize, p: Place, four: [(f32, f32); 4]| {
            let (_, x0, y0) = at(ox, oy);
            let mi = if p.upper { four[1] } else { four[2] };
            value(x0, y0, p.upper, &Corners { lo: four[0], mi, hi: four[3] }) * grid.weight
        },
    };
    let combiner = Combiner { initialize: keep, apply: sum, finalize: done };
    let sink = Sink {
        combiner: &combiner,
        pass: Pass { init: true, last: true },
        layout: Layout { total_size: grid.total_size, state_size: 0 },
    };
    let mut dst = vec![f32::NAN; grid.total_size];
    sample_grid(
        seed,
        &grid,
        &gradients(),
        &corners,
        &kernels,
        &clock,
        &mut counters,
        &sink,
        &mut Vec::new(),
        &mut dst,
    );
    (dst, counters)
}

/// A plane that is not timed; nothing reads the clock.
fn untimed(
    seed: u32,
    size: [usize; 2],
    position: [i32; 2],
    freq: f32,
) -> (Vec<f32>, RowSplitCounts) {
    fill(seed, size, position, freq, RowSplitCounts::new(false, 16), || panic!("clock was read"))
}

/// Eight times the same place, as a batch.
fn reference(seed: u32, px: f32, py: f32, freq: f32) -> f32 {
    let (p, x0, y0) = locate(px * freq, py * freq);
    sample_batch(seed, [p; 8], &gradients(), |corners: Vec<Corners<f32>>| {
        value(x0, y0, p.upper, &corners[0])
    })
}

#[test]
fn simplex_grid_2d_reference() {
    let seed = 123456789;

    for freq in [1.0 / 32.0, 1.0 / 8.0, 1.0 / 6.0, 1.0 / 4.0, 1.0 / 3.0, 1.0 / 2.0] {
        check_reference(64, 64, seed, -5, 3, freq);
    }

    check_reference(32, 96, seed, -5, 3, 1.0 / 6.0);
}

fn check_reference(w: usize, h: usize, seed: u32, offset_x: i32, offset_y: i32, freq: f32) {
    let (result, _) = untimed(seed, [w, h], [offset_x, offset_y], freq);

    let mut max_diff = 0.0f32;
    for y in 0..h {
        for x in 0..w {
            let px = (offset_x + (x as i32)) as f32;
            let py = (offset_y + (y as i32)) as f32;
            let reference = reference(seed, px, py, freq);
            let actual = result[y * w + x];
            max_diff = max_diff.max((actual - reference).abs());
        }
    }
    assert!(
        max_diff < 1e-4,
        "Grid simplex at freq {freq} diverges from the brute-force Simplex by {max_diff}"
    );
}

#[test]
fn single_samples_match_chunks() {
    check_reference(13, 9, 77, 4, -6, 1.0 / 16.0);
    check_reference(7, 3, 77, -40, 12, 0.3);
}

#[test]
fn every_sample_is_counted_once() {
    for (size, freq) in [([64, 10], 1.0 / 64.0), ([45, 7], 0.25), ([5, 3], 0.1), ([8, 1], 1.5)] {
        let (_, counters) = untimed(1, size, [0, 0], freq);
        let chunks = counters.uniform + counters.fallback;
        assert_eq!(chunks, (size[1] * (size[0] / 8)) as u64);
        assert_eq!(counters.tail, (size[1] * (size[0] % 8)) as u64);
        assert_eq!((counters.samples, counters.iter_cycles), (0, 0));
    }
}

#[test]
fn wide_cells_are_mostly_uniform() {
    let (_, coarse) = untimed(1, [64, 8], [0, 0], 1.0 / 200.0);
    assert!(coarse.uniform > coarse.fallback);
    let (_, fine) = untimed(1, [64, 8], [0, 0], 0.9);
    assert_eq!(fine.uniform, 0);
}

/// Goes on by ten with every reading.
fn ticking(at: &Cell<u64>) -> u64 {
    at.set(at.get() + 10);
    at.get()
}

#[test]
fn sampled_chunks_are_timed() {
    // Four rows of five chunks: twenty chunks, of which every third is sampled.
    let at = Cell::new(0);
    let timed = RowSplitCounts::new(true, 3);
    let (_, c) = fill(1, [43, 4], [0, 0], 0.9, timed, || ticking(&at));
    assert_eq!((c.uniform, c.fallback, c.tail), (0, 20, 12));
    assert_eq!(c.samples, 7);
    // The clock is read at the start, once computed, once combined and at the end.
    assert_eq!(at.get(), 7 * 4 * 10);
    assert_eq!(c.compute_uniform_cycles, 0);
    assert_eq!(c.compute_fallback_cycles, 7 * 10);
    assert_eq!(c.fill_cycles, 7 * 10);
    assert_eq!(c.iter_cycles, 7 * 30);
    assert_eq!(c.sample_counter, 1);

    let at = Cell::new(0);
    let (_, c) = fill(1, [16, 1], [0, 0], 0.001, RowSplitCounts::new(true, 1), || ticking(&at));
    assert_eq!((c.uniform, c.fallback), (2, 0));
    assert_eq!((c.compute_uniform_cycles, c.compute_fallback_cycles), (20, 0));

    // A clock that stands at zero is read once for each sampled chunk.
    let reads = Cell::new(0);
    let (_, c) = fill(1, [43, 4], [0, 0], 0.9, timed, || {
        reads.set(reads.get() + 1);
        0
    });
    assert_eq!((c.samples, c.iter_cycles, reads.get()), (0, 0, 7));
}

#[test]
fn timing_does_not_change_the_output() {
    let at = Cell::new(0);
    let (plain, _) = untimed(9, [45, 7], [-3, 8], 0.2);
    let (timed, _) =
        fill(9, [45, 7], [-3, 8], 0.2, RowSplitCounts::new(true, 2), || ticking(&at));
    assert_eq!(plain, timed);
}

#[test]
fn tables_hold_the_gradients_of_their_block() {
    let g = Gradients { x: [0, 1, 2, 3, 4, 5, 6, 7], y: [10, 11, 12, 13, 14, 15, 16, 17] };
    let table = build_gradient_table(&g, -3, 5, 11, 4, 12345);
    assert_eq!((table.cols, table.rows), (11, 4));
    for j in 5..9 {
        for i in -3..8 {
            assert_eq!(table.corner(i, j), g.gradient(i, j, 12345));
            let n = corner_numbers(12345, [i; 8], [j; 8], [true; 8]).lo[0];
            assert_eq!(table.corner(i, j), (n as i32, 10 + n as i32));
            assert_eq!(g.get(n), (n as i32, 10 + n as i32));
        }
    }
    assert_eq!(g.gradient(0, 0, 12345), (7, 17));
    assert_eq!(g.gradient(1, 1, 12345), (5, 15));
}

#[test]
fn chunks_agree_with_single_samples() {
    let g = Gradients { x: [0, 1, 2, 3, 4, 5, 6, 7], y: [10, 11, 12, 13, 14, 15, 16, 17] };
    let table = build_gradient_table(&g, 0, 0, 20, 20, 9);
    let same: [Place; 8] = std::array::from_fn(|k| Place { i: 4, j: 7, upper: k % 3 == 0 });
    let mixed: [Place; 8] =
        std::array::from_fn(|k| Place { i: 4 + k as i32 / 5, j: 7, upper: k % 2 == 0 });
    let last: [Place; 8] =
        std::array::from_fn(|k| Place { i: 4, j: 7 - k as i32 / 7, upper: false });
    for (places, uniform) in [(same, true), (mixed, false), (last, false)] {
        let (found, corners) = chunk_gradients(&table, &g, 9, &places);
        assert_eq!(found, uniform);
        for k in 0..8 {
            let four = sample_gradients(&g, 9, places[k]);
            let mi = if places[k].upper { four[1] } else { four[2] };
            assert_eq!((corners[k].lo, corners[k].mi, corners[k].hi), (four[0], mi, four[3]));
        }
    }
}

#[test]
fn batches_take_the_gradients_of_grids() {
    let g = Gradients { x: [0, 1, 2, 3, 4, 5, 6, 7], y: [10, 11, 12, 13, 14, 15, 16, 17] };
    let table = build_gradient_table(&g, -4, -4, 20, 20, 31);
    let places: [Place; 8] =
        std::array::from_fn(|k| Place { i: k as i32 - 3, j: 5 - k as i32, upper: k % 2 == 0 });
    let found = corner_numbers(
        31,
        std::array::from_fn(|k| places[k].i),
        std::array::from_fn(|k| places[k].j),
        std::array::from_fn(|k| places[k].upper),
    );
    let (_, corners) = chunk_gradients(&table, &g, 31, &places);
    let taken = sample_batch(31, places, &g, |c: Vec<Corners<i32>>| c);
    assert_eq!(taken.len(), 8);
    for k in 0..8 {
        assert_eq!(taken[k].lo, corners[k].lo);
        assert_eq!(taken[k].mi, corners[k].mi);
        assert_eq!(taken[k].hi, corners[k].hi);
        assert_eq!(g.get(found.lo[k]), corners[k].lo);
        assert_eq!(g.get(found.mi[k]), corners[k].mi);
        assert_eq!(g.get(found.hi[k]), corners[k].hi);
    }
}

#[test]
fn batches_hand_on_what_was_made_of_the_gradients() {
    let g = Gradients { x: [0, 1, 2, 3, 4, 5, 6, 7], y: [10, 11, 12, 13, 14, 15, 16, 17] };
    let places = [Place { i: 0, j: 0, upper: true }; 8];
    // The gradients at (0, 0) and (1, 1) have the numbers 7 and 5.
    let found = sample_batch(12345, places, &g, |c: Vec<Corners<i32>>| {
        c.iter().map(|c| 100 * c.lo.0 + c.hi.1).collect::<Vec<i32>>()
    });
    assert_eq!(found, [715; 8]);
}

#[test]
fn one_in_every_few_chunks_is_sampled() {
    for every in [1u32, 2, 5, 16] {
        let mut c = RowSplitCounts::new(true, every);
        for k in 0..40u32 {
            let t = c.tick(1000 + k as u64);
            assert_eq!(t != 0, k % every == 0);
        }
        assert_eq!(c.samples, (40 + every as u64 - 1) / every as u64);
    }
    let mut off = RowSplitCounts::new(false, 1);
    assert_eq!(off.tick(5), 0);
    assert_eq!((off.samples, off.sample_counter), (0, 0));
    // A clock that stands at zero is not counted as a sample.
    let mut still = RowSplitCounts::new(true, 3);
    assert_eq!(still.tick(0), 0);
    assert_eq!((still.samples, still.sample_counter), (0, 2));
}

#[test]
fn cycles_go_to_their_stage() {
    let mut c = RowSplitCounts::new(true, 1);
    let t0 = c.tick(100);
    let t1 = c.compute_done(t0, true, 130);
    assert_eq!(t1, 130);
    c.fill_done(t1, 137);
    c.iter_done(t0, 150);
    let t0 = c.tick(200);
    let t1 = c.compute_done(t0, false, 211);
    c.fill_done(t1, 213);
    c.iter_done(t0, 220);
    assert_eq!(c.compute_uniform_cycles, 30);
    assert_eq!(c.compute_fallback_cycles, 11);
    assert_eq!(c.fill_cycles, 9);
    assert_eq!(c.iter_cycles, 70);
    assert_eq!(c.samples, 2);
    // A skipped chunk adds nothing.
    assert_eq!(c.compute_done(0, true, 999), 0);
    c.fill_done(0, 999);
    c.iter_done(0, 999);
    assert_eq!((c.compute_uniform_cycles, c.fill_cycles, c.iter_cycles), (30, 9, 70));
    // The clock may wrap, and so do the tallies.
    let t1 = c.compute_done(u64::MAX, true, 4);
    assert_eq!((t1, c.compute_uniform_cycles), (4, 35));
    c.iter_done(71, 0);
    assert_eq!(c.iter_cycles, u64::MAX);
    c.iter_done(1, 3);
    assert_eq!(c.iter_cycles, 1);
}

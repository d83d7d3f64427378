use quick_noise::cellular::batch_2d;
use quick_noise::cellular::grid_2d::{
    hash_cell, hash_cell_with_y, hash_cell_y, split_hash, CellJitters, RowWindow, NEIGHBORS_12,
};
use quick_noise::hash::{hash_axis, hash_word};
use quick_noise::perlin;
use quick_noise::simplex::batch_2d::corner_numbers;
use quick_noise::tiling::tile;
use quick_noise::value;

const SEED: u32 = 12345;

fn shuffle(x: u32) -> u32 {
    let b = x.to_le_bytes();
    u32::from_le_bytes([b[3], b[0], b[2], b[1]]) ^ 0x85eb_ca6b
}

fn axis(c: i64, seed: u32) -> u32 {
    shuffle((c as u32).wrapping_mul(seed))
}

fn vertex(x: i64, y: i64, seed: u32) -> u32 {
    let a = axis(x, seed);
    a.wrapping_mul(axis(y, seed)) ^ a
}

#[test]
fn words_are_shuffled_and_mixed() {
    assert_eq!(hash_word(0x0403_0201), 0x0203_0104 ^ 0x85eb_ca6b);
    assert_eq!(hash_word(0), 0x85eb_ca6b);
    assert_eq!(hash_word(1), 0x85eb_cb6b);
    assert_eq!(hash_word(0xdead_beef), 0x3b46_25b5);
    for x in [0u32, 1, 0xdead_beef, u32::MAX, 0x8000_0000] {
        assert_eq!(hash_word(x), shuffle(x));
    }
}

#[test]
fn coordinates_are_seeded_before_they_are_hashed() {
    assert_eq!(hash_axis(-3, SEED), 0xea14_9f94);
    assert_eq!(hash_axis(0, SEED), 0x85eb_ca6b);
    assert_eq!(hash_axis(7, SEED), 0xd4ea_456b);
    assert_eq!(hash_axis(-1, u32::MAX), 0x85eb_cb6b);
    assert_eq!(hash_axis(i32::MIN, 1), shuffle(0x8000_0000));
}

#[test]
fn coordinates_wrap_into_their_period() {
    assert_eq!(tile(-5, None), -5);
    assert_eq!(tile(-5, Some(4)), 3);
    assert_eq!(tile(8, Some(4)), 0);
    assert_eq!(tile(i32::MIN, Some(1)), 0);
    assert_eq!(tile(i32::MAX, Some(1000)), i32::MAX % 1000);
    // A period past the largest coordinate counts as negative.
    assert_eq!(tile(-7, Some(u32::MAX - 2)), 2);
    assert_eq!(tile(i32::MIN, Some(u32::MAX)), 0);
}

#[test]
fn perlin_numbers_along_a_row() {
    let y_hash = hash_axis(4, SEED);
    assert_eq!(
        perlin::grid_2d::gradient_row(-5, None, SEED, y_hash, 11),
        [6, 3, 7, 3, 7, 7, 5, 4, 5, 7, 6]
    );
    assert_eq!(
        perlin::grid_2d::gradient_row(-5, Some(4), SEED, y_hash, 11),
        [5, 7, 5, 4, 5, 7, 5, 4, 5, 7, 5]
    );
    assert!(perlin::grid_2d::gradient_row(0, None, SEED, y_hash, 0).is_empty());
}

#[test]
fn tiled_rows_repeat_after_one_period() {
    let y_hash = hash_axis(-9, SEED);
    for t in [1usize, 2, 3, 5, 8, 13] {
        let numbers = perlin::grid_2d::gradient_row(-17, Some(t as u32), SEED, y_hash, 60);
        let values = value::grid_2d::value_row(-17, Some(t as u32), SEED, y_hash, 60);
        for i in 0..60 - t {
            assert_eq!(numbers[i], numbers[i + t]);
            assert_eq!(values[i], values[i + t]);
        }
    }
}

#[test]
fn perlin_numbers_in_space() {
    let y_hash = hash_axis(4, SEED);
    let front = hash_axis(2, SEED).wrapping_mul(y_hash);
    let back = hash_axis(3, SEED).wrapping_mul(y_hash);
    let rows = perlin::grid_3d::gradient_rows(-5, None, SEED, front, back, 9);
    assert_eq!(rows[0], [7, 6, 7, 11, 12, 9, 8, 0, 13]);
    assert_eq!(rows[1], [13, 10, 5, 1, 12, 6, 9, 13, 0]);
}

#[test]
fn values_along_a_row() {
    let y_hash = hash_axis(4, SEED);
    let row = value::grid_2d::value_row(-5, None, SEED, y_hash, 9);
    assert_eq!(
        row,
        [
            0x403e_8bf4,
            0x405b_90f4,
            0x4053_d1f4,
            0x4032_0ef4,
            0x402a_4ff4,
            0x405c_2753,
            0x4019_c853,
            0x400f_2553,
            0x4070_4653,
        ]
    );
    for bits in row {
        let v = f32::from_bits(bits);
        assert!((2.0..4.0).contains(&v));
    }
}

#[test]
fn values_in_space() {
    let y_hash = hash_axis(4, SEED);
    let front = hash_axis(2, SEED).wrapping_mul(y_hash);
    let back = hash_axis(3, SEED).wrapping_mul(y_hash);
    let rows = value::grid_3d::value_rows(-5, Some(6), SEED, y_hash, front, back, 20);
    for i in 0..20i64 {
        let x_hash = axis((i - 5).rem_euclid(6), SEED);
        let mix = x_hash.wrapping_mul(y_hash);
        let expect = |zy: u32| (zy.wrapping_add(mix) & 0x007f_ffff) | 0x4000_0000;
        assert_eq!(rows[0][i as usize], expect(front));
        assert_eq!(rows[1][i as usize], expect(back));
    }
}

#[test]
fn cells_are_hashed_from_both_axes() {
    let h = hash_cell(3, -2i32 as u32, SEED);
    assert_eq!(h, 0xb9bb_dcb7);
    assert_eq!(h, hash_cell_with_y(3, hash_cell_y(-2i32 as u32, SEED), SEED));
    assert_eq!(split_hash(h), (0x3fbb_dcb7, 0x3fdc_ddee));
}

#[test]
fn jitters_stay_in_range_and_keep_the_hash() {
    for h in [0u32, 1, 0xffff_ffff, 0x1234_5678, 0x8000_01ff] {
        let (tx, ty) = split_hash(h);
        assert!((1.0..2.0).contains(&f32::from_bits(tx)));
        assert!((1.0..2.0).contains(&f32::from_bits(ty)));
        assert_eq!((tx & 0x007f_ffff) | ((ty & 0x007f_ffff) << 9), h);
    }
}

#[test]
fn window_rows_hold_the_cells_of_a_lattice_row() {
    for tiling in [[None, None], [Some(5), Some(3)], [Some(1), None]] {
        for len in [0usize, 1, 7, 8, 9, 21] {
            let mut row = vec![(0u32, 0u32); len];
            RowWindow::fill_row(SEED, &tiling, &mut row, -4, -6);
            for (i, part) in row.iter().enumerate() {
                let x = tile(-6 + i as i32, tiling[0]) as i64;
                let y = tile(-4, tiling[1]) as i64;
                assert_eq!(*part, split_hash(vertex(x, y, SEED)));
            }
        }
    }
    // Columns wrap around at the end of their range.
    let mut row = vec![(0u32, 0u32); 10];
    RowWindow::fill_row(SEED, &[None, None], &mut row, 0, i32::MAX - 1);
    for (i, part) in row.iter().enumerate() {
        let x = (i32::MAX - 1).wrapping_add(i as i32) as i64;
        assert_eq!(*part, split_hash(vertex(x, 0, SEED)));
    }
}

#[test]
fn windows_slide_and_come_back() {
    let tiling = [None, None];
    let mut window = RowWindow::new(6);
    assert_eq!(window.width, 6);
    RowWindow::fill_row(SEED, &tiling, &mut window.top, 9, 0);
    RowWindow::fill_row(SEED, &tiling, &mut window.sec, 10, 0);
    RowWindow::fill_row(SEED, &tiling, &mut window.thi, 11, 0);
    RowWindow::fill_row(SEED, &tiling, &mut window.bot, 12, 0);
    let first = (
        window.top.clone(),
        window.sec.clone(),
        window.thi.clone(),
        window.bot.clone(),
    );
    window.swap();
    assert_eq!(window.top, first.1);
    assert_eq!(window.sec, first.2);
    assert_eq!(window.thi, first.3);
    assert_eq!(window.bot, first.0);
    window.swap();
    window.swap();
    window.swap();
    assert_eq!((window.top, window.sec, window.thi, window.bot), first);
}

#[test]
fn jitters_around_a_cell() {
    let tiling = [None, None];
    let mut window = RowWindow::new(9);
    RowWindow::fill_row(SEED, &tiling, &mut window.top, -3, -6);
    RowWindow::fill_row(SEED, &tiling, &mut window.sec, -2, -6);
    RowWindow::fill_row(SEED, &tiling, &mut window.thi, -1, -6);
    RowWindow::fill_row(SEED, &tiling, &mut window.bot, 0, -6);
    let mut jitters = CellJitters::new();
    assert_eq!(jitters.parts, vec![(0, 0); 12]);
    jitters.write(&window.top, &window.sec, &window.thi, &window.bot, 5);
    for (i, (ox, oy)) in NEIGHBORS_12.iter().enumerate() {
        let (x, y) = (*ox as i64, -2 + *oy as i64);
        assert_eq!(jitters.parts[i], split_hash(vertex(x, y, SEED)));
    }
}

#[test]
fn simplex_numbers_at_the_corners() {
    let xs = [0, -7, 2147483646, 5, 5, 5, -1, i32::MIN];
    let ys = [0, 3, -2147483648, 9, 9, -9, -1, i32::MIN];
    let upper = [true, false, true, false, true, false, true, false];
    let r = corner_numbers(SEED, xs, ys, upper);
    assert_eq!((r.lo[0], r.mi[0], r.hi[0]), (7, 7, 5));
    assert_eq!(r.lo[1], 5);
    for k in 0..8 {
        let (x, y) = (xs[k] as i64, ys[k] as i64);
        let (mx, my) = if upper[k] { (x + 1, y) } else { (x, y + 1) };
        assert_eq!(r.lo[k], vertex(x, y, SEED) >> 29);
        assert_eq!(r.mi[k], vertex(mx, my, SEED) >> 29);
        assert_eq!(r.hi[k], vertex(x + 1, y + 1, SEED) >> 29);
    }
}

fn lane_jitters(xs: &[i32; 8], ys: &[i32; 8], offset: (i32, i32)) -> [(u32, u32); 8] {
    std::array::from_fn(|k| {
        let x = xs[k] as i64 + offset.0 as i64;
        let y = ys[k] as i64 + offset.1 as i64;
        split_hash(vertex(x, y, SEED))
    })
}

#[test]
fn batches_look_at_the_cells_around_each_lane() {
    let xs = [0, 1, -1, 100, -100, i32::MAX, i32::MIN, 7];
    let ys = [0, -1, 1, 5, 6, i32::MIN, i32::MAX, 8];

    // Nothing nearer: the ring is not looked at.
    let base = batch_2d::sample_batch(
        SEED,
        xs,
        ys,
        |base: [[(u32, u32); 8]; 4]| (base.to_vec(), false),
        |_, _: [[(u32, u32); 8]; 8]| unreachable!(),
    );
    for (n, offset) in batch_2d::BASE_4.iter().enumerate() {
        assert_eq!(base[n], lane_jitters(&xs, &ys, *offset));
    }

    let all = batch_2d::sample_batch(
        SEED,
        xs,
        ys,
        |base: [[(u32, u32); 8]; 4]| (base.to_vec(), true),
        |mut seen: Vec<[(u32, u32); 8]>, ring: [[(u32, u32); 8]; 8]| {
            seen.extend(ring);
            seen
        },
    );
    assert_eq!(all.len(), 12);
    for (n, offset) in batch_2d::RING_8.iter().enumerate() {
        assert_eq!(all[4 + n], lane_jitters(&xs, &ys, *offset));
    }
}

#[test]
fn the_ring_is_grouped_by_edge() {
    for (i, (ox, oy)) in NEIGHBORS_12.iter().enumerate() {
        let near = *ox == -1 || *oy == -1;
        let far = *ox == 2 || *oy == 2;
        assert_eq!((near, far), ((4..8).contains(&i), i >= 8));
    }
}

#[test]
fn grids_and_batches_look_at_the_same_cells() {
    let mut grid: Vec<(i32, i32)> = NEIGHBORS_12.to_vec();
    let mut batch: Vec<(i32, i32)> = batch_2d::BASE_4.to_vec();
    batch.extend(batch_2d::RING_8);
    grid.sort();
    batch.sort();
    assert_eq!(grid, batch);
}

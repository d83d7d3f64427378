//! Value noise on a plane.

use crate::bands;
use crate::blending;
use crate::blending::{interpolate, BandTrace, GroupTrace, Kernels};
use crate::buffers;
use crate::buffers::filled;
use crate::cells;
use crate::cells::set_runs;
use crate::columns;
use crate::columns::{push_lanes, Columns};
use crate::combine;
use crate::combine::Sink;
use crate::grid_data::GridDataLerp;
use crate::hash;
use crate::hash::hash_axis;
use crate::interpolation;
use crate::interpolation::InterpolationConfig;
use crate::lanes::U32x8;
use crate::registers;
use crate::tiling;
use crate::tiling::tile;
use vstd::prelude::*;

verus! {

/// The values at the corners of the cells of one band of rows, one per sample:
/// top left, top right, bottom left, bottom right.
pub struct ValueGradients2D<T> {
    pub tl: Vec<T>,
    pub tr: Vec<T>,
    pub bl: Vec<T>,
    pub br: Vec<T>,
}

impl<T: Copy> ValueGradients2D<T> {
    /// Every buffer has `size` values.
    pub open spec fn sized(self, size: int) -> bool {
        &&& self.tl@.len() == size
        &&& self.tr@.len() == size
        &&& self.bl@.len() == size
        &&& self.br@.len() == size
    }

    /// Buffers of `size` samples, all at `value`.
    pub fn new(value: T, size: usize) -> (r: Self)
        ensures
            r.sized(size as int),
            forall|s: int|
                0 <= s < size ==> (#[trigger] r.tl@[s]) == value && r.tr@[s] == value && r.bl@[s]
                    == value && r.br@[s] == value,
    {
        ValueGradients2D {
            tl: filled(value, size),
            tr: filled(value, size),
            bl: filled(value, size),
            br: filled(value, size),
        }
    }

    /// The top and the bottom values exchanged.
    pub open spec fn swapped(self) -> Self {
        ValueGradients2D { tl: self.bl, tr: self.br, bl: self.tl, br: self.tr }
    }

    /// Exchanging twice changes nothing.
    pub proof fn law_swapped_twice(self)
        ensures
            self.swapped().swapped() == self,
    {
    }

    /// Exchanges the top and the bottom values.
    pub fn swap_top_bottom(&mut self)
        ensures
            *final(self) == old(self).swapped(),
    {
        core::mem::swap(&mut self.tl, &mut self.bl);
        core::mem::swap(&mut self.tr, &mut self.br);
    }
}

/// The value at a vertex, from the hashes of its column and its row, as the
/// bits of a single-precision number from 2 up to 4.
pub open spec fn value_bits(x_hash: u32, y_hash: u32) -> u32 {
    (y_hash.wrapping_mul(y_hash).wrapping_mul(x_hash) & 0x007f_ffff) | 0x4000_0000
}

/// The value at column `i` of lattice row `y_it` of a grid.
pub open spec fn vertex_bits<T>(
    grid_data: GridDataLerp<T, 2>,
    seed: u32,
    y_it: int,
    i: int,
) -> u32 {
    value_bits(
        columns::column_hash(grid_data.grid_start[0], grid_data.octave_tiling[0], seed, i),
        bands::row_hash(grid_data, seed, y_it),
    )
}

/// The values along lattice row `y_it`.
pub open spec fn row_bits<T>(grid_data: GridDataLerp<T, 2>, seed: u32, y_it: int) -> Seq<u32> {
    Seq::new(
        (grid_data.num_loops[0] + 1) as nat,
        |i: int| vertex_bits(grid_data, seed, y_it, i),
    )
}

/// Every sample holds the value of lattice row `y_it` at the left vertex of
/// its cell, or at the right one where `side` is 1.
pub open spec fn row_held<T>(
    grid_data: GridDataLerp<T, 2>,
    seed: u32,
    y_it: int,
    buffer: Vec<u32>,
    side: int,
) -> bool {
    cells::runs_set(
        grid_data.grid_indices[0]@,
        row_bits(grid_data, seed, y_it),
        buffer@,
        side,
    )
}

/// The sign and the exponent of a value are fixed: read as a single-precision
/// number it is at least 2 and less than 4, whatever was hashed.
pub proof fn law_value_bits_in_range(x_hash: u32, y_hash: u32)
    ensures
        value_bits(x_hash, y_hash) & 0xff80_0000 == 0x4000_0000,
        0x4000_0000 <= value_bits(x_hash, y_hash) < 0x4080_0000,
{
    let h = y_hash.wrapping_mul(y_hash).wrapping_mul(x_hash);
    assert(((h & 0x007f_ffff) | 0x4000_0000) & 0xff80_0000 == 0x4000_0000u32) by (bit_vector);
    assert(0x4000_0000u32 <= ((h & 0x007f_ffff) | 0x4000_0000)) by (bit_vector);
    assert(((h & 0x007f_ffff) | 0x4000_0000) < 0x4080_0000u32) by (bit_vector);
}

/// The values at the first `len` columns of a row.
pub fn value_row(
    start: i32,
    tiling: Option<u32>,
    seed: u32,
    y_hash: u32,
    len: usize,
) -> (row: Vec<u32>)
    requires
        columns::positive(tiling),
    ensures
        row@ == Seq::new(
            len as nat,
            |i: int| value_bits(columns::column_hash(start, tiling, seed, i), y_hash),
        ),
{
    let y_shuf = U32x8::splat(y_hash);
    let y_square = y_shuf.times(&y_shuf);
    let hash_mask = U32x8::splat(0x007f_ffff);
    let exp_bits = U32x8::splat(0x4000_0000);
    let mut row: Vec<u32> = Vec::new();
    let mut walk = Columns::new(start, tiling, seed);
    let ghost mut i: int = 0;
    while row.len() < len
        invariant
            y_square@ == Seq::new(8, |k: int| y_hash.wrapping_mul(y_hash)),
            hash_mask@ == Seq::new(8, |k: int| 0x007f_ffffu32),
            exp_bits@ == Seq::new(8, |k: int| 0x4000_0000u32),
            walk.stands(start, tiling, seed, i),
            row.len() == (if i <= len {
                i
            } else {
                len as int
            }),
            forall|j: int|
                0 <= j < row.len() ==> #[trigger] row[j] == value_bits(
                    columns::column_hash(start, tiling, seed, j),
                    y_hash,
                ),
        decreases len - row.len(),
    {
        let (x_shuf, ahead) = walk.advance(Ghost(start), Ghost(tiling), Ghost(seed), Ghost(i));
        let hashes = y_square.times(&x_shuf);
        let values = hashes.and(&hash_mask).or(&exp_bits);
        let ghost before = row@;
        push_lanes(&mut row, &values, len);
        proof {
            assert forall|j: int| 0 <= j < row.len() implies #[trigger] row[j] == value_bits(
                columns::column_hash(start, tiling, seed, j),
                y_hash,
            ) by {
                if j >= before.len() {
                    assert(row[j] == values@[j - i]);
                } else {
                    assert(row[j] == before[j]);
                }
            }
            i = i + 8;
        }
        walk = ahead;
    }
    row
}

/// Sets the values of lattice row `y_it`: `left` to those at the left vertices
/// of the cells, `right` to those at the right ones.
pub fn grid_gradients_2d<T: Copy>(
    seed: u32,
    grid_data: &GridDataLerp<T, 2>,
    left: &mut Vec<u32>,
    right: &mut Vec<u32>,
    y_it: usize,
)
    requires
        grid_data.wf(),
        bands::hashable(*grid_data, y_it as int),
        old(left)@.len() == grid_data.grid_size[0],
        old(right)@.len() == grid_data.grid_size[0],
    ensures
        row_held(*grid_data, seed, y_it as int, *final(left), 0),
        row_held(*grid_data, seed, y_it as int, *final(right), 1),
        final(left)@.len() == grid_data.grid_size[0],
        final(right)@.len() == grid_data.grid_size[0],
{
    assert(grid_data.grid_indices[0]@.len() == grid_data.num_loops[0]);
    let y: i32 = grid_data.grid_start[1] + y_it as i32;
    let y_hash: u32 = hash_axis(tile(y, grid_data.octave_tiling[1]), seed);
    let values = value_row(
        grid_data.grid_start[0],
        grid_data.octave_tiling[0],
        seed,
        y_hash,
        grid_data.num_loops[0] + 1,
    );
    assert(values@ =~= row_bits(*grid_data, seed, y_it as int));
    set_runs(&grid_data.grid_indices[0], &values, left, right, grid_data.grid_size[0]);
}

/// The values at the corners of the cells of band `k`: those of lattice row
/// `k` on top, those of the next row at the bottom.
pub open spec fn corners_held<T>(
    grid_data: GridDataLerp<T, 2>,
    seed: u32,
    k: int,
    g: ValueGradients2D<u32>,
) -> bool {
    &&& row_held(grid_data, seed, k, g.tl, 0)
    &&& row_held(grid_data, seed, k, g.tr, 1)
    &&& row_held(grid_data, seed, k + 1, g.bl, 0)
    &&& row_held(grid_data, seed, k + 1, g.br, 1)
}

/// What the kernels owe: they take every band whose corners hold a value for
/// each column, in registers of at most `lanes` samples.
pub open spec fn blends<T: Copy, X, A, B>(
    kernels: Kernels<A, B>,
    grid_data: GridDataLerp<T, 2>,
    lanes: int,
) -> bool where
    A: Fn(&GridDataLerp<T, 2>, &ValueGradients2D<u32>, usize, usize, usize) -> X,
    B: Fn(&GridDataLerp<T, 2>, &X, usize, usize) -> (Vec<T>, X),
 {
    forall|g: ValueGradients2D<u32>, y: usize|
        g.sized(grid_data.grid_size[0] as int) && y < grid_data.grid_size[1]
            ==> #[trigger] blending::serves(kernels, grid_data, g, y, lanes)
}

/// The values of band `k`, blended from the values `g`, which are those at the
/// corners of its cells.
pub open spec fn band_blended_from<T: Copy, X, A, B>(
    kernels: Kernels<A, B>,
    grid_data: GridDataLerp<T, 2>,
    seed: u32,
    config: InterpolationConfig,
    k: int,
    g: ValueGradients2D<u32>,
    t: BandTrace<T>,
) -> bool where
    A: Fn(&GridDataLerp<T, 2>, &ValueGradients2D<u32>, usize, usize, usize) -> X,
    B: Fn(&GridDataLerp<T, 2>, &X, usize, usize) -> (Vec<T>, X),
 {
    let y0 = cells::run_start(grid_data.grid_indices[1]@, k);
    &&& corners_held(grid_data, seed, k, g)
    &&& blending::strip_blended(
        kernels,
        grid_data,
        g,
        y0 as usize,
        config,
        false,
        y0,
        t.head,
    )
    &&& blending::strip_blended(
        kernels,
        grid_data,
        g,
        y0 as usize,
        config,
        true,
        y0,
        t.tail,
    )
}

/// The values of band `k`, blended from the values at the corners of its
/// cells.
pub open spec fn band_blended<T: Copy, X, A, B>(
    kernels: Kernels<A, B>,
    grid_data: GridDataLerp<T, 2>,
    seed: u32,
    config: InterpolationConfig,
    k: int,
    t: BandTrace<T>,
) -> bool where
    A: Fn(&GridDataLerp<T, 2>, &ValueGradients2D<u32>, usize, usize, usize) -> X,
    B: Fn(&GridDataLerp<T, 2>, &X, usize, usize) -> (Vec<T>, X),
 {
    exists|g: ValueGradients2D<u32>| #[trigger]
        band_blended_from(kernels, grid_data, seed, config, k, g, t)
}

/// All bands of a plane were blended.
pub open spec fn plane_blended<T: Copy, X, A, B>(
    kernels: Kernels<A, B>,
    grid_data: GridDataLerp<T, 2>,
    seed: u32,
    config: InterpolationConfig,
    bands: Seq<BandTrace<T>>,
) -> bool where
    A: Fn(&GridDataLerp<T, 2>, &ValueGradients2D<u32>, usize, usize, usize) -> X,
    B: Fn(&GridDataLerp<T, 2>, &X, usize, usize) -> (Vec<T>, X),
 {
    &&& bands::bands_shaped(config, grid_data.grid_indices[1]@, bands)
    &&& forall|k: int|
        0 <= k < bands.len() ==> band_blended(
            kernels,
            grid_data,
            seed,
            config,
            k,
            #[trigger] bands[k],
        )
}

/// What the bands of a whole plane write.
pub open spec fn grid_writes<T>(
    grid_data: GridDataLerp<T, 2>,
    config: InterpolationConfig,
    bands: Seq<BandTrace<T>>,
) -> Seq<combine::Write<T>> {
    bands::plane_writes(
        config,
        grid_data.grid_size[0] as int,
        grid_data.grid_indices[1]@,
        bands,
        grid_data.num_loops[1] as int,
    )
}

/// Blends the rows of one band and combines them into the output.
pub struct BilerpExecuter<'a, T, A, B, I, P, F> {
    pub config: &'a InterpolationConfig,
    pub grid_data: &'a GridDataLerp<T, 2>,
    pub gradients: &'a ValueGradients2D<u32>,
    pub kernels: &'a Kernels<A, B>,
    pub y_start: usize,
    pub y_end: usize,
    pub sink: &'a Sink<'a, I, P, F>,
}

impl<'a, T: Copy, X, A, B, I, P, F> BilerpExecuter<'a, T, A, B, I, P, F> where
    A: Fn(&GridDataLerp<T, 2>, &ValueGradients2D<u32>, usize, usize, usize) -> X,
    B: Fn(&GridDataLerp<T, 2>, &X, usize, usize) -> (Vec<T>, X),
    I: Fn(Vec<T>) -> (Vec<Vec<T>>, Vec<T>),
    P: Fn(Vec<Vec<T>>, Vec<T>, Vec<T>) -> (Vec<Vec<T>>, Vec<T>),
    F: Fn(Vec<Vec<T>>, Vec<T>) -> Vec<T>,
 {
    /// The band lies in the grid, the kernels take it, and the buffers have the
    /// length that the grid asks for.
    pub open spec fn wf(self, state: int, dst: int) -> bool {
        &&& self.grid_data.wf()
        &&& self.config.wf(self.grid_data.grid_size[0] as int)
        &&& self.y_start <= self.y_end <= self.grid_data.grid_size[1]
        &&& blending::serves(
            *self.kernels,
            *self.grid_data,
            *self.gradients,
            self.y_start,
            self.config.lanes as int,
        )
        &&& self.sink.layout.total_size == self.grid_data.total_size
        &&& self.sink.wf::<T>(self.config.lanes as int, state, dst)
    }

    /// What the full groups of the rows write, or their tail.
    pub open spec fn writes(self, tail: bool, groups: Seq<GroupTrace<T>>) -> Seq<
        combine::Write<T>,
    > {
        blending::strip_writes(
            *self.config,
            0,
            self.grid_data.grid_size[0] as int,
            tail,
            self.y_start as int,
            self.y_end - self.y_start,
            groups,
            groups.len() as int,
        )
    }

    /// Blends and combines the full groups of the rows, or their tail.
    pub fn interpolate(&self, tail: bool, state: &mut Vec<T>, dst: &mut Vec<T>) -> (groups: Ghost<
        Seq<GroupTrace<T>>,
    >)
        requires
            self.wf(old(state).len() as int, old(dst).len() as int),
        ensures
            blending::strip_shaped(*self.config, tail, self.y_end - self.y_start, groups@),
            blending::strip_blended(
                *self.kernels,
                *self.grid_data,
                *self.gradients,
                self.y_start,
                *self.config,
                tail,
                self.y_start as int,
                groups@,
            ),
            self.sink.takes(
                self.writes(tail, groups@),
                (old(state)@, old(dst)@),
                (final(state)@, final(dst)@),
            ),
            final(state).len() == old(state).len(),
            final(dst).len() == old(dst).len(),
    {
        proof {
            bands::lemma_rows_fit(self.grid_data.grid_size@, self.y_end as int);
        }
        interpolate(
            self.kernels,
            self.grid_data,
            self.gradients,
            self.y_start,
            self.config,
            tail,
            0,
            self.y_start,
            self.y_end,
            self.sink,
            state,
            dst,
        )
    }
}

/// Blends one band and combines it into the output: first the full groups of
/// its rows, then their tail.
pub fn grid_bilerp<T: Copy, X, A, B, I, P, F>(
    config: &InterpolationConfig,
    grid_data: &GridDataLerp<T, 2>,
    gradients: &ValueGradients2D<u32>,
    kernels: &Kernels<A, B>,
    y_start: usize,
    y_end: usize,
    sink: &Sink<I, P, F>,
    state: &mut Vec<T>,
    dst: &mut Vec<T>,
) -> (band: Ghost<BandTrace<T>>) where
    A: Fn(&GridDataLerp<T, 2>, &ValueGradients2D<u32>, usize, usize, usize) -> X,
    B: Fn(&GridDataLerp<T, 2>, &X, usize, usize) -> (Vec<T>, X),
    I: Fn(Vec<T>) -> (Vec<Vec<T>>, Vec<T>),
    P: Fn(Vec<Vec<T>>, Vec<T>, Vec<T>) -> (Vec<Vec<T>>, Vec<T>),
    F: Fn(Vec<Vec<T>>, Vec<T>) -> Vec<T>,

    requires
        grid_data.wf(),
        config.wf(grid_data.grid_size[0] as int),
        y_start <= y_end <= grid_data.grid_size[1],
        blending::serves(*kernels, *grid_data, *gradients, y_start, config.lanes as int),
        sink.layout.total_size == grid_data.total_size,
        sink.wf::<T>(config.lanes as int, old(state).len() as int, old(dst).len() as int),
    ensures
        blending::band_shaped(*config, y_end - y_start, band@),
        blending::strip_blended(
            *kernels,
            *grid_data,
            *gradients,
            y_start,
            *config,
            false,
            y_start as int,
            band@.head,
        ),
        blending::strip_blended(
            *kernels,
            *grid_data,
            *gradients,
            y_start,
            *config,
            true,
            y_start as int,
            band@.tail,
        ),
        sink.takes(
            blending::band_writes(
                *config,
                0,
                grid_data.grid_size[0] as int,
                y_start as int,
                y_end - y_start,
                band@,
            ),
            (old(state)@, old(dst)@),
            (final(state)@, final(dst)@),
        ),
        final(state).len() == old(state).len(),
        final(dst).len() == old(dst).len(),
{
    let executer = BilerpExecuter {
        config,
        grid_data,
        gradients,
        kernels,
        y_start,
        y_end,
        sink,
    };
    let ghost mut head: Seq<GroupTrace<T>> = seq![];
    let ghost mut tail: Seq<GroupTrace<T>> = seq![];
    proof {
        interpolation::lemma_empty_strips(*config, grid_data.grid_size[0] as int);
    }
    if config.has_block_head {
        let Ghost(groups) = executer.interpolate(false, state, dst);
        proof {
            head = groups;
        }
    }
    let ghost mid = (state@, dst@);
    if config.has_block_tail {
        let Ghost(groups) = executer.interpolate(true, state, dst);
        proof {
            tail = groups;
        }
    }
    proof {
        combine::lemma_applied_concat(
            *sink.combiner,
            sink.pass,
            sink.layout,
            executer.writes(false, head),
            executer.writes(true, tail),
            (old(state)@, old(dst)@),
            mid,
            (state@, dst@),
        );
    }
    Ghost(BandTrace { head, tail })
}

/// Fills a plane with one octave of value noise, band after band. Each lattice
/// row is hashed once: the bottom of a band is the top of the next.
pub fn sample_grid<T: Copy, X, A, B, I, P, F>(
    seed: u32,
    grid_data: &GridDataLerp<T, 2>,
    config: &InterpolationConfig,
    kernels: &Kernels<A, B>,
    sink: &Sink<I, P, F>,
    state: &mut Vec<T>,
    dst: &mut Vec<T>,
) where
    A: Fn(&GridDataLerp<T, 2>, &ValueGradients2D<u32>, usize, usize, usize) -> X,
    B: Fn(&GridDataLerp<T, 2>, &X, usize, usize) -> (Vec<T>, X),
    I: Fn(Vec<T>) -> (Vec<Vec<T>>, Vec<T>),
    P: Fn(Vec<Vec<T>>, Vec<T>, Vec<T>) -> (Vec<Vec<T>>, Vec<T>),
    F: Fn(Vec<Vec<T>>, Vec<T>) -> Vec<T>,

    requires
        grid_data.wf(),
        bands::hashable(*grid_data, grid_data.num_loops[1] as int),
        config.wf(grid_data.grid_size[0] as int),
        blends(*kernels, *grid_data, config.lanes as int),
        sink.layout.total_size == grid_data.total_size,
        sink.wf::<T>(config.lanes as int, old(state).len() as int, old(dst).len() as int),
    ensures
        exists|bands: Seq<BandTrace<T>>|
            {
                &&& plane_blended(*kernels, *grid_data, seed, *config, bands)
                &&& sink.takes(
                    #[trigger] grid_writes(*grid_data, *config, bands),
                    (old(state)@, old(dst)@),
                    (final(state)@, final(dst)@),
                )
            },
        final(state).len() == old(state).len(),
        final(dst).len() == old(dst).len(),
{
    let width: usize = grid_data.grid_size[0];
    let ghost before = (state@, dst@);
    let ghost ends = grid_data.grid_indices[1]@;
    let ghost mut made: Seq<BandTrace<T>> = seq![];
    assert(ends.len() == grid_data.num_loops[1]);
    let mut gradients = ValueGradients2D::new(0, width);
    grid_gradients_2d(seed, grid_data, &mut gradients.tl, &mut gradients.tr, 0);
    let mut y_start: usize = 0;
    let mut y_it: usize = 0;
    while y_it < grid_data.num_loops[1]
        invariant
            grid_data.wf(),
            ends == grid_data.grid_indices[1]@,
            ends.len() == grid_data.num_loops[1],
            bands::hashable(*grid_data, grid_data.num_loops[1] as int),
            width == grid_data.grid_size[0],
            config.wf(width as int),
            blends(*kernels, *grid_data, config.lanes as int),
            sink.layout.total_size == grid_data.total_size,
            state.len() == before.0.len(),
            dst.len() == before.1.len(),
            sink.wf::<T>(config.lanes as int, before.0.len() as int, before.1.len() as int),
            y_it <= grid_data.num_loops[1],
            gradients.sized(width as int),
            row_held(*grid_data, seed, y_it as int, gradients.tl, 0),
            row_held(*grid_data, seed, y_it as int, gradients.tr, 1),
            y_it < ends.len() ==> y_start == cells::run_start(ends, y_it as int),
            made.len() == y_it,
            forall|k: int|
                0 <= k < made.len() ==> blending::band_shaped(
                    *config,
                    ends[k] - cells::run_start(ends, k),
                    #[trigger] made[k],
                ),
            forall|k: int|
                0 <= k < made.len() ==> band_blended(
                    *kernels,
                    *grid_data,
                    seed,
                    *config,
                    k,
                    #[trigger] made[k],
                ),
            sink.takes(
                bands::plane_writes(*config, width as int, ends, made, y_it as int),
                before,
                (state@, dst@),
            ),
        decreases grid_data.num_loops[1] - y_it,
    {
        proof {
            bands::lemma_band_inside(ends, grid_data.grid_size[1] as int, y_it as int);
        }
        let y_end: usize = grid_data.grid_indices[1][y_it] as usize;
        grid_gradients_2d(
            seed,
            grid_data,
            &mut gradients.bl,
            &mut gradients.br,
            y_it + 1,
        );
        let ghost mid = (state@, dst@);
        assert(corners_held(*grid_data, seed, y_it as int, gradients));
        assert(blending::serves(*kernels, *grid_data, gradients, y_start, config.lanes as int));
        let Ghost(band) = grid_bilerp(
            config,
            grid_data,
            &gradients,
            kernels,
            y_start,
            y_end,
            sink,
            state,
            dst,
        );
        proof {
            assert(band_blended_from(
                *kernels,
                *grid_data,
                seed,
                *config,
                y_it as int,
                gradients,
                band,
            ));
            assert(band_blended(*kernels, *grid_data, seed, *config, y_it as int, band));
            let longer = made.push(band);
            bands::lemma_plane_writes_prefix(
                *config,
                width as int,
                ends,
                made,
                longer,
                y_it as int,
            );
            combine::lemma_applied_concat(
                *sink.combiner,
                sink.pass,
                sink.layout,
                bands::plane_writes(*config, width as int, ends, longer, y_it as int),
                blending::band_writes(
                    *config,
                    0,
                    width as int,
                    y_start as int,
                    y_end - y_start,
                    band,
                ),
                before,
                mid,
                (state@, dst@),
            );
            made = longer;
        }
        gradients.swap_top_bottom();
        y_start = y_end;
        y_it = y_it + 1;
    }
    assert(sink.takes(grid_writes(*grid_data, *config, made), before, (state@, dst@)));
}

/// What tells bands apart: the values at their corners, column by column.
pub open spec fn alike(width: int) -> spec_fn(
    ValueGradients2D<u32>,
    ValueGradients2D<u32>,
) -> bool {
    |g: ValueGradients2D<u32>, h: ValueGradients2D<u32>|
        buffers::same_on(g.tl@, h.tl@, width)
            && buffers::same_on(g.tr@, h.tr@, width)
            && buffers::same_on(g.bl@, h.bl@, width)
            && buffers::same_on(g.br@, h.br@, width)
}

/// The values of a lattice row are the same each time that they are set.
proof fn lemma_row_alike<T>(
    grid_data: GridDataLerp<T, 2>,
    seed: u32,
    y_it: int,
    side: int,
    a: Vec<u32>,
    b: Vec<u32>,
)
    requires
        cells::cuts(grid_data.grid_indices[0]@, grid_data.grid_size[0] as int),
        row_held(grid_data, seed, y_it, a, side),
        row_held(grid_data, seed, y_it, b, side),
    ensures
        buffers::same_on(a@, b@, grid_data.grid_size[0] as int),
{
    let ends = grid_data.grid_indices[0]@;
    let width = grid_data.grid_size[0] as int;
    assert forall|s: int| 0 <= s < width implies #[trigger] a@[s] == b@[s] by {
        cells::law_every_sample_in_one_run(ends, width, s);
        let run = choose|run: int| cells::in_run(ends, run, s);
        assert(cells::in_run(ends, run, s));
    }
}

/// Determined kernels give the same values for every band of a plane.
proof fn lemma_runs_agree<T: Copy, X, A, B>(
    kernels: Kernels<A, B>,
    grid_data: GridDataLerp<T, 2>,
    same: spec_fn(X, X) -> bool,
    seed: u32,
    config: InterpolationConfig,
    bands: Seq<BandTrace<T>>,
    others: Seq<BandTrace<T>>,
) where
    A: Fn(&GridDataLerp<T, 2>, &ValueGradients2D<u32>, usize, usize, usize) -> X,
    B: Fn(&GridDataLerp<T, 2>, &X, usize, usize) -> (Vec<T>, X),

    requires
        grid_data.wf(),
        kernels.determined(grid_data, alike(grid_data.grid_size[0] as int), same),
        plane_blended(kernels, grid_data, seed, config, bands),
        plane_blended(kernels, grid_data, seed, config, others),
    ensures
        grid_writes(grid_data, config, bands) == grid_writes(grid_data, config, others),
{
    let width = grid_data.grid_size[0] as int;
    let ends = grid_data.grid_indices[1]@;
    let like = alike(grid_data.grid_size[0] as int);
    assert(ends.len() == grid_data.num_loops[1]);
    assert(grid_data.grid_indices[0]@.len() == grid_data.num_loops[0]);
    assert forall|k: int| 0 <= k < ends.len() implies ({
        let y0 = cells::run_start(ends, k);
        blending::band_writes(config, 0, width, y0, ends[k] - y0, #[trigger] bands[k])
            == blending::band_writes(config, 0, width, y0, ends[k] - y0, others[k])
    }) by {
        bands::lemma_band_inside(ends, grid_data.grid_size[1] as int, k);
        let y0 = cells::run_start(ends, k);
        let t = bands[k];
        let u = others[k];
        assert(band_blended(kernels, grid_data, seed, config, k, t));
        assert(band_blended(kernels, grid_data, seed, config, k, u));
        let g = choose|g: ValueGradients2D<u32>| #[trigger]
            band_blended_from(kernels, grid_data, seed, config, k, g, t);
        let h = choose|g: ValueGradients2D<u32>| #[trigger]
            band_blended_from(kernels, grid_data, seed, config, k, g, u);
        assert(band_blended_from(kernels, grid_data, seed, config, k, g, t));
        assert(band_blended_from(kernels, grid_data, seed, config, k, h, u));
        lemma_row_alike(grid_data, seed, k, 0, g.tl, h.tl);
        lemma_row_alike(grid_data, seed, k, 1, g.tr, h.tr);
        lemma_row_alike(grid_data, seed, k + 1, 0, g.bl, h.bl);
        lemma_row_alike(grid_data, seed, k + 1, 1, g.br, h.br);
        assert(like(g, h));
        assert(blending::band_shaped(config, ends[k] - y0, t));
        assert(blending::band_shaped(config, ends[k] - y0, u));
        blending::lemma_band_agrees(
            kernels,
            grid_data,
            like,
            same,
            g,
            h,
            y0 as usize,
            config,
            width,
            y0,
            ends[k] - y0,
            t,
            u,
        );
    }
    bands::lemma_plane_agrees(config, width, ends, bands, others, ends.len() as int);
}

/// Two runs with the same seed, grid, determined kernels and determined combiner,
/// from equal buffers, leave equal buffers.
pub proof fn law_equal_runs_leave_equal_buffers<T: Copy, X, A, B, I, P, F>(
    sink: Sink<I, P, F>,
    kernels: Kernels<A, B>,
    grid_data: GridDataLerp<T, 2>,
    same: spec_fn(X, X) -> bool,
    seed: u32,
    config: InterpolationConfig,
    bands: Seq<BandTrace<T>>,
    others: Seq<BandTrace<T>>,
    before: (Seq<T>, Seq<T>),
    after: (Seq<T>, Seq<T>),
    other_after: (Seq<T>, Seq<T>),
) where
    A: Fn(&GridDataLerp<T, 2>, &ValueGradients2D<u32>, usize, usize, usize) -> X,
    B: Fn(&GridDataLerp<T, 2>, &X, usize, usize) -> (Vec<T>, X),
    I: Fn(Vec<T>) -> (Vec<Vec<T>>, Vec<T>),
    P: Fn(Vec<Vec<T>>, Vec<T>, Vec<T>) -> (Vec<Vec<T>>, Vec<T>),
    F: Fn(Vec<Vec<T>>, Vec<T>) -> Vec<T>,

    requires
        grid_data.wf(),
        kernels.determined(grid_data, alike(grid_data.grid_size[0] as int), same),
        sink.combiner.determined::<T>(),
        plane_blended(kernels, grid_data, seed, config, bands),
        plane_blended(kernels, grid_data, seed, config, others),
        sink.takes(grid_writes(grid_data, config, bands), before, after),
        sink.takes(grid_writes(grid_data, config, others), before, other_after),
    ensures
        after == other_after,
{
    lemma_runs_agree(kernels, grid_data, same, seed, config, bands, others);
    combine::law_equal_runs_leave_equal_buffers(
        *sink.combiner,
        sink.pass,
        sink.layout,
        grid_writes(grid_data, config, bands),
        before,
        after,
        other_after,
    );
}

/// The first octave forgets the buffers: two runs with the same seed, grid,
/// determined kernels and determined combiner leave the same, whatever the
/// buffers held before.
pub proof fn law_first_octave_forgets_buffers<T: Copy, X, A, B, I, P, F>(
    sink: Sink<I, P, F>,
    kernels: Kernels<A, B>,
    grid_data: GridDataLerp<T, 2>,
    same: spec_fn(X, X) -> bool,
    seed: u32,
    config: InterpolationConfig,
    bands: Seq<BandTrace<T>>,
    others: Seq<BandTrace<T>>,
    before: (Seq<T>, Seq<T>),
    after: (Seq<T>, Seq<T>),
    other_before: (Seq<T>, Seq<T>),
    other_after: (Seq<T>, Seq<T>),
) where
    A: Fn(&GridDataLerp<T, 2>, &ValueGradients2D<u32>, usize, usize, usize) -> X,
    B: Fn(&GridDataLerp<T, 2>, &X, usize, usize) -> (Vec<T>, X),
    I: Fn(Vec<T>) -> (Vec<Vec<T>>, Vec<T>),
    P: Fn(Vec<Vec<T>>, Vec<T>, Vec<T>) -> (Vec<Vec<T>>, Vec<T>),
    F: Fn(Vec<Vec<T>>, Vec<T>) -> Vec<T>,

    requires
        sink.pass.init,
        grid_data.wf(),
        config.wf(grid_data.grid_size[0] as int),
        sink.layout.total_size == grid_data.total_size,
        sink.wf::<T>(config.lanes as int, before.0.len() as int, before.1.len() as int),
        sink.wf::<T>(
            config.lanes as int,
            other_before.0.len() as int,
            other_before.1.len() as int,
        ),
        kernels.determined(grid_data, alike(grid_data.grid_size[0] as int), same),
        sink.combiner.determined::<T>(),
        plane_blended(kernels, grid_data, seed, config, bands),
        plane_blended(kernels, grid_data, seed, config, others),
        sink.takes(grid_writes(grid_data, config, bands), before, after),
        sink.takes(grid_writes(grid_data, config, others), other_before, other_after),
    ensures
        sink.leaves_alike(before, after, other_before, other_after),
{
    lemma_runs_agree(kernels, grid_data, same, seed, config, bands, others);
    let width = grid_data.grid_size[0] as int;
    let height = grid_data.grid_size[1] as int;
    assert(grid_data.grid_indices[1]@.len() == grid_data.num_loops[1]);
    bands::lemma_plane_volume(grid_data.grid_size@);
    assert(height * width == width * height) by (nonlinear_arith);
    bands::law_first_octave_forgets_buffers(
        sink,
        config,
        width,
        height,
        grid_data.grid_indices[1]@,
        bands,
        before,
        after,
        other_before,
        other_after,
    );
}

/// The mantissa of a value is what one hash times the square of the other leaves
/// modulo 2^23.
pub proof fn law_value_is_a_product(x_hash: u32, y_hash: u32)
    ensures
        value_bits(x_hash, y_hash) as int == 0x4000_0000 + (y_hash as int * y_hash as int
            * x_hash as int) % 0x80_0000,
{
    hash::lemma_wrapping(y_hash, y_hash, x_hash);
    hash::lemma_mantissa(
        y_hash.wrapping_mul(y_hash).wrapping_mul(x_hash),
        y_hash as int * y_hash as int * x_hash as int,
    );
}

/// The value at a vertex is a number from 2 up to 4, whose mantissa is what the
/// hash of its column times the square of the hash of its row leaves modulo 2^23:
/// the hashes of the coordinates that stand for the two, on either side of zero.
pub proof fn law_vertex_bits_go_by_place<T>(
    grid_data: GridDataLerp<T, 2>,
    seed: u32,
    y_it: int,
    i: int,
    x: int,
    y: int,
)
    requires
        tiling::column_stands_for(x, grid_data.grid_start[0] + i, grid_data.octave_tiling[0]),
        tiling::stands_for(y, grid_data.grid_start[1] + y_it, grid_data.octave_tiling[1]),
    ensures
        vertex_bits(grid_data, seed, y_it, i) as int == 0x4000_0000 + (hash::axis_hash(y, seed)
            as int * hash::axis_hash(y, seed) as int * hash::axis_hash(x, seed) as int)
            % 0x80_0000,
{
    columns::law_column_hash_goes_by_place(
        grid_data.grid_start[0],
        grid_data.octave_tiling[0],
        seed,
        i,
        x,
    );
    bands::law_row_hash_goes_by_place(grid_data, seed, y_it, y);
    let a = hash::axis_hash(x, seed);
    let b = hash::axis_hash(y, seed);
    hash::lemma_wrapping(b, b, a);
    hash::lemma_mantissa(b.wrapping_mul(b).wrapping_mul(a), b as int * b as int * a as int);
}

/// Where no axis is tiled, to go `m` times as far along both axes is to take `m`
/// times the seed, for negative `m` too: the vertices have the same values.
pub proof fn law_noise_scales<T>(
    grid_data: GridDataLerp<T, 2>,
    other: GridDataLerp<T, 2>,
    seed: u32,
    scaled: u32,
    m: int,
    at: (int, int),
    to: (int, int),
)
    requires
        grid_data.octave_tiling == [None::<u32>, None::<u32>],
        other.octave_tiling == [None::<u32>, None::<u32>],
        (scaled - m * seed as int) % 0x1_0000_0000 == 0,
        other.grid_start[0] + to.0 == m * (grid_data.grid_start[0] + at.0),
        other.grid_start[1] + to.1 == m * (grid_data.grid_start[1] + at.1),
    ensures
        vertex_bits(other, seed, to.1, to.0) == vertex_bits(grid_data, scaled, at.1, at.0),
{
    columns::law_column_hashes_scale(
        grid_data.grid_start[0],
        other.grid_start[0],
        seed,
        scaled,
        m,
        at.0,
        to.0,
    );
    bands::law_row_hashes_scale(grid_data, other, seed, scaled, m, at.1, to.1);
}

/// The corners of a band, sample by sample. A sample in cell `i` of band `k` holds,
/// at its left, the values of column `i` and, at its right, those of the next
/// column: of lattice row `k` on top and of the next row at the bottom.
pub proof fn law_samples_hold_their_corners<T>(
    grid_data: GridDataLerp<T, 2>,
    seed: u32,
    k: int,
    g: ValueGradients2D<u32>,
    i: int,
    s: int,
)
    requires
        corners_held(grid_data, seed, k, g),
        grid_data.grid_indices[0]@.len() == grid_data.num_loops[0],
        0 <= i < grid_data.grid_indices[0]@.len(),
        i > 0 ==> grid_data.grid_indices[0]@[i - 1] <= s,
        0 <= s < grid_data.grid_indices[0]@[i],
    ensures
        g.tl@[s] == vertex_bits(grid_data, seed, k, i),
        g.tr@[s] == vertex_bits(grid_data, seed, k, i + 1),
        g.bl@[s] == vertex_bits(grid_data, seed, k + 1, i),
        g.br@[s] == vertex_bits(grid_data, seed, k + 1, i + 1),
{
    assert(cells::in_run(grid_data.grid_indices[0]@, i, s));
}

/// Whatever goes over the sample in row `y` and column `s` of a plane was blended
/// for it, in the register that holds the column, from the values at the corners of
/// the band that the row lies in: those of lattice row `k` and of the next one,
/// under the whole seed.
pub proof fn law_every_sample_is_blended_from_its_corners<T: Copy, X, A, B>(
    kernels: Kernels<A, B>,
    grid_data: GridDataLerp<T, 2>,
    seed: u32,
    config: InterpolationConfig,
    bands: Seq<BandTrace<T>>,
    j: int,
    k: int,
    y0: int,
    y: int,
    s: int,
) where
    A: Fn(&GridDataLerp<T, 2>, &ValueGradients2D<u32>, usize, usize, usize) -> X,
    B: Fn(&GridDataLerp<T, 2>, &X, usize, usize) -> (Vec<T>, X),

    requires
        grid_data.wf(),
        config.wf(grid_data.grid_size[0] as int),
        plane_blended(kernels, grid_data, seed, config, bands),
        cells::in_run(grid_data.grid_indices[1]@, k, y),
        y0 == (if k == 0 {
            0
        } else {
            grid_data.grid_indices[1]@[k - 1] as int
        }),
        0 <= s < grid_data.grid_size[0],
        0 <= j < grid_writes(grid_data, config, bands).len(),
        combine::covers(
            grid_writes(grid_data, config, bands)[j],
            y * grid_data.grid_size[0] + s,
        ),
    ensures
        ({
            let w = grid_writes(grid_data, config, bands)[j];
            let x = w.start - y * grid_data.grid_size[0];
            let len = w.value.len() as int;
            &&& 0 <= x <= s < x + len <= grid_data.grid_size[0]
            &&& x % (config.lanes as int) == 0
            &&& len == config.lanes || (len < config.lanes && x + len == grid_data.grid_size[0])
            &&& exists|g: ValueGradients2D<u32>, values: Seq<Vec<T>>, factors: Seq<X>|
                {
                    &&& corners_held(grid_data, seed, k, g)
                    &&& #[trigger] registers::register_blended(
                        kernels,
                        grid_data,
                        g,
                        y0,
                        x,
                        len,
                        y0,
                        values,
                        factors,
                    )
                    &&& values.len() == grid_data.grid_indices[1]@[k] - y0
                    &&& values[y - y0]@ == w.value
                }
        }),
{
    assert(grid_data.grid_indices[1]@.len() == grid_data.num_loops[1]);
    let t = bands[k];
    assert(band_blended(kernels, grid_data, seed, config, k, t));
    let g = choose|g: ValueGradients2D<u32>| #[trigger]
        band_blended_from(kernels, grid_data, seed, config, k, g, t);
    assert(band_blended_from(kernels, grid_data, seed, config, k, g, t));
    registers::law_every_sample_is_blended_in_its_band(
        kernels,
        grid_data,
        g,
        config,
        bands,
        j,
        k,
        y0,
        y,
        s,
    );
}

/// Tiled noise repeats: the values at the lattice vertices are the same one
/// period further along the columns or along the rows.
pub proof fn law_noise_tiles<T>(
    grid_data: GridDataLerp<T, 2>,
    seed: u32,
    y_it: int,
    i: int,
)
    ensures
        grid_data.octave_tiling[0] matches Some(t) ==> t > 0 && i32::MIN <= grid_data.grid_start[0]
            + i && grid_data.grid_start[0] + i + t <= i32::MAX ==> vertex_bits(
            grid_data,
            seed,
            y_it,
            i + t,
        ) == vertex_bits(grid_data, seed, y_it, i),
        grid_data.octave_tiling[1] matches Some(t) ==> t as i32 != 0 ==> vertex_bits(
            grid_data,
            seed,
            y_it + (t as i32),
            i,
        ) == vertex_bits(grid_data, seed, y_it, i),
{
    if let Some(t) = grid_data.octave_tiling[0] {
        if t > 0 && i32::MIN <= grid_data.grid_start[0] + i && grid_data.grid_start[0] + i + t
            <= i32::MAX {
            columns::law_column_hashes_tile(grid_data.grid_start[0], t, seed, i);
        }
    }
    if let Some(t) = grid_data.octave_tiling[1] {
        if t as i32 != 0 {
            bands::law_row_hashes_tile(grid_data, seed, t, y_it);
        }
    }
}

/// Tiled rows repeat: a lattice row and the row one period further set the same
/// values, at the left vertices of the cells and at the right ones.
pub proof fn law_rows_repeat<T>(
    grid_data: GridDataLerp<T, 2>,
    seed: u32,
    t: u32,
    y_it: int,
    side: int,
    a: Vec<u32>,
    b: Vec<u32>,
)
    requires
        grid_data.octave_tiling[1] == Some(t),
        t as i32 != 0,
        cells::cuts(grid_data.grid_indices[0]@, grid_data.grid_size[0] as int),
        row_held(grid_data, seed, y_it, a, side),
        row_held(grid_data, seed, y_it + (t as i32), b, side),
    ensures
        buffers::same_on(a@, b@, grid_data.grid_size[0] as int),
{
    bands::law_row_hashes_tile(grid_data, seed, t, y_it);
    assert(row_bits(grid_data, seed, y_it + (t as i32)) =~= row_bits(grid_data, seed, y_it));
    lemma_row_alike(grid_data, seed, y_it, side, a, b);
}

/// Bands that meet share a lattice row: the bottom values of a band are the top
/// values of the next, at every sample.
pub proof fn law_bands_share_rows<T>(
    grid_data: GridDataLerp<T, 2>,
    seed: u32,
    k: int,
    g: ValueGradients2D<u32>,
    h: ValueGradients2D<u32>,
    s: int,
)
    requires
        cells::cuts(grid_data.grid_indices[0]@, grid_data.grid_size[0] as int),
        corners_held(grid_data, seed, k, g),
        corners_held(grid_data, seed, k + 1, h),
        0 <= s < grid_data.grid_size[0],
    ensures
        g.bl@[s] == h.tl@[s],
        g.br@[s] == h.tr@[s],
{
    let ends = grid_data.grid_indices[0]@;
    cells::law_every_sample_in_one_run(ends, grid_data.grid_size[0] as int, s);
    let run = choose|run: int| cells::in_run(ends, run, s);
    assert(cells::in_run(ends, run, s));
}

/// Along a lattice row the values are those that [`value_row`] gives for the hash of the
/// row: for what [`hash_axis`] gives for the coordinate that stands for it, whatever
/// the sign of that coordinate.
pub proof fn law_rows_go_by_the_hash_of_their_coordinate<T>(
    grid_data: GridDataLerp<T, 2>,
    seed: u32,
    y_it: int,
    y: i32,
    y_hash: u32,
    len: usize,
    row: Vec<u32>,
    i: int,
)
    requires
        tiling::stands_for(y as int, grid_data.grid_start[1] + y_it, grid_data.octave_tiling[1]),
        call_ensures(hash_axis, (y, seed), y_hash),
        call_ensures(
            value_row,
            (grid_data.grid_start[0], grid_data.octave_tiling[0], seed, y_hash, len),
            row,
        ),
        0 <= i < len,
    ensures
        row@.len() == len,
        row@[i] == vertex_bits(grid_data, seed, y_it, i),
{
    bands::law_row_hash_goes_by_place(grid_data, seed, y_it, y as int);
}

/// A call leaves in every sample of the plane what the combiner makes of a value that
/// was blended there, under the very seed of the call, and of what the buffers held
/// there before. The last octave leaves the state as it was.
pub proof fn law_call_fills_the_plane<T: Copy, X, A, B, I, P, F>(
    seed: u32,
    grid_data: GridDataLerp<T, 2>,
    config: InterpolationConfig,
    kernels: Kernels<A, B>,
    sink: Sink<I, P, F>,
    state: &mut Vec<T>,
    dst: &mut Vec<T>,
    n: int,
) where
    A: Fn(&GridDataLerp<T, 2>, &ValueGradients2D<u32>, usize, usize, usize) -> X,
    B: Fn(&GridDataLerp<T, 2>, &X, usize, usize) -> (Vec<T>, X),
    I: Fn(Vec<T>) -> (Vec<Vec<T>>, Vec<T>),
    P: Fn(Vec<Vec<T>>, Vec<T>, Vec<T>) -> (Vec<Vec<T>>, Vec<T>),
    F: Fn(Vec<Vec<T>>, Vec<T>) -> Vec<T>,

    requires
        grid_data.wf(),
        config.wf(grid_data.grid_size[0] as int),
        sink.layout.total_size == grid_data.total_size,
        sink.wf::<T>(config.lanes as int, old(state)@.len() as int, old(dst)@.len() as int),
        call_ensures(
            sample_grid::<T, X, A, B, I, P, F>,
            (
                seed,
                &grid_data,
                &config,
                &kernels,
                &sink,
                state,
                dst,
            ),
            (),
        ),
        0 <= n < grid_data.total_size,
    ensures
        final(state)@.len() == old(state)@.len(),
        final(dst)@.len() == old(dst)@.len(),
        exists|bands: Seq<BandTrace<T>>|
            {
                &&& plane_blended(kernels, grid_data, seed, config, bands)
                &&& combine::combined_at(
                    *sink.combiner,
                    sink.pass,
                    sink.layout,
                    #[trigger] grid_writes(grid_data, config, bands),
                    (old(state)@, old(dst)@),
                    (final(state)@, final(dst)@),
                    n,
                )
            },
        sink.pass.last ==> final(state)@ == old(state)@,
{
    let before = (old(state)@, old(dst)@);
    let after = (final(state)@, final(dst)@);
    let bands = choose|bands: Seq<BandTrace<T>>|
        {
            &&& plane_blended(kernels, grid_data, seed, config, bands)
            &&& sink.takes(#[trigger] grid_writes(grid_data, config, bands), before, after)
        };
    let writes = grid_writes(grid_data, config, bands);
    assert(sink.takes(writes, before, after));
    if sink.pass.last {
        combine::law_last_octave_keeps_state(
            *sink.combiner,
            sink.pass,
            sink.layout,
            writes,
            before,
            after,
        );
    }
    assert(grid_data.grid_indices[1]@.len() == grid_data.num_loops[1]);
    crate::grid_data::law_volume_is_the_product_of_the_sides(grid_data.grid_size@);
    bands::law_every_sample_combined_once(
        sink,
        config,
        grid_data.grid_size[0] as int,
        grid_data.grid_size[1] as int,
        grid_data.grid_indices[1]@,
        bands,
        before,
        after,
        n,
    );
}

} // verus!

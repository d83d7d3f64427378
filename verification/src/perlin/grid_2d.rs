//! Perlin noise on a plane.

use crate::bands;
use crate::blending;
use crate::blending::{interpolate, BandTrace, GroupTrace, Kernels};
use crate::buffers;
use crate::buffers::{filled, pick_component};
use crate::cells;
use crate::cells::set_runs;
use crate::columns;
use crate::columns::{push_lanes, Columns};
use crate::combine;
use crate::combine::Sink;
use crate::grid_data::GridDataLerp;
use crate::hash;
use crate::hash::hash_axis;
use crate::interpolation;
use crate::interpolation::InterpolationConfig;
use crate::lanes::U32x8;
use crate::perlin::dots;
use crate::perlin::dots::{dot_columns, Dots};
use crate::registers;
use crate::tiling;
use crate::tiling::tile;
use vstd::prelude::*;

verus! {

/// The gradients at the corners of the cells of one band of rows, one value
/// per sample and component: top left, top right, bottom left, bottom right.
pub struct PerlinGradients2D<T> {
    pub tl: [Vec<T>; 2],
    pub tr: [Vec<T>; 2],
    pub bl: [Vec<T>; 2],
    pub br: [Vec<T>; 2],
}

impl<T: Copy> PerlinGradients2D<T> {
    /// Every buffer has `size` values.
    pub open spec fn sized(self, size: int) -> bool {
        &&& forall|c: int| 0 <= c < 2 ==> (#[trigger] self.tl[c])@.len() == size
        &&& forall|c: int| 0 <= c < 2 ==> (#[trigger] self.tr[c])@.len() == size
        &&& forall|c: int| 0 <= c < 2 ==> (#[trigger] self.bl[c])@.len() == size
        &&& forall|c: int| 0 <= c < 2 ==> (#[trigger] self.br[c])@.len() == size
    }

    /// Buffers of `size` samples, all at `value`.
    pub fn new(value: T, size: usize) -> (r: Self)
        ensures
            r.sized(size as int),
            forall|c: int, s: int|
                0 <= c < 2 && 0 <= s < size ==> (#[trigger] r.tl[c]@[s]) == value
                    && r.tr[c]@[s] == value && r.bl[c]@[s] == value && r.br[c]@[s] == value,
    {
        PerlinGradients2D {
            tl: [filled(value, size), filled(value, size)],
            tr: [filled(value, size), filled(value, size)],
            bl: [filled(value, size), filled(value, size)],
            br: [filled(value, size), filled(value, size)],
        }
    }

    /// The top and the bottom gradients exchanged.
    pub open spec fn swapped(self) -> Self {
        PerlinGradients2D { tl: self.bl, tr: self.br, bl: self.tl, br: self.tr }
    }

    /// Exchanging twice changes nothing.
    pub proof fn law_swapped_twice(self)
        ensures
            self.swapped().swapped() == self,
    {
    }

    /// Exchanges the top and the bottom gradients.
    pub fn swap_top_bottom(&mut self)
        ensures
            *final(self) == old(self).swapped(),
    {
        core::mem::swap(&mut self.tl, &mut self.bl);
        core::mem::swap(&mut self.tr, &mut self.br);
    }
}

/// The number of the gradient at a vertex, from the hashes of its column and
/// its row.
pub open spec fn gradient_number(x_hash: u32, y_hash: u32) -> u32 {
    y_hash.wrapping_mul(x_hash) >> 29
}

/// The number of the gradient at column `i` of lattice row `y_it` of a grid.
pub open spec fn vertex_number<T>(
    grid_data: GridDataLerp<T, 2>,
    seed: u32,
    y_it: int,
    i: int,
) -> u32 {
    gradient_number(
        columns::column_hash(grid_data.grid_start[0], grid_data.octave_tiling[0], seed, i),
        bands::row_hash(grid_data, seed, y_it),
    )
}

/// Component `c` of the gradients along lattice row `y_it`.
pub open spec fn row_component<T>(
    grid_data: GridDataLerp<T, 2>,
    table: [[T; 2]; 8],
    seed: u32,
    y_it: int,
    c: int,
) -> Seq<T> {
    Seq::new(
        (grid_data.num_loops[0] + 1) as nat,
        |i: int| table[vertex_number(grid_data, seed, y_it, i) as int][c],
    )
}

/// Every sample holds the gradient of lattice row `y_it` at the left vertex of
/// its cell, its column component already multiplied.
pub open spec fn left_held<T: Copy, L, R>(
    grid_data: GridDataLerp<T, 2>,
    table: [[T; 2]; 8],
    dots: Dots<L, R>,
    seed: u32,
    y_it: int,
    buffers: [Vec<T>; 2],
) -> bool where L: Fn(T, T) -> T, R: Fn(T, T) -> T {
    let ends = grid_data.grid_indices[0]@;
    &&& dots::runs_dotted(
        ends,
        row_component(grid_data, table, seed, y_it, 0),
        grid_data.distances[0]@,
        buffers[0]@,
        0,
        dots.left,
    )
    &&& cells::runs_set(
        ends,
        row_component(grid_data, table, seed, y_it, 1),
        buffers[1]@,
        0,
    )
}

/// Every sample holds the gradient of lattice row `y_it` at the right vertex of
/// its cell, its column component already multiplied.
pub open spec fn right_held<T: Copy, L, R>(
    grid_data: GridDataLerp<T, 2>,
    table: [[T; 2]; 8],
    dots: Dots<L, R>,
    seed: u32,
    y_it: int,
    buffers: [Vec<T>; 2],
) -> bool where L: Fn(T, T) -> T, R: Fn(T, T) -> T {
    let ends = grid_data.grid_indices[0]@;
    &&& dots::runs_dotted(
        ends,
        row_component(grid_data, table, seed, y_it, 0),
        grid_data.distances[0]@,
        buffers[0]@,
        1,
        dots.right,
    )
    &&& cells::runs_set(
        ends,
        row_component(grid_data, table, seed, y_it, 1),
        buffers[1]@,
        1,
    )
}

/// A gradient number names one of eight gradients.
proof fn lemma_number_in_table(x_hash: u32, y_hash: u32)
    ensures
        gradient_number(x_hash, y_hash) < 8,
{
    let p = y_hash.wrapping_mul(x_hash);
    assert(p >> 29 < 8u32) by (bit_vector);
}

/// The gradient numbers of the first `len` columns of a row.
pub fn gradient_row(
    start: i32,
    tiling: Option<u32>,
    seed: u32,
    y_hash: u32,
    len: usize,
) -> (row: Vec<u32>)
    requires
        columns::positive(tiling),
    ensures
        row@ == Seq::new(
            len as nat,
            |i: int| gradient_number(columns::column_hash(start, tiling, seed, i), y_hash),
        ),
{
    let y_shuf = U32x8::splat(y_hash);
    let mut row: Vec<u32> = Vec::new();
    let mut walk = Columns::new(start, tiling, seed);
    let ghost mut i: int = 0;
    while row.len() < len
        invariant
            y_shuf@ == Seq::new(8, |k: int| y_hash),
            walk.stands(start, tiling, seed, i),
            row.len() == (if i <= len {
                i
            } else {
                len as int
            }),
            forall|j: int|
                0 <= j < row.len() ==> #[trigger] row[j] == gradient_number(
                    columns::column_hash(start, tiling, seed, j),
                    y_hash,
                ),
        decreases len - row.len(),
    {
        let (x_shuf, ahead) = walk.advance(Ghost(start), Ghost(tiling), Ghost(seed), Ghost(i));
        let numbers = y_shuf.times(&x_shuf).shifted_right(29);
        let ghost before = row@;
        push_lanes(&mut row, &numbers, len);
        proof {
            assert forall|j: int| 0 <= j < row.len() implies #[trigger] row[j] == gradient_number(
                columns::column_hash(start, tiling, seed, j),
                y_hash,
            ) by {
                if j >= before.len() {
                    assert(row[j] == numbers@[j - i]);
                } else {
                    assert(row[j] == before[j]);
                }
            }
            i = i + 8;
        }
        walk = ahead;
    }
    row
}

/// Sets the gradients of lattice row `y_it`: `left` to those at the left
/// vertices of the cells, `right` to those at the right ones. The column
/// components are multiplied at once: all rows of a band share the products.
pub fn grid_gradients_2d<T: Copy, L, R>(
    seed: u32,
    grid_data: &GridDataLerp<T, 2>,
    table: &[[T; 2]; 8],
    dots: &Dots<L, R>,
    left: &mut [Vec<T>; 2],
    right: &mut [Vec<T>; 2],
    y_it: usize,
) where L: Fn(T, T) -> T, R: Fn(T, T) -> T
    requires
        dots.total(),
        grid_data.wf(),
        bands::hashable(*grid_data, y_it as int),
        forall|c: int| 0 <= c < 2 ==> (#[trigger] old(left)[c])@.len() == grid_data.grid_size[0],
        forall|c: int| 0 <= c < 2 ==> (#[trigger] old(right)[c])@.len() == grid_data.grid_size[0],
    ensures
        left_held(*grid_data, *table, *dots, seed, y_it as int, *final(left)),
        right_held(*grid_data, *table, *dots, seed, y_it as int, *final(right)),
        forall|c: int|
            0 <= c < 2 ==> (#[trigger] final(left)[c])@.len() == grid_data.grid_size[0],
        forall|c: int|
            0 <= c < 2 ==> (#[trigger] final(right)[c])@.len() == grid_data.grid_size[0],
{
    assert(grid_data.grid_indices[0]@.len() == grid_data.num_loops[0]);
    let y: i32 = grid_data.grid_start[1] + y_it as i32;
    let y_hash: u32 = hash_axis(tile(y, grid_data.octave_tiling[1]), seed);
    let numbers = gradient_row(
        grid_data.grid_start[0],
        grid_data.octave_tiling[0],
        seed,
        y_hash,
        grid_data.num_loops[0] + 1,
    );
    proof {
        assert forall|i: int| 0 <= i < numbers.len() implies numbers[i] < 8 by {
            lemma_number_in_table(
                columns::column_hash(
                    grid_data.grid_start[0],
                    grid_data.octave_tiling[0],
                    seed,
                    i,
                ),
                y_hash,
            );
        }
    }
    let xs = pick_component(&numbers, table, 0);
    let ys = pick_component(&numbers, table, 1);
    assert(xs@ =~= row_component(*grid_data, *table, seed, y_it as int, 0));
    assert(ys@ =~= row_component(*grid_data, *table, seed, y_it as int, 1));
    let n: usize = grid_data.grid_size[0];
    assert(old(left)[0]@.len() == n && old(left)[1]@.len() == n);
    assert(old(right)[0]@.len() == n && old(right)[1]@.len() == n);
    set_runs(&grid_data.grid_indices[0], &xs, &mut left[0], &mut right[0], n);
    set_runs(&grid_data.grid_indices[0], &ys, &mut left[1], &mut right[1], n);
    assert(grid_data.distances[0]@.len() == n);
    dot_columns(
        dots,
        &grid_data.grid_indices[0],
        &grid_data.distances[0],
        &mut left[0],
        &mut right[0],
        n,
    );
}

/// The gradients at the corners of the cells of band `k`: those of lattice row
/// `k` on top, those of the next row at the bottom.
pub open spec fn corners_held<T: Copy, L, R>(
    grid_data: GridDataLerp<T, 2>,
    table: [[T; 2]; 8],
    dots: Dots<L, R>,
    seed: u32,
    k: int,
    g: PerlinGradients2D<T>,
) -> bool where L: Fn(T, T) -> T, R: Fn(T, T) -> T {
    &&& left_held(grid_data, table, dots, seed, k, g.tl)
    &&& right_held(grid_data, table, dots, seed, k, g.tr)
    &&& left_held(grid_data, table, dots, seed, k + 1, g.bl)
    &&& right_held(grid_data, table, dots, seed, k + 1, g.br)
}

/// What the kernels owe: they take every band whose corners hold a value for
/// each column, in registers of at most `lanes` samples.
pub open spec fn blends<T: Copy, X, A, B>(
    kernels: Kernels<A, B>,
    grid_data: GridDataLerp<T, 2>,
    lanes: int,
) -> bool where
    A: Fn(&GridDataLerp<T, 2>, &PerlinGradients2D<T>, usize, usize, usize) -> X,
    B: Fn(&GridDataLerp<T, 2>, &X, usize, usize) -> (Vec<T>, X),
 {
    forall|g: PerlinGradients2D<T>, y: usize|
        g.sized(grid_data.grid_size[0] as int) && y < grid_data.grid_size[1]
            ==> #[trigger] blending::serves(kernels, grid_data, g, y, lanes)
}

/// The values of band `k`, blended from the gradients `g`, which are those at the
/// corners of its cells.
pub open spec fn band_blended_from<T: Copy, X, A, B, L, R>(
    kernels: Kernels<A, B>,
    grid_data: GridDataLerp<T, 2>,
    table: [[T; 2]; 8],
    dots: Dots<L, R>,
    seed: u32,
    config: InterpolationConfig,
    k: int,
    g: PerlinGradients2D<T>,
    t: BandTrace<T>,
) -> bool where
    A: Fn(&GridDataLerp<T, 2>, &PerlinGradients2D<T>, usize, usize, usize) -> X,
    B: Fn(&GridDataLerp<T, 2>, &X, usize, usize) -> (Vec<T>, X),
    L: Fn(T, T) -> T,
    R: Fn(T, T) -> T,
 {
    let y0 = cells::run_start(grid_data.grid_indices[1]@, k);
    &&& corners_held(grid_data, table, dots, seed, k, g)
    &&& blending::strip_blended(
        kernels,
        grid_data,
        g,
        y0 as usize,
        config,
        false,
        y0,
        t.head,
    )
    &&& blending::strip_blended(
        kernels,
        grid_data,
        g,
        y0 as usize,
        config,
        true,
        y0,
        t.tail,
    )
}

/// The values of band `k`, blended from the gradients at the corners of its
/// cells.
pub open spec fn band_blended<T: Copy, X, A, B, L, R>(
    kernels: Kernels<A, B>,
    grid_data: GridDataLerp<T, 2>,
    table: [[T; 2]; 8],
    dots: Dots<L, R>,
    seed: u32,
    config: InterpolationConfig,
    k: int,
    t: BandTrace<T>,
) -> bool where
    A: Fn(&GridDataLerp<T, 2>, &PerlinGradients2D<T>, usize, usize, usize) -> X,
    B: Fn(&GridDataLerp<T, 2>, &X, usize, usize) -> (Vec<T>, X),
    L: Fn(T, T) -> T,
    R: Fn(T, T) -> T,
 {
    exists|g: PerlinGradients2D<T>| #[trigger]
        band_blended_from(kernels, grid_data, table, dots, seed, config, k, g, t)
}

/// All bands of a plane were blended.
pub open spec fn plane_blended<T: Copy, X, A, B, L, R>(
    kernels: Kernels<A, B>,
    grid_data: GridDataLerp<T, 2>,
    table: [[T; 2]; 8],
    dots: Dots<L, R>,
    seed: u32,
    config: InterpolationConfig,
    bands: Seq<BandTrace<T>>,
) -> bool where
    A: Fn(&GridDataLerp<T, 2>, &PerlinGradients2D<T>, usize, usize, usize) -> X,
    B: Fn(&GridDataLerp<T, 2>, &X, usize, usize) -> (Vec<T>, X),
    L: Fn(T, T) -> T,
    R: Fn(T, T) -> T,
 {
    &&& bands::bands_shaped(config, grid_data.grid_indices[1]@, bands)
    &&& forall|k: int|
        0 <= k < bands.len() ==> band_blended(
            kernels,
            grid_data,
            table,
            dots,
            seed,
            config,
            k,
            #[trigger] bands[k],
        )
}

/// What the bands of a whole plane write.
pub open spec fn grid_writes<T>(
    grid_data: GridDataLerp<T, 2>,
    config: InterpolationConfig,
    bands: Seq<BandTrace<T>>,
) -> Seq<combine::Write<T>> {
    bands::plane_writes(
        config,
        grid_data.grid_size[0] as int,
        grid_data.grid_indices[1]@,
        bands,
        grid_data.num_loops[1] as int,
    )
}

/// Blends the rows of one band and combines them into the output.
pub struct DottedBilerpExecuter<'a, T, A, B, I, P, F> {
    pub config: &'a InterpolationConfig,
    pub grid_data: &'a GridDataLerp<T, 2>,
    pub gradients: &'a PerlinGradients2D<T>,
    pub kernels: &'a Kernels<A, B>,
    pub y_start: usize,
    pub y_end: usize,
    pub sink: &'a Sink<'a, I, P, F>,
}

impl<'a, T: Copy, X, A, B, I, P, F> DottedBilerpExecuter<'a, T, A, B, I, P, F> where
    A: Fn(&GridDataLerp<T, 2>, &PerlinGradients2D<T>, usize, usize, usize) -> X,
    B: Fn(&GridDataLerp<T, 2>, &X, usize, usize) -> (Vec<T>, X),
    I: Fn(Vec<T>) -> (Vec<Vec<T>>, Vec<T>),
    P: Fn(Vec<Vec<T>>, Vec<T>, Vec<T>) -> (Vec<Vec<T>>, Vec<T>),
    F: Fn(Vec<Vec<T>>, Vec<T>) -> Vec<T>,
 {
    /// The band lies in the grid, the kernels take it, and the buffers have the
    /// length that the grid asks for.
    pub open spec fn wf(self, state: int, dst: int) -> bool {
        &&& self.grid_data.wf()
        &&& self.config.wf(self.grid_data.grid_size[0] as int)
        &&& self.y_start <= self.y_end <= self.grid_data.grid_size[1]
        &&& blending::serves(
            *self.kernels,
            *self.grid_data,
            *self.gradients,
            self.y_start,
            self.config.lanes as int,
        )
        &&& self.sink.layout.total_size == self.grid_data.total_size
        &&& self.sink.wf::<T>(self.config.lanes as int, state, dst)
    }

    /// What the full groups of the rows write, or their tail.
    pub open spec fn writes(self, tail: bool, groups: Seq<GroupTrace<T>>) -> Seq<
        combine::Write<T>,
    > {
        blending::strip_writes(
            *self.config,
            0,
            self.grid_data.grid_size[0] as int,
            tail,
            self.y_start as int,
            self.y_end - self.y_start,
            groups,
            groups.len() as int,
        )
    }

    /// Blends and combines the full groups of the rows, or their tail.
    pub fn interpolate(&self, tail: bool, state: &mut Vec<T>, dst: &mut Vec<T>) -> (groups: Ghost<
        Seq<GroupTrace<T>>,
    >)
        requires
            self.wf(old(state).len() as int, old(dst).len() as int),
        ensures
            blending::strip_shaped(*self.config, tail, self.y_end - self.y_start, groups@),
            blending::strip_blended(
                *self.kernels,
                *self.grid_data,
                *self.gradients,
                self.y_start,
                *self.config,
                tail,
                self.y_start as int,
                groups@,
            ),
            self.sink.takes(
                self.writes(tail, groups@),
                (old(state)@, old(dst)@),
                (final(state)@, final(dst)@),
            ),
            final(state).len() == old(state).len(),
            final(dst).len() == old(dst).len(),
    {
        proof {
            bands::lemma_rows_fit(self.grid_data.grid_size@, self.y_end as int);
        }
        interpolate(
            self.kernels,
            self.grid_data,
            self.gradients,
            self.y_start,
            self.config,
            tail,
            0,
            self.y_start,
            self.y_end,
            self.sink,
            state,
            dst,
        )
    }
}

/// Blends one band and combines it into the output: first the full groups of
/// its rows, then their tail.
pub fn grid_dotted_bilerp<T: Copy, X, A, B, I, P, F>(
    config: &InterpolationConfig,
    grid_data: &GridDataLerp<T, 2>,
    gradients: &PerlinGradients2D<T>,
    kernels: &Kernels<A, B>,
    y_start: usize,
    y_end: usize,
    sink: &Sink<I, P, F>,
    state: &mut Vec<T>,
    dst: &mut Vec<T>,
) -> (band: Ghost<BandTrace<T>>) where
    A: Fn(&GridDataLerp<T, 2>, &PerlinGradients2D<T>, usize, usize, usize) -> X,
    B: Fn(&GridDataLerp<T, 2>, &X, usize, usize) -> (Vec<T>, X),
    I: Fn(Vec<T>) -> (Vec<Vec<T>>, Vec<T>),
    P: Fn(Vec<Vec<T>>, Vec<T>, Vec<T>) -> (Vec<Vec<T>>, Vec<T>),
    F: Fn(Vec<Vec<T>>, Vec<T>) -> Vec<T>,

    requires
        grid_data.wf(),
        config.wf(grid_data.grid_size[0] as int),
        y_start <= y_end <= grid_data.grid_size[1],
        blending::serves(*kernels, *grid_data, *gradients, y_start, config.lanes as int),
        sink.layout.total_size == grid_data.total_size,
        sink.wf::<T>(config.lanes as int, old(state).len() as int, old(dst).len() as int),
    ensures
        blending::band_shaped(*config, y_end - y_start, band@),
        blending::strip_blended(
            *kernels,
            *grid_data,
            *gradients,
            y_start,
            *config,
            false,
            y_start as int,
            band@.head,
        ),
        blending::strip_blended(
            *kernels,
            *grid_data,
            *gradients,
            y_start,
            *config,
            true,
            y_start as int,
            band@.tail,
        ),
        sink.takes(
            blending::band_writes(
                *config,
                0,
                grid_data.grid_size[0] as int,
                y_start as int,
                y_end - y_start,
                band@,
            ),
            (old(state)@, old(dst)@),
            (final(state)@, final(dst)@),
        ),
        final(state).len() == old(state).len(),
        final(dst).len() == old(dst).len(),
{
    let executer = DottedBilerpExecuter {
        config,
        grid_data,
        gradients,
        kernels,
        y_start,
        y_end,
        sink,
    };
    let ghost mut head: Seq<GroupTrace<T>> = seq![];
    let ghost mut tail: Seq<GroupTrace<T>> = seq![];
    proof {
        interpolation::lemma_empty_strips(*config, grid_data.grid_size[0] as int);
    }
    if config.has_block_head {
        let Ghost(groups) = executer.interpolate(false, state, dst);
        proof {
            head = groups;
        }
    }
    let ghost mid = (state@, dst@);
    if config.has_block_tail {
        let Ghost(groups) = executer.interpolate(true, state, dst);
        proof {
            tail = groups;
        }
    }
    proof {
        combine::lemma_applied_concat(
            *sink.combiner,
            sink.pass,
            sink.layout,
            executer.writes(false, head),
            executer.writes(true, tail),
            (old(state)@, old(dst)@),
            mid,
            (state@, dst@),
        );
    }
    Ghost(BandTrace { head, tail })
}

/// Fills a plane with one octave of Perlin noise, band after band. Each lattice
/// row is hashed once: the bottom of a band is the top of the next.
pub fn sample_grid<T: Copy, X, A, B, L, R, I, P, F>(
    seed: u32,
    grid_data: &GridDataLerp<T, 2>,
    table: &[[T; 2]; 8],
    dots: &Dots<L, R>,
    config: &InterpolationConfig,
    kernels: &Kernels<A, B>,
    zero: T,
    sink: &Sink<I, P, F>,
    state: &mut Vec<T>,
    dst: &mut Vec<T>,
) where
    A: Fn(&GridDataLerp<T, 2>, &PerlinGradients2D<T>, usize, usize, usize) -> X,
    B: Fn(&GridDataLerp<T, 2>, &X, usize, usize) -> (Vec<T>, X),
    L: Fn(T, T) -> T,
    R: Fn(T, T) -> T,
    I: Fn(Vec<T>) -> (Vec<Vec<T>>, Vec<T>),
    P: Fn(Vec<Vec<T>>, Vec<T>, Vec<T>) -> (Vec<Vec<T>>, Vec<T>),
    F: Fn(Vec<Vec<T>>, Vec<T>) -> Vec<T>,

    requires
        grid_data.wf(),
        bands::hashable(*grid_data, grid_data.num_loops[1] as int),
        config.wf(grid_data.grid_size[0] as int),
        dots.total(),
        blends(*kernels, *grid_data, config.lanes as int),
        sink.layout.total_size == grid_data.total_size,
        sink.wf::<T>(config.lanes as int, old(state).len() as int, old(dst).len() as int),
    ensures
        exists|bands: Seq<BandTrace<T>>|
            {
                &&& plane_blended(*kernels, *grid_data, *table, *dots, seed, *config, bands)
                &&& sink.takes(
                    #[trigger] grid_writes(*grid_data, *config, bands),
                    (old(state)@, old(dst)@),
                    (final(state)@, final(dst)@),
                )
            },
        final(state).len() == old(state).len(),
        final(dst).len() == old(dst).len(),
{
    let width: usize = grid_data.grid_size[0];
    let ghost before = (state@, dst@);
    let ghost ends = grid_data.grid_indices[1]@;
    let ghost mut made: Seq<BandTrace<T>> = seq![];
    assert(ends.len() == grid_data.num_loops[1]);
    let mut gradients = PerlinGradients2D::new(zero, width);
    grid_gradients_2d(seed, grid_data, table, dots, &mut gradients.tl, &mut gradients.tr, 0);
    let mut y_start: usize = 0;
    let mut y_it: usize = 0;
    while y_it < grid_data.num_loops[1]
        invariant
            grid_data.wf(),
            ends == grid_data.grid_indices[1]@,
            ends.len() == grid_data.num_loops[1],
            bands::hashable(*grid_data, grid_data.num_loops[1] as int),
            width == grid_data.grid_size[0],
            config.wf(width as int),
            dots.total(),
            blends(*kernels, *grid_data, config.lanes as int),
            sink.layout.total_size == grid_data.total_size,
            state.len() == before.0.len(),
            dst.len() == before.1.len(),
            sink.wf::<T>(config.lanes as int, before.0.len() as int, before.1.len() as int),
            y_it <= grid_data.num_loops[1],
            gradients.sized(width as int),
            left_held(*grid_data, *table, *dots, seed, y_it as int, gradients.tl),
            right_held(*grid_data, *table, *dots, seed, y_it as int, gradients.tr),
            y_it < ends.len() ==> y_start == cells::run_start(ends, y_it as int),
            made.len() == y_it,
            forall|k: int|
                0 <= k < made.len() ==> blending::band_shaped(
                    *config,
                    ends[k] - cells::run_start(ends, k),
                    #[trigger] made[k],
                ),
            forall|k: int|
                0 <= k < made.len() ==> band_blended(
                    *kernels,
                    *grid_data,
                    *table,
                    *dots,
                    seed,
                    *config,
                    k,
                    #[trigger] made[k],
                ),
            sink.takes(
                bands::plane_writes(*config, width as int, ends, made, y_it as int),
                before,
                (state@, dst@),
            ),
        decreases grid_data.num_loops[1] - y_it,
    {
        proof {
            bands::lemma_band_inside(ends, grid_data.grid_size[1] as int, y_it as int);
        }
        let y_end: usize = grid_data.grid_indices[1][y_it] as usize;
        grid_gradients_2d(
            seed,
            grid_data,
            table,
            dots,
            &mut gradients.bl,
            &mut gradients.br,
            y_it + 1,
        );
        let ghost mid = (state@, dst@);
        assert(corners_held(*grid_data, *table, *dots, seed, y_it as int, gradients));
        assert(blending::serves(*kernels, *grid_data, gradients, y_start, config.lanes as int));
        let Ghost(band) = grid_dotted_bilerp(
            config,
            grid_data,
            &gradients,
            kernels,
            y_start,
            y_end,
            sink,
            state,
            dst,
        );
        proof {
            assert(band_blended_from(
                *kernels,
                *grid_data,
                *table,
                *dots,
                seed,
                *config,
                y_it as int,
                gradients,
                band,
            ));
            assert(band_blended(
                *kernels,
                *grid_data,
                *table,
                *dots,
                seed,
                *config,
                y_it as int,
                band,
            ));
            let longer = made.push(band);
            bands::lemma_plane_writes_prefix(
                *config,
                width as int,
                ends,
                made,
                longer,
                y_it as int,
            );
            combine::lemma_applied_concat(
                *sink.combiner,
                sink.pass,
                sink.layout,
                bands::plane_writes(*config, width as int, ends, longer, y_it as int),
                blending::band_writes(
                    *config,
                    0,
                    width as int,
                    y_start as int,
                    y_end - y_start,
                    band,
                ),
                before,
                mid,
                (state@, dst@),
            );
            made = longer;
        }
        gradients.swap_top_bottom();
        y_start = y_end;
        y_it = y_it + 1;
    }
    assert(sink.takes(grid_writes(*grid_data, *config, made), before, (state@, dst@)));
}

/// What tells bands apart: the gradients at their corners, column by column.
pub open spec fn alike<T>(width: int) -> spec_fn(
    PerlinGradients2D<T>,
    PerlinGradients2D<T>,
) -> bool {
    |g: PerlinGradients2D<T>, h: PerlinGradients2D<T>|
        buffers::all_same_on(g.tl, h.tl, width)
            && buffers::all_same_on(g.tr, h.tr, width)
            && buffers::all_same_on(g.bl, h.bl, width)
            && buffers::all_same_on(g.br, h.br, width)
}

/// The gradients of a lattice row are the same each time that they are set.
proof fn lemma_row_alike<T: Copy, L, R>(
    grid_data: GridDataLerp<T, 2>,
    table: [[T; 2]; 8],
    dots: Dots<L, R>,
    seed: u32,
    y_it: int,
    a: [Vec<T>; 2],
    b: [Vec<T>; 2],
) where L: Fn(T, T) -> T, R: Fn(T, T) -> T
    requires
        dots.determined(),
        cells::cuts(grid_data.grid_indices[0]@, grid_data.grid_size[0] as int),
        (left_held(grid_data, table, dots, seed, y_it, a) && left_held(
            grid_data,
            table,
            dots,
            seed,
            y_it,
            b,
        )) || (right_held(grid_data, table, dots, seed, y_it, a) && right_held(
            grid_data,
            table,
            dots,
            seed,
            y_it,
            b,
        )),
    ensures
        buffers::all_same_on(a, b, grid_data.grid_size[0] as int),
{
    let ends = grid_data.grid_indices[0]@;
    let width = grid_data.grid_size[0] as int;
    assert forall|c: int| 0 <= c < 2 implies buffers::same_on((#[trigger] a[c])@, b[c]@, width) by {
        assert forall|s: int| 0 <= s < width implies #[trigger] a[c]@[s] == b[c]@[s] by {
            cells::law_every_sample_in_one_run(ends, width, s);
            let run = choose|run: int| cells::in_run(ends, run, s);
            assert(cells::in_run(ends, run, s));
        }
    }
}

/// Determined kernels give the same values for every band of a plane.
proof fn lemma_runs_agree<T: Copy, X, A, B, L, R>(
    kernels: Kernels<A, B>,
    grid_data: GridDataLerp<T, 2>,
    table: [[T; 2]; 8],
    dots: Dots<L, R>,
    same: spec_fn(X, X) -> bool,
    seed: u32,
    config: InterpolationConfig,
    bands: Seq<BandTrace<T>>,
    others: Seq<BandTrace<T>>,
) where
    A: Fn(&GridDataLerp<T, 2>, &PerlinGradients2D<T>, usize, usize, usize) -> X,
    B: Fn(&GridDataLerp<T, 2>, &X, usize, usize) -> (Vec<T>, X),
    L: Fn(T, T) -> T,
    R: Fn(T, T) -> T,

    requires
        grid_data.wf(),
        dots.determined(),
        kernels.determined(grid_data, alike::<T>(grid_data.grid_size[0] as int), same),
        plane_blended(kernels, grid_data, table, dots, seed, config, bands),
        plane_blended(kernels, grid_data, table, dots, seed, config, others),
    ensures
        grid_writes(grid_data, config, bands) == grid_writes(grid_data, config, others),
{
    let width = grid_data.grid_size[0] as int;
    let ends = grid_data.grid_indices[1]@;
    let like = alike::<T>(grid_data.grid_size[0] as int);
    assert(ends.len() == grid_data.num_loops[1]);
    assert(grid_data.grid_indices[0]@.len() == grid_data.num_loops[0]);
    assert forall|k: int| 0 <= k < ends.len() implies ({
        let y0 = cells::run_start(ends, k);
        blending::band_writes(config, 0, width, y0, ends[k] - y0, #[trigger] bands[k])
            == blending::band_writes(config, 0, width, y0, ends[k] - y0, others[k])
    }) by {
        bands::lemma_band_inside(ends, grid_data.grid_size[1] as int, k);
        let y0 = cells::run_start(ends, k);
        let t = bands[k];
        let u = others[k];
        assert(band_blended(kernels, grid_data, table, dots, seed, config, k, t));
        assert(band_blended(kernels, grid_data, table, dots, seed, config, k, u));
        let g = choose|g: PerlinGradients2D<T>| #[trigger]
            band_blended_from(kernels, grid_data, table, dots, seed, config, k, g, t);
        let h = choose|g: PerlinGradients2D<T>| #[trigger]
            band_blended_from(kernels, grid_data, table, dots, seed, config, k, g, u);
        assert(band_blended_from(kernels, grid_data, table, dots, seed, config, k, g, t));
        assert(band_blended_from(kernels, grid_data, table, dots, seed, config, k, h, u));
        lemma_row_alike(grid_data, table, dots, seed, k, g.tl, h.tl);
        lemma_row_alike(grid_data, table, dots, seed, k, g.tr, h.tr);
        lemma_row_alike(grid_data, table, dots, seed, k + 1, g.bl, h.bl);
        lemma_row_alike(grid_data, table, dots, seed, k + 1, g.br, h.br);
        assert(like(g, h));
        assert(blending::band_shaped(config, ends[k] - y0, t));
        assert(blending::band_shaped(config, ends[k] - y0, u));
        blending::lemma_band_agrees(
            kernels,
            grid_data,
            like,
            same,
            g,
            h,
            y0 as usize,
            config,
            width,
            y0,
            ends[k] - y0,
            t,
            u,
        );
    }
    bands::lemma_plane_agrees(config, width, ends, bands, others, ends.len() as int);
}

/// Two runs with the same seed, grid, determined kernels and determined combiner,
/// from equal buffers, leave equal buffers.
pub proof fn law_equal_runs_leave_equal_buffers<T: Copy, X, A, B, L, R, I, P, F>(
    sink: Sink<I, P, F>,
    kernels: Kernels<A, B>,
    grid_data: GridDataLerp<T, 2>,
    table: [[T; 2]; 8],
    dots: Dots<L, R>,
    same: spec_fn(X, X) -> bool,
    seed: u32,
    config: InterpolationConfig,
    bands: Seq<BandTrace<T>>,
    others: Seq<BandTrace<T>>,
    before: (Seq<T>, Seq<T>),
    after: (Seq<T>, Seq<T>),
    other_after: (Seq<T>, Seq<T>),
) where
    A: Fn(&GridDataLerp<T, 2>, &PerlinGradients2D<T>, usize, usize, usize) -> X,
    B: Fn(&GridDataLerp<T, 2>, &X, usize, usize) -> (Vec<T>, X),
    L: Fn(T, T) -> T,
    R: Fn(T, T) -> T,
    I: Fn(Vec<T>) -> (Vec<Vec<T>>, Vec<T>),
    P: Fn(Vec<Vec<T>>, Vec<T>, Vec<T>) -> (Vec<Vec<T>>, Vec<T>),
    F: Fn(Vec<Vec<T>>, Vec<T>) -> Vec<T>,

    requires
        grid_data.wf(),
        dots.determined(),
        kernels.determined(grid_data, alike::<T>(grid_data.grid_size[0] as int), same),
        sink.combiner.determined::<T>(),
        plane_blended(kernels, grid_data, table, dots, seed, config, bands),
        plane_blended(kernels, grid_data, table, dots, seed, config, others),
        sink.takes(grid_writes(grid_data, config, bands), before, after),
        sink.takes(grid_writes(grid_data, config, others), before, other_after),
    ensures
        after == other_after,
{
    lemma_runs_agree(kernels, grid_data, table, dots, same, seed, config, bands, others);
    combine::law_equal_runs_leave_equal_buffers(
        *sink.combiner,
        sink.pass,
        sink.layout,
        grid_writes(grid_data, config, bands),
        before,
        after,
        other_after,
    );
}

/// The first octave forgets the buffers: two runs with the same seed, grid,
/// determined kernels and determined combiner leave the same, whatever the
/// buffers held before.
pub proof fn law_first_octave_forgets_buffers<T: Copy, X, A, B, L, R, I, P, F>(
    sink: Sink<I, P, F>,
    kernels: Kernels<A, B>,
    grid_data: GridDataLerp<T, 2>,
    table: [[T; 2]; 8],
    dots: Dots<L, R>,
    same: spec_fn(X, X) -> bool,
    seed: u32,
    config: InterpolationConfig,
    bands: Seq<BandTrace<T>>,
    others: Seq<BandTrace<T>>,
    before: (Seq<T>, Seq<T>),
    after: (Seq<T>, Seq<T>),
    other_before: (Seq<T>, Seq<T>),
    other_after: (Seq<T>, Seq<T>),
) where
    A: Fn(&GridDataLerp<T, 2>, &PerlinGradients2D<T>, usize, usize, usize) -> X,
    B: Fn(&GridDataLerp<T, 2>, &X, usize, usize) -> (Vec<T>, X),
    L: Fn(T, T) -> T,
    R: Fn(T, T) -> T,
    I: Fn(Vec<T>) -> (Vec<Vec<T>>, Vec<T>),
    P: Fn(Vec<Vec<T>>, Vec<T>, Vec<T>) -> (Vec<Vec<T>>, Vec<T>),
    F: Fn(Vec<Vec<T>>, Vec<T>) -> Vec<T>,

    requires
        sink.pass.init,
        grid_data.wf(),
        config.wf(grid_data.grid_size[0] as int),
        sink.layout.total_size == grid_data.total_size,
        sink.wf::<T>(config.lanes as int, before.0.len() as int, before.1.len() as int),
        sink.wf::<T>(
            config.lanes as int,
            other_before.0.len() as int,
            other_before.1.len() as int,
        ),
        dots.determined(),
        kernels.determined(grid_data, alike::<T>(grid_data.grid_size[0] as int), same),
        sink.combiner.determined::<T>(),
        plane_blended(kernels, grid_data, table, dots, seed, config, bands),
        plane_blended(kernels, grid_data, table, dots, seed, config, others),
        sink.takes(grid_writes(grid_data, config, bands), before, after),
        sink.takes(grid_writes(grid_data, config, others), other_before, other_after),
    ensures
        sink.leaves_alike(before, after, other_before, other_after),
{
    lemma_runs_agree(kernels, grid_data, table, dots, same, seed, config, bands, others);
    let width = grid_data.grid_size[0] as int;
    let height = grid_data.grid_size[1] as int;
    assert(grid_data.grid_indices[1]@.len() == grid_data.num_loops[1]);
    bands::lemma_plane_volume(grid_data.grid_size@);
    assert(height * width == width * height) by (nonlinear_arith);
    bands::law_first_octave_forgets_buffers(
        sink,
        config,
        width,
        height,
        grid_data.grid_indices[1]@,
        bands,
        before,
        after,
        other_before,
        other_after,
    );
}

/// A gradient number is the top three bits of the product of two hashes, and does
/// not depend on which of them comes first.
pub proof fn law_number_is_the_top_of_the_product(x_hash: u32, y_hash: u32)
    ensures
        gradient_number(x_hash, y_hash) as int == (x_hash as int * y_hash as int) % 0x1_0000_0000
            / 0x2000_0000,
        gradient_number(x_hash, y_hash) == gradient_number(y_hash, x_hash),
        gradient_number(x_hash, y_hash) < 8,
{
    let p = y_hash.wrapping_mul(x_hash);
    let q = x_hash.wrapping_mul(y_hash);
    hash::lemma_wrapping(y_hash, x_hash, 0);
    hash::lemma_wrapping(x_hash, y_hash, 0);
    assert(y_hash as int * x_hash as int == x_hash as int * y_hash as int) by (nonlinear_arith);
    assert(p == q);
    assert(p >> 29 == p / 0x2000_0000) by (bit_vector);
    lemma_number_in_table(x_hash, y_hash);
}

/// The gradient at a vertex is named by the top three bits of the product of two
/// hashes: that of the coordinate that stands for its column and that of the
/// coordinate that stands for its row, on either side of zero.
pub proof fn law_vertex_number_goes_by_place<T>(
    grid_data: GridDataLerp<T, 2>,
    seed: u32,
    y_it: int,
    i: int,
    x: int,
    y: int,
)
    requires
        tiling::column_stands_for(x, grid_data.grid_start[0] + i, grid_data.octave_tiling[0]),
        tiling::stands_for(y, grid_data.grid_start[1] + y_it, grid_data.octave_tiling[1]),
    ensures
        vertex_number(grid_data, seed, y_it, i) as int == (hash::axis_hash(x, seed) as int
            * hash::axis_hash(y, seed) as int) % 0x1_0000_0000 / 0x2000_0000,
{
    columns::law_column_hash_goes_by_place(
        grid_data.grid_start[0],
        grid_data.octave_tiling[0],
        seed,
        i,
        x,
    );
    bands::law_row_hash_goes_by_place(grid_data, seed, y_it, y);
    let a = hash::axis_hash(x, seed);
    let b = hash::axis_hash(y, seed);
    let p = b.wrapping_mul(a);
    hash::lemma_wrapping(b, a, 0);
    assert(b as int * a as int == a as int * b as int) by (nonlinear_arith);
    assert(p >> 29 == p / 0x2000_0000) by (bit_vector);
}

/// Where no axis is tiled, to go `m` times as far along both axes is to take `m`
/// times the seed, for negative `m` too: the gradients have the same numbers.
pub proof fn law_noise_scales<T>(
    grid_data: GridDataLerp<T, 2>,
    other: GridDataLerp<T, 2>,
    seed: u32,
    scaled: u32,
    m: int,
    at: (int, int),
    to: (int, int),
)
    requires
        grid_data.octave_tiling == [None::<u32>, None::<u32>],
        other.octave_tiling == [None::<u32>, None::<u32>],
        (scaled - m * seed as int) % 0x1_0000_0000 == 0,
        other.grid_start[0] + to.0 == m * (grid_data.grid_start[0] + at.0),
        other.grid_start[1] + to.1 == m * (grid_data.grid_start[1] + at.1),
    ensures
        vertex_number(other, seed, to.1, to.0) == vertex_number(grid_data, scaled, at.1, at.0),
{
    columns::law_column_hashes_scale(
        grid_data.grid_start[0],
        other.grid_start[0],
        seed,
        scaled,
        m,
        at.0,
        to.0,
    );
    bands::law_row_hashes_scale(grid_data, other, seed, scaled, m, at.1, to.1);
}

/// The corners of a band, sample by sample. A sample in cell `i` of band `k` holds,
/// at its left, the gradients of column `i` and, at its right, those of the next
/// column: of lattice row `k` on top and of the next row at the bottom. The column
/// component is multiplied with the sample's distance, the row component is not.
pub proof fn law_samples_hold_their_corners<T: Copy, L, R>(
    grid_data: GridDataLerp<T, 2>,
    table: [[T; 2]; 8],
    dots: Dots<L, R>,
    seed: u32,
    k: int,
    g: PerlinGradients2D<T>,
    i: int,
    s: int,
) where L: Fn(T, T) -> T, R: Fn(T, T) -> T
    requires
        corners_held(grid_data, table, dots, seed, k, g),
        grid_data.grid_indices[0]@.len() == grid_data.num_loops[0],
        0 <= i < grid_data.grid_indices[0]@.len(),
        i > 0 ==> grid_data.grid_indices[0]@[i - 1] <= s,
        0 <= s < grid_data.grid_indices[0]@[i],
    ensures
        ({
            let d = grid_data.distances[0]@[s];
            let tl = table[vertex_number(grid_data, seed, k, i) as int];
            let tr = table[vertex_number(grid_data, seed, k, i + 1) as int];
            let bl = table[vertex_number(grid_data, seed, k + 1, i) as int];
            let br = table[vertex_number(grid_data, seed, k + 1, i + 1) as int];
            &&& dots.left.ensures((tl[0], d), g.tl[0]@[s])
            &&& g.tl[1]@[s] == tl[1]
            &&& dots.right.ensures((tr[0], d), g.tr[0]@[s])
            &&& g.tr[1]@[s] == tr[1]
            &&& dots.left.ensures((bl[0], d), g.bl[0]@[s])
            &&& g.bl[1]@[s] == bl[1]
            &&& dots.right.ensures((br[0], d), g.br[0]@[s])
            &&& g.br[1]@[s] == br[1]
        }),
{
    assert(cells::in_run(grid_data.grid_indices[0]@, i, s));
}

/// Whatever goes over the sample in row `y` and column `s` of a plane was blended
/// for it, in the register that holds the column, from the gradients at the corners of
/// the band that the row lies in: those of lattice row `k` and of the next one,
/// under the whole seed.
pub proof fn law_every_sample_is_blended_from_its_corners<T: Copy, X, A, B, L, R>(
    kernels: Kernels<A, B>,
    grid_data: GridDataLerp<T, 2>,
    table: [[T; 2]; 8],
    dots: Dots<L, R>,
    seed: u32,
    config: InterpolationConfig,
    bands: Seq<BandTrace<T>>,
    j: int,
    k: int,
    y0: int,
    y: int,
    s: int,
) where
    A: Fn(&GridDataLerp<T, 2>, &PerlinGradients2D<T>, usize, usize, usize) -> X,
    B: Fn(&GridDataLerp<T, 2>, &X, usize, usize) -> (Vec<T>, X),
    L: Fn(T, T) -> T,
    R: Fn(T, T) -> T,

    requires
        grid_data.wf(),
        config.wf(grid_data.grid_size[0] as int),
        plane_blended(kernels, grid_data, table, dots, seed, config, bands),
        cells::in_run(grid_data.grid_indices[1]@, k, y),
        y0 == (if k == 0 {
            0
        } else {
            grid_data.grid_indices[1]@[k - 1] as int
        }),
        0 <= s < grid_data.grid_size[0],
        0 <= j < grid_writes(grid_data, config, bands).len(),
        combine::covers(
            grid_writes(grid_data, config, bands)[j],
            y * grid_data.grid_size[0] + s,
        ),
    ensures
        ({
            let w = grid_writes(grid_data, config, bands)[j];
            let x = w.start - y * grid_data.grid_size[0];
            let len = w.value.len() as int;
            &&& 0 <= x <= s < x + len <= grid_data.grid_size[0]
            &&& x % (config.lanes as int) == 0
            &&& len == config.lanes || (len < config.lanes && x + len == grid_data.grid_size[0])
            &&& exists|g: PerlinGradients2D<T>, values: Seq<Vec<T>>, factors: Seq<X>|
                {
                    &&& corners_held(grid_data, table, dots, seed, k, g)
                    &&& #[trigger] registers::register_blended(
                        kernels,
                        grid_data,
                        g,
                        y0,
                        x,
                        len,
                        y0,
                        values,
                        factors,
                    )
                    &&& values.len() == grid_data.grid_indices[1]@[k] - y0
                    &&& values[y - y0]@ == w.value
                }
        }),
{
    assert(grid_data.grid_indices[1]@.len() == grid_data.num_loops[1]);
    let t = bands[k];
    assert(band_blended(kernels, grid_data, table, dots, seed, config, k, t));
    let g = choose|g: PerlinGradients2D<T>| #[trigger]
        band_blended_from(kernels, grid_data, table, dots, seed, config, k, g, t);
    assert(band_blended_from(kernels, grid_data, table, dots, seed, config, k, g, t));
    registers::law_every_sample_is_blended_in_its_band(
        kernels,
        grid_data,
        g,
        config,
        bands,
        j,
        k,
        y0,
        y,
        s,
    );
}

/// Tiled noise repeats: the gradients at the lattice vertices are the same one
/// period further along the columns or along the rows.
pub proof fn law_noise_tiles<T>(
    grid_data: GridDataLerp<T, 2>,
    seed: u32,
    y_it: int,
    i: int,
)
    ensures
        grid_data.octave_tiling[0] matches Some(t) ==> t > 0 && i32::MIN <= grid_data.grid_start[0]
            + i && grid_data.grid_start[0] + i + t <= i32::MAX ==> vertex_number(
            grid_data,
            seed,
            y_it,
            i + t,
        ) == vertex_number(grid_data, seed, y_it, i),
        grid_data.octave_tiling[1] matches Some(t) ==> t as i32 != 0 ==> vertex_number(
            grid_data,
            seed,
            y_it + (t as i32),
            i,
        ) == vertex_number(grid_data, seed, y_it, i),
{
    if let Some(t) = grid_data.octave_tiling[0] {
        if t > 0 && i32::MIN <= grid_data.grid_start[0] + i && grid_data.grid_start[0] + i + t
            <= i32::MAX {
            columns::law_column_hashes_tile(grid_data.grid_start[0], t, seed, i);
        }
    }
    if let Some(t) = grid_data.octave_tiling[1] {
        if t as i32 != 0 {
            bands::law_row_hashes_tile(grid_data, seed, t, y_it);
        }
    }
}

/// Tiled rows repeat: a lattice row and the row one period further set the same
/// gradients, at the left vertices of the cells and at the right ones.
pub proof fn law_rows_repeat<T: Copy, L, R>(
    grid_data: GridDataLerp<T, 2>,
    table: [[T; 2]; 8],
    dots: Dots<L, R>,
    seed: u32,
    t: u32,
    y_it: int,
    left: [Vec<T>; 2],
    right: [Vec<T>; 2],
    further_left: [Vec<T>; 2],
    further_right: [Vec<T>; 2],
) where L: Fn(T, T) -> T, R: Fn(T, T) -> T
    requires
        dots.determined(),
        grid_data.octave_tiling[1] == Some(t),
        t as i32 != 0,
        cells::cuts(grid_data.grid_indices[0]@, grid_data.grid_size[0] as int),
        left_held(grid_data, table, dots, seed, y_it, left),
        right_held(grid_data, table, dots, seed, y_it, right),
        left_held(grid_data, table, dots, seed, y_it + (t as i32), further_left),
        right_held(grid_data, table, dots, seed, y_it + (t as i32), further_right),
    ensures
        buffers::all_same_on(left, further_left, grid_data.grid_size[0] as int),
        buffers::all_same_on(right, further_right, grid_data.grid_size[0] as int),
{
    bands::law_row_hashes_tile(grid_data, seed, t, y_it);
    let further = y_it + (t as i32);
    assert(row_component(grid_data, table, seed, further, 0) =~= row_component(
        grid_data,
        table,
        seed,
        y_it,
        0,
    ));
    assert(row_component(grid_data, table, seed, further, 1) =~= row_component(
        grid_data,
        table,
        seed,
        y_it,
        1,
    ));
    lemma_row_alike(grid_data, table, dots, seed, y_it, left, further_left);
    lemma_row_alike(grid_data, table, dots, seed, y_it, right, further_right);
}

/// Bands that meet share a lattice row: the bottom gradients of a band are the
/// top gradients of the next, at every sample.
pub proof fn law_bands_share_rows<T: Copy, L, R>(
    grid_data: GridDataLerp<T, 2>,
    table: [[T; 2]; 8],
    dots: Dots<L, R>,
    seed: u32,
    k: int,
    g: PerlinGradients2D<T>,
    h: PerlinGradients2D<T>,
    c: int,
    s: int,
) where L: Fn(T, T) -> T, R: Fn(T, T) -> T
    requires
        dots.determined(),
        cells::cuts(grid_data.grid_indices[0]@, grid_data.grid_size[0] as int),
        corners_held(grid_data, table, dots, seed, k, g),
        corners_held(grid_data, table, dots, seed, k + 1, h),
        0 <= c < 2,
        0 <= s < grid_data.grid_size[0],
    ensures
        g.bl[c]@[s] == h.tl[c]@[s],
        g.br[c]@[s] == h.tr[c]@[s],
{
    let ends = grid_data.grid_indices[0]@;
    cells::law_every_sample_in_one_run(ends, grid_data.grid_size[0] as int, s);
    let run = choose|run: int| cells::in_run(ends, run, s);
    assert(cells::in_run(ends, run, s));
}

/// Along a lattice row the gradients are those that [`gradient_row`] gives for the hash of the
/// row: for what [`hash_axis`] gives for the coordinate that stands for it, whatever
/// the sign of that coordinate.
pub proof fn law_rows_go_by_the_hash_of_their_coordinate<T>(
    grid_data: GridDataLerp<T, 2>,
    seed: u32,
    y_it: int,
    y: i32,
    y_hash: u32,
    len: usize,
    row: Vec<u32>,
    i: int,
)
    requires
        tiling::stands_for(y as int, grid_data.grid_start[1] + y_it, grid_data.octave_tiling[1]),
        call_ensures(hash_axis, (y, seed), y_hash),
        call_ensures(
            gradient_row,
            (grid_data.grid_start[0], grid_data.octave_tiling[0], seed, y_hash, len),
            row,
        ),
        0 <= i < len,
    ensures
        row@.len() == len,
        row@[i] == vertex_number(grid_data, seed, y_it, i),
{
    bands::law_row_hash_goes_by_place(grid_data, seed, y_it, y as int);
}

/// A call leaves in every sample of the plane what the combiner makes of a value that
/// was blended there, under the very seed of the call, and of what the buffers held
/// there before. The last octave leaves the state as it was.
pub proof fn law_call_fills_the_plane<T: Copy, X, A, B, L, R, I, P, F>(
    seed: u32,
    grid_data: GridDataLerp<T, 2>,
    table: [[T; 2]; 8],
    dots: Dots<L, R>,
    config: InterpolationConfig,
    kernels: Kernels<A, B>,
    zero: T,
    sink: Sink<I, P, F>,
    state: &mut Vec<T>,
    dst: &mut Vec<T>,
    n: int,
) where
    A: Fn(&GridDataLerp<T, 2>, &PerlinGradients2D<T>, usize, usize, usize) -> X,
    B: Fn(&GridDataLerp<T, 2>, &X, usize, usize) -> (Vec<T>, X),
    L: Fn(T, T) -> T,
    R: Fn(T, T) -> T,
    I: Fn(Vec<T>) -> (Vec<Vec<T>>, Vec<T>),
    P: Fn(Vec<Vec<T>>, Vec<T>, Vec<T>) -> (Vec<Vec<T>>, Vec<T>),
    F: Fn(Vec<Vec<T>>, Vec<T>) -> Vec<T>,

    requires
        grid_data.wf(),
        config.wf(grid_data.grid_size[0] as int),
        sink.layout.total_size == grid_data.total_size,
        sink.wf::<T>(config.lanes as int, old(state)@.len() as int, old(dst)@.len() as int),
        call_ensures(
            sample_grid::<T, X, A, B, L, R, I, P, F>,
            (
                seed,
                &grid_data,
                &table,
                &dots,
                &config,
                &kernels,
                zero,
                &sink,
                state,
                dst,
            ),
            (),
        ),
        0 <= n < grid_data.total_size,
    ensures
        final(state)@.len() == old(state)@.len(),
        final(dst)@.len() == old(dst)@.len(),
        exists|bands: Seq<BandTrace<T>>|
            {
                &&& plane_blended(kernels, grid_data, table, dots, seed, config, bands)
                &&& combine::combined_at(
                    *sink.combiner,
                    sink.pass,
                    sink.layout,
                    #[trigger] grid_writes(grid_data, config, bands),
                    (old(state)@, old(dst)@),
                    (final(state)@, final(dst)@),
                    n,
                )
            },
        sink.pass.last ==> final(state)@ == old(state)@,
{
    let before = (old(state)@, old(dst)@);
    let after = (final(state)@, final(dst)@);
    let bands = choose|bands: Seq<BandTrace<T>>|
        {
            &&& plane_blended(kernels, grid_data, table, dots, seed, config, bands)
            &&& sink.takes(#[trigger] grid_writes(grid_data, config, bands), before, after)
        };
    let writes = grid_writes(grid_data, config, bands);
    assert(sink.takes(writes, before, after));
    if sink.pass.last {
        combine::law_last_octave_keeps_state(
            *sink.combiner,
            sink.pass,
            sink.layout,
            writes,
            before,
            after,
        );
    }
    assert(grid_data.grid_indices[1]@.len() == grid_data.num_loops[1]);
    crate::grid_data::law_volume_is_the_product_of_the_sides(grid_data.grid_size@);
    bands::law_every_sample_combined_once(
        sink,
        config,
        grid_data.grid_size[0] as int,
        grid_data.grid_size[1] as int,
        grid_data.grid_indices[1]@,
        bands,
        before,
        after,
        n,
    );
}

} // verus!

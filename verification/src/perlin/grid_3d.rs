//! Perlin noise in space.

use crate::bands;
use crate::blending;
use crate::blending::{interpolate_slab, BlockTrace, GroupTrace, Kernels, SlabKernels};
use crate::buffers;
use crate::buffers::{filled, next_register, pick_component};
use crate::cells;
use crate::cells::set_runs;
use crate::columns;
use crate::columns::{push_lanes, Columns};
use crate::combine;
use crate::combine::{store, Sink};
use crate::grid_data::GridDataLerp;
use crate::hash;
use crate::interpolation;
use crate::interpolation::InterpolationConfig;
use crate::lanes::U32x8;
use crate::perlin::dots;
use crate::perlin::dots::{dot_columns, Dots};
use crate::registers;
use crate::slabs;
use crate::slabs::row_and_layers;
use crate::tiling;
use vstd::prelude::*;

verus! {

/// The gradients at the corners of the cells of one band of one slab, one
/// value per sample and component: top or bottom, left or right, in front or
/// behind. The gradient numbers of the front and the back row are kept beside
/// them.
pub struct PerlinGradients3D<T> {
    pub tlf: [Vec<T>; 3],
    pub trf: [Vec<T>; 3],
    pub blf: [Vec<T>; 3],
    pub brf: [Vec<T>; 3],
    pub tlb: [Vec<T>; 3],
    pub trb: [Vec<T>; 3],
    pub blb: [Vec<T>; 3],
    pub brb: [Vec<T>; 3],
    pub scratch: [Vec<u32>; 2],
}

/// Three buffers of `size` times the same value.
fn filled_3<T: Copy>(value: T, size: usize) -> (r: [Vec<T>; 3])
    ensures
        forall|c: int|
            0 <= c < 3 ==> (#[trigger] r[c])@ == Seq::new(size as nat, |i: int| value),
{
    [filled(value, size), filled(value, size), filled(value, size)]
}

/// Each of three buffers has `size` values.
pub open spec fn sized_3<T>(buffers: [Vec<T>; 3], size: int) -> bool {
    forall|c: int| 0 <= c < 3 ==> (#[trigger] buffers[c])@.len() == size
}

impl<T: Copy> PerlinGradients3D<T> {
    /// Every buffer of gradients has `size` values.
    pub open spec fn sized(self, size: int) -> bool {
        &&& sized_3(self.tlf, size)
        &&& sized_3(self.trf, size)
        &&& sized_3(self.blf, size)
        &&& sized_3(self.brf, size)
        &&& sized_3(self.tlb, size)
        &&& sized_3(self.trb, size)
        &&& sized_3(self.blb, size)
        &&& sized_3(self.brb, size)
    }

    /// Buffers of `size` samples, all at `value`.
    pub fn new(value: T, size: usize) -> (r: Self)
        ensures
            r.sized(size as int),
            forall|c: int, s: int|
                0 <= c < 3 && 0 <= s < size ==> (#[trigger] r.tlf[c]@[s]) == value
                    && r.trf[c]@[s] == value && r.blf[c]@[s] == value && r.brf[c]@[s] == value
                    && r.tlb[c]@[s] == value && r.trb[c]@[s] == value && r.blb[c]@[s] == value
                    && r.brb[c]@[s] == value,
            forall|c: int|
                0 <= c < 2 ==> (#[trigger] r.scratch[c])@ == Seq::new(size as nat, |i: int| 0u32),
    {
        PerlinGradients3D {
            tlf: filled_3(value, size),
            trf: filled_3(value, size),
            blf: filled_3(value, size),
            brf: filled_3(value, size),
            tlb: filled_3(value, size),
            trb: filled_3(value, size),
            blb: filled_3(value, size),
            brb: filled_3(value, size),
            scratch: [filled(0, size), filled(0, size)],
        }
    }

    /// The top and the bottom gradients exchanged.
    pub open spec fn swapped(self) -> Self {
        PerlinGradients3D {
            tlf: self.blf,
            trf: self.brf,
            blf: self.tlf,
            brf: self.trf,
            tlb: self.blb,
            trb: self.brb,
            blb: self.tlb,
            brb: self.trb,
            scratch: self.scratch,
        }
    }

    /// Exchanging twice changes nothing.
    pub proof fn law_swapped_twice(self)
        ensures
            self.swapped().swapped() == self,
    {
    }

    /// Exchanges the top and the bottom gradients.
    pub fn swap_top_bottom(&mut self)
        ensures
            *final(self) == old(self).swapped(),
    {
        core::mem::swap(&mut self.tlf, &mut self.blf);
        core::mem::swap(&mut self.trf, &mut self.brf);
        core::mem::swap(&mut self.tlb, &mut self.blb);
        core::mem::swap(&mut self.trb, &mut self.brb);
    }
}

/// The number of the gradient at a vertex, from the hash of its column and the
/// product of the hashes of its layer and its row.
pub open spec fn gradient_number(x_hash: u32, zy_hash: u32) -> u32 {
    zy_hash.wrapping_mul(x_hash) >> 28
}

/// The number of the gradient at column `i` of lattice row `y_it` of lattice
/// layer `z_it`.
pub open spec fn vertex_number<T>(
    grid_data: GridDataLerp<T, 3>,
    seed: u32,
    y_it: int,
    z_it: int,
    i: int,
) -> u32 {
    gradient_number(
        columns::column_hash(grid_data.grid_start[0], grid_data.octave_tiling[0], seed, i),
        slabs::layer_row_hash(grid_data, seed, y_it, z_it),
    )
}

/// The gradient numbers along a lattice row.
pub open spec fn row_numbers<T>(
    grid_data: GridDataLerp<T, 3>,
    seed: u32,
    y_it: int,
    z_it: int,
) -> Seq<u32> {
    Seq::new(
        (grid_data.num_loops[0] + 1) as nat,
        |i: int| vertex_number(grid_data, seed, y_it, z_it, i),
    )
}

/// One component of the gradients that a row of numbers names.
pub open spec fn component<T>(table: [[T; 3]; 16], numbers: Seq<u32>, c: int) -> Seq<T> {
    Seq::new(numbers.len(), |i: int| table[numbers[i] as int][c])
}

/// Every sample holds the gradient that the numbers name at the left vertex of
/// its cell, or at the right one where `side` is 1.
pub open spec fn numbers_held<T>(
    grid_data: GridDataLerp<T, 3>,
    table: [[T; 3]; 16],
    numbers: Seq<u32>,
    buffers: [Vec<T>; 3],
    side: int,
) -> bool {
    forall|c: int|
        0 <= c < 3 ==> cells::runs_set(
            grid_data.grid_indices[0]@,
            component(table, numbers, c),
            (#[trigger] buffers[c])@,
            side,
        )
}

/// Every sample holds the gradient of lattice row `y_it` of lattice layer
/// `z_it` at the left vertex of its cell, its column component already
/// multiplied.
pub open spec fn left_held<T: Copy, L, R>(
    grid_data: GridDataLerp<T, 3>,
    table: [[T; 3]; 16],
    dots: Dots<L, R>,
    seed: u32,
    y_it: int,
    z_it: int,
    buffers: [Vec<T>; 3],
) -> bool where L: Fn(T, T) -> T, R: Fn(T, T) -> T {
    let ends = grid_data.grid_indices[0]@;
    let numbers = row_numbers(grid_data, seed, y_it, z_it);
    &&& dots::runs_dotted(
        ends,
        component(table, numbers, 0),
        grid_data.distances[0]@,
        buffers[0]@,
        0,
        dots.left,
    )
    &&& cells::runs_set(ends, component(table, numbers, 1), buffers[1]@, 0)
    &&& cells::runs_set(ends, component(table, numbers, 2), buffers[2]@, 0)
}

/// Every sample holds the gradient of lattice row `y_it` of lattice layer
/// `z_it` at the right vertex of its cell, its column component already
/// multiplied.
pub open spec fn right_held<T: Copy, L, R>(
    grid_data: GridDataLerp<T, 3>,
    table: [[T; 3]; 16],
    dots: Dots<L, R>,
    seed: u32,
    y_it: int,
    z_it: int,
    buffers: [Vec<T>; 3],
) -> bool where L: Fn(T, T) -> T, R: Fn(T, T) -> T {
    let ends = grid_data.grid_indices[0]@;
    let numbers = row_numbers(grid_data, seed, y_it, z_it);
    &&& dots::runs_dotted(
        ends,
        component(table, numbers, 0),
        grid_data.distances[0]@,
        buffers[0]@,
        1,
        dots.right,
    )
    &&& cells::runs_set(ends, component(table, numbers, 1), buffers[1]@, 1)
    &&& cells::runs_set(ends, component(table, numbers, 2), buffers[2]@, 1)
}

/// A gradient number names one of sixteen gradients.
proof fn lemma_number_in_table(x_hash: u32, zy_hash: u32)
    ensures
        gradient_number(x_hash, zy_hash) < 16,
{
    let p = zy_hash.wrapping_mul(x_hash);
    assert(p >> 28 < 16u32) by (bit_vector);
}

/// The gradient numbers of the first `len` columns of the front and the back
/// row.
pub fn gradient_rows(
    start: i32,
    tiling: Option<u32>,
    seed: u32,
    front_hash: u32,
    back_hash: u32,
    len: usize,
) -> (rows: [Vec<u32>; 2])
    requires
        columns::positive(tiling),
    ensures
        rows[0]@ == Seq::new(
            len as nat,
            |i: int| gradient_number(columns::column_hash(start, tiling, seed, i), front_hash),
        ),
        rows[1]@ == Seq::new(
            len as nat,
            |i: int| gradient_number(columns::column_hash(start, tiling, seed, i), back_hash),
        ),
{
    let zy_front = U32x8::splat(front_hash);
    let zy_back = U32x8::splat(back_hash);
    let mut front: Vec<u32> = Vec::new();
    let mut back: Vec<u32> = Vec::new();
    let mut walk = Columns::new(start, tiling, seed);
    let ghost mut i: int = 0;
    while front.len() < len
        invariant
            zy_front@ == Seq::new(8, |k: int| front_hash),
            zy_back@ == Seq::new(8, |k: int| back_hash),
            walk.stands(start, tiling, seed, i),
            front.len() == (if i <= len {
                i
            } else {
                len as int
            }),
            back.len() == front.len(),
            forall|j: int|
                0 <= j < front.len() ==> #[trigger] front[j] == gradient_number(
                    columns::column_hash(start, tiling, seed, j),
                    front_hash,
                ),
            forall|j: int|
                0 <= j < back.len() ==> #[trigger] back[j] == gradient_number(
                    columns::column_hash(start, tiling, seed, j),
                    back_hash,
                ),
        decreases len - front.len(),
    {
        let (x_shuf, ahead) = walk.advance(Ghost(start), Ghost(tiling), Ghost(seed), Ghost(i));
        let front_numbers = zy_front.times(&x_shuf).shifted_right(28);
        let back_numbers = zy_back.times(&x_shuf).shifted_right(28);
        let ghost front0 = front@;
        let ghost back0 = back@;
        push_lanes(&mut front, &front_numbers, len);
        push_lanes(&mut back, &back_numbers, len);
        proof {
            assert forall|j: int| 0 <= j < front.len() implies #[trigger] front[j]
                == gradient_number(columns::column_hash(start, tiling, seed, j), front_hash) by {
                if j >= front0.len() {
                    assert(front[j] == front_numbers@[j - i]);
                } else {
                    assert(front[j] == front0[j]);
                }
            }
            assert forall|j: int| 0 <= j < back.len() implies #[trigger] back[j]
                == gradient_number(columns::column_hash(start, tiling, seed, j), back_hash) by {
                if j >= back0.len() {
                    assert(back[j] == back_numbers@[j - i]);
                } else {
                    assert(back[j] == back0[j]);
                }
            }
            i = i + 8;
        }
        walk = ahead;
    }
    [front, back]
}

/// Sets the bottom gradients from the kept numbers: those in front, or those
/// behind.
pub fn grid_gradients_3d_set_loop<T: Copy>(
    grid_data: &GridDataLerp<T, 3>,
    table: &[[T; 3]; 16],
    gradients: &mut PerlinGradients3D<T>,
    is_front: bool,
)
    requires
        grid_data.wf(),
        old(gradients).sized(grid_data.grid_size[0] as int),
        forall|k: int|
            0 <= k < 2 ==> (#[trigger] old(gradients).scratch[k])@.len() == grid_data.num_loops[0]
                + 1,
        forall|k: int, i: int|
            0 <= k < 2 && 0 <= i <= grid_data.num_loops[0] ==> #[trigger] old(
                gradients,
            ).scratch[k]@[i] < 16,
    ensures
        final(gradients).sized(grid_data.grid_size[0] as int),
        final(gradients).scratch == old(gradients).scratch,
        final(gradients).tlf == old(gradients).tlf,
        final(gradients).trf == old(gradients).trf,
        final(gradients).tlb == old(gradients).tlb,
        final(gradients).trb == old(gradients).trb,
        is_front ==> {
            &&& numbers_held(
                *grid_data,
                *table,
                old(gradients).scratch[0]@,
                final(gradients).blf,
                0,
            )
            &&& numbers_held(
                *grid_data,
                *table,
                old(gradients).scratch[0]@,
                final(gradients).brf,
                1,
            )
            &&& final(gradients).blb == old(gradients).blb
            &&& final(gradients).brb == old(gradients).brb
        },
        !is_front ==> {
            &&& numbers_held(
                *grid_data,
                *table,
                old(gradients).scratch[1]@,
                final(gradients).blb,
                0,
            )
            &&& numbers_held(
                *grid_data,
                *table,
                old(gradients).scratch[1]@,
                final(gradients).brb,
                1,
            )
            &&& final(gradients).blf == old(gradients).blf
            &&& final(gradients).brf == old(gradients).brf
        },
{
    if is_front {
        assert(gradients.scratch[0]@.len() == grid_data.num_loops[0] + 1);
        set_sides(
            grid_data,
            table,
            &gradients.scratch[0],
            &mut gradients.blf,
            &mut gradients.brf,
        );
    } else {
        assert(gradients.scratch[1]@.len() == grid_data.num_loops[0] + 1);
        set_sides(
            grid_data,
            table,
            &gradients.scratch[1],
            &mut gradients.blb,
            &mut gradients.brb,
        );
    }
}

/// Sets the samples of each cell to the gradients at its left and right
/// vertices.
fn set_sides<T: Copy>(
    grid_data: &GridDataLerp<T, 3>,
    table: &[[T; 3]; 16],
    numbers: &Vec<u32>,
    left: &mut [Vec<T>; 3],
    right: &mut [Vec<T>; 3],
)
    requires
        grid_data.wf(),
        numbers.len() == grid_data.num_loops[0] + 1,
        forall|i: int| 0 <= i < numbers.len() ==> numbers@[i] < 16,
        sized_3(*old(left), grid_data.grid_size[0] as int),
        sized_3(*old(right), grid_data.grid_size[0] as int),
    ensures
        sized_3(*final(left), grid_data.grid_size[0] as int),
        sized_3(*final(right), grid_data.grid_size[0] as int),
        numbers_held(*grid_data, *table, numbers@, *final(left), 0),
        numbers_held(*grid_data, *table, numbers@, *final(right), 1),
{
    assert(grid_data.grid_indices[0]@.len() == grid_data.num_loops[0]);
    let xs = pick_component(numbers, table, 0);
    let ys = pick_component(numbers, table, 1);
    let zs = pick_component(numbers, table, 2);
    assert(xs@ =~= component(*table, numbers@, 0));
    assert(ys@ =~= component(*table, numbers@, 1));
    assert(zs@ =~= component(*table, numbers@, 2));
    let n: usize = grid_data.grid_size[0];
    assert(old(left)[0]@.len() == n && old(left)[1]@.len() == n && old(left)[2]@.len() == n);
    assert(old(right)[0]@.len() == n && old(right)[1]@.len() == n && old(right)[2]@.len() == n);
    set_runs(&grid_data.grid_indices[0], &xs, &mut left[0], &mut right[0], n);
    set_runs(&grid_data.grid_indices[0], &ys, &mut left[1], &mut right[1], n);
    set_runs(&grid_data.grid_indices[0], &zs, &mut left[2], &mut right[2], n);
}

/// The bottom gradients are those of lattice row `y_it`, of lattice layer
/// `z_it` in front and of the next layer behind.
pub open spec fn bottom_held<T: Copy, L, R>(
    grid_data: GridDataLerp<T, 3>,
    table: [[T; 3]; 16],
    dots: Dots<L, R>,
    seed: u32,
    y_it: int,
    z_it: int,
    g: PerlinGradients3D<T>,
) -> bool where L: Fn(T, T) -> T, R: Fn(T, T) -> T {
    &&& left_held(grid_data, table, dots, seed, y_it, z_it, g.blf)
    &&& right_held(grid_data, table, dots, seed, y_it, z_it, g.brf)
    &&& left_held(grid_data, table, dots, seed, y_it, z_it + 1, g.blb)
    &&& right_held(grid_data, table, dots, seed, y_it, z_it + 1, g.brb)
}

/// The top gradients are those of lattice row `y_it`, of lattice layer `z_it`
/// in front and of the next layer behind.
pub open spec fn top_held<T: Copy, L, R>(
    grid_data: GridDataLerp<T, 3>,
    table: [[T; 3]; 16],
    dots: Dots<L, R>,
    seed: u32,
    y_it: int,
    z_it: int,
    g: PerlinGradients3D<T>,
) -> bool where L: Fn(T, T) -> T, R: Fn(T, T) -> T {
    &&& left_held(grid_data, table, dots, seed, y_it, z_it, g.tlf)
    &&& right_held(grid_data, table, dots, seed, y_it, z_it, g.trf)
    &&& left_held(grid_data, table, dots, seed, y_it, z_it + 1, g.tlb)
    &&& right_held(grid_data, table, dots, seed, y_it, z_it + 1, g.trb)
}

/// Sets the bottom gradients to those of lattice row `y_it` between lattice
/// layers `z_it` and `z_it + 1`. The column components are multiplied at once:
/// all rows of a band share the products.
pub fn grid_gradients_3d<T: Copy, L, R>(
    seed: u32,
    grid_data: &GridDataLerp<T, 3>,
    table: &[[T; 3]; 16],
    dots: &Dots<L, R>,
    gradients: &mut PerlinGradients3D<T>,
    y_it: usize,
    z_it: usize,
) where L: Fn(T, T) -> T, R: Fn(T, T) -> T
    requires
        grid_data.wf(),
        slabs::hashable(*grid_data, y_it as int, z_it as int),
        dots.total(),
        old(gradients).sized(grid_data.grid_size[0] as int),
    ensures
        final(gradients).sized(grid_data.grid_size[0] as int),
        bottom_held(
            *grid_data,
            *table,
            *dots,
            seed,
            y_it as int,
            z_it as int,
            *final(gradients),
        ),
        final(gradients).tlf == old(gradients).tlf,
        final(gradients).trf == old(gradients).trf,
        final(gradients).tlb == old(gradients).tlb,
        final(gradients).trb == old(gradients).trb,
{
    assert(grid_data.grid_indices[0]@.len() == grid_data.num_loops[0]);
    let (y_hash, front_hash, back_hash) = row_and_layers(grid_data, seed, y_it, z_it);
    let zy_front: u32 = front_hash.wrapping_mul(y_hash);
    let zy_back: u32 = back_hash.wrapping_mul(y_hash);
    gradients.scratch = gradient_rows(
        grid_data.grid_start[0],
        grid_data.octave_tiling[0],
        seed,
        zy_front,
        zy_back,
        grid_data.num_loops[0] + 1,
    );
    proof {
        let front = gradients.scratch[0]@;
        let back = gradients.scratch[1]@;
        assert(front =~= row_numbers(*grid_data, seed, y_it as int, z_it as int));
        assert(back =~= row_numbers(*grid_data, seed, y_it as int, z_it + 1));
        assert forall|k: int, i: int|
            0 <= k < 2 && 0 <= i
                <= grid_data.num_loops[0] implies #[trigger] gradients.scratch[k]@[i] < 16 by {
            let x_hash = columns::column_hash(
                grid_data.grid_start[0],
                grid_data.octave_tiling[0],
                seed,
                i,
            );
            lemma_number_in_table(x_hash, zy_front);
            lemma_number_in_table(x_hash, zy_back);
        }
    }
    grid_gradients_3d_set_loop(grid_data, table, gradients, true);
    grid_gradients_3d_set_loop(grid_data, table, gradients, false);
    proof {
        let ends = grid_data.grid_indices[0]@;
        let front = row_numbers(*grid_data, seed, y_it as int, z_it as int);
        let back = row_numbers(*grid_data, seed, y_it as int, z_it + 1);
        assert forall|c: int| 0 <= c < 3 implies cells::runs_set(
            ends,
            component(*table, front, c),
            (#[trigger] gradients.blf[c])@,
            0,
        ) && cells::runs_set(ends, component(*table, front, c), gradients.brf[c]@, 1)
            && cells::runs_set(ends, component(*table, back, c), gradients.blb[c]@, 0)
            && cells::runs_set(ends, component(*table, back, c), gradients.brb[c]@, 1) by {
        }
        assert(gradients.blf[0]@.len() == gradients.blf[1]@.len());
        assert(gradients.blf[2]@.len() == gradients.blf[1]@.len());
    }
    dot_sides(dots, grid_data, &mut gradients.blf, &mut gradients.brf);
    dot_sides(dots, grid_data, &mut gradients.blb, &mut gradients.brb);
}

/// Multiplies the column components of the gradients on both sides of each
/// sample.
fn dot_sides<T: Copy, L, R>(
    dots: &Dots<L, R>,
    grid_data: &GridDataLerp<T, 3>,
    left: &mut [Vec<T>; 3],
    right: &mut [Vec<T>; 3],
) where L: Fn(T, T) -> T, R: Fn(T, T) -> T
    requires
        grid_data.wf(),
        dots.total(),
        sized_3(*old(left), grid_data.grid_size[0] as int),
        sized_3(*old(right), grid_data.grid_size[0] as int),
    ensures
        sized_3(*final(left), grid_data.grid_size[0] as int),
        sized_3(*final(right), grid_data.grid_size[0] as int),
        final(left)[1] == old(left)[1],
        final(left)[2] == old(left)[2],
        final(right)[1] == old(right)[1],
        final(right)[2] == old(right)[2],
        forall|vertices: Seq<T>| #[trigger]
            cells::runs_set(grid_data.grid_indices[0]@, vertices, old(left)[0]@, 0)
                ==> dots::runs_dotted(
                grid_data.grid_indices[0]@,
                vertices,
                grid_data.distances[0]@,
                final(left)[0]@,
                0,
                dots.left,
            ),
        forall|vertices: Seq<T>| #[trigger]
            cells::runs_set(grid_data.grid_indices[0]@, vertices, old(right)[0]@, 1)
                ==> dots::runs_dotted(
                grid_data.grid_indices[0]@,
                vertices,
                grid_data.distances[0]@,
                final(right)[0]@,
                1,
                dots.right,
            ),
{
    let n: usize = grid_data.grid_size[0];
    assert(grid_data.grid_indices[0]@.len() == grid_data.num_loops[0]);
    assert(grid_data.distances[0]@.len() == n);
    assert(old(left)[0]@.len() == n && old(left)[1]@.len() == n && old(left)[2]@.len() == n);
    assert(old(right)[0]@.len() == n && old(right)[1]@.len() == n && old(right)[2]@.len() == n);
    dot_columns(
        dots,
        &grid_data.grid_indices[0],
        &grid_data.distances[0],
        &mut left[0],
        &mut right[0],
        n,
    );
}

/// Buffers in which a band of a slab is prepared: the blended gradients along
/// the rows and along the layers, and the blended products at its start.
pub struct DottedTrilerpBuffers<T> {
    pub y_tf_offset: Vec<T>,
    pub y_bf_offset: Vec<T>,
    pub y_top_offset_dif: Vec<T>,
    pub y_bottom_offset_dif: Vec<T>,
    pub z_tf_offset: Vec<T>,
    pub z_bf_offset: Vec<T>,
    pub z_top_offset_dif: Vec<T>,
    pub z_bottom_offset_dif: Vec<T>,
    pub tf_base: Vec<T>,
    pub bf_base: Vec<T>,
    pub top_base_dif: Vec<T>,
    pub bottom_base_dif: Vec<T>,
}

impl<T: Copy> DottedTrilerpBuffers<T> {
    /// Every buffer has `size` values.
    pub open spec fn wide(self, size: int) -> bool {
        &&& self.y_tf_offset@.len() == size
        &&& self.y_bf_offset@.len() == size
        &&& self.y_top_offset_dif@.len() == size
        &&& self.y_bottom_offset_dif@.len() == size
        &&& self.z_tf_offset@.len() == size
        &&& self.z_bf_offset@.len() == size
        &&& self.z_top_offset_dif@.len() == size
        &&& self.z_bottom_offset_dif@.len() == size
        &&& self.tf_base@.len() == size
        &&& self.bf_base@.len() == size
        &&& self.top_base_dif@.len() == size
        &&& self.bottom_base_dif@.len() == size
    }

    /// A piece stands in the buffers at `x`.
    pub open spec fn holds(self, x: int, piece: Self) -> bool {
        &&& buffers::holds_at(self.y_tf_offset@, x, piece.y_tf_offset@)
        &&& buffers::holds_at(self.y_bf_offset@, x, piece.y_bf_offset@)
        &&& buffers::holds_at(self.y_top_offset_dif@, x, piece.y_top_offset_dif@)
        &&& buffers::holds_at(self.y_bottom_offset_dif@, x, piece.y_bottom_offset_dif@)
        &&& buffers::holds_at(self.z_tf_offset@, x, piece.z_tf_offset@)
        &&& buffers::holds_at(self.z_bf_offset@, x, piece.z_bf_offset@)
        &&& buffers::holds_at(self.z_top_offset_dif@, x, piece.z_top_offset_dif@)
        &&& buffers::holds_at(self.z_bottom_offset_dif@, x, piece.z_bottom_offset_dif@)
        &&& buffers::holds_at(self.tf_base@, x, piece.tf_base@)
        &&& buffers::holds_at(self.bf_base@, x, piece.bf_base@)
        &&& buffers::holds_at(self.top_base_dif@, x, piece.top_base_dif@)
        &&& buffers::holds_at(self.bottom_base_dif@, x, piece.bottom_base_dif@)
    }

    /// The buffers after a piece was put in at `x`.
    pub open spec fn put_at(before: Self, x: int, piece: Self, after: Self) -> bool {
        &&& after.y_tf_offset@ == combine::spliced(before.y_tf_offset@, x, piece.y_tf_offset@)
        &&& after.y_bf_offset@ == combine::spliced(before.y_bf_offset@, x, piece.y_bf_offset@)
        &&& after.y_top_offset_dif@ == combine::spliced(
            before.y_top_offset_dif@,
            x,
            piece.y_top_offset_dif@,
        )
        &&& after.y_bottom_offset_dif@ == combine::spliced(
            before.y_bottom_offset_dif@,
            x,
            piece.y_bottom_offset_dif@,
        )
        &&& after.z_tf_offset@ == combine::spliced(before.z_tf_offset@, x, piece.z_tf_offset@)
        &&& after.z_bf_offset@ == combine::spliced(before.z_bf_offset@, x, piece.z_bf_offset@)
        &&& after.z_top_offset_dif@ == combine::spliced(
            before.z_top_offset_dif@,
            x,
            piece.z_top_offset_dif@,
        )
        &&& after.z_bottom_offset_dif@ == combine::spliced(
            before.z_bottom_offset_dif@,
            x,
            piece.z_bottom_offset_dif@,
        )
        &&& after.tf_base@ == combine::spliced(before.tf_base@, x, piece.tf_base@)
        &&& after.bf_base@ == combine::spliced(before.bf_base@, x, piece.bf_base@)
        &&& after.top_base_dif@ == combine::spliced(before.top_base_dif@, x, piece.top_base_dif@)
        &&& after.bottom_base_dif@ == combine::spliced(
            before.bottom_base_dif@,
            x,
            piece.bottom_base_dif@,
        )
    }

    /// Puts a piece in at `x`.
    pub fn put(&mut self, x: usize, piece: &Self)
        requires
            exists|size: int, len: int|
                #[trigger] old(self).wide(size) && #[trigger] piece.wide(len) && x + len <= size,
        ensures
            Self::put_at(*old(self), x as int, *piece, *final(self)),
            forall|size: int| old(self).wide(size) ==> final(self).wide(size),
    {
        store(&mut self.y_tf_offset, x, &piece.y_tf_offset);
        store(&mut self.y_bf_offset, x, &piece.y_bf_offset);
        store(&mut self.y_top_offset_dif, x, &piece.y_top_offset_dif);
        store(&mut self.y_bottom_offset_dif, x, &piece.y_bottom_offset_dif);
        store(&mut self.z_tf_offset, x, &piece.z_tf_offset);
        store(&mut self.z_bf_offset, x, &piece.z_bf_offset);
        store(&mut self.z_top_offset_dif, x, &piece.z_top_offset_dif);
        store(&mut self.z_bottom_offset_dif, x, &piece.z_bottom_offset_dif);
        store(&mut self.tf_base, x, &piece.tf_base);
        store(&mut self.bf_base, x, &piece.bf_base);
        store(&mut self.top_base_dif, x, &piece.top_base_dif);
        store(&mut self.bottom_base_dif, x, &piece.bottom_base_dif);
    }

    /// A piece that was put in stands there.
    proof fn lemma_put_holds(before: Self, x: int, piece: Self, after: Self)
        requires
            0 <= x,
            Self::put_at(before, x, piece, after),
            exists|size: int, len: int|
                #[trigger] before.wide(size) && #[trigger] piece.wide(len) && x + len <= size,
        ensures
            after.holds(x, piece),
    {
        buffers::lemma_spliced_holds(before.y_tf_offset@, x, piece.y_tf_offset@);
        buffers::lemma_spliced_holds(before.y_bf_offset@, x, piece.y_bf_offset@);
        buffers::lemma_spliced_holds(before.y_top_offset_dif@, x, piece.y_top_offset_dif@);
        buffers::lemma_spliced_holds(before.y_bottom_offset_dif@, x, piece.y_bottom_offset_dif@);
        buffers::lemma_spliced_holds(before.z_tf_offset@, x, piece.z_tf_offset@);
        buffers::lemma_spliced_holds(before.z_bf_offset@, x, piece.z_bf_offset@);
        buffers::lemma_spliced_holds(before.z_top_offset_dif@, x, piece.z_top_offset_dif@);
        buffers::lemma_spliced_holds(before.z_bottom_offset_dif@, x, piece.z_bottom_offset_dif@);
        buffers::lemma_spliced_holds(before.tf_base@, x, piece.tf_base@);
        buffers::lemma_spliced_holds(before.bf_base@, x, piece.bf_base@);
        buffers::lemma_spliced_holds(before.top_base_dif@, x, piece.top_base_dif@);
        buffers::lemma_spliced_holds(before.bottom_base_dif@, x, piece.bottom_base_dif@);
    }

    /// A piece that is put behind another leaves it as it is.
    proof fn lemma_put_keeps(
        before: Self,
        x: int,
        piece: Self,
        after: Self,
        other: int,
        first: Self,
    )
        requires
            Self::put_at(before, x, piece, after),
            before.holds(other, first),
            exists|len: int| #[trigger] first.wide(len) && other + len <= x,
        ensures
            after.holds(other, first),
    {
        buffers::lemma_spliced_keeps(
            before.y_tf_offset@,
            x,
            piece.y_tf_offset@,
            other,
            first.y_tf_offset@,
        );
        buffers::lemma_spliced_keeps(
            before.y_bf_offset@,
            x,
            piece.y_bf_offset@,
            other,
            first.y_bf_offset@,
        );
        buffers::lemma_spliced_keeps(
            before.y_top_offset_dif@,
            x,
            piece.y_top_offset_dif@,
            other,
            first.y_top_offset_dif@,
        );
        buffers::lemma_spliced_keeps(
            before.y_bottom_offset_dif@,
            x,
            piece.y_bottom_offset_dif@,
            other,
            first.y_bottom_offset_dif@,
        );
        buffers::lemma_spliced_keeps(
            before.z_tf_offset@,
            x,
            piece.z_tf_offset@,
            other,
            first.z_tf_offset@,
        );
        buffers::lemma_spliced_keeps(
            before.z_bf_offset@,
            x,
            piece.z_bf_offset@,
            other,
            first.z_bf_offset@,
        );
        buffers::lemma_spliced_keeps(
            before.z_top_offset_dif@,
            x,
            piece.z_top_offset_dif@,
            other,
            first.z_top_offset_dif@,
        );
        buffers::lemma_spliced_keeps(
            before.z_bottom_offset_dif@,
            x,
            piece.z_bottom_offset_dif@,
            other,
            first.z_bottom_offset_dif@,
        );
        buffers::lemma_spliced_keeps(before.tf_base@, x, piece.tf_base@, other, first.tf_base@);
        buffers::lemma_spliced_keeps(before.bf_base@, x, piece.bf_base@, other, first.bf_base@);
        buffers::lemma_spliced_keeps(
            before.top_base_dif@,
            x,
            piece.top_base_dif@,
            other,
            first.top_base_dif@,
        );
        buffers::lemma_spliced_keeps(
            before.bottom_base_dif@,
            x,
            piece.bottom_base_dif@,
            other,
            first.bottom_base_dif@,
        );
    }

    /// Buffers of `x_size` samples, all at `value`.
    pub fn new(value: T, x_size: usize) -> (r: Self)
        ensures
            r.wide(x_size as int),
            r.y_tf_offset@ == Seq::new(x_size as nat, |i: int| value),
            r.y_bf_offset@ == r.y_tf_offset@,
            r.y_top_offset_dif@ == r.y_tf_offset@,
            r.y_bottom_offset_dif@ == r.y_tf_offset@,
            r.z_tf_offset@ == r.y_tf_offset@,
            r.z_bf_offset@ == r.y_tf_offset@,
            r.z_top_offset_dif@ == r.y_tf_offset@,
            r.z_bottom_offset_dif@ == r.y_tf_offset@,
            r.tf_base@ == r.y_tf_offset@,
            r.bf_base@ == r.y_tf_offset@,
            r.top_base_dif@ == r.y_tf_offset@,
            r.bottom_base_dif@ == r.y_tf_offset@,
    {
        DottedTrilerpBuffers {
            y_tf_offset: filled(value, x_size),
            y_bf_offset: filled(value, x_size),
            y_top_offset_dif: filled(value, x_size),
            y_bottom_offset_dif: filled(value, x_size),
            z_tf_offset: filled(value, x_size),
            z_bf_offset: filled(value, x_size),
            z_top_offset_dif: filled(value, x_size),
            z_bottom_offset_dif: filled(value, x_size),
            tf_base: filled(value, x_size),
            bf_base: filled(value, x_size),
            top_base_dif: filled(value, x_size),
            bottom_base_dif: filled(value, x_size),
        }
    }
}

/// What a band of a slab is blended from: the gathered buffers, and the slice
/// at which they were gathered.
pub struct DottedTrilerpSource<T> {
    pub buffers: DottedTrilerpBuffers<T>,
    pub z_start: usize,
}

/// The gradients at the corners of the cells of band `k` of slab `z_it`: those
/// of lattice row `k` on top, those of the next row at the bottom.
pub open spec fn corners_held<T: Copy, L, R>(
    grid_data: GridDataLerp<T, 3>,
    table: [[T; 3]; 16],
    dots: Dots<L, R>,
    seed: u32,
    k: int,
    z_it: int,
    g: PerlinGradients3D<T>,
) -> bool where L: Fn(T, T) -> T, R: Fn(T, T) -> T {
    &&& top_held(grid_data, table, dots, seed, k, z_it, g)
    &&& bottom_held(grid_data, table, dots, seed, k + 1, z_it, g)
}

/// What the gathering of a band leaves behind: at every register of a row the
/// piece that was gathered for it.
pub open spec fn assembled<T: Copy, C>(
    gather: C,
    grid_data: GridDataLerp<T, 3>,
    g: PerlinGradients3D<T>,
    y0: usize,
    z0: usize,
    lanes: int,
    b: DottedTrilerpBuffers<T>,
) -> bool where
    C: Fn(
        &GridDataLerp<T, 3>,
        &PerlinGradients3D<T>,
        usize,
        usize,
        usize,
        usize,
    ) -> DottedTrilerpBuffers<T>,
 {
    forall|x: int|
        0 <= x < grid_data.grid_size[0] && x % lanes == 0 ==> #[trigger] assembled_at(
            gather,
            grid_data,
            g,
            y0,
            z0,
            lanes,
            b,
            x,
        )
}

/// The buffers hold the piece that was gathered for the register at `x`.
pub open spec fn assembled_at<T: Copy, C>(
    gather: C,
    grid_data: GridDataLerp<T, 3>,
    g: PerlinGradients3D<T>,
    y0: usize,
    z0: usize,
    lanes: int,
    b: DottedTrilerpBuffers<T>,
    x: int,
) -> bool where
    C: Fn(
        &GridDataLerp<T, 3>,
        &PerlinGradients3D<T>,
        usize,
        usize,
        usize,
        usize,
    ) -> DottedTrilerpBuffers<T>,
 {
    let len = buffers::register_size(x, lanes, grid_data.grid_size[0] as int);
    exists|piece: DottedTrilerpBuffers<T>| #[trigger]
        gather.ensures((&grid_data, &g, y0, z0, x as usize, len as usize), piece) && b.holds(
            x,
            piece,
        )
}

/// What is owed for the corners `g` of the band that begins at row `y0` and slice
/// `z0`: a piece for every register of at most `lanes` columns, with a value for
/// each of them.
pub open spec fn gathers<T: Copy, C>(
    gather: C,
    grid_data: GridDataLerp<T, 3>,
    g: PerlinGradients3D<T>,
    y0: usize,
    z0: usize,
    lanes: int,
) -> bool where
    C: Fn(
        &GridDataLerp<T, 3>,
        &PerlinGradients3D<T>,
        usize,
        usize,
        usize,
        usize,
    ) -> DottedTrilerpBuffers<T>,
 {
    &&& forall|x: usize, len: usize|
        len <= lanes && x + len <= grid_data.grid_size[0] ==> #[trigger] gather.requires(
            (&grid_data, &g, y0, z0, x, len),
        )
    &&& forall|x: usize, len: usize, piece: DottedTrilerpBuffers<T>|
        len <= lanes && x + len <= grid_data.grid_size[0] && #[trigger] gather.ensures(
            (&grid_data, &g, y0, z0, x, len),
            piece,
        ) ==> piece.wide(len as int)
}

/// What the kernels owe: they gather a piece for every register of every band
/// whose corners hold a value for each column, and take every slice of a band
/// that was gathered, in registers of at most `lanes` samples.
pub open spec fn blends<T: Copy, X, C, A, B>(
    kernels: SlabKernels<C, A, B>,
    grid_data: GridDataLerp<T, 3>,
    lanes: int,
) -> bool where
    C: Fn(
        &GridDataLerp<T, 3>,
        &PerlinGradients3D<T>,
        usize,
        usize,
        usize,
        usize,
    ) -> DottedTrilerpBuffers<T>,
    A: Fn(&GridDataLerp<T, 3>, &DottedTrilerpSource<T>, usize, usize, usize) -> X,
    B: Fn(&GridDataLerp<T, 3>, &X, usize, usize) -> (Vec<T>, X),
 {
    &&& forall|g: PerlinGradients3D<T>, y0: usize, z0: usize|
        g.sized(grid_data.grid_size[0] as int) && y0 < grid_data.grid_size[1] && z0
            < grid_data.grid_size[2] ==> #[trigger] gathers(
            kernels.gather,
            grid_data,
            g,
            y0,
            z0,
            lanes,
        )
    &&& forall|source: DottedTrilerpSource<T>, z: usize|
        source.buffers.wide(grid_data.grid_size[0] as int) && source.z_start <= z
            < grid_data.grid_size[2] ==> #[trigger] blending::serves(
            kernels.rows,
            grid_data,
            source,
            z,
            lanes,
        )
}

/// Gathers what a band is blended from, register by register.
pub fn initialize_trilerp_buffers<T: Copy, C>(
    gather: &C,
    grid_data: &GridDataLerp<T, 3>,
    gradients: &PerlinGradients3D<T>,
    y0: usize,
    z0: usize,
    lanes: usize,
    buffers: &mut DottedTrilerpBuffers<T>,
) where
    C: Fn(
        &GridDataLerp<T, 3>,
        &PerlinGradients3D<T>,
        usize,
        usize,
        usize,
        usize,
    ) -> DottedTrilerpBuffers<T>,

    requires
        lanes > 0,
        old(buffers).wide(grid_data.grid_size[0] as int),
        gathers(*gather, *grid_data, *gradients, y0, z0, lanes as int),
    ensures
        final(buffers).wide(grid_data.grid_size[0] as int),
        assembled(*gather, *grid_data, *gradients, y0, z0, lanes as int, *final(buffers)),
{
    let width: usize = grid_data.grid_size[0];
    let mut x: usize = 0;
    while x < width
        invariant
            lanes > 0,
            width == grid_data.grid_size[0],
            x <= width,
            x < width ==> x % lanes == 0,
            buffers.wide(width as int),
            gathers(*gather, *grid_data, *gradients, y0, z0, lanes as int),
            forall|other: int|
                0 <= other < x && other % (lanes as int) == 0 ==> #[trigger] assembled_at(
                    *gather,
                    *grid_data,
                    *gradients,
                    y0,
                    z0,
                    lanes as int,
                    *buffers,
                    other,
                ),
        decreases width - x,
    {
        let next: usize = next_register(x, lanes, width);
        let piece = gather(grid_data, gradients, y0, z0, x, next - x);
        let ghost before = *buffers;
        buffers.put(x, &piece);
        proof {
            assert(gather.ensures(
                (grid_data, gradients, y0, z0, x, (next - x) as usize),
                piece,
            ));
            DottedTrilerpBuffers::lemma_put_holds(before, x as int, piece, *buffers);
            assert forall|other: int|
                0 <= other < next && other % (lanes as int) == 0 implies #[trigger] assembled_at(
                *gather,
                *grid_data,
                *gradients,
                y0,
                z0,
                lanes as int,
                *buffers,
                other,
            ) by {
                if other < x {
                    assert(assembled_at(
                        *gather,
                        *grid_data,
                        *gradients,
                        y0,
                        z0,
                        lanes as int,
                        before,
                        other,
                    ));
                    let len = buffers::register_size(other, lanes as int, width as int);
                    let first = choose|first: DottedTrilerpBuffers<T>| #[trigger]
                        gather.ensures(
                            (grid_data, gradients, y0, z0, other as usize, len as usize),
                            first,
                        ) && before.holds(other, first);
                    buffers::lemma_registers_apart(other, x as int, lanes as int);
                    DottedTrilerpBuffers::lemma_put_keeps(
                        before,
                        x as int,
                        piece,
                        *buffers,
                        other,
                        first,
                    );
                } else {
                    assert(other == x);
                }
            }
        }
        x = next;
    }
}

/// The values of band `k` of slab `z_it`, blended from `source`, which was
/// gathered from the gradients `g` at the corners of its cells.
pub open spec fn band_blended_from<T: Copy, X, C, A, B, L, R>(
    kernels: SlabKernels<C, A, B>,
    grid_data: GridDataLerp<T, 3>,
    table: [[T; 3]; 16],
    dots: Dots<L, R>,
    seed: u32,
    config: InterpolationConfig,
    k: int,
    z_it: int,
    g: PerlinGradients3D<T>,
    source: DottedTrilerpSource<T>,
    t: BlockTrace<T>,
) -> bool where
    C: Fn(
        &GridDataLerp<T, 3>,
        &PerlinGradients3D<T>,
        usize,
        usize,
        usize,
        usize,
    ) -> DottedTrilerpBuffers<T>,
    A: Fn(&GridDataLerp<T, 3>, &DottedTrilerpSource<T>, usize, usize, usize) -> X,
    B: Fn(&GridDataLerp<T, 3>, &X, usize, usize) -> (Vec<T>, X),
    L: Fn(T, T) -> T,
    R: Fn(T, T) -> T,
 {
    let y0 = cells::run_start(grid_data.grid_indices[1]@, k);
    let z0 = cells::run_start(grid_data.grid_indices[2]@, z_it);
    &&& corners_held(grid_data, table, dots, seed, k, z_it, g)
    &&& source.z_start == z0
    &&& assembled(
        kernels.gather,
        grid_data,
        g,
        y0 as usize,
        z0 as usize,
        config.lanes as int,
        source.buffers,
    )
    &&& blending::slab_blended(
        kernels.rows,
        grid_data,
        source,
        config,
        false,
        y0,
        z0,
        t.heads,
    )
    &&& blending::slab_blended(
        kernels.rows,
        grid_data,
        source,
        config,
        true,
        y0,
        z0,
        t.tails,
    )
}

/// The values of band `k` of slab `z_it`, blended from what was gathered from
/// the gradients at the corners of its cells.
pub open spec fn band_blended<T: Copy, X, C, A, B, L, R>(
    kernels: SlabKernels<C, A, B>,
    grid_data: GridDataLerp<T, 3>,
    table: [[T; 3]; 16],
    dots: Dots<L, R>,
    seed: u32,
    config: InterpolationConfig,
    k: int,
    z_it: int,
    t: BlockTrace<T>,
) -> bool where
    C: Fn(
        &GridDataLerp<T, 3>,
        &PerlinGradients3D<T>,
        usize,
        usize,
        usize,
        usize,
    ) -> DottedTrilerpBuffers<T>,
    A: Fn(&GridDataLerp<T, 3>, &DottedTrilerpSource<T>, usize, usize, usize) -> X,
    B: Fn(&GridDataLerp<T, 3>, &X, usize, usize) -> (Vec<T>, X),
    L: Fn(T, T) -> T,
    R: Fn(T, T) -> T,
 {
    exists|g: PerlinGradients3D<T>, source: DottedTrilerpSource<T>| #[trigger]
        band_blended_from(kernels, grid_data, table, dots, seed, config, k, z_it, g, source, t)
}

/// Blends the rows of one band of a slab and combines them into the output.
pub struct DottedTrilerpExecuter<'a, T, A, B, I, P, F> {
    pub config: &'a InterpolationConfig,
    pub grid_data: &'a GridDataLerp<T, 3>,
    pub source: &'a DottedTrilerpSource<T>,
    pub kernels: &'a Kernels<A, B>,
    pub y_start: usize,
    pub y_end: usize,
    pub z_start: usize,
    pub z_end: usize,
    pub sink: &'a Sink<'a, I, P, F>,
}

impl<'a, T: Copy, X, A, B, I, P, F> DottedTrilerpExecuter<'a, T, A, B, I, P, F> where
    A: Fn(&GridDataLerp<T, 3>, &DottedTrilerpSource<T>, usize, usize, usize) -> X,
    B: Fn(&GridDataLerp<T, 3>, &X, usize, usize) -> (Vec<T>, X),
    I: Fn(Vec<T>) -> (Vec<Vec<T>>, Vec<T>),
    P: Fn(Vec<Vec<T>>, Vec<T>, Vec<T>) -> (Vec<Vec<T>>, Vec<T>),
    F: Fn(Vec<Vec<T>>, Vec<T>) -> Vec<T>,
 {
    /// The band lies in the grid, the kernels take its slices, and the buffers
    /// have the length that the grid asks for.
    pub open spec fn wf(self, state: int, dst: int) -> bool {
        &&& self.grid_data.wf()
        &&& self.config.wf(self.grid_data.grid_size[0] as int)
        &&& self.y_start <= self.y_end <= self.grid_data.grid_size[1]
        &&& self.z_start <= self.z_end <= self.grid_data.grid_size[2]
        &&& forall|z: usize|
            self.z_start <= z < self.z_end ==> #[trigger] blending::serves(
                *self.kernels,
                *self.grid_data,
                *self.source,
                z,
                self.config.lanes as int,
            )
        &&& self.sink.layout.total_size == self.grid_data.total_size
        &&& self.sink.wf::<T>(self.config.lanes as int, state, dst)
    }

    /// What the full groups of the rows write, or their tail.
    pub open spec fn writes(self, tail: bool, slices: Seq<Seq<GroupTrace<T>>>) -> Seq<
        combine::Write<T>,
    > {
        blending::slab_writes(
            *self.config,
            self.grid_data.grid_size[0] * self.grid_data.grid_size[1],
            self.grid_data.grid_size[0] as int,
            tail,
            self.y_start as int,
            self.y_end - self.y_start,
            self.z_start as int,
            slices,
            slices.len() as int,
        )
    }

    /// Blends and combines the full groups of the rows, or their tail, slice by
    /// slice.
    pub fn interpolate(&self, tail: bool, state: &mut Vec<T>, dst: &mut Vec<T>) -> (slices: Ghost<
        Seq<Seq<GroupTrace<T>>>,
    >)
        requires
            self.wf(old(state).len() as int, old(dst).len() as int),
        ensures
            blending::slab_shaped(
                *self.config,
                tail,
                self.y_end - self.y_start,
                self.z_end - self.z_start,
                slices@,
            ),
            blending::slab_blended(
                *self.kernels,
                *self.grid_data,
                *self.source,
                *self.config,
                tail,
                self.y_start as int,
                self.z_start as int,
                slices@,
            ),
            self.sink.takes(
                self.writes(tail, slices@),
                (old(state)@, old(dst)@),
                (final(state)@, final(dst)@),
            ),
            final(state).len() == old(state).len(),
            final(dst).len() == old(dst).len(),
    {
        proof {
            slabs::lemma_solid_fits(
                self.grid_data.grid_size@,
                self.y_end as int,
                self.z_end as int,
            );
        }
        let z_hop: usize = self.grid_data.grid_size[0] * self.grid_data.grid_size[1];
        interpolate_slab(
            self.kernels,
            self.grid_data,
            self.source,
            self.config,
            tail,
            z_hop,
            self.y_start,
            self.y_end,
            self.z_start,
            self.z_end,
            self.sink,
            state,
            dst,
        )
    }
}

/// Blends one band of a slab and combines it into the output: first the full
/// groups of its rows, then their tail. `source` is gathered anew.
pub fn grid_dotted_trilerp<T: Copy, X, C, A, B, I, P, F>(
    source: &mut DottedTrilerpSource<T>,
    config: &InterpolationConfig,
    grid_data: &GridDataLerp<T, 3>,
    gradients: &PerlinGradients3D<T>,
    kernels: &SlabKernels<C, A, B>,
    y_start: usize,
    y_end: usize,
    z_start: usize,
    z_end: usize,
    sink: &Sink<I, P, F>,
    state: &mut Vec<T>,
    dst: &mut Vec<T>,
) -> (block: Ghost<BlockTrace<T>>) where
    C: Fn(
        &GridDataLerp<T, 3>,
        &PerlinGradients3D<T>,
        usize,
        usize,
        usize,
        usize,
    ) -> DottedTrilerpBuffers<T>,
    A: Fn(&GridDataLerp<T, 3>, &DottedTrilerpSource<T>, usize, usize, usize) -> X,
    B: Fn(&GridDataLerp<T, 3>, &X, usize, usize) -> (Vec<T>, X),
    I: Fn(Vec<T>) -> (Vec<Vec<T>>, Vec<T>),
    P: Fn(Vec<Vec<T>>, Vec<T>, Vec<T>) -> (Vec<Vec<T>>, Vec<T>),
    F: Fn(Vec<Vec<T>>, Vec<T>) -> Vec<T>,

    requires
        grid_data.wf(),
        config.wf(grid_data.grid_size[0] as int),
        gradients.sized(grid_data.grid_size[0] as int),
        old(source).buffers.wide(grid_data.grid_size[0] as int),
        y_start < y_end <= grid_data.grid_size[1],
        z_start < z_end <= grid_data.grid_size[2],
        blends(*kernels, *grid_data, config.lanes as int),
        sink.layout.total_size == grid_data.total_size,
        sink.wf::<T>(config.lanes as int, old(state).len() as int, old(dst).len() as int),
    ensures
        final(source).buffers.wide(grid_data.grid_size[0] as int),
        final(source).z_start == z_start,
        assembled(
            kernels.gather,
            *grid_data,
            *gradients,
            y_start,
            z_start,
            config.lanes as int,
            final(source).buffers,
        ),
        blending::block_shaped(*config, y_end - y_start, z_end - z_start, block@),
        blending::slab_blended(
            kernels.rows,
            *grid_data,
            *final(source),
            *config,
            false,
            y_start as int,
            z_start as int,
            block@.heads,
        ),
        blending::slab_blended(
            kernels.rows,
            *grid_data,
            *final(source),
            *config,
            true,
            y_start as int,
            z_start as int,
            block@.tails,
        ),
        sink.takes(
            blending::block_writes(
                *config,
                grid_data.grid_size[0] * grid_data.grid_size[1],
                grid_data.grid_size[0] as int,
                y_start as int,
                y_end - y_start,
                z_start as int,
                block@,
            ),
            (old(state)@, old(dst)@),
            (final(state)@, final(dst)@),
        ),
        final(state).len() == old(state).len(),
        final(dst).len() == old(dst).len(),
{
    let ghost width = grid_data.grid_size[0] as int;
    let ghost plane = grid_data.grid_size[0] * grid_data.grid_size[1];
    let ghost depth = (z_end - z_start) as nat;
    initialize_trilerp_buffers(
        &kernels.gather,
        grid_data,
        gradients,
        y_start,
        z_start,
        config.lanes,
        &mut source.buffers,
    );
    source.z_start = z_start;
    let executer = DottedTrilerpExecuter {
        config,
        grid_data,
        source: &*source,
        kernels: &kernels.rows,
        y_start,
        y_end,
        z_start,
        z_end,
        sink,
    };
    let ghost mut heads: Seq<Seq<GroupTrace<T>>> = Seq::new(depth, |k: int| Seq::empty());
    let ghost mut tails: Seq<Seq<GroupTrace<T>>> = Seq::new(depth, |k: int| Seq::empty());
    proof {
        interpolation::lemma_empty_strips(*config, width);
        blending::lemma_empty_slabs(
            *config,
            plane,
            width,
            false,
            y_start as int,
            y_end - y_start,
            z_start as int,
            heads,
            depth as int,
        );
        blending::lemma_empty_slabs(
            *config,
            plane,
            width,
            true,
            y_start as int,
            y_end - y_start,
            z_start as int,
            tails,
            depth as int,
        );
    }
    if config.has_block_head {
        let Ghost(slices) = executer.interpolate(false, state, dst);
        proof {
            heads = slices;
        }
    }
    let ghost mid = (state@, dst@);
    if config.has_block_tail {
        let Ghost(slices) = executer.interpolate(true, state, dst);
        proof {
            tails = slices;
        }
    }
    proof {
        combine::lemma_applied_concat(
            *sink.combiner,
            sink.pass,
            sink.layout,
            executer.writes(false, heads),
            executer.writes(true, tails),
            (old(state)@, old(dst)@),
            mid,
            (state@, dst@),
        );
    }
    Ghost(BlockTrace { heads, tails })
}

/// The bands of one slab, each blended from the gradients at the corners of
/// its cells.
pub open spec fn slab_blended<T: Copy, X, C, A, B, L, R>(
    kernels: SlabKernels<C, A, B>,
    grid_data: GridDataLerp<T, 3>,
    table: [[T; 3]; 16],
    dots: Dots<L, R>,
    seed: u32,
    config: InterpolationConfig,
    z_it: int,
    blocks: Seq<BlockTrace<T>>,
) -> bool where
    C: Fn(
        &GridDataLerp<T, 3>,
        &PerlinGradients3D<T>,
        usize,
        usize,
        usize,
        usize,
    ) -> DottedTrilerpBuffers<T>,
    A: Fn(&GridDataLerp<T, 3>, &DottedTrilerpSource<T>, usize, usize, usize) -> X,
    B: Fn(&GridDataLerp<T, 3>, &X, usize, usize) -> (Vec<T>, X),
    L: Fn(T, T) -> T,
    R: Fn(T, T) -> T,
 {
    &&& slabs::slab_shaped(
        config,
        grid_data.grid_indices[1]@,
        grid_data.grid_indices[2]@[z_it] - cells::run_start(grid_data.grid_indices[2]@, z_it),
        blocks,
    )
    &&& forall|k: int|
        0 <= k < blocks.len() ==> band_blended(
            kernels,
            grid_data,
            table,
            dots,
            seed,
            config,
            k,
            z_it,
            #[trigger] blocks[k],
        )
}

/// All slabs of a solid were blended.
pub open spec fn solid_blended<T: Copy, X, C, A, B, L, R>(
    kernels: SlabKernels<C, A, B>,
    grid_data: GridDataLerp<T, 3>,
    table: [[T; 3]; 16],
    dots: Dots<L, R>,
    seed: u32,
    config: InterpolationConfig,
    slabs: Seq<Seq<BlockTrace<T>>>,
) -> bool where
    C: Fn(
        &GridDataLerp<T, 3>,
        &PerlinGradients3D<T>,
        usize,
        usize,
        usize,
        usize,
    ) -> DottedTrilerpBuffers<T>,
    A: Fn(&GridDataLerp<T, 3>, &DottedTrilerpSource<T>, usize, usize, usize) -> X,
    B: Fn(&GridDataLerp<T, 3>, &X, usize, usize) -> (Vec<T>, X),
    L: Fn(T, T) -> T,
    R: Fn(T, T) -> T,
 {
    &&& slabs.len() == grid_data.num_loops[2]
    &&& forall|z_it: int|
        0 <= z_it < slabs.len() ==> slab_blended(
            kernels,
            grid_data,
            table,
            dots,
            seed,
            config,
            z_it,
            #[trigger] slabs[z_it],
        )
}

/// What the slabs of a whole solid write.
pub open spec fn grid_writes<T>(
    grid_data: GridDataLerp<T, 3>,
    config: InterpolationConfig,
    slabs: Seq<Seq<BlockTrace<T>>>,
) -> Seq<combine::Write<T>> {
    slabs::solid_writes(
        config,
        grid_data.grid_size[0] * grid_data.grid_size[1],
        grid_data.grid_size[0] as int,
        grid_data.grid_indices[1]@,
        grid_data.grid_indices[2]@,
        slabs,
        grid_data.num_loops[2] as int,
    )
}

/// Fills one slab, band after band. Each lattice row is hashed once: the bottom
/// of a band is the top of the next.
fn sample_slab<T: Copy, X, C, A, B, L, R, I, P, F>(
    seed: u32,
    grid_data: &GridDataLerp<T, 3>,
    table: &[[T; 3]; 16],
    dots: &Dots<L, R>,
    config: &InterpolationConfig,
    kernels: &SlabKernels<C, A, B>,
    gradients: &mut PerlinGradients3D<T>,
    source: &mut DottedTrilerpSource<T>,
    z_it: usize,
    z_start: usize,
    z_end: usize,
    sink: &Sink<I, P, F>,
    state: &mut Vec<T>,
    dst: &mut Vec<T>,
) -> (blocks: Ghost<Seq<BlockTrace<T>>>) where
    C: Fn(
        &GridDataLerp<T, 3>,
        &PerlinGradients3D<T>,
        usize,
        usize,
        usize,
        usize,
    ) -> DottedTrilerpBuffers<T>,
    A: Fn(&GridDataLerp<T, 3>, &DottedTrilerpSource<T>, usize, usize, usize) -> X,
    B: Fn(&GridDataLerp<T, 3>, &X, usize, usize) -> (Vec<T>, X),
    L: Fn(T, T) -> T,
    R: Fn(T, T) -> T,
    I: Fn(Vec<T>) -> (Vec<Vec<T>>, Vec<T>),
    P: Fn(Vec<Vec<T>>, Vec<T>, Vec<T>) -> (Vec<Vec<T>>, Vec<T>),
    F: Fn(Vec<Vec<T>>, Vec<T>) -> Vec<T>,

    requires
        grid_data.wf(),
        slabs::hashable(*grid_data, grid_data.num_loops[1] as int, z_it as int),
        z_it < grid_data.num_loops[2],
        z_start == cells::run_start(grid_data.grid_indices[2]@, z_it as int),
        z_end == grid_data.grid_indices[2]@[z_it as int],
        config.wf(grid_data.grid_size[0] as int),
        dots.total(),
        blends(*kernels, *grid_data, config.lanes as int),
        old(gradients).sized(grid_data.grid_size[0] as int),
        old(source).buffers.wide(grid_data.grid_size[0] as int),
        sink.layout.total_size == grid_data.total_size,
        sink.wf::<T>(config.lanes as int, old(state).len() as int, old(dst).len() as int),
    ensures
        final(gradients).sized(grid_data.grid_size[0] as int),
        final(source).buffers.wide(grid_data.grid_size[0] as int),
        slab_blended(*kernels, *grid_data, *table, *dots, seed, *config, z_it as int, blocks@),
        sink.takes(
            slabs::slab_writes(
                *config,
                grid_data.grid_size[0] * grid_data.grid_size[1],
                grid_data.grid_size[0] as int,
                grid_data.grid_indices[1]@,
                z_start as int,
                blocks@,
                grid_data.num_loops[1] as int,
            ),
            (old(state)@, old(dst)@),
            (final(state)@, final(dst)@),
        ),
        final(state).len() == old(state).len(),
        final(dst).len() == old(dst).len(),
{
    let ghost before = (state@, dst@);
    let ghost width = grid_data.grid_size[0] as int;
    let ghost plane = grid_data.grid_size[0] * grid_data.grid_size[1];
    let ghost ends = grid_data.grid_indices[1]@;
    let ghost mut made: Seq<BlockTrace<T>> = seq![];
    assert(ends.len() == grid_data.num_loops[1]);
    proof {
        assert(grid_data.grid_indices[2]@.len() == grid_data.num_loops[2]);
        bands::lemma_band_inside(
            grid_data.grid_indices[2]@,
            grid_data.grid_size[2] as int,
            z_it as int,
        );
    }
    grid_gradients_3d(seed, grid_data, table, dots, gradients, 0, z_it);
    gradients.swap_top_bottom();
    let mut y_start: usize = 0;
    let mut y_it: usize = 0;
    while y_it < grid_data.num_loops[1]
        invariant
            grid_data.wf(),
            ends == grid_data.grid_indices[1]@,
            ends.len() == grid_data.num_loops[1],
            slabs::hashable(*grid_data, grid_data.num_loops[1] as int, z_it as int),
            width == grid_data.grid_size[0],
            plane == grid_data.grid_size[0] * grid_data.grid_size[1],
            z_start < z_end <= grid_data.grid_size[2],
            z_start == cells::run_start(grid_data.grid_indices[2]@, z_it as int),
            z_end == grid_data.grid_indices[2]@[z_it as int],
            config.wf(width),
            dots.total(),
            blends(*kernels, *grid_data, config.lanes as int),
            sink.layout.total_size == grid_data.total_size,
            state.len() == before.0.len(),
            dst.len() == before.1.len(),
            sink.wf::<T>(config.lanes as int, before.0.len() as int, before.1.len() as int),
            y_it <= grid_data.num_loops[1],
            gradients.sized(width),
            source.buffers.wide(width),
            top_held(*grid_data, *table, *dots, seed, y_it as int, z_it as int, *gradients),
            y_it < ends.len() ==> y_start == cells::run_start(ends, y_it as int),
            made.len() == y_it,
            forall|k: int|
                0 <= k < made.len() ==> blending::block_shaped(
                    *config,
                    ends[k] - cells::run_start(ends, k),
                    z_end - z_start,
                    #[trigger] made[k],
                ),
            forall|k: int|
                0 <= k < made.len() ==> band_blended(
                    *kernels,
                    *grid_data,
                    *table,
                    *dots,
                    seed,
                    *config,
                    k,
                    z_it as int,
                    #[trigger] made[k],
                ),
            sink.takes(
                slabs::slab_writes(
                    *config,
                    plane,
                    width,
                    ends,
                    z_start as int,
                    made,
                    y_it as int,
                ),
                before,
                (state@, dst@),
            ),
        decreases grid_data.num_loops[1] - y_it,
    {
        proof {
            bands::lemma_band_inside(ends, grid_data.grid_size[1] as int, y_it as int);
        }
        let y_end: usize = grid_data.grid_indices[1][y_it] as usize;
        grid_gradients_3d(seed, grid_data, table, dots, gradients, y_it + 1, z_it);
        let ghost mid = (state@, dst@);
        assert(corners_held(*grid_data, *table, *dots, seed, y_it as int, z_it as int, *gradients));
        let Ghost(block) = grid_dotted_trilerp(
            source,
            config,
            grid_data,
            &*gradients,
            kernels,
            y_start,
            y_end,
            z_start,
            z_end,
            sink,
            state,
            dst,
        );
        proof {
            assert(assembled(
                kernels.gather,
                *grid_data,
                *gradients,
                y_start,
                z_start,
                config.lanes as int,
                source.buffers,
            ));
            let y0 = cells::run_start(grid_data.grid_indices[1]@, y_it as int);
            let z0 = cells::run_start(grid_data.grid_indices[2]@, z_it as int);
            assert(y0 as usize == y_start);
            assert(z0 as usize == z_start);
            assert(source.z_start == z0);
            assert(band_blended_from(
                *kernels,
                *grid_data,
                *table,
                *dots,
                seed,
                *config,
                y_it as int,
                z_it as int,
                *gradients,
                *source,
                block,
            ));
            assert(band_blended(
                *kernels,
                *grid_data,
                *table,
                *dots,
                seed,
                *config,
                y_it as int,
                z_it as int,
                block,
            ));
            let longer = made.push(block);
            slabs::lemma_slab_writes_prefix(
                *config,
                plane,
                width,
                ends,
                z_start as int,
                made,
                longer,
                y_it as int,
            );
            combine::lemma_applied_concat(
                *sink.combiner,
                sink.pass,
                sink.layout,
                slabs::slab_writes(
                    *config,
                    plane,
                    width,
                    ends,
                    z_start as int,
                    longer,
                    y_it as int,
                ),
                blending::block_writes(
                    *config,
                    plane,
                    width,
                    y_start as int,
                    y_end - y_start,
                    z_start as int,
                    block,
                ),
                before,
                mid,
                (state@, dst@),
            );
            made = longer;
        }
        gradients.swap_top_bottom();
        y_start = y_end;
        y_it = y_it + 1;
    }
    Ghost(made)
}

/// Fills a solid with one octave of Perlin noise, slab after slab.
pub fn sample_grid<T: Copy, X, C, A, B, L, R, I, P, F>(
    seed: u32,
    grid_data: &GridDataLerp<T, 3>,
    table: &[[T; 3]; 16],
    dots: &Dots<L, R>,
    config: &InterpolationConfig,
    kernels: &SlabKernels<C, A, B>,
    zero: T,
    sink: &Sink<I, P, F>,
    state: &mut Vec<T>,
    dst: &mut Vec<T>,
) where
    C: Fn(
        &GridDataLerp<T, 3>,
        &PerlinGradients3D<T>,
        usize,
        usize,
        usize,
        usize,
    ) -> DottedTrilerpBuffers<T>,
    A: Fn(&GridDataLerp<T, 3>, &DottedTrilerpSource<T>, usize, usize, usize) -> X,
    B: Fn(&GridDataLerp<T, 3>, &X, usize, usize) -> (Vec<T>, X),
    L: Fn(T, T) -> T,
    R: Fn(T, T) -> T,
    I: Fn(Vec<T>) -> (Vec<Vec<T>>, Vec<T>),
    P: Fn(Vec<Vec<T>>, Vec<T>, Vec<T>) -> (Vec<Vec<T>>, Vec<T>),
    F: Fn(Vec<Vec<T>>, Vec<T>) -> Vec<T>,

    requires
        grid_data.wf(),
        slabs::hashable(
            *grid_data,
            grid_data.num_loops[1] as int,
            grid_data.num_loops[2] - 1,
        ),
        config.wf(grid_data.grid_size[0] as int),
        dots.total(),
        blends(*kernels, *grid_data, config.lanes as int),
        sink.layout.total_size == grid_data.total_size,
        sink.wf::<T>(config.lanes as int, old(state).len() as int, old(dst).len() as int),
    ensures
        exists|blocks: Seq<Seq<BlockTrace<T>>>|
            {
                &&& solid_blended(*kernels, *grid_data, *table, *dots, seed, *config, blocks)
                &&& sink.takes(
                    #[trigger] grid_writes(*grid_data, *config, blocks),
                    (old(state)@, old(dst)@),
                    (final(state)@, final(dst)@),
                )
            },
        final(state).len() == old(state).len(),
        final(dst).len() == old(dst).len(),
{
    let ghost before = (state@, dst@);
    let ghost width = grid_data.grid_size[0] as int;
    let ghost plane = grid_data.grid_size[0] * grid_data.grid_size[1];
    let ghost y_ends = grid_data.grid_indices[1]@;
    let ghost z_ends = grid_data.grid_indices[2]@;
    let ghost mut made: Seq<Seq<BlockTrace<T>>> = seq![];
    assert(y_ends.len() == grid_data.num_loops[1]);
    assert(z_ends.len() == grid_data.num_loops[2]);
    let mut gradients = PerlinGradients3D::new(zero, grid_data.grid_size[0]);
    let mut source = DottedTrilerpSource {
        buffers: DottedTrilerpBuffers::new(zero, grid_data.grid_size[0]),
        z_start: 0,
    };
    let mut z_start: usize = 0;
    let mut z_it: usize = 0;
    while z_it < grid_data.num_loops[2]
        invariant
            grid_data.wf(),
            y_ends == grid_data.grid_indices[1]@,
            y_ends.len() == grid_data.num_loops[1],
            z_ends == grid_data.grid_indices[2]@,
            z_ends.len() == grid_data.num_loops[2],
            slabs::hashable(
                *grid_data,
                grid_data.num_loops[1] as int,
                grid_data.num_loops[2] - 1,
            ),
            width == grid_data.grid_size[0],
            plane == grid_data.grid_size[0] * grid_data.grid_size[1],
            config.wf(width),
            dots.total(),
            blends(*kernels, *grid_data, config.lanes as int),
            sink.layout.total_size == grid_data.total_size,
            state.len() == before.0.len(),
            dst.len() == before.1.len(),
            sink.wf::<T>(config.lanes as int, before.0.len() as int, before.1.len() as int),
            z_it <= grid_data.num_loops[2],
            gradients.sized(width),
            source.buffers.wide(width),
            z_it < z_ends.len() ==> z_start == cells::run_start(z_ends, z_it as int),
            made.len() == z_it,
            forall|k: int|
                0 <= k < made.len() ==> slab_blended(
                    *kernels,
                    *grid_data,
                    *table,
                    *dots,
                    seed,
                    *config,
                    k,
                    #[trigger] made[k],
                ),
            sink.takes(
                slabs::solid_writes(*config, plane, width, y_ends, z_ends, made, z_it as int),
                before,
                (state@, dst@),
            ),
        decreases grid_data.num_loops[2] - z_it,
    {
        proof {
            bands::lemma_band_inside(z_ends, grid_data.grid_size[2] as int, z_it as int);
        }
        let z_end: usize = grid_data.grid_indices[2][z_it] as usize;
        let ghost mid = (state@, dst@);
        let Ghost(blocks) = sample_slab(
            seed,
            grid_data,
            table,
            dots,
            config,
            kernels,
            &mut gradients,
            &mut source,
            z_it,
            z_start,
            z_end,
            sink,
            state,
            dst,
        );
        proof {
            let longer = made.push(blocks);
            slabs::lemma_solid_writes_prefix(
                *config,
                plane,
                width,
                y_ends,
                z_ends,
                made,
                longer,
                z_it as int,
            );
            combine::lemma_applied_concat(
                *sink.combiner,
                sink.pass,
                sink.layout,
                slabs::solid_writes(*config, plane, width, y_ends, z_ends, longer, z_it as int),
                slabs::slab_writes(
                    *config,
                    plane,
                    width,
                    y_ends,
                    z_start as int,
                    blocks,
                    y_ends.len() as int,
                ),
                before,
                mid,
                (state@, dst@),
            );
            made = longer;
        }
        z_start = z_end;
        z_it = z_it + 1;
    }
    assert(sink.takes(grid_writes(*grid_data, *config, made), before, (state@, dst@)));
}

/// What tells the corners of bands apart: the gradients there, column by column.
pub open spec fn corners_alike<T>(width: int) -> spec_fn(
    PerlinGradients3D<T>,
    PerlinGradients3D<T>,
) -> bool {
    |g: PerlinGradients3D<T>, h: PerlinGradients3D<T>|
        buffers::all_same_on(g.tlf, h.tlf, width)
            && buffers::all_same_on(g.trf, h.trf, width)
            && buffers::all_same_on(g.blf, h.blf, width)
            && buffers::all_same_on(g.brf, h.brf, width)
            && buffers::all_same_on(g.tlb, h.tlb, width)
            && buffers::all_same_on(g.trb, h.trb, width)
            && buffers::all_same_on(g.blb, h.blb, width)
            && buffers::all_same_on(g.brb, h.brb, width)
}

impl<T: Copy> DottedTrilerpBuffers<T> {
    /// Two pieces hold the same.
    pub open spec fn same(self, other: Self) -> bool {
        &&& self.y_tf_offset@ == other.y_tf_offset@
        &&& self.y_bf_offset@ == other.y_bf_offset@
        &&& self.y_top_offset_dif@ == other.y_top_offset_dif@
        &&& self.y_bottom_offset_dif@ == other.y_bottom_offset_dif@
        &&& self.z_tf_offset@ == other.z_tf_offset@
        &&& self.z_bf_offset@ == other.z_bf_offset@
        &&& self.z_top_offset_dif@ == other.z_top_offset_dif@
        &&& self.z_bottom_offset_dif@ == other.z_bottom_offset_dif@
        &&& self.tf_base@ == other.tf_base@
        &&& self.bf_base@ == other.bf_base@
        &&& self.top_base_dif@ == other.top_base_dif@
        &&& self.bottom_base_dif@ == other.bottom_base_dif@
    }

    /// Two groups of buffers hold the same in column `s`.
    pub open spec fn same_at(self, other: Self, s: int) -> bool {
        &&& self.y_tf_offset@[s] == other.y_tf_offset@[s]
        &&& self.y_bf_offset@[s] == other.y_bf_offset@[s]
        &&& self.y_top_offset_dif@[s] == other.y_top_offset_dif@[s]
        &&& self.y_bottom_offset_dif@[s] == other.y_bottom_offset_dif@[s]
        &&& self.z_tf_offset@[s] == other.z_tf_offset@[s]
        &&& self.z_bf_offset@[s] == other.z_bf_offset@[s]
        &&& self.z_top_offset_dif@[s] == other.z_top_offset_dif@[s]
        &&& self.z_bottom_offset_dif@[s] == other.z_bottom_offset_dif@[s]
        &&& self.tf_base@[s] == other.tf_base@[s]
        &&& self.bf_base@[s] == other.bf_base@[s]
        &&& self.top_base_dif@[s] == other.top_base_dif@[s]
        &&& self.bottom_base_dif@[s] == other.bottom_base_dif@[s]
    }
}

/// What tells bands apart: what was gathered for them, column by column, and the
/// slice at which it was gathered.
pub open spec fn alike<T: Copy>(width: int) -> spec_fn(
    DottedTrilerpSource<T>,
    DottedTrilerpSource<T>,
) -> bool {
    |a: DottedTrilerpSource<T>, b: DottedTrilerpSource<T>|
        a.z_start == b.z_start && (forall|s: int|
            0 <= s < width ==> #[trigger] a.buffers.same_at(b.buffers, s))
}

/// Pieces are gathered for all columns that are asked for, and corners that are
/// alike give the same pieces.
pub open spec fn gathers_alike<T: Copy, C>(gather: C, grid_data: GridDataLerp<T, 3>) -> bool where
    C: Fn(
        &GridDataLerp<T, 3>,
        &PerlinGradients3D<T>,
        usize,
        usize,
        usize,
        usize,
    ) -> DottedTrilerpBuffers<T>,
 {
    forall|
        g: PerlinGradients3D<T>,
        h: PerlinGradients3D<T>,
        y0: usize,
        z0: usize,
        x: usize,
        len: usize,
        p: DottedTrilerpBuffers<T>,
        q: DottedTrilerpBuffers<T>,
    |
        corners_alike::<T>(grid_data.grid_size[0] as int)(g, h) && #[trigger] gather.ensures(
            (&grid_data, &g, y0, z0, x, len),
            p,
        ) && #[trigger] gather.ensures((&grid_data, &h, y0, z0, x, len), q) ==> p.same(q) && p.wide(
            len as int,
        )
}

/// The gradients of a row of a layer are the same each time that they are set.
proof fn lemma_row_alike<T: Copy, L, R>(
    grid_data: GridDataLerp<T, 3>,
    table: [[T; 3]; 16],
    dots: Dots<L, R>,
    seed: u32,
    y_it: int,
    z_it: int,
    a: [Vec<T>; 3],
    b: [Vec<T>; 3],
) where L: Fn(T, T) -> T, R: Fn(T, T) -> T
    requires
        dots.determined(),
        cells::cuts(grid_data.grid_indices[0]@, grid_data.grid_size[0] as int),
        (left_held(grid_data, table, dots, seed, y_it, z_it, a) && left_held(
            grid_data,
            table,
            dots,
            seed,
            y_it,
            z_it,
            b,
        )) || (right_held(grid_data, table, dots, seed, y_it, z_it, a) && right_held(
            grid_data,
            table,
            dots,
            seed,
            y_it,
            z_it,
            b,
        )),
    ensures
        buffers::all_same_on(a, b, grid_data.grid_size[0] as int),
{
    let ends = grid_data.grid_indices[0]@;
    let width = grid_data.grid_size[0] as int;
    assert forall|c: int| 0 <= c < 3 implies buffers::same_on(
        (#[trigger] a[c])@,
        b[c]@,
        width,
    ) by {
        assert forall|s: int| 0 <= s < width implies #[trigger] a[c]@[s] == b[c]@[s] by {
            cells::law_every_sample_in_one_run(ends, width, s);
            let run = choose|run: int| cells::in_run(ends, run, s);
            assert(cells::in_run(ends, run, s));
        }
    }
}

/// The corners of a band are the same each time that they are set.
proof fn lemma_corners_alike<T: Copy, L, R>(
    grid_data: GridDataLerp<T, 3>,
    table: [[T; 3]; 16],
    dots: Dots<L, R>,
    seed: u32,
    k: int,
    z_it: int,
    g: PerlinGradients3D<T>,
    h: PerlinGradients3D<T>,
) where L: Fn(T, T) -> T, R: Fn(T, T) -> T
    requires
        dots.determined(),
        cells::cuts(grid_data.grid_indices[0]@, grid_data.grid_size[0] as int),
        corners_held(grid_data, table, dots, seed, k, z_it, g),
        corners_held(grid_data, table, dots, seed, k, z_it, h),
    ensures
        corners_alike::<T>(grid_data.grid_size[0] as int)(g, h),
{
    lemma_row_alike(grid_data, table, dots, seed, k, z_it, g.tlf, h.tlf);
    lemma_row_alike(grid_data, table, dots, seed, k, z_it, g.trf, h.trf);
    lemma_row_alike(grid_data, table, dots, seed, k + 1, z_it, g.blf, h.blf);
    lemma_row_alike(grid_data, table, dots, seed, k + 1, z_it, g.brf, h.brf);
    lemma_row_alike(grid_data, table, dots, seed, k, z_it + 1, g.tlb, h.tlb);
    lemma_row_alike(grid_data, table, dots, seed, k, z_it + 1, g.trb, h.trb);
    lemma_row_alike(grid_data, table, dots, seed, k + 1, z_it + 1, g.blb, h.blb);
    lemma_row_alike(grid_data, table, dots, seed, k + 1, z_it + 1, g.brb, h.brb);
}

/// What is gathered from corners that are alike is alike.
proof fn lemma_assembled_alike<T: Copy, C>(
    gather: C,
    grid_data: GridDataLerp<T, 3>,
    g: PerlinGradients3D<T>,
    h: PerlinGradients3D<T>,
    y0: usize,
    z0: usize,
    lanes: int,
    a: DottedTrilerpBuffers<T>,
    b: DottedTrilerpBuffers<T>,
    s: int,
) where
    C: Fn(
        &GridDataLerp<T, 3>,
        &PerlinGradients3D<T>,
        usize,
        usize,
        usize,
        usize,
    ) -> DottedTrilerpBuffers<T>,

    requires
        lanes > 0,
        gathers_alike(gather, grid_data),
        corners_alike::<T>(grid_data.grid_size[0] as int)(g, h),
        assembled(gather, grid_data, g, y0, z0, lanes, a),
        assembled(gather, grid_data, h, y0, z0, lanes, b),
        0 <= s < grid_data.grid_size[0],
    ensures
        a.same_at(b, s),
{
    let width = grid_data.grid_size[0] as int;
    let x = buffers::lemma_register_of(s, lanes, width);
    let len = buffers::register_size(x, lanes, width);
    assert(assembled_at(gather, grid_data, g, y0, z0, lanes, a, x));
    assert(assembled_at(gather, grid_data, h, y0, z0, lanes, b, x));
    let p = choose|piece: DottedTrilerpBuffers<T>| #[trigger]
        gather.ensures((&grid_data, &g, y0, z0, x as usize, len as usize), piece) && a.holds(
            x,
            piece,
        );
    let q = choose|piece: DottedTrilerpBuffers<T>| #[trigger]
        gather.ensures((&grid_data, &h, y0, z0, x as usize, len as usize), piece) && b.holds(
            x,
            piece,
        );
    assert(p.same(q) && p.wide(len));
    buffers::lemma_held_alike(a.y_tf_offset@, b.y_tf_offset@, x, p.y_tf_offset@, s);
    buffers::lemma_held_alike(a.y_bf_offset@, b.y_bf_offset@, x, p.y_bf_offset@, s);
    buffers::lemma_held_alike(a.y_top_offset_dif@, b.y_top_offset_dif@, x, p.y_top_offset_dif@, s);
    buffers::lemma_held_alike(
        a.y_bottom_offset_dif@,
        b.y_bottom_offset_dif@,
        x,
        p.y_bottom_offset_dif@,
        s,
    );
    buffers::lemma_held_alike(a.z_tf_offset@, b.z_tf_offset@, x, p.z_tf_offset@, s);
    buffers::lemma_held_alike(a.z_bf_offset@, b.z_bf_offset@, x, p.z_bf_offset@, s);
    buffers::lemma_held_alike(a.z_top_offset_dif@, b.z_top_offset_dif@, x, p.z_top_offset_dif@, s);
    buffers::lemma_held_alike(
        a.z_bottom_offset_dif@,
        b.z_bottom_offset_dif@,
        x,
        p.z_bottom_offset_dif@,
        s,
    );
    buffers::lemma_held_alike(a.tf_base@, b.tf_base@, x, p.tf_base@, s);
    buffers::lemma_held_alike(a.bf_base@, b.bf_base@, x, p.bf_base@, s);
    buffers::lemma_held_alike(a.top_base_dif@, b.top_base_dif@, x, p.top_base_dif@, s);
    buffers::lemma_held_alike(a.bottom_base_dif@, b.bottom_base_dif@, x, p.bottom_base_dif@, s);
}

/// Determined kernels give the same values for every band of a solid.
proof fn lemma_runs_agree<T: Copy, X, C, A, B, L, R>(
    kernels: SlabKernels<C, A, B>,
    grid_data: GridDataLerp<T, 3>,
    table: [[T; 3]; 16],
    dots: Dots<L, R>,
    same: spec_fn(X, X) -> bool,
    seed: u32,
    config: InterpolationConfig,
    slabs: Seq<Seq<BlockTrace<T>>>,
    others: Seq<Seq<BlockTrace<T>>>,
) where
    C: Fn(
        &GridDataLerp<T, 3>,
        &PerlinGradients3D<T>,
        usize,
        usize,
        usize,
        usize,
    ) -> DottedTrilerpBuffers<T>,
    A: Fn(&GridDataLerp<T, 3>, &DottedTrilerpSource<T>, usize, usize, usize) -> X,
    B: Fn(&GridDataLerp<T, 3>, &X, usize, usize) -> (Vec<T>, X),
    L: Fn(T, T) -> T,
    R: Fn(T, T) -> T,

    requires
        grid_data.wf(),
        config.lanes > 0,
        dots.determined(),
        gathers_alike(kernels.gather, grid_data),
        kernels.rows.determined(grid_data, alike::<T>(grid_data.grid_size[0] as int), same),
        solid_blended(kernels, grid_data, table, dots, seed, config, slabs),
        solid_blended(kernels, grid_data, table, dots, seed, config, others),
    ensures
        grid_writes(grid_data, config, slabs) == grid_writes(grid_data, config, others),
{
    let width = grid_data.grid_size[0] as int;
    let plane = grid_data.grid_size[0] * grid_data.grid_size[1];
    let y_ends = grid_data.grid_indices[1]@;
    let z_ends = grid_data.grid_indices[2]@;
    let like = alike::<T>(grid_data.grid_size[0] as int);
    assert(grid_data.grid_indices[0]@.len() == grid_data.num_loops[0]);
    assert(y_ends.len() == grid_data.num_loops[1]);
    assert(z_ends.len() == grid_data.num_loops[2]);
    assert forall|z: int| 0 <= z < z_ends.len() implies slabs::blocks_agree(
        config,
        plane,
        width,
        y_ends,
        cells::run_start(z_ends, z),
        #[trigger] slabs[z],
        others[z],
        y_ends.len() as int,
    ) by {
        bands::lemma_band_inside(z_ends, grid_data.grid_size[2] as int, z);
        let a = slabs[z];
        let b = others[z];
        assert(slab_blended(kernels, grid_data, table, dots, seed, config, z, a));
        assert(slab_blended(kernels, grid_data, table, dots, seed, config, z, b));
        let z0 = cells::run_start(z_ends, z);
        assert forall|k: int| 0 <= k < y_ends.len() implies ({
            let y0 = cells::run_start(y_ends, k);
            let height = y_ends[k] - y0;
            blending::block_writes(config, plane, width, y0, height, z0, #[trigger] a[k])
                == blending::block_writes(config, plane, width, y0, height, z0, b[k])
        }) by {
            bands::lemma_band_inside(y_ends, grid_data.grid_size[1] as int, k);
            lemma_band_agrees(
                kernels,
                grid_data,
                table,
                dots,
                same,
                seed,
                config,
                k,
                z,
                a[k],
                b[k],
            );
        }
    }
    slabs::lemma_solid_agrees(
        config,
        plane,
        width,
        y_ends,
        z_ends,
        slabs,
        others,
        z_ends.len() as int,
    );
}

/// Determined kernels give the same values for a band of a slab.
proof fn lemma_band_agrees<T: Copy, X, C, A, B, L, R>(
    kernels: SlabKernels<C, A, B>,
    grid_data: GridDataLerp<T, 3>,
    table: [[T; 3]; 16],
    dots: Dots<L, R>,
    same: spec_fn(X, X) -> bool,
    seed: u32,
    config: InterpolationConfig,
    k: int,
    z_it: int,
    t: BlockTrace<T>,
    u: BlockTrace<T>,
) where
    C: Fn(
        &GridDataLerp<T, 3>,
        &PerlinGradients3D<T>,
        usize,
        usize,
        usize,
        usize,
    ) -> DottedTrilerpBuffers<T>,
    A: Fn(&GridDataLerp<T, 3>, &DottedTrilerpSource<T>, usize, usize, usize) -> X,
    B: Fn(&GridDataLerp<T, 3>, &X, usize, usize) -> (Vec<T>, X),
    L: Fn(T, T) -> T,
    R: Fn(T, T) -> T,

    requires
        grid_data.wf(),
        config.lanes > 0,
        dots.determined(),
        gathers_alike(kernels.gather, grid_data),
        kernels.rows.determined(grid_data, alike::<T>(grid_data.grid_size[0] as int), same),
        0 <= k < grid_data.grid_indices[1]@.len(),
        0 <= z_it < grid_data.grid_indices[2]@.len(),
        band_blended(kernels, grid_data, table, dots, seed, config, k, z_it, t),
        band_blended(kernels, grid_data, table, dots, seed, config, k, z_it, u),
        ({
            let y0 = cells::run_start(grid_data.grid_indices[1]@, k);
            let z0 = cells::run_start(grid_data.grid_indices[2]@, z_it);
            let height = grid_data.grid_indices[1]@[k] - y0;
            let depth = grid_data.grid_indices[2]@[z_it] - z0;
            blending::block_shaped(config, height, depth, t) && blending::block_shaped(
                config,
                height,
                depth,
                u,
            )
        }),
    ensures
        ({
            let width = grid_data.grid_size[0] as int;
            let plane = grid_data.grid_size[0] * grid_data.grid_size[1];
            let y0 = cells::run_start(grid_data.grid_indices[1]@, k);
            let z0 = cells::run_start(grid_data.grid_indices[2]@, z_it);
            let height = grid_data.grid_indices[1]@[k] - y0;
            blending::block_writes(config, plane, width, y0, height, z0, t)
                == blending::block_writes(config, plane, width, y0, height, z0, u)
        }),
{
    let width = grid_data.grid_size[0] as int;
    let plane = grid_data.grid_size[0] * grid_data.grid_size[1];
    let y_ends = grid_data.grid_indices[1]@;
    let z_ends = grid_data.grid_indices[2]@;
    let y0 = cells::run_start(y_ends, k);
    let z0 = cells::run_start(z_ends, z_it);
    let like = alike::<T>(grid_data.grid_size[0] as int);
    assert(grid_data.grid_indices[0]@.len() == grid_data.num_loops[0]);
    assert(y_ends.len() == grid_data.num_loops[1]);
    assert(z_ends.len() == grid_data.num_loops[2]);
    bands::lemma_band_inside(y_ends, grid_data.grid_size[1] as int, k);
    bands::lemma_band_inside(z_ends, grid_data.grid_size[2] as int, z_it);
    let (g, a) = choose|g: PerlinGradients3D<T>, source: DottedTrilerpSource<T>| #[trigger]
        band_blended_from(kernels, grid_data, table, dots, seed, config, k, z_it, g, source, t);
    let (h, b) = choose|g: PerlinGradients3D<T>, source: DottedTrilerpSource<T>| #[trigger]
        band_blended_from(kernels, grid_data, table, dots, seed, config, k, z_it, g, source, u);
    lemma_corners_alike(grid_data, table, dots, seed, k, z_it, g, h);
    assert forall|s: int| 0 <= s < width implies #[trigger] a.buffers.same_at(b.buffers, s) by {
        lemma_assembled_alike(
            kernels.gather,
            grid_data,
            g,
            h,
            y0 as usize,
            z0 as usize,
            config.lanes as int,
            a.buffers,
            b.buffers,
            s,
        );
    }
    assert(like(a, b));
    blending::lemma_block_agrees(
        kernels.rows,
        grid_data,
        like,
        same,
        a,
        b,
        config,
        plane,
        width,
        y0,
        y_ends[k] - y0,
        z0,
        z_ends[z_it] - z0,
        t,
        u,
    );
}

/// A solid that was blended is complete.
proof fn lemma_solid_is_shaped<T: Copy, X, C, A, B, L, R>(
    kernels: SlabKernels<C, A, B>,
    grid_data: GridDataLerp<T, 3>,
    table: [[T; 3]; 16],
    dots: Dots<L, R>,
    seed: u32,
    config: InterpolationConfig,
    slabs: Seq<Seq<BlockTrace<T>>>,
) where
    C: Fn(
        &GridDataLerp<T, 3>,
        &PerlinGradients3D<T>,
        usize,
        usize,
        usize,
        usize,
    ) -> DottedTrilerpBuffers<T>,
    A: Fn(&GridDataLerp<T, 3>, &DottedTrilerpSource<T>, usize, usize, usize) -> X,
    B: Fn(&GridDataLerp<T, 3>, &X, usize, usize) -> (Vec<T>, X),
    L: Fn(T, T) -> T,
    R: Fn(T, T) -> T,

    requires
        grid_data.wf(),
        solid_blended(kernels, grid_data, table, dots, seed, config, slabs),
    ensures
        slabs::solid_shaped(
            config,
            grid_data.grid_indices[1]@,
            grid_data.grid_indices[2]@,
            slabs,
        ),
{
    assert(grid_data.grid_indices[2]@.len() == grid_data.num_loops[2]);
    assert forall|z: int| 0 <= z < slabs.len() implies slabs::slab_shaped(
        config,
        grid_data.grid_indices[1]@,
        grid_data.grid_indices[2]@[z] - cells::run_start(grid_data.grid_indices[2]@, z),
        #[trigger] slabs[z],
    ) by {
        assert(slab_blended(kernels, grid_data, table, dots, seed, config, z, slabs[z]));
    }
}

/// Two runs with the same seed, grid, determined kernels and determined combiner,
/// from equal buffers, leave equal buffers.
pub proof fn law_equal_runs_leave_equal_buffers<T: Copy, X, C, A, B, L, R, I, P, F>(
    sink: Sink<I, P, F>,
    kernels: SlabKernels<C, A, B>,
    grid_data: GridDataLerp<T, 3>,
    table: [[T; 3]; 16],
    dots: Dots<L, R>,
    same: spec_fn(X, X) -> bool,
    seed: u32,
    config: InterpolationConfig,
    slabs: Seq<Seq<BlockTrace<T>>>,
    others: Seq<Seq<BlockTrace<T>>>,
    before: (Seq<T>, Seq<T>),
    after: (Seq<T>, Seq<T>),
    other_after: (Seq<T>, Seq<T>),
) where
    C: Fn(
        &GridDataLerp<T, 3>,
        &PerlinGradients3D<T>,
        usize,
        usize,
        usize,
        usize,
    ) -> DottedTrilerpBuffers<T>,
    A: Fn(&GridDataLerp<T, 3>, &DottedTrilerpSource<T>, usize, usize, usize) -> X,
    B: Fn(&GridDataLerp<T, 3>, &X, usize, usize) -> (Vec<T>, X),
    L: Fn(T, T) -> T,
    R: Fn(T, T) -> T,
    I: Fn(Vec<T>) -> (Vec<Vec<T>>, Vec<T>),
    P: Fn(Vec<Vec<T>>, Vec<T>, Vec<T>) -> (Vec<Vec<T>>, Vec<T>),
    F: Fn(Vec<Vec<T>>, Vec<T>) -> Vec<T>,

    requires
        grid_data.wf(),
        config.wf(grid_data.grid_size[0] as int),
        dots.determined(),
        gathers_alike(kernels.gather, grid_data),
        kernels.rows.determined(grid_data, alike::<T>(grid_data.grid_size[0] as int), same),
        sink.combiner.determined::<T>(),
        solid_blended(kernels, grid_data, table, dots, seed, config, slabs),
        solid_blended(kernels, grid_data, table, dots, seed, config, others),
        sink.takes(grid_writes(grid_data, config, slabs), before, after),
        sink.takes(grid_writes(grid_data, config, others), before, other_after),
    ensures
        after == other_after,
{
    lemma_runs_agree(kernels, grid_data, table, dots, same, seed, config, slabs, others);
    combine::law_equal_runs_leave_equal_buffers(
        *sink.combiner,
        sink.pass,
        sink.layout,
        grid_writes(grid_data, config, slabs),
        before,
        after,
        other_after,
    );
}

/// The first octave forgets the buffers: two runs with the same seed, grid,
/// determined kernels and determined combiner leave the same, whatever the
/// buffers held before.
pub proof fn law_first_octave_forgets_buffers<T: Copy, X, C, A, B, L, R, I, P, F>(
    sink: Sink<I, P, F>,
    kernels: SlabKernels<C, A, B>,
    grid_data: GridDataLerp<T, 3>,
    table: [[T; 3]; 16],
    dots: Dots<L, R>,
    same: spec_fn(X, X) -> bool,
    seed: u32,
    config: InterpolationConfig,
    slabs: Seq<Seq<BlockTrace<T>>>,
    others: Seq<Seq<BlockTrace<T>>>,
    before: (Seq<T>, Seq<T>),
    after: (Seq<T>, Seq<T>),
    other_before: (Seq<T>, Seq<T>),
    other_after: (Seq<T>, Seq<T>),
) where
    C: Fn(
        &GridDataLerp<T, 3>,
        &PerlinGradients3D<T>,
        usize,
        usize,
        usize,
        usize,
    ) -> DottedTrilerpBuffers<T>,
    A: Fn(&GridDataLerp<T, 3>, &DottedTrilerpSource<T>, usize, usize, usize) -> X,
    B: Fn(&GridDataLerp<T, 3>, &X, usize, usize) -> (Vec<T>, X),
    L: Fn(T, T) -> T,
    R: Fn(T, T) -> T,
    I: Fn(Vec<T>) -> (Vec<Vec<T>>, Vec<T>),
    P: Fn(Vec<Vec<T>>, Vec<T>, Vec<T>) -> (Vec<Vec<T>>, Vec<T>),
    F: Fn(Vec<Vec<T>>, Vec<T>) -> Vec<T>,

    requires
        sink.pass.init,
        grid_data.wf(),
        config.wf(grid_data.grid_size[0] as int),
        sink.layout.total_size == grid_data.total_size,
        sink.wf::<T>(config.lanes as int, before.0.len() as int, before.1.len() as int),
        sink.wf::<T>(
            config.lanes as int,
            other_before.0.len() as int,
            other_before.1.len() as int,
        ),
        dots.determined(),
        gathers_alike(kernels.gather, grid_data),
        kernels.rows.determined(grid_data, alike::<T>(grid_data.grid_size[0] as int), same),
        sink.combiner.determined::<T>(),
        solid_blended(kernels, grid_data, table, dots, seed, config, slabs),
        solid_blended(kernels, grid_data, table, dots, seed, config, others),
        sink.takes(grid_writes(grid_data, config, slabs), before, after),
        sink.takes(grid_writes(grid_data, config, others), other_before, other_after),
    ensures
        sink.leaves_alike(before, after, other_before, other_after),
{
    lemma_runs_agree(kernels, grid_data, table, dots, same, seed, config, slabs, others);
    let width = grid_data.grid_size[0] as int;
    let height = grid_data.grid_size[1] as int;
    let depth = grid_data.grid_size[2] as int;
    assert(grid_data.grid_indices[1]@.len() == grid_data.num_loops[1]);
    assert(grid_data.grid_indices[2]@.len() == grid_data.num_loops[2]);
    slabs::lemma_solid_volume(grid_data.grid_size@);
    lemma_solid_is_shaped(kernels, grid_data, table, dots, seed, config, slabs);
    slabs::law_first_octave_forgets_buffers(
        sink,
        config,
        width,
        height,
        depth,
        grid_data.grid_indices[1]@,
        grid_data.grid_indices[2]@,
        slabs,
        before,
        after,
        other_before,
        other_after,
    );
}

/// Samples that were set from a row of numbers hold, component by component, the
/// gradient that the number of their own cell names, or the next number on the
/// right side.
pub proof fn law_numbers_name_the_gradients<T>(
    grid_data: GridDataLerp<T, 3>,
    table: [[T; 3]; 16],
    numbers: Seq<u32>,
    buffers: [Vec<T>; 3],
    side: int,
    i: int,
    s: int,
    c: int,
)
    requires
        numbers_held(grid_data, table, numbers, buffers, side),
        0 <= i < grid_data.grid_indices[0]@.len(),
        i > 0 ==> grid_data.grid_indices[0]@[i - 1] <= s,
        0 <= s < grid_data.grid_indices[0]@[i],
        0 <= i + side < numbers.len(),
        0 <= c < 3,
    ensures
        buffers[c]@[s] == table[numbers[i + side] as int][c],
{
    cells::law_runs_hold_their_vertices(
        grid_data.grid_indices[0]@,
        component(table, numbers, c),
        buffers[c]@,
        side,
        i,
        s,
    );
}

/// A gradient number is the top four bits of the product of two hashes, and does
/// not depend on which of them comes first.
pub proof fn law_number_is_the_top_of_the_product(x_hash: u32, zy_hash: u32)
    ensures
        gradient_number(x_hash, zy_hash) as int == (x_hash as int * zy_hash as int)
            % 0x1_0000_0000 / 0x1000_0000,
        gradient_number(x_hash, zy_hash) == gradient_number(zy_hash, x_hash),
        gradient_number(x_hash, zy_hash) < 16,
{
    let p = zy_hash.wrapping_mul(x_hash);
    let q = x_hash.wrapping_mul(zy_hash);
    hash::lemma_wrapping(zy_hash, x_hash, 0);
    hash::lemma_wrapping(x_hash, zy_hash, 0);
    assert(zy_hash as int * x_hash as int == x_hash as int * zy_hash as int) by (nonlinear_arith);
    assert(p == q);
    assert(p >> 28 == p / 0x1000_0000) by (bit_vector);
    lemma_number_in_table(x_hash, zy_hash);
}

/// The gradient at a vertex is named by the top four bits of the product of three
/// hashes: those of the coordinates that stand for its column, its row and its
/// layer, on either side of zero. The seed multiplies the layer only where the
/// layers are not tiled.
pub proof fn law_vertex_number_goes_by_place<T>(
    grid_data: GridDataLerp<T, 3>,
    seed: u32,
    y_it: int,
    z_it: int,
    i: int,
    x: int,
    y: int,
    z: int,
)
    requires
        tiling::column_stands_for(x, grid_data.grid_start[0] + i, grid_data.octave_tiling[0]),
        tiling::stands_for(y, grid_data.grid_start[1] + y_it, grid_data.octave_tiling[1]),
        tiling::stands_for(z, grid_data.grid_start[2] + z_it, grid_data.octave_tiling[2]),
    ensures
        vertex_number(grid_data, seed, y_it, z_it, i) as int == (hash::axis_hash(
            z,
            (if grid_data.octave_tiling[2] is None {
                seed
            } else {
                1
            }),
        ) as int * hash::axis_hash(y, seed) as int * hash::axis_hash(x, seed) as int)
            % 0x1_0000_0000 / 0x1000_0000,
{
    columns::law_column_hash_goes_by_place(
        grid_data.grid_start[0],
        grid_data.octave_tiling[0],
        seed,
        i,
        x,
    );
    slabs::law_row_hash_goes_by_place(grid_data, seed, y_it, y);
    slabs::law_layer_hash_goes_by_place(grid_data, seed, z_it, z);
    let a = hash::axis_hash(x, seed);
    let b = hash::axis_hash(y, seed);
    let c = slabs::layer_hash(grid_data, seed, z_it);
    let p = c.wrapping_mul(b).wrapping_mul(a);
    hash::lemma_wrapping(c, b, a);
    assert(p >> 28 == p / 0x1000_0000) by (bit_vector);
}

/// Where no axis is tiled, to go `m` times as far along all axes is to take `m`
/// times the seed, for negative `m` too: the gradients have the same numbers.
pub proof fn law_noise_scales<T>(
    grid_data: GridDataLerp<T, 3>,
    other: GridDataLerp<T, 3>,
    seed: u32,
    scaled: u32,
    m: int,
    at: (int, int, int),
    to: (int, int, int),
)
    requires
        grid_data.octave_tiling == [None::<u32>, None::<u32>, None::<u32>],
        other.octave_tiling == [None::<u32>, None::<u32>, None::<u32>],
        (scaled - m * seed as int) % 0x1_0000_0000 == 0,
        other.grid_start[0] + to.0 == m * (grid_data.grid_start[0] + at.0),
        other.grid_start[1] + to.1 == m * (grid_data.grid_start[1] + at.1),
        other.grid_start[2] + to.2 == m * (grid_data.grid_start[2] + at.2),
    ensures
        vertex_number(other, seed, to.1, to.2, to.0) == vertex_number(
            grid_data,
            scaled,
            at.1,
            at.2,
            at.0,
        ),
{
    columns::law_column_hashes_scale(
        grid_data.grid_start[0],
        other.grid_start[0],
        seed,
        scaled,
        m,
        at.0,
        to.0,
    );
    slabs::law_row_hashes_scale(grid_data, other, seed, scaled, m, at.1, to.1);
    slabs::law_layer_hashes_scale(grid_data, other, seed, scaled, m, at.2, to.2);
}

/// The corners of a band of a slab, sample by sample. A sample in cell `i` of band
/// `k` of slab `z_it` holds, at its left, the gradients of column `i` and, at its
/// right, those of the next column: of lattice row `k` on top and of the next row
/// at the bottom, of lattice layer `z_it` in front and of the next layer behind.
/// The column component is multiplied with the sample's distance, the others are
/// not.
pub proof fn law_samples_hold_their_corners<T: Copy, L, R>(
    grid_data: GridDataLerp<T, 3>,
    table: [[T; 3]; 16],
    dots: Dots<L, R>,
    seed: u32,
    k: int,
    z_it: int,
    g: PerlinGradients3D<T>,
    i: int,
    s: int,
) where L: Fn(T, T) -> T, R: Fn(T, T) -> T
    requires
        corners_held(grid_data, table, dots, seed, k, z_it, g),
        grid_data.grid_indices[0]@.len() == grid_data.num_loops[0],
        0 <= i < grid_data.grid_indices[0]@.len(),
        i > 0 ==> grid_data.grid_indices[0]@[i - 1] <= s,
        0 <= s < grid_data.grid_indices[0]@[i],
    ensures
        ({
            let d = grid_data.distances[0]@[s];
            let tlf = table[vertex_number(grid_data, seed, k, z_it, i) as int];
            let tlb = table[vertex_number(grid_data, seed, k, z_it + 1, i) as int];
            let trf = table[vertex_number(grid_data, seed, k, z_it, i + 1) as int];
            let trb = table[vertex_number(grid_data, seed, k, z_it + 1, i + 1) as int];
            let blf = table[vertex_number(grid_data, seed, k + 1, z_it, i) as int];
            let blb = table[vertex_number(grid_data, seed, k + 1, z_it + 1, i) as int];
            let brf = table[vertex_number(grid_data, seed, k + 1, z_it, i + 1) as int];
            let brb = table[vertex_number(grid_data, seed, k + 1, z_it + 1, i + 1) as int];
            &&& dots.left.ensures((tlf[0], d), g.tlf[0]@[s])
            &&& g.tlf[1]@[s] == tlf[1]
            &&& g.tlf[2]@[s] == tlf[2]
            &&& dots.left.ensures((tlb[0], d), g.tlb[0]@[s])
            &&& g.tlb[1]@[s] == tlb[1]
            &&& g.tlb[2]@[s] == tlb[2]
            &&& dots.right.ensures((trf[0], d), g.trf[0]@[s])
            &&& g.trf[1]@[s] == trf[1]
            &&& g.trf[2]@[s] == trf[2]
            &&& dots.right.ensures((trb[0], d), g.trb[0]@[s])
            &&& g.trb[1]@[s] == trb[1]
            &&& g.trb[2]@[s] == trb[2]
            &&& dots.left.ensures((blf[0], d), g.blf[0]@[s])
            &&& g.blf[1]@[s] == blf[1]
            &&& g.blf[2]@[s] == blf[2]
            &&& dots.left.ensures((blb[0], d), g.blb[0]@[s])
            &&& g.blb[1]@[s] == blb[1]
            &&& g.blb[2]@[s] == blb[2]
            &&& dots.right.ensures((brf[0], d), g.brf[0]@[s])
            &&& g.brf[1]@[s] == brf[1]
            &&& g.brf[2]@[s] == brf[2]
            &&& dots.right.ensures((brb[0], d), g.brb[0]@[s])
            &&& g.brb[1]@[s] == brb[1]
            &&& g.brb[2]@[s] == brb[2]
        }),
{
    assert(cells::in_run(grid_data.grid_indices[0]@, i, s));
}

/// A gathered band holds, at every register, the piece that was gathered for the
/// register's own columns: registers begin at the multiples of the lanes, and the
/// last one ends with the row.
pub proof fn law_registers_hold_what_was_gathered<T: Copy, C>(
    gather: C,
    grid_data: GridDataLerp<T, 3>,
    g: PerlinGradients3D<T>,
    y0: usize,
    z0: usize,
    lanes: int,
    b: DottedTrilerpBuffers<T>,
    x: int,
    len: int,
) where
    C: Fn(
        &GridDataLerp<T, 3>,
        &PerlinGradients3D<T>,
        usize,
        usize,
        usize,
        usize,
    ) -> DottedTrilerpBuffers<T>,

    requires
        assembled(gather, grid_data, g, y0, z0, lanes, b),
        lanes > 0,
        0 <= x < grid_data.grid_size[0],
        x % lanes == 0,
        len == lanes || (len < lanes && x + len == grid_data.grid_size[0]),
        x + len <= grid_data.grid_size[0],
    ensures
        exists|piece: DottedTrilerpBuffers<T>|
            {
                &&& #[trigger] gather.ensures(
                    (&grid_data, &g, y0, z0, x as usize, len as usize),
                    piece,
                )
                &&& b.y_tf_offset@.subrange(x, x + piece.y_tf_offset@.len()) == piece.y_tf_offset@
                &&& b.y_bf_offset@.subrange(x, x + piece.y_bf_offset@.len()) == piece.y_bf_offset@
                &&& b.y_top_offset_dif@.subrange(x, x + piece.y_top_offset_dif@.len())
                    == piece.y_top_offset_dif@
                &&& b.y_bottom_offset_dif@.subrange(x, x + piece.y_bottom_offset_dif@.len())
                    == piece.y_bottom_offset_dif@
                &&& b.z_tf_offset@.subrange(x, x + piece.z_tf_offset@.len()) == piece.z_tf_offset@
                &&& b.z_bf_offset@.subrange(x, x + piece.z_bf_offset@.len()) == piece.z_bf_offset@
                &&& b.z_top_offset_dif@.subrange(x, x + piece.z_top_offset_dif@.len())
                    == piece.z_top_offset_dif@
                &&& b.z_bottom_offset_dif@.subrange(x, x + piece.z_bottom_offset_dif@.len())
                    == piece.z_bottom_offset_dif@
                &&& b.tf_base@.subrange(x, x + piece.tf_base@.len()) == piece.tf_base@
                &&& b.bf_base@.subrange(x, x + piece.bf_base@.len()) == piece.bf_base@
                &&& b.top_base_dif@.subrange(x, x + piece.top_base_dif@.len())
                    == piece.top_base_dif@
                &&& b.bottom_base_dif@.subrange(x, x + piece.bottom_base_dif@.len())
                    == piece.bottom_base_dif@
            },
{
    assert(assembled_at(gather, grid_data, g, y0, z0, lanes, b, x));
}

/// Whatever goes over the sample in slice `z`, row `y` and column `s` of a solid
/// was blended for it, in its own slice and in the register that holds the column,
/// from what was gathered, at the first row and slice of the sample's band, from
/// the gradients at the corners of the band: those of lattice rows `k` and `k + 1` in
/// lattice layers `z_it` and `z_it + 1`, under the whole seed.
pub proof fn law_every_sample_is_blended_from_its_corners<T: Copy, X, C, A, B, L, R>(
    kernels: SlabKernels<C, A, B>,
    grid_data: GridDataLerp<T, 3>,
    table: [[T; 3]; 16],
    dots: Dots<L, R>,
    seed: u32,
    config: InterpolationConfig,
    slabs: Seq<Seq<BlockTrace<T>>>,
    j: int,
    k: int,
    z_it: int,
    y0: int,
    z0: int,
    z: int,
    y: int,
    s: int,
) where
    C: Fn(
        &GridDataLerp<T, 3>,
        &PerlinGradients3D<T>,
        usize,
        usize,
        usize,
        usize,
    ) -> DottedTrilerpBuffers<T>,
    A: Fn(&GridDataLerp<T, 3>, &DottedTrilerpSource<T>, usize, usize, usize) -> X,
    B: Fn(&GridDataLerp<T, 3>, &X, usize, usize) -> (Vec<T>, X),
    L: Fn(T, T) -> T,
    R: Fn(T, T) -> T,

    requires
        grid_data.wf(),
        config.wf(grid_data.grid_size[0] as int),
        solid_blended(kernels, grid_data, table, dots, seed, config, slabs),
        cells::in_run(grid_data.grid_indices[1]@, k, y),
        cells::in_run(grid_data.grid_indices[2]@, z_it, z),
        y0 == (if k == 0 {
            0
        } else {
            grid_data.grid_indices[1]@[k - 1] as int
        }),
        z0 == (if z_it == 0 {
            0
        } else {
            grid_data.grid_indices[2]@[z_it - 1] as int
        }),
        0 <= s < grid_data.grid_size[0],
        0 <= j < grid_writes(grid_data, config, slabs).len(),
        combine::covers(
            grid_writes(grid_data, config, slabs)[j],
            z * (grid_data.grid_size[0] * grid_data.grid_size[1]) + y * grid_data.grid_size[0] + s,
        ),
    ensures
        ({
            let w = grid_writes(grid_data, config, slabs)[j];
            let x = w.start - z * (grid_data.grid_size[0] * grid_data.grid_size[1]) - y
                * grid_data.grid_size[0];
            let len = w.value.len() as int;
            &&& 0 <= x <= s < x + len <= grid_data.grid_size[0]
            &&& x % (config.lanes as int) == 0
            &&& len == config.lanes || (len < config.lanes && x + len == grid_data.grid_size[0])
            &&& exists|
                g: PerlinGradients3D<T>,
                source: DottedTrilerpSource<T>,
                values: Seq<Vec<T>>,
                factors: Seq<X>,
            |
                {
                    &&& #[trigger] corners_held(grid_data, table, dots, seed, k, z_it, g)
                    &&& source.z_start == z0
                    &&& assembled(
                        kernels.gather,
                        grid_data,
                        g,
                        y0 as usize,
                        z0 as usize,
                        config.lanes as int,
                        source.buffers,
                    )
                    &&& #[trigger] registers::register_blended(
                        kernels.rows,
                        grid_data,
                        source,
                        z,
                        x,
                        len,
                        y0,
                        values,
                        factors,
                    )
                    &&& values.len() == grid_data.grid_indices[1]@[k] - y0
                    &&& values[y - y0]@ == w.value
                }
        }),
{
    assert(grid_data.grid_indices[1]@.len() == grid_data.num_loops[1]);
    assert(grid_data.grid_indices[2]@.len() == grid_data.num_loops[2]);
    lemma_solid_is_shaped(kernels, grid_data, table, dots, seed, config, slabs);
    let blocks = slabs[z_it];
    assert(slab_blended(kernels, grid_data, table, dots, seed, config, z_it, blocks));
    let t = blocks[k];
    assert(band_blended(kernels, grid_data, table, dots, seed, config, k, z_it, t));
    let (g, source) = choose|g: PerlinGradients3D<T>, source: DottedTrilerpSource<T>| #[trigger]
        band_blended_from(kernels, grid_data, table, dots, seed, config, k, z_it, g, source, t);
    assert(band_blended_from(kernels, grid_data, table, dots, seed, config, k, z_it, g, source, t));
    assert(corners_held(grid_data, table, dots, seed, k, z_it, g));
    registers::law_every_sample_is_blended_in_its_slice(
        kernels.rows,
        grid_data,
        source,
        config,
        slabs,
        j,
        k,
        z_it,
        y0,
        z0,
        z,
        y,
        s,
    );
}

/// Tiled noise repeats: the gradients at the lattice vertices are the same one
/// period further along the columns, along the rows or along the layers.
pub proof fn law_noise_tiles<T>(
    grid_data: GridDataLerp<T, 3>,
    seed: u32,
    y_it: int,
    z_it: int,
    i: int,
)
    ensures
        grid_data.octave_tiling[0] matches Some(t) ==> t > 0 && i32::MIN <= grid_data.grid_start[0]
            + i && grid_data.grid_start[0] + i + t <= i32::MAX ==> vertex_number(
            grid_data,
            seed,
            y_it,
            z_it,
            i + t,
        ) == vertex_number(grid_data, seed, y_it, z_it, i),
        grid_data.octave_tiling[1] matches Some(t) ==> t as i32 != 0 ==> vertex_number(
            grid_data,
            seed,
            y_it + (t as i32),
            z_it,
            i,
        ) == vertex_number(grid_data, seed, y_it, z_it, i),
        grid_data.octave_tiling[2] matches Some(t) ==> t as i32 != 0 ==> vertex_number(
            grid_data,
            seed,
            y_it,
            z_it + (t as i32),
            i,
        ) == vertex_number(grid_data, seed, y_it, z_it, i),
{
    if let Some(t) = grid_data.octave_tiling[0] {
        if t > 0 && i32::MIN <= grid_data.grid_start[0] + i && grid_data.grid_start[0] + i + t
            <= i32::MAX {
            columns::law_column_hashes_tile(grid_data.grid_start[0], t, seed, i);
        }
    }
    if let Some(t) = grid_data.octave_tiling[1] {
        if t as i32 != 0 {
            slabs::law_row_hashes_tile(grid_data, seed, t, y_it);
        }
    }
    if let Some(t) = grid_data.octave_tiling[2] {
        if t as i32 != 0 {
            slabs::law_layer_hashes_tile(grid_data, seed, t, z_it);
        }
    }
}

/// Neighbouring layers share a lattice plane: what is set behind for one layer is
/// what is set in front for the next.
pub proof fn law_layers_share_rows<T: Copy, L, R>(
    grid_data: GridDataLerp<T, 3>,
    table: [[T; 3]; 16],
    dots: Dots<L, R>,
    seed: u32,
    y_it: int,
    z_it: int,
    g: PerlinGradients3D<T>,
    h: PerlinGradients3D<T>,
) where L: Fn(T, T) -> T, R: Fn(T, T) -> T
    requires
        dots.determined(),
        cells::cuts(grid_data.grid_indices[0]@, grid_data.grid_size[0] as int),
        bottom_held(grid_data, table, dots, seed, y_it, z_it, g),
        bottom_held(grid_data, table, dots, seed, y_it, z_it + 1, h),
    ensures
        buffers::all_same_on(g.blb, h.blf, grid_data.grid_size[0] as int),
        buffers::all_same_on(g.brb, h.brf, grid_data.grid_size[0] as int),
{
    lemma_row_alike(grid_data, table, dots, seed, y_it, z_it + 1, g.blb, h.blf);
    lemma_row_alike(grid_data, table, dots, seed, y_it, z_it + 1, g.brb, h.brf);
}

/// Bands that meet share a lattice row, and slabs that meet share a lattice
/// layer: the gradients on both sides agree at every sample.
pub proof fn law_neighbours_share_vertices<T: Copy, L, R>(
    grid_data: GridDataLerp<T, 3>,
    table: [[T; 3]; 16],
    dots: Dots<L, R>,
    seed: u32,
    k: int,
    z_it: int,
    g: PerlinGradients3D<T>,
    below: PerlinGradients3D<T>,
    behind: PerlinGradients3D<T>,
    c: int,
    s: int,
) where L: Fn(T, T) -> T, R: Fn(T, T) -> T
    requires
        dots.determined(),
        cells::cuts(grid_data.grid_indices[0]@, grid_data.grid_size[0] as int),
        corners_held(grid_data, table, dots, seed, k, z_it, g),
        corners_held(grid_data, table, dots, seed, k + 1, z_it, below),
        corners_held(grid_data, table, dots, seed, k, z_it + 1, behind),
        0 <= c < 3,
        0 <= s < grid_data.grid_size[0],
    ensures
        g.blf[c]@[s] == below.tlf[c]@[s],
        g.brf[c]@[s] == below.trf[c]@[s],
        g.blb[c]@[s] == below.tlb[c]@[s],
        g.brb[c]@[s] == below.trb[c]@[s],
        g.tlb[c]@[s] == behind.tlf[c]@[s],
        g.trb[c]@[s] == behind.trf[c]@[s],
        g.blb[c]@[s] == behind.blf[c]@[s],
        g.brb[c]@[s] == behind.brf[c]@[s],
{
    let ends = grid_data.grid_indices[0]@;
    cells::law_every_sample_in_one_run(ends, grid_data.grid_size[0] as int, s);
    let run = choose|run: int| cells::in_run(ends, run, s);
    assert(cells::in_run(ends, run, s));
}

/// A call leaves in every sample of the solid what the combiner makes of a value that
/// was blended there, under the very seed of the call, and of what the buffers held
/// there before. The last octave leaves the state as it was.
pub proof fn law_call_fills_the_solid<T: Copy, X, C, A, B, L, R, I, P, F>(
    seed: u32,
    grid_data: GridDataLerp<T, 3>,
    table: [[T; 3]; 16],
    dots: Dots<L, R>,
    config: InterpolationConfig,
    kernels: SlabKernels<C, A, B>,
    zero: T,
    sink: Sink<I, P, F>,
    state: &mut Vec<T>,
    dst: &mut Vec<T>,
    n: int,
) where
    C: Fn(
        &GridDataLerp<T, 3>,
        &PerlinGradients3D<T>,
        usize,
        usize,
        usize,
        usize,
    ) -> DottedTrilerpBuffers<T>,
    A: Fn(&GridDataLerp<T, 3>, &DottedTrilerpSource<T>, usize, usize, usize) -> X,
    B: Fn(&GridDataLerp<T, 3>, &X, usize, usize) -> (Vec<T>, X),
    L: Fn(T, T) -> T,
    R: Fn(T, T) -> T,
    I: Fn(Vec<T>) -> (Vec<Vec<T>>, Vec<T>),
    P: Fn(Vec<Vec<T>>, Vec<T>, Vec<T>) -> (Vec<Vec<T>>, Vec<T>),
    F: Fn(Vec<Vec<T>>, Vec<T>) -> Vec<T>,

    requires
        grid_data.wf(),
        config.wf(grid_data.grid_size[0] as int),
        sink.layout.total_size == grid_data.total_size,
        sink.wf::<T>(config.lanes as int, old(state)@.len() as int, old(dst)@.len() as int),
        call_ensures(
            sample_grid::<T, X, C, A, B, L, R, I, P, F>,
            (
                seed,
                &grid_data,
                &table,
                &dots,
                &config,
                &kernels,
                zero,
                &sink,
                state,
                dst,
            ),
            (),
        ),
        0 <= n < grid_data.total_size,
    ensures
        final(state)@.len() == old(state)@.len(),
        final(dst)@.len() == old(dst)@.len(),
        exists|slabs: Seq<Seq<BlockTrace<T>>>|
            {
                &&& solid_blended(kernels, grid_data, table, dots, seed, config, slabs)
                &&& combine::combined_at(
                    *sink.combiner,
                    sink.pass,
                    sink.layout,
                    #[trigger] grid_writes(grid_data, config, slabs),
                    (old(state)@, old(dst)@),
                    (final(state)@, final(dst)@),
                    n,
                )
            },
        sink.pass.last ==> final(state)@ == old(state)@,
{
    let before = (old(state)@, old(dst)@);
    let after = (final(state)@, final(dst)@);
    let slabs = choose|slabs: Seq<Seq<BlockTrace<T>>>|
        {
            &&& solid_blended(kernels, grid_data, table, dots, seed, config, slabs)
            &&& sink.takes(#[trigger] grid_writes(grid_data, config, slabs), before, after)
        };
    let writes = grid_writes(grid_data, config, slabs);
    assert(sink.takes(writes, before, after));
    if sink.pass.last {
        combine::law_last_octave_keeps_state(
            *sink.combiner,
            sink.pass,
            sink.layout,
            writes,
            before,
            after,
        );
    }
    assert(grid_data.grid_indices[1]@.len() == grid_data.num_loops[1]);
    assert(grid_data.grid_indices[2]@.len() == grid_data.num_loops[2]);
    lemma_solid_is_shaped(kernels, grid_data, table, dots, seed, config, slabs);
    crate::grid_data::law_volume_is_the_product_of_the_sides(grid_data.grid_size@);
    slabs::law_every_sample_combined_once(
        sink,
        config,
        grid_data.grid_size[0] as int,
        grid_data.grid_size[1] as int,
        grid_data.grid_size[2] as int,
        grid_data.grid_indices[1]@,
        grid_data.grid_indices[2]@,
        slabs,
        before,
        after,
        n,
    );
}

/// Along a lattice row of a lattice layer the gradients are those that [`gradient_rows`] gives
/// for the hashes of the row and of the layer: for what [`hash::hash_axis`] gives
/// for the coordinates that stand for them, whatever the signs of those. A tiled
/// layer is hashed under the seed 1.
pub proof fn law_rows_go_by_the_hashes_of_their_coordinates<T>(
    grid_data: GridDataLerp<T, 3>,
    seed: u32,
    layer_seed: u32,
    y_it: int,
    z_it: int,
    y: i32,
    z: i32,
    y_hash: u32,
    z_hash: u32,
    back_hash: u32,
    len: usize,
    rows: [Vec<u32>; 2],
    i: int,
)
    requires
        tiling::stands_for(y as int, grid_data.grid_start[1] + y_it, grid_data.octave_tiling[1]),
        tiling::stands_for(z as int, grid_data.grid_start[2] + z_it, grid_data.octave_tiling[2]),
        layer_seed == (if grid_data.octave_tiling[2] is None {
            seed
        } else {
            1
        }),
        call_ensures(hash::hash_axis, (y, seed), y_hash),
        call_ensures(hash::hash_axis, (z, layer_seed), z_hash),
        call_ensures(
            gradient_rows,
            (
                grid_data.grid_start[0],
                grid_data.octave_tiling[0],
                seed,
                z_hash.wrapping_mul(y_hash),
                back_hash,
                len,
            ),
            rows,
        ),
        0 <= i < len,
    ensures
        rows[0]@.len() == len,
        rows[0]@[i] == vertex_number(grid_data, seed, y_it, z_it, i),
{
    slabs::law_row_hash_goes_by_place(grid_data, seed, y_it, y as int);
    slabs::law_layer_hash_goes_by_place(grid_data, seed, z_it, z as int);
}

} // verus!

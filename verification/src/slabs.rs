//! Slabs of a solid grid, and what a whole solid writes.
//!
//! The slices of a solid that lie in the same layer of lattice cells form a
//! slab, and each slab is cut into bands. A solid is filled slab after slab,
//! band after band.

use crate::bands;
use crate::blending;
use crate::blending::BlockTrace;
use crate::cells;
use crate::columns;
use crate::combine;
use crate::combine::Sink;
use crate::grid_data;
use crate::grid_data::GridDataLerp;
use crate::hash;
use crate::hash::{hash_axis, hash_word};
use crate::interpolation::InterpolationConfig;
use crate::tiling;
use crate::tiling::tile;
use vstd::prelude::*;

verus! {

/// The hash of lattice row `y_it` of a solid.
pub open spec fn row_hash<T>(grid_data: GridDataLerp<T, 3>, seed: u32, y_it: int) -> u32 {
    hash::axis_hash(
        tiling::tiled(grid_data.grid_start[1] + y_it, grid_data.octave_tiling[1]),
        seed,
    )
}

/// The hash of a lattice layer: the seed multiplies the layer where the axis
/// is not tiled, and is left out where it is.
pub open spec fn layer_hash<T>(grid_data: GridDataLerp<T, 3>, seed: u32, z_it: int) -> u32 {
    let z = grid_data.grid_start[2] + z_it;
    match grid_data.octave_tiling[2] {
        None => hash::axis_hash(z, seed),
        Some(t) => hash::word_hash(tiling::tiled(z, Some(t)) as u32),
    }
}

/// The product of the hashes of a lattice layer and a lattice row.
pub open spec fn layer_row_hash<T>(
    grid_data: GridDataLerp<T, 3>,
    seed: u32,
    y_it: int,
    z_it: int,
) -> u32 {
    layer_hash(grid_data, seed, z_it).wrapping_mul(row_hash(grid_data, seed, y_it))
}

/// The hashes of the rows of a tiled solid repeat after one period.
pub proof fn law_row_hashes_tile<T>(
    grid_data: GridDataLerp<T, 3>,
    seed: u32,
    t: u32,
    y_it: int,
)
    requires
        grid_data.octave_tiling[1] == Some(t),
        t as i32 != 0,
    ensures
        row_hash(grid_data, seed, y_it + (t as i32)) == row_hash(grid_data, seed, y_it),
{
    tiling::lemma_tiled_periodic(grid_data.grid_start[1] + y_it, t);
    assert(grid_data.grid_start[1] + (y_it + (t as i32)) == grid_data.grid_start[1] + y_it + (
    t as i32));
}

/// The hashes of the layers of a tiled solid repeat after one period.
pub proof fn law_layer_hashes_tile<T>(
    grid_data: GridDataLerp<T, 3>,
    seed: u32,
    t: u32,
    z_it: int,
)
    requires
        grid_data.octave_tiling[2] == Some(t),
        t as i32 != 0,
    ensures
        layer_hash(grid_data, seed, z_it + (t as i32)) == layer_hash(grid_data, seed, z_it),
{
    tiling::lemma_tiled_periodic(grid_data.grid_start[2] + z_it, t);
    assert(grid_data.grid_start[2] + (z_it + (t as i32)) == grid_data.grid_start[2] + z_it + (
    t as i32));
}

/// A row is hashed by its coordinate: by the one that stands for its place on the
/// axis, whatever the sign of that place.
pub proof fn law_row_hash_goes_by_place<T>(
    grid_data: GridDataLerp<T, 3>,
    seed: u32,
    y_it: int,
    c: int,
)
    requires
        tiling::stands_for(c, grid_data.grid_start[1] + y_it, grid_data.octave_tiling[1]),
    ensures
        row_hash(grid_data, seed, y_it) == hash::axis_hash(c, seed),
{
    tiling::lemma_stands_for(
        c,
        grid_data.grid_start[1] + y_it,
        grid_data.octave_tiling[1],
        seed,
    );
}

/// Under an odd seed the rows of a solid are told apart: two of them share a hash
/// exactly where they lie a multiple of the period apart, or of 2^32 where the
/// axis is not tiled.
pub proof fn law_row_hashes_tell_rows_apart<T>(
    grid_data: GridDataLerp<T, 3>,
    seed: u32,
    a: int,
    b: int,
    period: int,
)
    requires
        seed % 2 == 1,
        match grid_data.octave_tiling[1] {
            None => period == 0x1_0000_0000,
            Some(t) => 0 < t && period == (if t < 0x8000_0000 {
                t as int
            } else {
                0x1_0000_0000 - t
            }),
        },
    ensures
        row_hash(grid_data, seed, a) == row_hash(grid_data, seed, b) <==> (a - b) % period == 0,
{
    let start = grid_data.grid_start[1];
    let axis = grid_data.octave_tiling[1];
    let c = tiling::tiled(start + a, axis);
    let d = tiling::tiled(start + b, axis);
    assert(start + a - (start + b) == a - b);
    hash::law_axis_hash_tells_coordinates_apart(c, d, seed);
    tiling::lemma_tiled_stands(start + a, axis);
    tiling::lemma_tiled_stands(start + b, axis);
    if let Some(t) = axis {
        tiling::law_tiled_coincide(start + a, start + b, t, period);
    }
}

/// Where the rows are not tiled, to go `m` times as far along them is to take `m`
/// times the seed, for negative `m` too, wherever the grids start.
pub proof fn law_row_hashes_scale<T>(
    grid_data: GridDataLerp<T, 3>,
    other: GridDataLerp<T, 3>,
    seed: u32,
    scaled: u32,
    m: int,
    a: int,
    b: int,
)
    requires
        grid_data.octave_tiling[1] is None,
        other.octave_tiling[1] is None,
        (scaled - m * seed as int) % 0x1_0000_0000 == 0,
        other.grid_start[1] + b == m * (grid_data.grid_start[1] + a),
    ensures
        row_hash(other, seed, b) == row_hash(grid_data, scaled, a),
{
    hash::law_axis_hash_scales(grid_data.grid_start[1] + a, m, seed, scaled);
}

/// A layer is hashed by its coordinate: the one that stands for its place on the
/// axis, whatever the sign of that place. The seed multiplies it only where the
/// axis is not tiled.
pub proof fn law_layer_hash_goes_by_place<T>(
    grid_data: GridDataLerp<T, 3>,
    seed: u32,
    z_it: int,
    c: int,
)
    requires
        tiling::stands_for(c, grid_data.grid_start[2] + z_it, grid_data.octave_tiling[2]),
    ensures
        layer_hash(grid_data, seed, z_it) == hash::axis_hash(
            c,
            (if grid_data.octave_tiling[2] is None {
                seed
            } else {
                1
            }),
        ),
{
    tiling::lemma_stands_for(
        c,
        grid_data.grid_start[2] + z_it,
        grid_data.octave_tiling[2],
        seed,
    );
    if grid_data.octave_tiling[2] is Some {
        assert(c * 1 == c);
        assert(hash::seeded(c, 1) == c as u32);
    }
}

/// Layers are told apart: two of them share a hash exactly where they lie a
/// multiple of the period apart; where the axis is not tiled, under an odd seed,
/// exactly where they lie a multiple of 2^32 apart.
pub proof fn law_layer_hashes_tell_layers_apart<T>(
    grid_data: GridDataLerp<T, 3>,
    seed: u32,
    a: int,
    b: int,
    period: int,
)
    requires
        match grid_data.octave_tiling[2] {
            None => seed % 2 == 1 && period == 0x1_0000_0000,
            Some(t) => 0 < t && period == (if t < 0x8000_0000 {
                t as int
            } else {
                0x1_0000_0000 - t
            }),
        },
    ensures
        layer_hash(grid_data, seed, a) == layer_hash(grid_data, seed, b) <==> (a - b) % period
            == 0,
{
    let start = grid_data.grid_start[2];
    let axis = grid_data.octave_tiling[2];
    let c = tiling::tiled(start + a, axis);
    let d = tiling::tiled(start + b, axis);
    assert(start + a - (start + b) == a - b);
    tiling::lemma_tiled_stands(start + a, axis);
    tiling::lemma_tiled_stands(start + b, axis);
    if let Some(t) = axis {
        tiling::law_tiled_coincide(start + a, start + b, t, period);
        hash::law_word_hash_keeps_words_apart(c as u32, d as u32);
    } else {
        hash::law_axis_hash_tells_coordinates_apart(c, d, seed);
    }
}

/// Where the layers are not tiled, to go `m` times as far along them is to take
/// `m` times the seed, for negative `m` too, wherever the solids start.
pub proof fn law_layer_hashes_scale<T>(
    grid_data: GridDataLerp<T, 3>,
    other: GridDataLerp<T, 3>,
    seed: u32,
    scaled: u32,
    m: int,
    a: int,
    b: int,
)
    requires
        grid_data.octave_tiling[2] is None,
        other.octave_tiling[2] is None,
        (scaled - m * seed as int) % 0x1_0000_0000 == 0,
        other.grid_start[2] + b == m * (grid_data.grid_start[2] + a),
    ensures
        layer_hash(other, seed, b) == layer_hash(grid_data, scaled, a),
{
    hash::law_axis_hash_scales(grid_data.grid_start[2] + a, m, seed, scaled);
}

/// What the hashes of a solid need: periods that can be divided by, and rows
/// and layers that stay in the range of lattice coordinates.
pub open spec fn hashable<T>(grid_data: GridDataLerp<T, 3>, rows: int, layers: int) -> bool {
    &&& columns::positive(grid_data.octave_tiling[0])
    &&& tiling::divides(grid_data.octave_tiling[1])
    &&& tiling::divides(grid_data.octave_tiling[2])
    &&& rows <= i32::MAX
    &&& grid_data.grid_start[1] + rows <= i32::MAX
    &&& layers <= i32::MAX
    &&& grid_data.grid_start[2] + layers <= i32::MAX
    &&& grid_data.octave_tiling[2] is Some ==> grid_data.grid_start[2] + layers < i32::MAX
}

/// The hashes of a row, of the layer in front of a cell and of the layer
/// behind it.
pub(crate) fn row_and_layers<T>(
    grid_data: &GridDataLerp<T, 3>,
    seed: u32,
    y_it: usize,
    z_it: usize,
) -> (r: (u32, u32, u32))
    requires
        hashable(*grid_data, y_it as int, z_it as int),
    ensures
        r.0 == row_hash(*grid_data, seed, y_it as int),
        r.1 == layer_hash(*grid_data, seed, z_it as int),
        r.2 == layer_hash(*grid_data, seed, z_it + 1),
{
    let y: i32 = grid_data.grid_start[1] + y_it as i32;
    let z: i32 = grid_data.grid_start[2] + z_it as i32;
    let (z1, z2): (u32, u32) = match grid_data.octave_tiling[2] {
        None => {
            let word: u32 = (z as u32).wrapping_mul(seed);
            proof {
                hash::lemma_word_of(z);
                hash::lemma_seeded_word(z as u32, z as int, seed);
                hash::lemma_seeded_one(seed);
                hash::lemma_seeded_sum(z as int, 1, seed);
            }
            (word, word.wrapping_add(seed))
        },
        Some(t) => {
            proof {
                tiling::lemma_tiled_periodic(z as int, t);
                tiling::lemma_tiled_periodic(z + 1, t);
            }
            (tile(z, Some(t)) as u32, tile(z + 1, Some(t)) as u32)
        },
    };
    (hash_axis(tile(y, grid_data.octave_tiling[1]), seed), hash_word(z1), hash_word(z2))
}

/// What the first `count` bands of a slab write. The slab begins at
/// `z0`; `ends` says where each band ends, `blocks` holds the values of each.
pub open spec fn slab_writes<T>(
    cfg: InterpolationConfig,
    plane: int,
    width: int,
    ends: Seq<u32>,
    z0: int,
    blocks: Seq<BlockTrace<T>>,
    count: int,
) -> Seq<combine::Write<T>>
    decreases count,
{
    if count <= 0 {
        seq![]
    } else {
        slab_writes(cfg, plane, width, ends, z0, blocks, count - 1)
            + blending::block_writes(
            cfg,
            plane,
            width,
            cells::run_start(ends, count - 1),
            ends[count - 1] - cells::run_start(ends, count - 1),
            z0,
            blocks[count - 1],
        )
    }
}

/// What the first `count` slabs of a solid write. `y_ends` says where each band
/// ends, `z_ends` where each slab ends, and `slabs` holds the values of each
/// band of each slab.
pub open spec fn solid_writes<T>(
    cfg: InterpolationConfig,
    plane: int,
    width: int,
    y_ends: Seq<u32>,
    z_ends: Seq<u32>,
    slabs: Seq<Seq<BlockTrace<T>>>,
    count: int,
) -> Seq<combine::Write<T>>
    decreases count,
{
    if count <= 0 {
        seq![]
    } else {
        solid_writes(cfg, plane, width, y_ends, z_ends, slabs, count - 1) + slab_writes(
            cfg,
            plane,
            width,
            y_ends,
            cells::run_start(z_ends, count - 1),
            slabs[count - 1],
            y_ends.len() as int,
        )
    }
}

/// Further bands do not change what the first ones write.
pub(crate) proof fn lemma_slab_writes_prefix<T>(
    cfg: InterpolationConfig,
    plane: int,
    width: int,
    ends: Seq<u32>,
    z0: int,
    blocks: Seq<BlockTrace<T>>,
    longer: Seq<BlockTrace<T>>,
    count: int,
)
    requires
        count <= blocks.len(),
        blocks.len() <= longer.len(),
        forall|k: int| 0 <= k < blocks.len() ==> blocks[k] == longer[k],
    ensures
        slab_writes(cfg, plane, width, ends, z0, blocks, count) == slab_writes(
            cfg,
            plane,
            width,
            ends,
            z0,
            longer,
            count,
        ),
    decreases count,
{
    if count > 0 {
        lemma_slab_writes_prefix(cfg, plane, width, ends, z0, blocks, longer, count - 1);
    }
}

/// Further slabs do not change what the first ones write.
pub(crate) proof fn lemma_solid_writes_prefix<T>(
    cfg: InterpolationConfig,
    plane: int,
    width: int,
    y_ends: Seq<u32>,
    z_ends: Seq<u32>,
    slabs: Seq<Seq<BlockTrace<T>>>,
    longer: Seq<Seq<BlockTrace<T>>>,
    count: int,
)
    requires
        count <= slabs.len(),
        slabs.len() <= longer.len(),
        forall|k: int| 0 <= k < slabs.len() ==> slabs[k] == longer[k],
    ensures
        solid_writes(cfg, plane, width, y_ends, z_ends, slabs, count) == solid_writes(
            cfg,
            plane,
            width,
            y_ends,
            z_ends,
            longer,
            count,
        ),
    decreases count,
{
    if count > 0 {
        lemma_solid_writes_prefix(
            cfg,
            plane,
            width,
            y_ends,
            z_ends,
            slabs,
            longer,
            count - 1,
        );
    }
}

/// The slices before `z1` of a solid fit its samples, and the rows before `y1`
/// fit a slice.
pub(crate) proof fn lemma_solid_fits(sides: Seq<usize>, y1: int, z1: int)
    requires
        sides.len() == 3,
        0 <= y1 <= sides[1],
        0 <= z1 <= sides[2],
    ensures
        blending::solid_fits(
            sides[0] * sides[1],
            sides[0] as int,
            y1,
            z1,
            grid_data::volume(sides, 3),
        ),
        sides[0] * sides[1] == grid_data::volume(sides, 2),
{
    reveal_with_fuel(grid_data::volume, 4);
    let w = sides[0] as int;
    let h = sides[1] as int;
    let d = sides[2] as int;
    assert(1 * w == w);
    assert(0 <= y1 * w <= w * h) by (nonlinear_arith)
        requires
            0 <= y1 <= h,
            0 <= w,
    ;
    assert(z1 * (w * h) <= (w * h) * d) by (nonlinear_arith)
        requires
            z1 <= d,
            0 <= w * h,
    ;
}

/// Every band of a slab of `depth` slices holds all of its samples.
pub open spec fn slab_shaped<T>(
    cfg: InterpolationConfig,
    ends: Seq<u32>,
    depth: int,
    blocks: Seq<BlockTrace<T>>,
) -> bool {
    &&& blocks.len() == ends.len()
    &&& forall|k: int|
        0 <= k < blocks.len() ==> blending::block_shaped(
            cfg,
            ends[k] - cells::run_start(ends, k),
            depth,
            #[trigger] blocks[k],
        )
}

/// Every slab of a solid is complete.
pub open spec fn solid_shaped<T>(
    cfg: InterpolationConfig,
    y_ends: Seq<u32>,
    z_ends: Seq<u32>,
    slabs: Seq<Seq<BlockTrace<T>>>,
) -> bool {
    &&& slabs.len() == z_ends.len()
    &&& forall|k: int|
        0 <= k < slabs.len() ==> slab_shaped(
            cfg,
            y_ends,
            z_ends[k] - cells::run_start(z_ends, k),
            #[trigger] slabs[k],
        )
}

/// The first bands of a slab go over each of their samples once.
proof fn lemma_slab_cover<T>(
    cfg: InterpolationConfig,
    width: int,
    height: int,
    ends: Seq<u32>,
    z0: int,
    z1: int,
    blocks: Seq<BlockTrace<T>>,
    count: int,
    z: int,
    y: int,
    s: int,
)
    requires
        cfg.wf(width),
        cells::cuts(ends, height),
        z0 <= z1,
        slab_shaped(cfg, ends, z1 - z0, blocks),
        0 <= count <= ends.len(),
        0 <= s < width,
        0 <= y < height,
    ensures
        combine::cover_count(
            slab_writes(cfg, width * height, width, ends, z0, blocks, count),
            z * (width * height) + y * width + s,
        ) == (if z0 <= z < z1 && y < cells::run_start(ends, count) {
            1int
        } else {
            0int
        }),
    decreases count,
{
    if count > 0 {
        let k = count - 1;
        bands::lemma_band_inside(ends, height, k);
        lemma_slab_cover(cfg, width, height, ends, z0, z1, blocks, k, z, y, s);
        let y0 = cells::run_start(ends, k);
        let y1 = ends[k] as int;
        blending::lemma_block_cover(
            cfg,
            height,
            width,
            y0,
            y1 - y0,
            z0,
            z1 - z0,
            blocks[k],
            z,
            y,
            s,
        );
        combine::lemma_cover_concat(
            slab_writes(cfg, width * height, width, ends, z0, blocks, k),
            blending::block_writes(cfg, width * height, width, y0, y1 - y0, z0, blocks[k]),
            z * (width * height) + y * width + s,
        );
    }
}

/// The first slabs go over each of their samples once.
proof fn lemma_solid_cover<T>(
    cfg: InterpolationConfig,
    width: int,
    height: int,
    depth: int,
    y_ends: Seq<u32>,
    z_ends: Seq<u32>,
    slabs: Seq<Seq<BlockTrace<T>>>,
    count: int,
    z: int,
    y: int,
    s: int,
)
    requires
        cfg.wf(width),
        cells::cuts(y_ends, height),
        cells::cuts(z_ends, depth),
        solid_shaped(cfg, y_ends, z_ends, slabs),
        0 <= count <= z_ends.len(),
        0 <= s < width,
        0 <= y < height,
        0 <= z,
    ensures
        combine::cover_count(
            solid_writes(cfg, width * height, width, y_ends, z_ends, slabs, count),
            z * (width * height) + y * width + s,
        ) == (if z < cells::run_start(z_ends, count) {
            1int
        } else {
            0int
        }),
    decreases count,
{
    if count > 0 {
        let k = count - 1;
        bands::lemma_band_inside(z_ends, depth, k);
        lemma_solid_cover(
            cfg,
            width,
            height,
            depth,
            y_ends,
            z_ends,
            slabs,
            k,
            z,
            y,
            s,
        );
        let z0 = cells::run_start(z_ends, k);
        let z1 = z_ends[k] as int;
        let bands = y_ends.len() as int;
        lemma_slab_cover(cfg, width, height, y_ends, z0, z1, slabs[k], bands, z, y, s);
        bands::lemma_band_inside(y_ends, height, bands - 1);
        combine::lemma_cover_concat(
            solid_writes(cfg, width * height, width, y_ends, z_ends, slabs, k),
            slab_writes(cfg, width * height, width, y_ends, z0, slabs[k], bands),
            z * (width * height) + y * width + s,
        );
    }
}

/// A solid writes every one of its samples exactly once.
pub proof fn law_every_sample_written_once<T>(
    cfg: InterpolationConfig,
    width: int,
    height: int,
    depth: int,
    y_ends: Seq<u32>,
    z_ends: Seq<u32>,
    slabs: Seq<Seq<BlockTrace<T>>>,
    n: int,
)
    requires
        cfg.wf(width),
        0 <= width,
        0 <= height,
        cells::cuts(y_ends, height),
        cells::cuts(z_ends, depth),
        solid_shaped(cfg, y_ends, z_ends, slabs),
        0 <= n < (width * height) * depth,
    ensures
        combine::cover_count(
            solid_writes(
                cfg,
                width * height,
                width,
                y_ends,
                z_ends,
                slabs,
                z_ends.len() as int,
            ),
            n,
        ) == 1,
{
    assert(0 <= width * height) by (nonlinear_arith)
        requires
            0 <= width,
            0 <= height,
    ;
    let (z, rest) = bands::lemma_place(width * height, depth, n);
    let (y, s) = bands::lemma_place(width, height, rest);
    let count = z_ends.len() as int;
    lemma_solid_cover(cfg, width, height, depth, y_ends, z_ends, slabs, count, z, y, s);
    if count > 0 {
        bands::lemma_band_inside(z_ends, depth, count - 1);
    }
}

/// The first bands of a slab lie in the output.
proof fn lemma_slab_fits_output<T>(
    layout: combine::Layout,
    cfg: InterpolationConfig,
    width: int,
    height: int,
    depth: int,
    ends: Seq<u32>,
    z0: int,
    z1: int,
    blocks: Seq<BlockTrace<T>>,
    count: int,
)
    requires
        cfg.wf(width),
        width >= 0,
        height >= 0,
        cells::cuts(ends, height),
        0 <= z0 <= z1 <= depth,
        slab_shaped(cfg, ends, z1 - z0, blocks),
        0 <= count <= ends.len(),
        layout.total_size == (width * height) * depth,
    ensures
        combine::all_fit(
            layout,
            cfg.lanes as int,
            slab_writes(cfg, width * height, width, ends, z0, blocks, count),
        ),
    decreases count,
{
    if count > 0 {
        let k = count - 1;
        bands::lemma_band_inside(ends, height, k);
        lemma_slab_fits_output(layout, cfg, width, height, depth, ends, z0, z1, blocks, k);
        let y0 = cells::run_start(ends, k);
        let y1 = ends[k] as int;
        let plane = width * height;
        assert(0 <= y1 * width <= plane) by (nonlinear_arith)
            requires
                0 <= y1 <= height,
                0 <= width,
                plane == width * height,
        ;
        assert(z1 * plane <= plane * depth) by (nonlinear_arith)
            requires
                z1 <= depth,
                0 <= plane,
        ;
        blending::lemma_block_fits(
            layout,
            cfg,
            plane,
            width,
            y0,
            y1 - y0,
            z0,
            z1 - z0,
            blocks[k],
        );
        combine::lemma_fit_concat(
            layout,
            cfg.lanes as int,
            slab_writes(cfg, plane, width, ends, z0, blocks, k),
            blending::block_writes(cfg, plane, width, y0, y1 - y0, z0, blocks[k]),
        );
    }
}

/// The first slabs lie in the output.
proof fn lemma_solid_fits_output<T>(
    layout: combine::Layout,
    cfg: InterpolationConfig,
    width: int,
    height: int,
    depth: int,
    y_ends: Seq<u32>,
    z_ends: Seq<u32>,
    slabs: Seq<Seq<BlockTrace<T>>>,
    count: int,
)
    requires
        cfg.wf(width),
        width >= 0,
        height >= 0,
        cells::cuts(y_ends, height),
        cells::cuts(z_ends, depth),
        solid_shaped(cfg, y_ends, z_ends, slabs),
        0 <= count <= z_ends.len(),
        layout.total_size == (width * height) * depth,
    ensures
        combine::all_fit(
            layout,
            cfg.lanes as int,
            solid_writes(cfg, width * height, width, y_ends, z_ends, slabs, count),
        ),
    decreases count,
{
    if count > 0 {
        let k = count - 1;
        bands::lemma_band_inside(z_ends, depth, k);
        lemma_solid_fits_output(
            layout,
            cfg,
            width,
            height,
            depth,
            y_ends,
            z_ends,
            slabs,
            k,
        );
        let z0 = cells::run_start(z_ends, k);
        let z1 = z_ends[k] as int;
        let bands = y_ends.len() as int;
        lemma_slab_fits_output(
            layout,
            cfg,
            width,
            height,
            depth,
            y_ends,
            z0,
            z1,
            slabs[k],
            bands,
        );
        combine::lemma_fit_concat(
            layout,
            cfg.lanes as int,
            solid_writes(cfg, width * height, width, y_ends, z_ends, slabs, k),
            slab_writes(cfg, width * height, width, y_ends, z0, slabs[k], bands),
        );
    }
}

/// A solid that was filled holds, at every sample, what the combiner makes of
/// the one register that holds the sample and of what the buffers held there
/// before.
pub proof fn law_every_sample_combined_once<T, I, P, F>(
    sink: Sink<I, P, F>,
    cfg: InterpolationConfig,
    width: int,
    height: int,
    depth: int,
    y_ends: Seq<u32>,
    z_ends: Seq<u32>,
    slabs: Seq<Seq<BlockTrace<T>>>,
    before: (Seq<T>, Seq<T>),
    after: (Seq<T>, Seq<T>),
    n: int,
) where
    I: Fn(Vec<T>) -> (Vec<Vec<T>>, Vec<T>),
    P: Fn(Vec<Vec<T>>, Vec<T>, Vec<T>) -> (Vec<Vec<T>>, Vec<T>),
    F: Fn(Vec<Vec<T>>, Vec<T>) -> Vec<T>,

    requires
        cfg.wf(width),
        width >= 0,
        height >= 0,
        cells::cuts(y_ends, height),
        cells::cuts(z_ends, depth),
        solid_shaped(cfg, y_ends, z_ends, slabs),
        sink.layout.total_size == (width * height) * depth,
        sink.wf::<T>(cfg.lanes as int, before.0.len() as int, before.1.len() as int),
        sink.takes(
            solid_writes(
                cfg,
                width * height,
                width,
                y_ends,
                z_ends,
                slabs,
                z_ends.len() as int,
            ),
            before,
            after,
        ),
        0 <= n < (width * height) * depth,
    ensures
        combine::combined_at(
            *sink.combiner,
            sink.pass,
            sink.layout,
            solid_writes(
                cfg,
                width * height,
                width,
                y_ends,
                z_ends,
                slabs,
                z_ends.len() as int,
            ),
            before,
            after,
            n,
        ),
{
    let count = z_ends.len() as int;
    let writes = solid_writes(cfg, width * height, width, y_ends, z_ends, slabs, count);
    lemma_solid_fits_output(
        sink.layout,
        cfg,
        width,
        height,
        depth,
        y_ends,
        z_ends,
        slabs,
        count,
    );
    assert forall|m: int| 0 <= m < sink.layout.total_size implies #[trigger] combine::cover_count(
        writes,
        m,
    ) == 1 by {
        law_every_sample_written_once(cfg, width, height, depth, y_ends, z_ends, slabs, m);
    }
    combine::law_samples_are_combined_once(
        *sink.combiner,
        sink.pass,
        sink.layout,
        cfg.lanes as int,
        writes,
        before,
        after,
        n,
    );
}

/// The number of samples of a solid.
pub(crate) proof fn lemma_solid_volume(sides: Seq<usize>)
    requires
        sides.len() == 3,
    ensures
        grid_data::volume(sides, 3) == (sides[0] * sides[1]) * sides[2],
{
    reveal_with_fuel(grid_data::volume, 4);
    assert(1 * sides[0] == sides[0]);
}

/// Bands that write the same make slabs that write the same.
proof fn lemma_slab_agrees<T>(
    cfg: InterpolationConfig,
    plane: int,
    width: int,
    ends: Seq<u32>,
    z0: int,
    blocks: Seq<BlockTrace<T>>,
    others: Seq<BlockTrace<T>>,
    count: int,
)
    requires
        0 <= count,
        blocks_agree(cfg, plane, width, ends, z0, blocks, others, count),
    ensures
        slab_writes(cfg, plane, width, ends, z0, blocks, count) == slab_writes(
            cfg,
            plane,
            width,
            ends,
            z0,
            others,
            count,
        ),
    decreases count,
{
    if count > 0 {
        lemma_slab_agrees(cfg, plane, width, ends, z0, blocks, others, count - 1);
        let last = blocks[count - 1];
    }
}

/// The first bands of two slabs write the same.
pub(crate) open spec fn blocks_agree<T>(
    cfg: InterpolationConfig,
    plane: int,
    width: int,
    ends: Seq<u32>,
    z0: int,
    blocks: Seq<BlockTrace<T>>,
    others: Seq<BlockTrace<T>>,
    count: int,
) -> bool {
    forall|k: int|
        0 <= k < count ==> ({
            let y0 = cells::run_start(ends, k);
            let height = ends[k] - y0;
            blending::block_writes(cfg, plane, width, y0, height, z0, #[trigger] blocks[k])
                == blending::block_writes(cfg, plane, width, y0, height, z0, others[k])
        })
}

/// Slabs that write the same make solids that write the same.
pub(crate) proof fn lemma_solid_agrees<T>(
    cfg: InterpolationConfig,
    plane: int,
    width: int,
    y_ends: Seq<u32>,
    z_ends: Seq<u32>,
    slabs: Seq<Seq<BlockTrace<T>>>,
    others: Seq<Seq<BlockTrace<T>>>,
    count: int,
)
    requires
        0 <= count,
        forall|z: int|
            0 <= z < count ==> blocks_agree(
                cfg,
                plane,
                width,
                y_ends,
                cells::run_start(z_ends, z),
                #[trigger] slabs[z],
                others[z],
                y_ends.len() as int,
            ),
    ensures
        solid_writes(cfg, plane, width, y_ends, z_ends, slabs, count) == solid_writes(
            cfg,
            plane,
            width,
            y_ends,
            z_ends,
            others,
            count,
        ),
    decreases count,
{
    if count > 0 {
        let z = count - 1;
        lemma_solid_agrees(cfg, plane, width, y_ends, z_ends, slabs, others, z);
        let a = slabs[z];
        let z0 = cells::run_start(z_ends, z);
        lemma_slab_agrees(cfg, plane, width, y_ends, z0, a, others[z], y_ends.len() as int);
    }
}

/// The first octave forgets the buffers: two runs that fill a solid with the same
/// values, through a determined combiner, leave the same, whatever the buffers
/// held before.
pub proof fn law_first_octave_forgets_buffers<T, I, P, F>(
    sink: Sink<I, P, F>,
    cfg: InterpolationConfig,
    width: int,
    height: int,
    depth: int,
    y_ends: Seq<u32>,
    z_ends: Seq<u32>,
    slabs: Seq<Seq<BlockTrace<T>>>,
    before: (Seq<T>, Seq<T>),
    after: (Seq<T>, Seq<T>),
    other_before: (Seq<T>, Seq<T>),
    other_after: (Seq<T>, Seq<T>),
) where
    I: Fn(Vec<T>) -> (Vec<Vec<T>>, Vec<T>),
    P: Fn(Vec<Vec<T>>, Vec<T>, Vec<T>) -> (Vec<Vec<T>>, Vec<T>),
    F: Fn(Vec<Vec<T>>, Vec<T>) -> Vec<T>,

    requires
        sink.pass.init,
        sink.combiner.determined::<T>(),
        cfg.wf(width),
        width >= 0,
        height >= 0,
        cells::cuts(y_ends, height),
        cells::cuts(z_ends, depth),
        solid_shaped(cfg, y_ends, z_ends, slabs),
        sink.layout.total_size == (width * height) * depth,
        sink.wf::<T>(cfg.lanes as int, before.0.len() as int, before.1.len() as int),
        sink.wf::<T>(cfg.lanes as int, other_before.0.len() as int, other_before.1.len() as int),
        sink.takes(
            solid_writes(
                cfg,
                width * height,
                width,
                y_ends,
                z_ends,
                slabs,
                z_ends.len() as int,
            ),
            before,
            after,
        ),
        sink.takes(
            solid_writes(
                cfg,
                width * height,
                width,
                y_ends,
                z_ends,
                slabs,
                z_ends.len() as int,
            ),
            other_before,
            other_after,
        ),
    ensures
        sink.leaves_alike(before, after, other_before, other_after),
{
    let count = z_ends.len() as int;
    let writes = solid_writes(cfg, width * height, width, y_ends, z_ends, slabs, count);
    lemma_solid_fits_output(
        sink.layout,
        cfg,
        width,
        height,
        depth,
        y_ends,
        z_ends,
        slabs,
        count,
    );
    assert forall|n: int| 0 <= n < sink.layout.total_size implies combine::cover_count(
        writes,
        n,
    ) == 1 by {
        law_every_sample_written_once(cfg, width, height, depth, y_ends, z_ends, slabs, n);
    }
    combine::law_filled_output_forgets_buffers(
        sink,
        cfg.lanes as int,
        writes,
        before,
        after,
        other_before,
        other_after,
    );
}

} // verus!

//! Bands of rows, and what a whole grid writes.
//!
//! The rows of a plane that lie in the same row of lattice cells form a band.
//! A grid is filled band after band.

use crate::blending;
use crate::blending::BandTrace;
use crate::cells;
use crate::columns;
use crate::combine;
use crate::combine::Sink;
use crate::grid_data;
use crate::grid_data::GridDataLerp;
use crate::hash;
use crate::interpolation::InterpolationConfig;
use crate::tiling;
use vstd::arithmetic::div_mod::*;
use vstd::prelude::*;

verus! {

/// The hash of lattice row `y_it` of a grid.
pub open spec fn row_hash<T>(grid_data: GridDataLerp<T, 2>, seed: u32, y_it: int) -> u32 {
    hash::axis_hash(
        tiling::tiled(grid_data.grid_start[1] + y_it, grid_data.octave_tiling[1]),
        seed,
    )
}

/// The hashes of the rows of a tiled plane repeat after one period.
pub proof fn law_row_hashes_tile<T>(
    grid_data: GridDataLerp<T, 2>,
    seed: u32,
    t: u32,
    y_it: int,
)
    requires
        grid_data.octave_tiling[1] == Some(t),
        t as i32 != 0,
    ensures
        row_hash(grid_data, seed, y_it + (t as i32)) == row_hash(grid_data, seed, y_it),
{
    tiling::lemma_tiled_periodic(grid_data.grid_start[1] + y_it, t);
    assert(grid_data.grid_start[1] + (y_it + (t as i32)) == grid_data.grid_start[1] + y_it + (
    t as i32));
}

/// A row is hashed by its coordinate: by the one that stands for its place on the
/// axis, whatever the sign of that place.
pub proof fn law_row_hash_goes_by_place<T>(
    grid_data: GridDataLerp<T, 2>,
    seed: u32,
    y_it: int,
    c: int,
)
    requires
        tiling::stands_for(c, grid_data.grid_start[1] + y_it, grid_data.octave_tiling[1]),
    ensures
        row_hash(grid_data, seed, y_it) == hash::axis_hash(c, seed),
{
    tiling::lemma_stands_for(
        c,
        grid_data.grid_start[1] + y_it,
        grid_data.octave_tiling[1],
        seed,
    );
}

/// Under an odd seed the rows of a plane are told apart: two of them share a hash
/// exactly where they lie a multiple of the period apart, or of 2^32 where the
/// axis is not tiled.
pub proof fn law_row_hashes_tell_rows_apart<T>(
    grid_data: GridDataLerp<T, 2>,
    seed: u32,
    a: int,
    b: int,
    period: int,
)
    requires
        seed % 2 == 1,
        match grid_data.octave_tiling[1] {
            None => period == 0x1_0000_0000,
            Some(t) => 0 < t && period == (if t < 0x8000_0000 {
                t as int
            } else {
                0x1_0000_0000 - t
            }),
        },
    ensures
        row_hash(grid_data, seed, a) == row_hash(grid_data, seed, b) <==> (a - b) % period == 0,
{
    let start = grid_data.grid_start[1];
    let axis = grid_data.octave_tiling[1];
    let c = tiling::tiled(start + a, axis);
    let d = tiling::tiled(start + b, axis);
    assert(start + a - (start + b) == a - b);
    hash::law_axis_hash_tells_coordinates_apart(c, d, seed);
    tiling::lemma_tiled_stands(start + a, axis);
    tiling::lemma_tiled_stands(start + b, axis);
    if let Some(t) = axis {
        tiling::law_tiled_coincide(start + a, start + b, t, period);
    }
}

/// Where the rows are not tiled, to go `m` times as far along them is to take `m`
/// times the seed, for negative `m` too, wherever the grids start.
pub proof fn law_row_hashes_scale<T>(
    grid_data: GridDataLerp<T, 2>,
    other: GridDataLerp<T, 2>,
    seed: u32,
    scaled: u32,
    m: int,
    a: int,
    b: int,
)
    requires
        grid_data.octave_tiling[1] is None,
        other.octave_tiling[1] is None,
        (scaled - m * seed as int) % 0x1_0000_0000 == 0,
        other.grid_start[1] + b == m * (grid_data.grid_start[1] + a),
    ensures
        row_hash(other, seed, b) == row_hash(grid_data, scaled, a),
{
    hash::law_axis_hash_scales(grid_data.grid_start[1] + a, m, seed, scaled);
}

/// What the hashes of a grid need: periods that can be divided by, and rows
/// that stay in the range of lattice coordinates.
pub open spec fn hashable<T>(grid_data: GridDataLerp<T, 2>, rows: int) -> bool {
    &&& columns::positive(grid_data.octave_tiling[0])
    &&& tiling::divides(grid_data.octave_tiling[1])
    &&& rows <= i32::MAX
    &&& grid_data.grid_start[1] + rows <= i32::MAX
}

/// What the first `count` bands of a plane write. `ends` says where each band
/// ends, `bands` holds the values of each.
pub open spec fn plane_writes<T>(
    cfg: InterpolationConfig,
    width: int,
    ends: Seq<u32>,
    bands: Seq<BandTrace<T>>,
    count: int,
) -> Seq<combine::Write<T>>
    decreases count,
{
    if count <= 0 {
        seq![]
    } else {
        plane_writes(cfg, width, ends, bands, count - 1) + blending::band_writes(
            cfg,
            0,
            width,
            cells::run_start(ends, count - 1),
            ends[count - 1] - cells::run_start(ends, count - 1),
            bands[count - 1],
        )
    }
}

/// Further bands do not change what the first ones write.
pub(crate) proof fn lemma_plane_writes_prefix<T>(
    cfg: InterpolationConfig,
    width: int,
    ends: Seq<u32>,
    bands: Seq<BandTrace<T>>,
    longer: Seq<BandTrace<T>>,
    count: int,
)
    requires
        count <= bands.len(),
        bands.len() <= longer.len(),
        forall|k: int| 0 <= k < bands.len() ==> bands[k] == longer[k],
    ensures
        plane_writes(cfg, width, ends, bands, count) == plane_writes(
            cfg,
            width,
            ends,
            longer,
            count,
        ),
    decreases count,
{
    if count > 0 {
        lemma_plane_writes_prefix(cfg, width, ends, bands, longer, count - 1);
    }
}

/// A band lies inside its plane.
pub(crate) proof fn lemma_band_inside(ends: Seq<u32>, n: int, k: int)
    requires
        cells::cuts(ends, n),
        0 <= k < ends.len(),
    ensures
        0 <= cells::run_start(ends, k) < ends[k] <= n,
        k + 1 < ends.len() ==> cells::run_start(ends, k + 1) == ends[k],
        k + 1 == ends.len() ==> ends[k] == n,
{
}

/// The number of samples of a plane.
pub(crate) proof fn lemma_plane_volume(sides: Seq<usize>)
    requires
        sides.len() == 2,
    ensures
        grid_data::volume(sides, 2) == sides[1] * sides[0],
{
    reveal_with_fuel(grid_data::volume, 3);
    assert(1 * sides[0] == sides[0]);
    assert(sides[0] * sides[1] == sides[1] * sides[0]) by (nonlinear_arith);
}

/// The rows before `y1` of a plane fit its samples.
pub(crate) proof fn lemma_rows_fit(sides: Seq<usize>, y1: int)
    requires
        sides.len() == 2,
        0 <= y1 <= sides[1],
    ensures
        blending::plane_fits(0, sides[0] as int, y1, grid_data::volume(sides, 2)),
{
    lemma_plane_volume(sides);
    let w = sides[0] as int;
    let h = sides[1] as int;
    assert(y1 * w <= h * w) by (nonlinear_arith)
        requires
            y1 <= h,
            0 <= w,
    ;
}

/// Every band holds all of its samples.
pub open spec fn bands_shaped<T>(
    cfg: InterpolationConfig,
    ends: Seq<u32>,
    bands: Seq<BandTrace<T>>,
) -> bool {
    &&& bands.len() == ends.len()
    &&& forall|k: int|
        0 <= k < bands.len() ==> blending::band_shaped(
            cfg,
            ends[k] - cells::run_start(ends, k),
            #[trigger] bands[k],
        )
}

/// The first bands go over each of their samples once.
proof fn lemma_plane_cover<T>(
    cfg: InterpolationConfig,
    width: int,
    height: int,
    ends: Seq<u32>,
    bands: Seq<BandTrace<T>>,
    count: int,
    y: int,
    s: int,
)
    requires
        cfg.wf(width),
        cells::cuts(ends, height),
        bands_shaped(cfg, ends, bands),
        0 <= count <= ends.len(),
        0 <= s < width,
        0 <= y,
    ensures
        combine::cover_count(plane_writes(cfg, width, ends, bands, count), y * width + s) == (if y
            < cells::run_start(ends, count) {
            1int
        } else {
            0int
        }),
    decreases count,
{
    if count > 0 {
        let k = count - 1;
        lemma_band_inside(ends, height, k);
        lemma_plane_cover(cfg, width, height, ends, bands, k, y, s);
        let y0 = cells::run_start(ends, k);
        blending::lemma_band_cover(cfg, 0, width, y0, ends[k] - y0, bands[k], y, s);
        combine::lemma_cover_concat(
            plane_writes(cfg, width, ends, bands, k),
            blending::band_writes(cfg, 0, width, y0, ends[k] - y0, bands[k]),
            y * width + s,
        );
    }
}

/// A plane writes every one of its samples exactly once.
pub proof fn law_every_sample_written_once<T>(
    cfg: InterpolationConfig,
    width: int,
    height: int,
    ends: Seq<u32>,
    bands: Seq<BandTrace<T>>,
    n: int,
)
    requires
        cfg.wf(width),
        cells::cuts(ends, height),
        bands_shaped(cfg, ends, bands),
        0 <= n < width * height,
    ensures
        combine::cover_count(plane_writes(cfg, width, ends, bands, ends.len() as int), n) == 1,
{
    let (y, s) = lemma_place(width, height, n);
    lemma_plane_cover(cfg, width, height, ends, bands, ends.len() as int, y, s);
    if ends.len() > 0 {
        lemma_band_inside(ends, height, ends.len() - 1);
    }
}

/// The first bands lie in the output.
proof fn lemma_plane_fits_output<T>(
    layout: combine::Layout,
    cfg: InterpolationConfig,
    width: int,
    height: int,
    ends: Seq<u32>,
    bands: Seq<BandTrace<T>>,
    count: int,
)
    requires
        cfg.wf(width),
        width >= 0,
        cells::cuts(ends, height),
        bands_shaped(cfg, ends, bands),
        0 <= count <= ends.len(),
        layout.total_size == width * height,
    ensures
        combine::all_fit(layout, cfg.lanes as int, plane_writes(cfg, width, ends, bands, count)),
    decreases count,
{
    if count > 0 {
        let k = count - 1;
        lemma_band_inside(ends, height, k);
        lemma_plane_fits_output(layout, cfg, width, height, ends, bands, k);
        let y0 = cells::run_start(ends, k);
        let y1 = ends[k] as int;
        assert(0 <= y1 * width <= width * height) by (nonlinear_arith)
            requires
                0 <= y1 <= height,
                0 <= width,
        ;
        blending::lemma_band_fits(layout, cfg, 0, width, y0, y1 - y0, bands[k]);
        combine::lemma_fit_concat(
            layout,
            cfg.lanes as int,
            plane_writes(cfg, width, ends, bands, k),
            blending::band_writes(cfg, 0, width, y0, y1 - y0, bands[k]),
        );
    }
}

/// A plane that was filled holds, at every sample, what the combiner makes of
/// the one register that holds the sample and of what the buffers held there
/// before.
pub proof fn law_every_sample_combined_once<T, I, P, F>(
    sink: Sink<I, P, F>,
    cfg: InterpolationConfig,
    width: int,
    height: int,
    ends: Seq<u32>,
    bands: Seq<BandTrace<T>>,
    before: (Seq<T>, Seq<T>),
    after: (Seq<T>, Seq<T>),
    n: int,
) where
    I: Fn(Vec<T>) -> (Vec<Vec<T>>, Vec<T>),
    P: Fn(Vec<Vec<T>>, Vec<T>, Vec<T>) -> (Vec<Vec<T>>, Vec<T>),
    F: Fn(Vec<Vec<T>>, Vec<T>) -> Vec<T>,

    requires
        cfg.wf(width),
        width >= 0,
        cells::cuts(ends, height),
        bands_shaped(cfg, ends, bands),
        sink.layout.total_size == width * height,
        sink.wf::<T>(cfg.lanes as int, before.0.len() as int, before.1.len() as int),
        sink.takes(plane_writes(cfg, width, ends, bands, ends.len() as int), before, after),
        0 <= n < width * height,
    ensures
        combine::combined_at(
            *sink.combiner,
            sink.pass,
            sink.layout,
            plane_writes(cfg, width, ends, bands, ends.len() as int),
            before,
            after,
            n,
        ),
{
    let writes = plane_writes(cfg, width, ends, bands, ends.len() as int);
    lemma_plane_fits_output(sink.layout, cfg, width, height, ends, bands, ends.len() as int);
    assert forall|m: int| 0 <= m < sink.layout.total_size implies #[trigger] combine::cover_count(
        writes,
        m,
    ) == 1 by {
        law_every_sample_written_once(cfg, width, height, ends, bands, m);
    }
    combine::law_samples_are_combined_once(
        *sink.combiner,
        sink.pass,
        sink.layout,
        cfg.lanes as int,
        writes,
        before,
        after,
        n,
    );
}

/// Bands that write the same make planes that write the same.
pub(crate) proof fn lemma_plane_agrees<T>(
    cfg: InterpolationConfig,
    width: int,
    ends: Seq<u32>,
    bands: Seq<BandTrace<T>>,
    others: Seq<BandTrace<T>>,
    count: int,
)
    requires
        forall|k: int|
            0 <= k < count ==> ({
                let y0 = cells::run_start(ends, k);
                blending::band_writes(cfg, 0, width, y0, ends[k] - y0, #[trigger] bands[k])
                    == blending::band_writes(cfg, 0, width, y0, ends[k] - y0, others[k])
            }),
        0 <= count,
    ensures
        plane_writes(cfg, width, ends, bands, count) == plane_writes(
            cfg,
            width,
            ends,
            others,
            count,
        ),
    decreases count,
{
    if count > 0 {
        lemma_plane_agrees(cfg, width, ends, bands, others, count - 1);
        let last = bands[count - 1];
    }
}

/// The first octave forgets the buffers: two runs that fill a plane with the same
/// values, through a determined combiner, leave the same, whatever the buffers
/// held before.
pub proof fn law_first_octave_forgets_buffers<T, I, P, F>(
    sink: Sink<I, P, F>,
    cfg: InterpolationConfig,
    width: int,
    height: int,
    ends: Seq<u32>,
    bands: Seq<BandTrace<T>>,
    before: (Seq<T>, Seq<T>),
    after: (Seq<T>, Seq<T>),
    other_before: (Seq<T>, Seq<T>),
    other_after: (Seq<T>, Seq<T>),
) where
    I: Fn(Vec<T>) -> (Vec<Vec<T>>, Vec<T>),
    P: Fn(Vec<Vec<T>>, Vec<T>, Vec<T>) -> (Vec<Vec<T>>, Vec<T>),
    F: Fn(Vec<Vec<T>>, Vec<T>) -> Vec<T>,

    requires
        sink.pass.init,
        sink.combiner.determined::<T>(),
        cfg.wf(width),
        width >= 0,
        cells::cuts(ends, height),
        bands_shaped(cfg, ends, bands),
        sink.layout.total_size == width * height,
        sink.wf::<T>(cfg.lanes as int, before.0.len() as int, before.1.len() as int),
        sink.wf::<T>(cfg.lanes as int, other_before.0.len() as int, other_before.1.len() as int),
        sink.takes(plane_writes(cfg, width, ends, bands, ends.len() as int), before, after),
        sink.takes(
            plane_writes(cfg, width, ends, bands, ends.len() as int),
            other_before,
            other_after,
        ),
    ensures
        sink.leaves_alike(before, after, other_before, other_after),
{
    let writes = plane_writes(cfg, width, ends, bands, ends.len() as int);
    lemma_plane_fits_output(sink.layout, cfg, width, height, ends, bands, ends.len() as int);
    assert forall|n: int| 0 <= n < sink.layout.total_size implies combine::cover_count(
        writes,
        n,
    ) == 1 by {
        law_every_sample_written_once(cfg, width, height, ends, bands, n);
    }
    combine::law_filled_output_forgets_buffers(
        sink,
        cfg.lanes as int,
        writes,
        before,
        after,
        other_before,
        other_after,
    );
}

/// The row and the column of a sample of a plane.
pub(crate) proof fn lemma_place(width: int, height: int, n: int) -> (r: (int, int))
    requires
        0 <= width,
        0 <= n < width * height,
    ensures
        n == r.0 * width + r.1,
        0 <= r.1 < width,
        0 <= r.0 < height,
{
    assert(width > 0) by (nonlinear_arith)
        requires
            0 <= width,
            0 < width * height,
    ;
    let y = n / width;
    let s = n % width;
    lemma_fundamental_div_mod(n, width);
    lemma_mod_bound(n, width);
    lemma_div_pos_is_pos(n, width);
    assert(y * width == width * y) by (nonlinear_arith);
    assert(y < height) by (nonlinear_arith)
        requires
            width * y <= n,
            n < width * height,
            width > 0,
    ;
    (y, s)
}

} // verus!

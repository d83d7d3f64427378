//! What one register of samples goes through.
//!
//! The samples of a row are taken a register at a time. The rows of a band
//! are blended one after the other, and what a register carries from row to row
//! is its own.

use crate::bands;
use crate::blending;
use crate::blending::{BandTrace, BlockTrace, GroupTrace, Kernels};
use crate::cells;
use crate::combine;
use crate::grid_data::GridDataLerp;
use crate::interpolation;
use crate::interpolation::InterpolationConfig;
use crate::slabs;
use vstd::arithmetic::div_mod::*;
use vstd::prelude::*;

verus! {

/// The values of the register of `len` samples at column `x` in as many rows as
/// there are values, from row `y0` on. Its factors are prepared once, at `at`;
/// each row is blended from the factors that the row before it left.
pub open spec fn register_blended<T, G, X, const D: usize, A, B>(
    k: Kernels<A, B>,
    grid_data: GridDataLerp<T, D>,
    source: G,
    at: int,
    x: int,
    len: int,
    y0: int,
    values: Seq<Vec<T>>,
    factors: Seq<X>,
) -> bool where
    A: Fn(&GridDataLerp<T, D>, &G, usize, usize, usize) -> X,
    B: Fn(&GridDataLerp<T, D>, &X, usize, usize) -> (Vec<T>, X),
 {
    &&& factors.len() == values.len() + 1
    &&& k.prepare.ensures(
        (&grid_data, &source, at as usize, x as usize, len as usize),
        factors[0],
    )
    &&& forall|r: int|
        0 <= r < values.len() ==> k.blend.ensures(
            (&grid_data, &factors[r], (y0 + r) as usize, len as usize),
            (#[trigger] values[r], factors[r + 1]),
        )
}

/// A register is prepared at its own columns, and blended in one row after the
/// other: row `y0 + r` takes the factors that row `y0 + r - 1` left, and the first
/// row those that were prepared.
pub proof fn law_register_goes_row_by_row<T, G, X, const D: usize, A, B>(
    k: Kernels<A, B>,
    grid_data: GridDataLerp<T, D>,
    source: G,
    at: usize,
    x: usize,
    len: usize,
    y0: int,
    values: Seq<Vec<T>>,
    factors: Seq<X>,
    r: int,
    y: usize,
) where
    A: Fn(&GridDataLerp<T, D>, &G, usize, usize, usize) -> X,
    B: Fn(&GridDataLerp<T, D>, &X, usize, usize) -> (Vec<T>, X),

    requires
        register_blended::<T, G, X, D, A, B>(
            k,
            grid_data,
            source,
            at as int,
            x as int,
            len as int,
            y0,
            values,
            factors,
        ),
        0 <= r < values.len(),
        y == y0 + r,
    ensures
        k.prepare.ensures((&grid_data, &source, at, x, len), factors[0]),
        k.blend.ensures((&grid_data, &factors[r], y, len), (values[r], factors[r + 1])),
{
    let value = values[r];
}

/// The register that holds a column: registers begin at the multiples of the
/// lanes, and only the last of a row may be short.
pub(crate) proof fn lemma_register_of(cfg: InterpolationConfig, width: int, s: int) -> (r: (
    bool,
    int,
    int,
))
    requires
        cfg.wf(width),
        0 <= s < width,
    ensures
        ({
            let (tail, m, b) = r;
            let x = interpolation::first_group(cfg, tail) + m * cfg.block_lanes + b * cfg.lanes;
            let len = cfg.block_len(tail, b);
            &&& 0 <= m < interpolation::group_count(cfg, tail)
            &&& 0 <= b < cfg.blocks(tail)
            &&& 0 <= x <= s < x + len <= width
            &&& x % (cfg.lanes as int) == 0
            &&& len == cfg.lanes || (len < cfg.lanes && x + len == width)
        }),
{
    interpolation::law_every_column_in_one_block(cfg, width, s);
    let (tail, g, b) = choose|tail: bool, g: int, b: int| cfg.holds(tail, g, b, s);
    assert(cfg.holds(tail, g, b, s));
    cfg.lemma_block_inside(width, tail, g, b);
    interpolation::lemma_strip_is_full(cfg, width);
    interpolation::lemma_group_inside(cfg, width, tail, g);
    let l = cfg.lanes as int;
    let n = cfg.num_blocks as int;
    let bl = cfg.block_lanes as int;
    assert(bl > 0) by (nonlinear_arith)
        requires
            bl == n * l,
            n > 0,
            l > 0,
    ;
    let q = g / bl;
    lemma_fundamental_div_mod(g, bl);
    lemma_fundamental_div_mod(width, bl);
    let gc = interpolation::group_count(cfg, false);
    let p = if tail {
        gc
    } else {
        q
    };
    if !tail {
        assert(q * bl == bl * q) by (nonlinear_arith);
        assert(0 <= q) by (nonlinear_arith)
            requires
                0 <= g,
                g == bl * q,
                bl > 0,
        ;
        assert(q < gc) by (nonlinear_arith)
            requires
                bl * q < gc * bl,
                bl > 0,
        ;
    }
    assert(g == p * bl);
    assert(g + b * l == (p * n + b) * l) by (nonlinear_arith)
        requires
            g == p * bl,
            bl == n * l,
    ;
    lemma_mod_multiples_basic(p * n + b, l);
    let m = if tail {
        0
    } else {
        q
    };
    assert(0 * bl == 0);
    (tail, m, b)
}

/// A register of a group is among what the group writes, where its samples lie.
proof fn lemma_group_register_written<T>(
    cfg: InterpolationConfig,
    origin: int,
    width: int,
    x: int,
    y0: int,
    rows: Seq<Seq<Vec<T>>>,
    count: int,
    r: int,
    b: int,
) -> (j: int)
    requires
        0 <= r < count,
        0 <= b < rows[r].len(),
    ensures
        0 <= j < blending::column_writes(cfg, origin, width, x, y0, rows, count).len(),
        blending::column_writes(cfg, origin, width, x, y0, rows, count)[j] == (combine::Write {
            start: origin + (y0 + r) * width + x + b * cfg.lanes,
            value: rows[r][b]@,
        }),
    decreases count,
{
    if r == count - 1 {
        blending::column_writes(cfg, origin, width, x, y0, rows, count - 1).len() + b
    } else {
        lemma_group_register_written(cfg, origin, width, x, y0, rows, count - 1, r, b)
    }
}

/// What a group writes is among what its strip writes.
proof fn lemma_strip_register_written<T>(
    cfg: InterpolationConfig,
    origin: int,
    width: int,
    tail: bool,
    y0: int,
    height: int,
    groups: Seq<GroupTrace<T>>,
    count: int,
    m: int,
    i: int,
) -> (j: int)
    requires
        0 <= m < count,
        0 <= i < blending::column_writes(
            cfg,
            origin,
            width,
            interpolation::first_group(cfg, tail) + m * cfg.block_lanes,
            y0,
            groups[m].rows,
            height,
        ).len(),
    ensures
        0 <= j < blending::strip_writes(
            cfg,
            origin,
            width,
            tail,
            y0,
            height,
            groups,
            count,
        ).len(),
        blending::strip_writes(cfg, origin, width, tail, y0, height, groups, count)[j]
            == blending::column_writes(
            cfg,
            origin,
            width,
            interpolation::first_group(cfg, tail) + m * cfg.block_lanes,
            y0,
            groups[m].rows,
            height,
        )[i],
    decreases count,
{
    if m == count - 1 {
        blending::strip_writes(cfg, origin, width, tail, y0, height, groups, count - 1).len() + i
    } else {
        lemma_strip_register_written(
            cfg,
            origin,
            width,
            tail,
            y0,
            height,
            groups,
            count - 1,
            m,
            i,
        )
    }
}

/// The register of a group goes through its rows by itself.
pub(crate) proof fn lemma_group_register<T, G, X, const D: usize, A, B>(
    k: Kernels<A, B>,
    grid_data: GridDataLerp<T, D>,
    source: G,
    at: usize,
    cfg: InterpolationConfig,
    tail: bool,
    x: int,
    y0: int,
    rows: Seq<Seq<Vec<T>>>,
    b: int,
) -> (r: (Seq<Vec<T>>, Seq<X>)) where
    A: Fn(&GridDataLerp<T, D>, &G, usize, usize, usize) -> X,
    B: Fn(&GridDataLerp<T, D>, &X, usize, usize) -> (Vec<T>, X),

    requires
        blending::group_blended::<T, G, X, D, A, B>(
            k,
            grid_data,
            source,
            at,
            cfg,
            tail,
            x,
            y0,
            rows,
        ),
        0 <= b < cfg.blocks(tail),
    ensures
        r.0 == Seq::new(rows.len(), |q: int| rows[q][b]),
        register_blended::<T, G, X, D, A, B>(
            k,
            grid_data,
            source,
            at as int,
            x + b * cfg.lanes,
            cfg.block_len(tail, b),
            y0,
            r.0,
            r.1,
        ),
{
    let factors = choose|factors: Seq<Seq<X>>|
        #[trigger] blending::carried(
            k,
            grid_data,
            source,
            at,
            cfg,
            tail,
            x,
            y0,
            rows,
            factors,
        );
    let values = Seq::new(rows.len(), |q: int| rows[q][b]);
    let own = Seq::new(factors.len(), |q: int| factors[q][b]);
    assert(blending::prepared(k, grid_data, source, at, cfg, tail, x, factors[0]));
    assert(own[0] == factors[0][b]);
    assert forall|q: int| 0 <= q < values.len() implies k.blend.ensures(
        (&grid_data, &own[q], (y0 + q) as usize, cfg.block_len(tail, b) as usize),
        (#[trigger] values[q], own[q + 1]),
    ) by {
        lemma_factors_kept(k, grid_data, source, at, cfg, tail, x, y0, rows, factors, q);
        assert(blending::stepped::<T, G, X, D, A, B>(
            k,
            grid_data,
            cfg,
            tail,
            y0 + q,
            factors[q],
            rows[q],
            factors[q + 1],
        ));
        assert(rows[q][b] == values[q]);
    }
    (values, own)
}

/// Every register has factors before every row.
proof fn lemma_factors_kept<T, G, X, const D: usize, A, B>(
    k: Kernels<A, B>,
    grid_data: GridDataLerp<T, D>,
    source: G,
    at: usize,
    cfg: InterpolationConfig,
    tail: bool,
    x: int,
    y0: int,
    rows: Seq<Seq<Vec<T>>>,
    factors: Seq<Seq<X>>,
    q: int,
) where
    A: Fn(&GridDataLerp<T, D>, &G, usize, usize, usize) -> X,
    B: Fn(&GridDataLerp<T, D>, &X, usize, usize) -> (Vec<T>, X),

    requires
        blending::carried(k, grid_data, source, at, cfg, tail, x, y0, rows, factors),
        0 <= q <= rows.len(),
    ensures
        factors[q].len() == cfg.blocks(tail),
    decreases q,
{
    if q > 0 {
        lemma_factors_kept(k, grid_data, source, at, cfg, tail, x, y0, rows, factors, q - 1);
        assert(blending::stepped::<T, G, X, D, A, B>(
            k,
            grid_data,
            cfg,
            tail,
            y0 + (q - 1),
            factors[q - 1],
            rows[q - 1],
            factors[q],
        ));
    }
}

/// What a band writes in row `y` over column `s`: the values, in that row, of the
/// register that holds the column.
pub(crate) proof fn lemma_band_register<T, G, X, const D: usize, A, B>(
    k: Kernels<A, B>,
    grid_data: GridDataLerp<T, D>,
    source: G,
    at: usize,
    cfg: InterpolationConfig,
    origin: int,
    width: int,
    y0: int,
    height: int,
    t: BandTrace<T>,
    y: int,
    s: int,
) -> (r: (int, int, int, Seq<Vec<T>>, Seq<X>)) where
    A: Fn(&GridDataLerp<T, D>, &G, usize, usize, usize) -> X,
    B: Fn(&GridDataLerp<T, D>, &X, usize, usize) -> (Vec<T>, X),

    requires
        cfg.wf(width),
        blending::band_shaped(cfg, height, t),
        blending::strip_blended::<T, G, X, D, A, B>(
            k,
            grid_data,
            source,
            at,
            cfg,
            false,
            y0,
            t.head,
        ),
        blending::strip_blended::<T, G, X, D, A, B>(
            k,
            grid_data,
            source,
            at,
            cfg,
            true,
            y0,
            t.tail,
        ),
        0 <= s < width,
        y0 <= y < y0 + height,
    ensures
        ({
            let (j, x, len, values, factors) = r;
            let writes = blending::band_writes(cfg, origin, width, y0, height, t);
            &&& 0 <= x <= s < x + len <= width
            &&& x % (cfg.lanes as int) == 0
            &&& len == cfg.lanes || (len < cfg.lanes && x + len == width)
            &&& 0 <= j < writes.len()
            &&& values.len() == height
            &&& writes[j].start == origin + y * width + x
            &&& writes[j].value == values[y - y0]@
            &&& writes[j].value.len() == len
            &&& register_blended::<T, G, X, D, A, B>(
                k,
                grid_data,
                source,
                at as int,
                x,
                len,
                y0,
                values,
                factors,
            )
        }),
{
    let (tail, m, b) = lemma_register_of(cfg, width, s);
    let groups = if tail {
        t.tail
    } else {
        t.head
    };
    let g = interpolation::first_group(cfg, tail) + m * cfg.block_lanes;
    let group = groups[m];
    assert(blending::strip_shaped(cfg, tail, height, groups));
    assert(blending::group_shaped(cfg, tail, height, group));
    assert(blending::row_shaped(cfg, tail, group.rows[y - y0]));
    assert(group.rows[y - y0][b]@.len() == cfg.block_len(tail, b));
    assert(blending::group_blended::<T, G, X, D, A, B>(
        k,
        grid_data,
        source,
        at,
        cfg,
        tail,
        g,
        y0,
        group.rows,
    ));
    let (values, factors) = lemma_group_register::<T, G, X, D, A, B>(
        k,
        grid_data,
        source,
        at,
        cfg,
        tail,
        g,
        y0,
        group.rows,
        b,
    );
    let i = lemma_group_register_written(
        cfg,
        origin,
        width,
        g,
        y0,
        group.rows,
        height,
        y - y0,
        b,
    );
    let h = lemma_strip_register_written(
        cfg,
        origin,
        width,
        tail,
        y0,
        height,
        groups,
        groups.len() as int,
        m,
        i,
    );
    let heads = blending::strip_writes(
        cfg,
        origin,
        width,
        false,
        y0,
        height,
        t.head,
        t.head.len() as int,
    );
    let j = if tail {
        heads.len() + h
    } else {
        h
    };
    assert(y0 + (y - y0) == y);
    (j, g + b * cfg.lanes, cfg.block_len(tail, b), values, factors)
}

/// What a band writes is among what its plane writes.
proof fn lemma_plane_register_written<T>(
    cfg: InterpolationConfig,
    width: int,
    ends: Seq<u32>,
    bands: Seq<BandTrace<T>>,
    count: int,
    k: int,
    i: int,
) -> (j: int)
    requires
        0 <= k < count,
        0 <= i < blending::band_writes(
            cfg,
            0,
            width,
            cells::run_start(ends, k),
            ends[k] - cells::run_start(ends, k),
            bands[k],
        ).len(),
    ensures
        0 <= j < bands::plane_writes(cfg, width, ends, bands, count).len(),
        bands::plane_writes(cfg, width, ends, bands, count)[j] == blending::band_writes(
            cfg,
            0,
            width,
            cells::run_start(ends, k),
            ends[k] - cells::run_start(ends, k),
            bands[k],
        )[i],
    decreases count,
{
    if k == count - 1 {
        bands::plane_writes(cfg, width, ends, bands, count - 1).len() + i
    } else {
        lemma_plane_register_written(cfg, width, ends, bands, count - 1, k, i)
    }
}

/// Whatever goes over the sample in row `y` and column `s` of a plane was blended
/// for it: it is what the register that holds the column made in that row. The
/// register begins at a multiple of the lanes and is full unless it ends the row;
/// it was prepared where the sample's band begins, and blended row after row from
/// there on.
pub proof fn law_every_sample_is_blended_in_its_band<T: Copy, G, X, A, B>(
    kernels: Kernels<A, B>,
    grid_data: GridDataLerp<T, 2>,
    source: G,
    cfg: InterpolationConfig,
    bands: Seq<BandTrace<T>>,
    j: int,
    k: int,
    y0: int,
    y: int,
    s: int,
) where
    A: Fn(&GridDataLerp<T, 2>, &G, usize, usize, usize) -> X,
    B: Fn(&GridDataLerp<T, 2>, &X, usize, usize) -> (Vec<T>, X),

    requires
        grid_data.wf(),
        cfg.wf(grid_data.grid_size[0] as int),
        bands::bands_shaped(cfg, grid_data.grid_indices[1]@, bands),
        cells::in_run(grid_data.grid_indices[1]@, k, y),
        y0 == (if k == 0 {
            0
        } else {
            grid_data.grid_indices[1]@[k - 1] as int
        }),
        0 <= s < grid_data.grid_size[0],
        blending::strip_blended::<T, G, X, 2, A, B>(
            kernels,
            grid_data,
            source,
            y0 as usize,
            cfg,
            false,
            y0,
            bands[k].head,
        ),
        blending::strip_blended::<T, G, X, 2, A, B>(
            kernels,
            grid_data,
            source,
            y0 as usize,
            cfg,
            true,
            y0,
            bands[k].tail,
        ),
        0 <= j < bands::plane_writes(
            cfg,
            grid_data.grid_size[0] as int,
            grid_data.grid_indices[1]@,
            bands,
            grid_data.num_loops[1] as int,
        ).len(),
        combine::covers(
            bands::plane_writes(
                cfg,
                grid_data.grid_size[0] as int,
                grid_data.grid_indices[1]@,
                bands,
                grid_data.num_loops[1] as int,
            )[j],
            y * grid_data.grid_size[0] + s,
        ),
    ensures
        ({
            let w = bands::plane_writes(
                cfg,
                grid_data.grid_size[0] as int,
                grid_data.grid_indices[1]@,
                bands,
                grid_data.num_loops[1] as int,
            )[j];
            let x = w.start - y * grid_data.grid_size[0];
            let len = w.value.len() as int;
            &&& 0 <= x <= s < x + len <= grid_data.grid_size[0]
            &&& x % (cfg.lanes as int) == 0
            &&& len == cfg.lanes || (len < cfg.lanes && x + len == grid_data.grid_size[0])
            &&& exists|values: Seq<Vec<T>>, factors: Seq<X>|
                {
                    &&& #[trigger] register_blended::<T, G, X, 2, A, B>(
                        kernels,
                        grid_data,
                        source,
                        y0,
                        x,
                        len,
                        y0,
                        values,
                        factors,
                    )
                    &&& values.len() == grid_data.grid_indices[1]@[k] - y0
                    &&& values[y - y0]@ == w.value
                }
        }),
{
    let width = grid_data.grid_size[0] as int;
    let height = grid_data.grid_size[1] as int;
    let ends = grid_data.grid_indices[1]@;
    assert(ends.len() == grid_data.num_loops[1]);
    let writes = bands::plane_writes(cfg, width, ends, bands, ends.len() as int);
    bands::lemma_band_inside(ends, height, k);
    assert(y0 == cells::run_start(ends, k));
    let (i, x, len, values, factors) = lemma_band_register::<T, G, X, 2, A, B>(
        kernels,
        grid_data,
        source,
        y0 as usize,
        cfg,
        0,
        width,
        y0,
        ends[k] - y0,
        bands[k],
        y,
        s,
    );
    let jj = lemma_plane_register_written(cfg, width, ends, bands, ends.len() as int, k, i);
    let n = y * width + s;
    assert(0 <= n < width * height) by (nonlinear_arith)
        requires
            n == y * width + s,
            0 <= y,
            y + 1 <= height,
            0 <= s < width,
    ;
    bands::law_every_sample_written_once(cfg, width, height, ends, bands, n);
    combine::lemma_one_cover(writes, j, jj, n);
    assert(register_blended::<T, G, X, 2, A, B>(
        kernels,
        grid_data,
        source,
        y0,
        x,
        len,
        y0,
        values,
        factors,
    ));
}

/// What a slice of a strip writes is among what the strip writes.
proof fn lemma_slice_register_written<T>(
    cfg: InterpolationConfig,
    plane: int,
    width: int,
    tail: bool,
    y0: int,
    height: int,
    z0: int,
    slices: Seq<Seq<GroupTrace<T>>>,
    count: int,
    n: int,
    i: int,
) -> (j: int)
    requires
        0 <= n < count,
        0 <= i < blending::strip_writes(
            cfg,
            (z0 + n) * plane,
            width,
            tail,
            y0,
            height,
            slices[n],
            slices[n].len() as int,
        ).len(),
    ensures
        0 <= j < blending::slab_writes(
            cfg,
            plane,
            width,
            tail,
            y0,
            height,
            z0,
            slices,
            count,
        ).len(),
        blending::slab_writes(cfg, plane, width, tail, y0, height, z0, slices, count)[j]
            == blending::strip_writes(
            cfg,
            (z0 + n) * plane,
            width,
            tail,
            y0,
            height,
            slices[n],
            slices[n].len() as int,
        )[i],
    decreases count,
{
    if n == count - 1 {
        blending::slab_writes(
            cfg,
            plane,
            width,
            tail,
            y0,
            height,
            z0,
            slices,
            count - 1,
        ).len() + i
    } else {
        lemma_slice_register_written(
            cfg,
            plane,
            width,
            tail,
            y0,
            height,
            z0,
            slices,
            count - 1,
            n,
            i,
        )
    }
}

/// What a slice of a band writes is among what the band writes.
proof fn lemma_block_register_written<T>(
    cfg: InterpolationConfig,
    plane: int,
    width: int,
    y0: int,
    height: int,
    z0: int,
    t: BlockTrace<T>,
    n: int,
    i: int,
) -> (j: int)
    requires
        0 <= n < t.heads.len(),
        t.heads.len() == t.tails.len(),
        0 <= i < blending::band_writes(
            cfg,
            (z0 + n) * plane,
            width,
            y0,
            height,
            (BandTrace { head: t.heads[n], tail: t.tails[n] }),
        ).len(),
    ensures
        0 <= j < blending::block_writes(cfg, plane, width, y0, height, z0, t).len(),
        blending::block_writes(cfg, plane, width, y0, height, z0, t)[j] == blending::band_writes(
            cfg,
            (z0 + n) * plane,
            width,
            y0,
            height,
            (BandTrace { head: t.heads[n], tail: t.tails[n] }),
        )[i],
{
    let origin = (z0 + n) * plane;
    let count = t.heads.len() as int;
    let head = blending::strip_writes(
        cfg,
        origin,
        width,
        false,
        y0,
        height,
        t.heads[n],
        t.heads[n].len() as int,
    );
    let heads = blending::slab_writes(
        cfg,
        plane,
        width,
        false,
        y0,
        height,
        z0,
        t.heads,
        count,
    );
    if i < head.len() {
        lemma_slice_register_written(
            cfg,
            plane,
            width,
            false,
            y0,
            height,
            z0,
            t.heads,
            count,
            n,
            i,
        )
    } else {
        let h = lemma_slice_register_written(
            cfg,
            plane,
            width,
            true,
            y0,
            height,
            z0,
            t.tails,
            count,
            n,
            i - head.len(),
        );
        heads.len() + h
    }
}

/// What a band writes is among what its slab writes.
proof fn lemma_slab_register_written<T>(
    cfg: InterpolationConfig,
    plane: int,
    width: int,
    ends: Seq<u32>,
    z0: int,
    blocks: Seq<BlockTrace<T>>,
    count: int,
    k: int,
    i: int,
) -> (j: int)
    requires
        0 <= k < count,
        0 <= i < blending::block_writes(
            cfg,
            plane,
            width,
            cells::run_start(ends, k),
            ends[k] - cells::run_start(ends, k),
            z0,
            blocks[k],
        ).len(),
    ensures
        0 <= j < slabs::slab_writes(cfg, plane, width, ends, z0, blocks, count).len(),
        slabs::slab_writes(cfg, plane, width, ends, z0, blocks, count)[j]
            == blending::block_writes(
            cfg,
            plane,
            width,
            cells::run_start(ends, k),
            ends[k] - cells::run_start(ends, k),
            z0,
            blocks[k],
        )[i],
    decreases count,
{
    if k == count - 1 {
        slabs::slab_writes(cfg, plane, width, ends, z0, blocks, count - 1).len() + i
    } else {
        lemma_slab_register_written(cfg, plane, width, ends, z0, blocks, count - 1, k, i)
    }
}

/// What a slab writes is among what its solid writes.
proof fn lemma_solid_register_written<T>(
    cfg: InterpolationConfig,
    plane: int,
    width: int,
    y_ends: Seq<u32>,
    z_ends: Seq<u32>,
    slabs: Seq<Seq<BlockTrace<T>>>,
    count: int,
    z_it: int,
    i: int,
) -> (j: int)
    requires
        0 <= z_it < count,
        0 <= i < slabs::slab_writes(
            cfg,
            plane,
            width,
            y_ends,
            cells::run_start(z_ends, z_it),
            slabs[z_it],
            y_ends.len() as int,
        ).len(),
    ensures
        0 <= j < slabs::solid_writes(cfg, plane, width, y_ends, z_ends, slabs, count).len(),
        slabs::solid_writes(cfg, plane, width, y_ends, z_ends, slabs, count)[j]
            == slabs::slab_writes(
            cfg,
            plane,
            width,
            y_ends,
            cells::run_start(z_ends, z_it),
            slabs[z_it],
            y_ends.len() as int,
        )[i],
    decreases count,
{
    if z_it == count - 1 {
        slabs::solid_writes(cfg, plane, width, y_ends, z_ends, slabs, count - 1).len() + i
    } else {
        lemma_solid_register_written(
            cfg,
            plane,
            width,
            y_ends,
            z_ends,
            slabs,
            count - 1,
            z_it,
            i,
        )
    }
}

/// Whatever goes over the sample in slice `z`, row `y` and column `s` of a solid
/// was blended for it: it is what the register that holds the column made in that
/// row of that slice. The register begins at a multiple of the lanes and is full
/// unless it ends the row; it was prepared in the sample's own slice, and blended
/// row after row from where the sample's band begins.
pub proof fn law_every_sample_is_blended_in_its_slice<T: Copy, G, X, A, B>(
    kernels: Kernels<A, B>,
    grid_data: GridDataLerp<T, 3>,
    source: G,
    cfg: InterpolationConfig,
    slabs: Seq<Seq<BlockTrace<T>>>,
    j: int,
    k: int,
    z_it: int,
    y0: int,
    z0: int,
    z: int,
    y: int,
    s: int,
) where
    A: Fn(&GridDataLerp<T, 3>, &G, usize, usize, usize) -> X,
    B: Fn(&GridDataLerp<T, 3>, &X, usize, usize) -> (Vec<T>, X),

    requires
        grid_data.wf(),
        cfg.wf(grid_data.grid_size[0] as int),
        slabs::solid_shaped(
            cfg,
            grid_data.grid_indices[1]@,
            grid_data.grid_indices[2]@,
            slabs,
        ),
        cells::in_run(grid_data.grid_indices[1]@, k, y),
        cells::in_run(grid_data.grid_indices[2]@, z_it, z),
        y0 == (if k == 0 {
            0
        } else {
            grid_data.grid_indices[1]@[k - 1] as int
        }),
        z0 == (if z_it == 0 {
            0
        } else {
            grid_data.grid_indices[2]@[z_it - 1] as int
        }),
        0 <= s < grid_data.grid_size[0],
        blending::slab_blended::<T, G, X, 3, A, B>(
            kernels,
            grid_data,
            source,
            cfg,
            false,
            y0,
            z0,
            slabs[z_it][k].heads,
        ),
        blending::slab_blended::<T, G, X, 3, A, B>(
            kernels,
            grid_data,
            source,
            cfg,
            true,
            y0,
            z0,
            slabs[z_it][k].tails,
        ),
        0 <= j < slabs::solid_writes(
            cfg,
            grid_data.grid_size[0] * grid_data.grid_size[1],
            grid_data.grid_size[0] as int,
            grid_data.grid_indices[1]@,
            grid_data.grid_indices[2]@,
            slabs,
            grid_data.num_loops[2] as int,
        ).len(),
        combine::covers(
            slabs::solid_writes(
                cfg,
                grid_data.grid_size[0] * grid_data.grid_size[1],
                grid_data.grid_size[0] as int,
                grid_data.grid_indices[1]@,
                grid_data.grid_indices[2]@,
                slabs,
                grid_data.num_loops[2] as int,
            )[j],
            z * (grid_data.grid_size[0] * grid_data.grid_size[1]) + y * grid_data.grid_size[0] + s,
        ),
    ensures
        ({
            let w = slabs::solid_writes(
                cfg,
                grid_data.grid_size[0] * grid_data.grid_size[1],
                grid_data.grid_size[0] as int,
                grid_data.grid_indices[1]@,
                grid_data.grid_indices[2]@,
                slabs,
                grid_data.num_loops[2] as int,
            )[j];
            let x = w.start - z * (grid_data.grid_size[0] * grid_data.grid_size[1]) - y
                * grid_data.grid_size[0];
            let len = w.value.len() as int;
            &&& 0 <= x <= s < x + len <= grid_data.grid_size[0]
            &&& x % (cfg.lanes as int) == 0
            &&& len == cfg.lanes || (len < cfg.lanes && x + len == grid_data.grid_size[0])
            &&& exists|values: Seq<Vec<T>>, factors: Seq<X>|
                {
                    &&& #[trigger] register_blended::<T, G, X, 3, A, B>(
                        kernels,
                        grid_data,
                        source,
                        z,
                        x,
                        len,
                        y0,
                        values,
                        factors,
                    )
                    &&& values.len() == grid_data.grid_indices[1]@[k] - y0
                    &&& values[y - y0]@ == w.value
                }
        }),
{
    let width = grid_data.grid_size[0] as int;
    let height = grid_data.grid_size[1] as int;
    let depth = grid_data.grid_size[2] as int;
    let plane = width * height;
    let y_ends = grid_data.grid_indices[1]@;
    let z_ends = grid_data.grid_indices[2]@;
    assert(y_ends.len() == grid_data.num_loops[1] && z_ends.len() == grid_data.num_loops[2]);
    assert(cells::cuts(y_ends, height) && cells::cuts(z_ends, depth));
    let writes = slabs::solid_writes(
        cfg,
        plane,
        width,
        y_ends,
        z_ends,
        slabs,
        z_ends.len() as int,
    );
    bands::lemma_band_inside(y_ends, height, k);
    bands::lemma_band_inside(z_ends, depth, z_it);
    assert(y0 == cells::run_start(y_ends, k));
    assert(z0 == cells::run_start(z_ends, z_it));
    let z1 = z_ends[z_it] as int;
    let t = slabs[z_it][k];
    assert(slabs::slab_shaped(cfg, y_ends, z1 - z0, slabs[z_it]));
    assert(blending::block_shaped(cfg, y_ends[k] - y0, z1 - z0, t));
    let n = z - z0;
    let slice = BandTrace { head: t.heads[n], tail: t.tails[n] };
    assert(blending::strip_shaped(cfg, false, y_ends[k] - y0, t.heads[n]));
    assert(blending::strip_shaped(cfg, true, y_ends[k] - y0, t.tails[n]));
    assert(z0 + n == z);
    let (i, x, len, values, factors) = lemma_band_register::<T, G, X, 3, A, B>(
        kernels,
        grid_data,
        source,
        z as usize,
        cfg,
        z * plane,
        width,
        y0,
        y_ends[k] - y0,
        slice,
        y,
        s,
    );
    let i1 = lemma_block_register_written(
        cfg,
        plane,
        width,
        y0,
        y_ends[k] - y0,
        z0,
        t,
        n,
        i,
    );
    let i2 = lemma_slab_register_written(
        cfg,
        plane,
        width,
        y_ends,
        z0,
        slabs[z_it],
        y_ends.len() as int,
        k,
        i1,
    );
    let jj = lemma_solid_register_written(
        cfg,
        plane,
        width,
        y_ends,
        z_ends,
        slabs,
        z_ends.len() as int,
        z_it,
        i2,
    );
    let at = z * plane + y * width + s;
    let row = y * width + s;
    assert(0 <= row < plane) by (nonlinear_arith)
        requires
            row == y * width + s,
            plane == width * height,
            0 <= y,
            y + 1 <= height,
            0 <= s < width,
    ;
    assert(0 <= at < plane * depth) by (nonlinear_arith)
        requires
            at == z * plane + row,
            0 <= row < plane,
            0 <= z,
            z + 1 <= depth,
    ;
    slabs::law_every_sample_written_once(cfg, width, height, depth, y_ends, z_ends, slabs, at);
    combine::lemma_one_cover(writes, j, jj, at);
    assert(register_blended::<T, G, X, 3, A, B>(
        kernels,
        grid_data,
        source,
        z,
        x,
        len,
        y0,
        values,
        factors,
    ));
}

} // verus!

//! Blending the rows of a grid, group by group.
//!
//! The rows of a band are blended one group of registers at a time. For each
//! register of a group the factors that all rows share are prepared once; each
//! row then takes its values from them, and may leave them changed for the
//! next row.

use crate::combine;
use crate::combine::{fill_block, Sink};
use crate::grid_data::GridDataLerp;
use crate::interpolation;
use crate::interpolation::InterpolationConfig;
use vstd::arithmetic::div_mod::*;
use vstd::prelude::*;

verus! {

/// The arithmetic of a band.
///
/// `prepare` takes the grid, what the band is blended from, the row or slice at
/// which the band is taken up, a column and a number of samples: it gives the
/// factors of the register at that column. `blend` takes the grid, the factors
/// of a register, a row and a number of samples: it gives the values of the
/// register in that row, and the factors for the next row.
pub struct Kernels<A, B> {
    pub prepare: A,
    pub blend: B,
}

/// The arithmetic of a slab: what a band is blended from is gathered first,
/// register by register, and serves all slices of the slab.
pub struct SlabKernels<C, A, B> {
    pub gather: C,
    pub rows: Kernels<A, B>,
}

/// The values of one group: those of each register in each row.
pub ghost struct GroupTrace<T> {
    pub rows: Seq<Seq<Vec<T>>>,
}

/// The values of a band: its full groups and its tail.
pub ghost struct BandTrace<T> {
    pub head: Seq<GroupTrace<T>>,
    pub tail: Seq<GroupTrace<T>>,
}

/// The values of a band of a slab: the full groups and the tail of each of its
/// slices.
pub ghost struct BlockTrace<T> {
    pub heads: Seq<Seq<GroupTrace<T>>>,
    pub tails: Seq<Seq<GroupTrace<T>>>,
}

/// The registers of a group hold all of its samples.
pub open spec fn row_shaped<T>(cfg: InterpolationConfig, tail: bool, blocks: Seq<Vec<T>>) -> bool {
    &&& blocks.len() == cfg.blocks(tail)
    &&& forall|b: int|
        0 <= b < blocks.len() ==> (#[trigger] blocks[b])@.len() == cfg.block_len(tail, b)
}

/// A group of `height` rows holds all of its samples.
pub open spec fn group_shaped<T>(
    cfg: InterpolationConfig,
    tail: bool,
    height: int,
    group: GroupTrace<T>,
) -> bool {
    &&& group.rows.len() == height
    &&& forall|r: int|
        0 <= r < group.rows.len() ==> row_shaped(cfg, tail, #[trigger] group.rows[r])
}

/// All groups are there, and each holds all of its samples.
pub open spec fn strip_shaped<T>(
    cfg: InterpolationConfig,
    tail: bool,
    height: int,
    groups: Seq<GroupTrace<T>>,
) -> bool {
    &&& groups.len() == interpolation::group_count(cfg, tail)
    &&& forall|m: int|
        0 <= m < groups.len() ==> group_shaped(cfg, tail, height, #[trigger] groups[m])
}

/// A band of `height` rows holds all of its samples.
pub open spec fn band_shaped<T>(cfg: InterpolationConfig, height: int, t: BandTrace<T>) -> bool {
    &&& strip_shaped(cfg, false, height, t.head)
    &&& strip_shaped(cfg, true, height, t.tail)
}

/// All slices are there, and each holds all of its samples.
pub open spec fn slab_shaped<T>(
    cfg: InterpolationConfig,
    tail: bool,
    height: int,
    depth: int,
    slices: Seq<Seq<GroupTrace<T>>>,
) -> bool {
    &&& slices.len() == depth
    &&& forall|k: int|
        0 <= k < slices.len() ==> strip_shaped(cfg, tail, height, #[trigger] slices[k])
}

/// A band of `depth` slices of `height` rows holds all of its samples.
pub open spec fn block_shaped<T>(
    cfg: InterpolationConfig,
    height: int,
    depth: int,
    t: BlockTrace<T>,
) -> bool {
    &&& slab_shaped(cfg, false, height, depth, t.heads)
    &&& slab_shaped(cfg, true, height, depth, t.tails)
}

/// What a group of a row writes. The group begins at column `x` of a row that
/// begins at `base` in the output.
pub open spec fn group_writes<T>(
    cfg: InterpolationConfig,
    base: int,
    x: int,
    blocks: Seq<Vec<T>>,
) -> Seq<combine::Write<T>> {
    Seq::new(
        blocks.len(),
        |b: int| combine::Write { start: base + x + b * cfg.lanes, value: blocks[b]@ },
    )
}

/// What the first `count` rows of a group write, from row `y0` on.
pub open spec fn column_writes<T>(
    cfg: InterpolationConfig,
    origin: int,
    width: int,
    x: int,
    y0: int,
    rows: Seq<Seq<Vec<T>>>,
    count: int,
) -> Seq<combine::Write<T>>
    decreases count,
{
    if count <= 0 {
        seq![]
    } else {
        column_writes(cfg, origin, width, x, y0, rows, count - 1) + group_writes(
            cfg,
            origin + (y0 + count - 1) * width,
            x,
            rows[count - 1],
        )
    }
}

/// What the first `count` groups of `height` rows write, from row `y0` on.
pub open spec fn strip_writes<T>(
    cfg: InterpolationConfig,
    origin: int,
    width: int,
    tail: bool,
    y0: int,
    height: int,
    groups: Seq<GroupTrace<T>>,
    count: int,
) -> Seq<combine::Write<T>>
    decreases count,
{
    if count <= 0 {
        seq![]
    } else {
        strip_writes(cfg, origin, width, tail, y0, height, groups, count - 1) + column_writes(
            cfg,
            origin,
            width,
            interpolation::first_group(cfg, tail) + (count - 1) * cfg.block_lanes,
            y0,
            groups[count - 1].rows,
            height,
        )
    }
}

/// What a band writes: its full groups, and its tail.
pub open spec fn band_writes<T>(
    cfg: InterpolationConfig,
    origin: int,
    width: int,
    y0: int,
    height: int,
    t: BandTrace<T>,
) -> Seq<combine::Write<T>> {
    strip_writes(cfg, origin, width, false, y0, height, t.head, t.head.len() as int)
        + strip_writes(cfg, origin, width, true, y0, height, t.tail, t.tail.len() as int)
}

/// What the groups of the first `count` slices write, from slice `z0` on. Slice
/// `z` begins at `z * plane` in the output.
pub open spec fn slab_writes<T>(
    cfg: InterpolationConfig,
    plane: int,
    width: int,
    tail: bool,
    y0: int,
    height: int,
    z0: int,
    slices: Seq<Seq<GroupTrace<T>>>,
    count: int,
) -> Seq<combine::Write<T>>
    decreases count,
{
    if count <= 0 {
        seq![]
    } else {
        slab_writes(cfg, plane, width, tail, y0, height, z0, slices, count - 1) + strip_writes(
            cfg,
            (z0 + count - 1) * plane,
            width,
            tail,
            y0,
            height,
            slices[count - 1],
            slices[count - 1].len() as int,
        )
    }
}

/// What a band of a slab writes: the full groups of its slices, and their
/// tails.
pub open spec fn block_writes<T>(
    cfg: InterpolationConfig,
    plane: int,
    width: int,
    y0: int,
    height: int,
    z0: int,
    t: BlockTrace<T>,
) -> Seq<combine::Write<T>> {
    slab_writes(cfg, plane, width, false, y0, height, z0, t.heads, t.heads.len() as int)
        + slab_writes(cfg, plane, width, true, y0, height, z0, t.tails, t.tails.len() as int)
}

/// The factors of a register of `len` samples that the kernels gave: those that
/// were prepared for it, or those that a row left.
pub open spec fn handed<T, G, X, const D: usize, A, B>(
    k: Kernels<A, B>,
    grid_data: GridDataLerp<T, D>,
    source: G,
    at: usize,
    len: usize,
    factors: X,
) -> bool where
    A: Fn(&GridDataLerp<T, D>, &G, usize, usize, usize) -> X,
    B: Fn(&GridDataLerp<T, D>, &X, usize, usize) -> (Vec<T>, X),
 {
    ||| exists|x: usize|
        x + len <= grid_data.grid_size[0] && #[trigger] k.prepare.ensures(
            (&grid_data, &source, at, x, len),
            factors,
        )
    ||| exists|from: X, y: usize, value: Vec<T>|
        y < grid_data.grid_size[1] && #[trigger] k.blend.ensures(
            (&grid_data, &from, y, len),
            (value, factors),
        )
}

/// What the kernels owe on one band: they take every register of at most `lanes`
/// samples and every row, and give a value for each sample.
pub open spec fn serves<T, G, X, const D: usize, A, B>(
    k: Kernels<A, B>,
    grid_data: GridDataLerp<T, D>,
    source: G,
    at: usize,
    lanes: int,
) -> bool where
    A: Fn(&GridDataLerp<T, D>, &G, usize, usize, usize) -> X,
    B: Fn(&GridDataLerp<T, D>, &X, usize, usize) -> (Vec<T>, X),
 {
    &&& forall|x: usize, len: usize|
        len <= lanes && x + len <= grid_data.grid_size[0] ==> #[trigger] k.prepare.requires(
            (&grid_data, &source, at, x, len),
        )
    &&& forall|factors: X, y: usize, len: usize|
        len <= lanes && y < grid_data.grid_size[1] && handed::<T, G, X, D, A, B>(
            k,
            grid_data,
            source,
            at,
            len,
            factors,
        ) ==> #[trigger] k.blend.requires((&grid_data, &factors, y, len))
    &&& forall|factors: X, y: usize, len: usize, r: (Vec<T>, X)|
        len <= lanes && y < grid_data.grid_size[1] && handed::<T, G, X, D, A, B>(
            k,
            grid_data,
            source,
            at,
            len,
            factors,
        ) && #[trigger] k.blend.ensures((&grid_data, &factors, y, len), r) ==> r.0@.len() == len
}

/// The kernels gave the factors of all registers of a group.
spec fn all_handed<T, G, X, const D: usize, A, B>(
    k: Kernels<A, B>,
    grid_data: GridDataLerp<T, D>,
    source: G,
    at: usize,
    cfg: InterpolationConfig,
    tail: bool,
    factors: Seq<X>,
) -> bool where
    A: Fn(&GridDataLerp<T, D>, &G, usize, usize, usize) -> X,
    B: Fn(&GridDataLerp<T, D>, &X, usize, usize) -> (Vec<T>, X),
 {
    forall|b: int|
        0 <= b < factors.len() ==> handed::<T, G, X, D, A, B>(
            k,
            grid_data,
            source,
            at,
            cfg.block_len(tail, b) as usize,
            #[trigger] factors[b],
        )
}

/// The factors of the registers of a group, as they are prepared.
pub open spec fn prepared<T, G, X, const D: usize, A, B>(
    k: Kernels<A, B>,
    grid_data: GridDataLerp<T, D>,
    source: G,
    at: usize,
    cfg: InterpolationConfig,
    tail: bool,
    x: int,
    factors: Seq<X>,
) -> bool where
    A: Fn(&GridDataLerp<T, D>, &G, usize, usize, usize) -> X,
    B: Fn(&GridDataLerp<T, D>, &X, usize, usize) -> (Vec<T>, X),
 {
    &&& factors.len() == cfg.blocks(tail)
    &&& forall|b: int|
        0 <= b < factors.len() ==> k.prepare.ensures(
            (
                &grid_data,
                &source,
                at,
                (x + b * cfg.lanes) as usize,
                cfg.block_len(tail, b) as usize,
            ),
            #[trigger] factors[b],
        )
}

/// Row `y` of a group: the values that its registers take from their factors,
/// and the factors that they leave.
pub open spec fn stepped<T, G, X, const D: usize, A, B>(
    k: Kernels<A, B>,
    grid_data: GridDataLerp<T, D>,
    cfg: InterpolationConfig,
    tail: bool,
    y: int,
    from: Seq<X>,
    blocks: Seq<Vec<T>>,
    to: Seq<X>,
) -> bool where
    A: Fn(&GridDataLerp<T, D>, &G, usize, usize, usize) -> X,
    B: Fn(&GridDataLerp<T, D>, &X, usize, usize) -> (Vec<T>, X),
 {
    &&& blocks.len() == from.len()
    &&& to.len() == from.len()
    &&& forall|b: int|
        0 <= b < blocks.len() ==> k.blend.ensures(
            (&grid_data, &from[b], y as usize, cfg.block_len(tail, b) as usize),
            (#[trigger] blocks[b], to[b]),
        )
}

/// The factors of a group before its first row and after each row.
pub open spec fn carried<T, G, X, const D: usize, A, B>(
    k: Kernels<A, B>,
    grid_data: GridDataLerp<T, D>,
    source: G,
    at: usize,
    cfg: InterpolationConfig,
    tail: bool,
    x: int,
    y0: int,
    rows: Seq<Seq<Vec<T>>>,
    factors: Seq<Seq<X>>,
) -> bool where
    A: Fn(&GridDataLerp<T, D>, &G, usize, usize, usize) -> X,
    B: Fn(&GridDataLerp<T, D>, &X, usize, usize) -> (Vec<T>, X),
 {
    &&& factors.len() == rows.len() + 1
    &&& prepared(k, grid_data, source, at, cfg, tail, x, factors[0])
    &&& forall|r: int|
        0 <= r < rows.len() ==> stepped::<T, G, X, D, A, B>(
            k,
            grid_data,
            cfg,
            tail,
            y0 + r,
            factors[r],
            #[trigger] rows[r],
            factors[r + 1],
        )
}

/// The rows of the group at `x`, each blended from the factors that the row
/// before it left, and the first from those that were prepared.
pub open spec fn group_blended<T, G, X, const D: usize, A, B>(
    k: Kernels<A, B>,
    grid_data: GridDataLerp<T, D>,
    source: G,
    at: usize,
    cfg: InterpolationConfig,
    tail: bool,
    x: int,
    y0: int,
    rows: Seq<Seq<Vec<T>>>,
) -> bool where
    A: Fn(&GridDataLerp<T, D>, &G, usize, usize, usize) -> X,
    B: Fn(&GridDataLerp<T, D>, &X, usize, usize) -> (Vec<T>, X),
 {
    exists|factors: Seq<Seq<X>>|
        #[trigger] carried(k, grid_data, source, at, cfg, tail, x, y0, rows, factors)
}

/// The groups of a band, each blended by itself.
pub open spec fn strip_blended<T, G, X, const D: usize, A, B>(
    k: Kernels<A, B>,
    grid_data: GridDataLerp<T, D>,
    source: G,
    at: usize,
    cfg: InterpolationConfig,
    tail: bool,
    y0: int,
    groups: Seq<GroupTrace<T>>,
) -> bool where
    A: Fn(&GridDataLerp<T, D>, &G, usize, usize, usize) -> X,
    B: Fn(&GridDataLerp<T, D>, &X, usize, usize) -> (Vec<T>, X),
 {
    forall|m: int|
        0 <= m < groups.len() ==> group_blended::<T, G, X, D, A, B>(
            k,
            grid_data,
            source,
            at,
            cfg,
            tail,
            interpolation::first_group(cfg, tail) + m * cfg.block_lanes,
            y0,
            (#[trigger] groups[m]).rows,
        )
}

/// The slices of a slab from slice `z0` on, each blended by itself.
pub open spec fn slab_blended<T, G, X, const D: usize, A, B>(
    k: Kernels<A, B>,
    grid_data: GridDataLerp<T, D>,
    source: G,
    cfg: InterpolationConfig,
    tail: bool,
    y0: int,
    z0: int,
    slices: Seq<Seq<GroupTrace<T>>>,
) -> bool where
    A: Fn(&GridDataLerp<T, D>, &G, usize, usize, usize) -> X,
    B: Fn(&GridDataLerp<T, D>, &X, usize, usize) -> (Vec<T>, X),
 {
    forall|n: int|
        0 <= n < slices.len() ==> strip_blended::<T, G, X, D, A, B>(
            k,
            grid_data,
            source,
            (z0 + n) as usize,
            cfg,
            tail,
            y0,
            #[trigger] slices[n],
        )
}

/// The rows from `y0` to `y1` of a plane that begins at `origin` fit the
/// output.
pub open spec fn plane_fits(origin: int, width: int, y1: int, total: int) -> bool {
    0 <= origin && origin + y1 * width <= total
}

/// Row `y` of a plane ends before the plane does.
proof fn lemma_row_fits(origin: int, width: int, y: int, y1: int, total: int)
    requires
        plane_fits(origin, width, y1, total),
        0 <= y < y1,
        0 <= width,
    ensures
        0 <= y * width,
        origin + y * width + width <= total,
{
    assert(0 <= y * width && y * width + width <= y1 * width) by (nonlinear_arith)
        requires
            0 <= y,
            y + 1 <= y1,
            0 <= width,
    ;
}

/// Samples of register `b` of a group.
fn register_len(cfg: &InterpolationConfig, tail: bool, b: usize) -> (len: usize)
    requires
        0 <= b * cfg.lanes,
        tail ==> b * cfg.lanes <= cfg.tail_size,
        b * cfg.lanes <= usize::MAX,
    ensures
        len == cfg.block_len(tail, b as int),
{
    let offset: usize = b * cfg.lanes;
    if tail && cfg.tail_size - offset < cfg.lanes {
        cfg.tail_size - offset
    } else {
        cfg.lanes
    }
}

/// Prepares the factors of the registers of the group at `x`.
pub fn initialize_factors<T: Copy, G, X, const D: usize, A, B>(
    kernels: &Kernels<A, B>,
    grid_data: &GridDataLerp<T, D>,
    source: &G,
    at: usize,
    cfg: &InterpolationConfig,
    tail: bool,
    x: usize,
) -> (factors: Vec<X>) where
    A: Fn(&GridDataLerp<T, D>, &G, usize, usize, usize) -> X,
    B: Fn(&GridDataLerp<T, D>, &X, usize, usize) -> (Vec<T>, X),

    requires
        cfg.wf(grid_data.grid_size[0] as int),
        cfg.group_starts(tail, x as int),
        serves::<T, G, X, D, A, B>(*kernels, *grid_data, *source, at, cfg.lanes as int),
    ensures
        prepared(*kernels, *grid_data, *source, at, *cfg, tail, x as int, factors@),
{
    let blocks: usize = if tail {
        cfg.block_tail_size
    } else {
        cfg.num_blocks
    };
    let ghost width = grid_data.grid_size[0] as int;
    let prepare = &kernels.prepare;
    let mut factors: Vec<X> = Vec::new();
    let mut b: usize = 0;
    while b < blocks
        invariant
            b <= blocks,
            blocks == cfg.blocks(tail),
            width == grid_data.grid_size[0],
            cfg.wf(width),
            cfg.group_starts(tail, x as int),
            serves::<T, G, X, D, A, B>(*kernels, *grid_data, *source, at, cfg.lanes as int),
            *prepare == kernels.prepare,
            factors.len() == b,
            forall|c: int|
                0 <= c < b ==> kernels.prepare.ensures(
                    (
                        grid_data,
                        source,
                        at,
                        (x + c * cfg.lanes) as usize,
                        cfg.block_len(tail, c) as usize,
                    ),
                    #[trigger] factors[c],
                ),
        decreases blocks - b,
    {
        proof {
            cfg.lemma_block_inside(width, tail, x as int, b as int);
        }
        let len: usize = register_len(cfg, tail, b);
        let column: usize = x + b * cfg.lanes;
        factors.push(prepare(grid_data, source, at, column, len));
        b = b + 1;
    }
    factors
}

/// Blends row `y` of the group at `x` and combines it into the output, register
/// by register.
fn process_factors<T: Copy, G, X, const D: usize, A, B, I, P, F>(
    kernels: &Kernels<A, B>,
    grid_data: &GridDataLerp<T, D>,
    cfg: &InterpolationConfig,
    tail: bool,
    base: usize,
    x: usize,
    y: usize,
    factors: &Vec<X>,
    sink: &Sink<I, P, F>,
    state: &mut Vec<T>,
    dst: &mut Vec<T>,
    Ghost(source): Ghost<G>,
    Ghost(at): Ghost<usize>,
) -> (r: (Vec<X>, Ghost<Seq<Vec<T>>>)) where
    A: Fn(&GridDataLerp<T, D>, &G, usize, usize, usize) -> X,
    B: Fn(&GridDataLerp<T, D>, &X, usize, usize) -> (Vec<T>, X),
    I: Fn(Vec<T>) -> (Vec<Vec<T>>, Vec<T>),
    P: Fn(Vec<Vec<T>>, Vec<T>, Vec<T>) -> (Vec<Vec<T>>, Vec<T>),
    F: Fn(Vec<Vec<T>>, Vec<T>) -> Vec<T>,

    requires
        cfg.wf(grid_data.grid_size[0] as int),
        cfg.group_starts(tail, x as int),
        y < grid_data.grid_size[1],
        factors@.len() == cfg.blocks(tail),
        all_handed::<T, G, X, D, A, B>(
            *kernels,
            *grid_data,
            source,
            at,
            *cfg,
            tail,
            factors@,
        ),
        serves::<T, G, X, D, A, B>(*kernels, *grid_data, source, at, cfg.lanes as int),
        base + grid_data.grid_size[0] <= sink.layout.total_size,
        sink.wf::<T>(cfg.lanes as int, old(state).len() as int, old(dst).len() as int),
    ensures
        stepped::<T, G, X, D, A, B>(
            *kernels,
            *grid_data,
            *cfg,
            tail,
            y as int,
            factors@,
            r.1@,
            r.0@,
        ),
        row_shaped(*cfg, tail, r.1@),
        sink.takes(
            group_writes(*cfg, base as int, x as int, r.1@),
            (old(state)@, old(dst)@),
            (final(state)@, final(dst)@),
        ),
        final(state).len() == old(state).len(),
        final(dst).len() == old(dst).len(),
{
    let blocks: usize = factors.len();
    let ghost before = (state@, dst@);
    let ghost width = grid_data.grid_size[0] as int;
    let ghost mut made: Seq<Vec<T>> = seq![];
    let blend = &kernels.blend;
    let mut left: Vec<X> = Vec::new();
    let mut b: usize = 0;
    assert(group_writes(*cfg, base as int, x as int, made) =~= seq![]);
    while b < blocks
        invariant
            b <= blocks,
            blocks == cfg.blocks(tail),
            blocks == factors.len(),
            width == grid_data.grid_size[0],
            cfg.wf(width),
            cfg.group_starts(tail, x as int),
            y < grid_data.grid_size[1],
            all_handed::<T, G, X, D, A, B>(
                *kernels,
                *grid_data,
                source,
                at,
                *cfg,
                tail,
                factors@,
            ),
            serves::<T, G, X, D, A, B>(*kernels, *grid_data, source, at, cfg.lanes as int),
            *blend == kernels.blend,
            base + width <= sink.layout.total_size,
            state.len() == before.0.len(),
            dst.len() == before.1.len(),
            sink.wf::<T>(cfg.lanes as int, before.0.len() as int, before.1.len() as int),
            made.len() == b,
            left.len() == b,
            forall|c: int|
                0 <= c < b ==> kernels.blend.ensures(
                    (grid_data, &factors[c], y, cfg.block_len(tail, c) as usize),
                    (#[trigger] made[c], left[c]),
                ),
            forall|c: int|
                0 <= c < b ==> (#[trigger] made[c])@.len() == cfg.block_len(tail, c),
            sink.takes(
                group_writes(*cfg, base as int, x as int, made),
                before,
                (state@, dst@),
            ),
        decreases blocks - b,
    {
        proof {
            cfg.lemma_block_inside(width, tail, x as int, b as int);
        }
        let len: usize = register_len(cfg, tail, b);
        let offset: usize = b * cfg.lanes;
        assert(handed::<T, G, X, D, A, B>(
            *kernels,
            *grid_data,
            source,
            at,
            len,
            factors[b as int],
        ));
        let (value, next) = blend(grid_data, &factors[b], y, len);
        let ghost kept = value;
        let ghost w = combine::Write { start: base + x + offset, value: value@ };
        let ghost mid = (state@, dst@);
        let ghost rest = next;
        assert(kernels.blend.ensures((grid_data, &factors[b as int], y, len), (kept, rest)));
        assert(combine::combines::<T, I, P, F>(
            *sink.combiner,
            sink.layout.state_size as int,
            value.len() as int,
        ));
        fill_block(
            sink.combiner,
            sink.pass,
            sink.layout,
            base + x + offset,
            value,
            state,
            dst,
        );
        left.push(next);
        proof {
            let done = group_writes(*cfg, base as int, x as int, made);
            combine::lemma_applied_push(
                *sink.combiner,
                sink.pass,
                sink.layout,
                done,
                w,
                before,
                mid,
                (state@, dst@),
            );
            let longer = made.push(kept);
            assert(done.push(w) =~= group_writes(*cfg, base as int, x as int, longer));
            made = longer;
        }
        b = b + 1;
    }
    (left, Ghost(made))
}

/// Further rows do not change what the first ones write.
proof fn lemma_column_writes_prefix<T>(
    cfg: InterpolationConfig,
    origin: int,
    width: int,
    x: int,
    y0: int,
    rows: Seq<Seq<Vec<T>>>,
    longer: Seq<Seq<Vec<T>>>,
    count: int,
)
    requires
        count <= rows.len(),
        rows.len() <= longer.len(),
        forall|k: int| 0 <= k < rows.len() ==> rows[k] == longer[k],
    ensures
        column_writes(cfg, origin, width, x, y0, rows, count) == column_writes(
            cfg,
            origin,
            width,
            x,
            y0,
            longer,
            count,
        ),
    decreases count,
{
    if count > 0 {
        lemma_column_writes_prefix(cfg, origin, width, x, y0, rows, longer, count - 1);
    }
}

/// Further groups do not change what the first ones write.
proof fn lemma_strip_writes_prefix<T>(
    cfg: InterpolationConfig,
    origin: int,
    width: int,
    tail: bool,
    y0: int,
    height: int,
    groups: Seq<GroupTrace<T>>,
    longer: Seq<GroupTrace<T>>,
    count: int,
)
    requires
        count <= groups.len(),
        groups.len() <= longer.len(),
        forall|k: int| 0 <= k < groups.len() ==> groups[k] == longer[k],
    ensures
        strip_writes(cfg, origin, width, tail, y0, height, groups, count) == strip_writes(
            cfg,
            origin,
            width,
            tail,
            y0,
            height,
            longer,
            count,
        ),
    decreases count,
{
    if count > 0 {
        lemma_strip_writes_prefix(
            cfg,
            origin,
            width,
            tail,
            y0,
            height,
            groups,
            longer,
            count - 1,
        );
    }
}

/// Further slices do not change what the first ones write.
proof fn lemma_slab_writes_prefix<T>(
    cfg: InterpolationConfig,
    plane: int,
    width: int,
    tail: bool,
    y0: int,
    height: int,
    z0: int,
    slices: Seq<Seq<GroupTrace<T>>>,
    longer: Seq<Seq<GroupTrace<T>>>,
    count: int,
)
    requires
        count <= slices.len(),
        slices.len() <= longer.len(),
        forall|k: int| 0 <= k < slices.len() ==> slices[k] == longer[k],
    ensures
        slab_writes(cfg, plane, width, tail, y0, height, z0, slices, count) == slab_writes(
            cfg,
            plane,
            width,
            tail,
            y0,
            height,
            z0,
            longer,
            count,
        ),
    decreases count,
{
    if count > 0 {
        lemma_slab_writes_prefix(
            cfg,
            plane,
            width,
            tail,
            y0,
            height,
            z0,
            slices,
            longer,
            count - 1,
        );
    }
}

/// Slices without groups write nothing.
pub(crate) proof fn lemma_empty_slabs<T>(
    cfg: InterpolationConfig,
    plane: int,
    width: int,
    tail: bool,
    y0: int,
    height: int,
    z0: int,
    slices: Seq<Seq<GroupTrace<T>>>,
    count: int,
)
    requires
        forall|k: int| 0 <= k < slices.len() ==> (#[trigger] slices[k]).len() == 0,
        count <= slices.len(),
    ensures
        slab_writes(cfg, plane, width, tail, y0, height, z0, slices, count) == Seq::<
            combine::Write<T>,
        >::empty(),
    decreases count,
{
    if count > 0 {
        lemma_empty_slabs(cfg, plane, width, tail, y0, height, z0, slices, count - 1);
        assert(slices[count - 1].len() == 0);
    }
}

/// Where a column of groups stands: its first rows are blended and written.
spec fn column_done<T, G, X, const D: usize, A, B, I, P, F>(
    k: Kernels<A, B>,
    grid_data: GridDataLerp<T, D>,
    source: G,
    at: usize,
    cfg: InterpolationConfig,
    tail: bool,
    origin: int,
    x: int,
    y0: int,
    rows: Seq<Seq<Vec<T>>>,
    factors: Seq<Seq<X>>,
    sink: Sink<I, P, F>,
    before: (Seq<T>, Seq<T>),
    after: (Seq<T>, Seq<T>),
) -> bool where
    A: Fn(&GridDataLerp<T, D>, &G, usize, usize, usize) -> X,
    B: Fn(&GridDataLerp<T, D>, &X, usize, usize) -> (Vec<T>, X),
    I: Fn(Vec<T>) -> (Vec<Vec<T>>, Vec<T>),
    P: Fn(Vec<Vec<T>>, Vec<T>, Vec<T>) -> (Vec<Vec<T>>, Vec<T>),
    F: Fn(Vec<Vec<T>>, Vec<T>) -> Vec<T>,
 {
    &&& carried(k, grid_data, source, at, cfg, tail, x, y0, rows, factors)
    &&& forall|r: int| 0 <= r < rows.len() ==> row_shaped(cfg, tail, #[trigger] rows[r])
    &&& sink.takes(
        column_writes(
            cfg,
            origin,
            grid_data.grid_size[0] as int,
            x,
            y0,
            rows,
            rows.len() as int,
        ),
        before,
        after,
    )
}

/// The factors after the last row of a group come from the kernels.
proof fn lemma_carried_handed<T, G, X, const D: usize, A, B>(
    k: Kernels<A, B>,
    grid_data: GridDataLerp<T, D>,
    source: G,
    at: usize,
    cfg: InterpolationConfig,
    tail: bool,
    x: int,
    y0: int,
    rows: Seq<Seq<Vec<T>>>,
    factors: Seq<Seq<X>>,
) where
    A: Fn(&GridDataLerp<T, D>, &G, usize, usize, usize) -> X,
    B: Fn(&GridDataLerp<T, D>, &X, usize, usize) -> (Vec<T>, X),

    requires
        D > 1,
        cfg.wf(grid_data.grid_size[0] as int),
        cfg.group_starts(tail, x),
        0 <= y0,
        y0 + rows.len() <= grid_data.grid_size[1],
        carried(k, grid_data, source, at, cfg, tail, x, y0, rows, factors),
        factors.last().len() == cfg.blocks(tail),
    ensures
        all_handed::<T, G, X, D, A, B>(k, grid_data, source, at, cfg, tail, factors.last()),
{
    let last = factors.last();
    let width = grid_data.grid_size[0] as int;
    assert forall|b: int| 0 <= b < last.len() implies handed::<T, G, X, D, A, B>(
        k,
        grid_data,
        source,
        at,
        cfg.block_len(tail, b) as usize,
        #[trigger] last[b],
    ) by {
        cfg.lemma_block_inside(width, tail, x, b);
        let len = cfg.block_len(tail, b) as usize;
        if rows.len() == 0 {
            let column = (x + b * cfg.lanes) as usize;
            assert(k.prepare.ensures((&grid_data, &source, at, column, len), last[b]));
        } else {
            let r = rows.len() - 1;
            let blocks = rows[r];
            let y = (y0 + r) as usize;
            assert(stepped::<T, G, X, D, A, B>(
                k,
                grid_data,
                cfg,
                tail,
                y0 + r,
                factors[r],
                blocks,
                last,
            ));
            let value = blocks[b];
            assert(k.blend.ensures((&grid_data, &factors[r][b], y, len), (value, last[b])));
        }
    }
}

/// Takes the next row of a column of groups.
fn process_row<T: Copy, G, X, const D: usize, A, B, I, P, F>(
    kernels: &Kernels<A, B>,
    grid_data: &GridDataLerp<T, D>,
    cfg: &InterpolationConfig,
    tail: bool,
    origin: usize,
    x: usize,
    y: usize,
    factors: &Vec<X>,
    sink: &Sink<I, P, F>,
    state: &mut Vec<T>,
    dst: &mut Vec<T>,
    Ghost(source): Ghost<G>,
    Ghost(at): Ghost<usize>,
    Ghost(y0): Ghost<int>,
    Ghost(y1): Ghost<int>,
    Ghost(rows): Ghost<Seq<Seq<Vec<T>>>>,
    Ghost(history): Ghost<Seq<Seq<X>>>,
    Ghost(before): Ghost<(Seq<T>, Seq<T>)>,
) -> (r: (Vec<X>, Ghost<Seq<Vec<T>>>)) where
    A: Fn(&GridDataLerp<T, D>, &G, usize, usize, usize) -> X,
    B: Fn(&GridDataLerp<T, D>, &X, usize, usize) -> (Vec<T>, X),
    I: Fn(Vec<T>) -> (Vec<Vec<T>>, Vec<T>),
    P: Fn(Vec<Vec<T>>, Vec<T>, Vec<T>) -> (Vec<Vec<T>>, Vec<T>),
    F: Fn(Vec<Vec<T>>, Vec<T>) -> Vec<T>,

    requires
        D > 1,
        cfg.wf(grid_data.grid_size[0] as int),
        cfg.group_starts(tail, x as int),
        y < y1 <= grid_data.grid_size[1],
        0 <= y0,
        y == y0 + rows.len(),
        serves::<T, G, X, D, A, B>(*kernels, *grid_data, source, at, cfg.lanes as int),
        plane_fits(
            origin as int,
            grid_data.grid_size[0] as int,
            y1,
            sink.layout.total_size as int,
        ),
        sink.wf::<T>(cfg.lanes as int, old(state).len() as int, old(dst).len() as int),
        factors@ == history.last(),
        factors@.len() == cfg.blocks(tail),
        column_done(
            *kernels,
            *grid_data,
            source,
            at,
            *cfg,
            tail,
            origin as int,
            x as int,
            y0,
            rows,
            history,
            *sink,
            before,
            (old(state)@, old(dst)@),
        ),
    ensures
        r.0@.len() == cfg.blocks(tail),
        column_done(
            *kernels,
            *grid_data,
            source,
            at,
            *cfg,
            tail,
            origin as int,
            x as int,
            y0,
            rows.push(r.1@),
            history.push(r.0@),
            *sink,
            before,
            (final(state)@, final(dst)@),
        ),
        final(state).len() == old(state).len(),
        final(dst).len() == old(dst).len(),
{
    let ghost width = grid_data.grid_size[0] as int;
    proof {
        lemma_row_fits(origin as int, width, y as int, y1, sink.layout.total_size as int);
    }
    let base: usize = origin + y * grid_data.grid_size[0];
    proof {
        lemma_carried_handed(
            *kernels,
            *grid_data,
            source,
            at,
            *cfg,
            tail,
            x as int,
            y0,
            rows,
            history,
        );
    }
    let (left, Ghost(blocks)) = process_factors(
        kernels,
        grid_data,
        cfg,
        tail,
        base,
        x,
        y,
        factors,
        sink,
        state,
        dst,
        Ghost(source),
        Ghost(at),
    );
    proof {
        let longer = rows.push(blocks);
        let steps = history.push(left@);
        lemma_column_writes_prefix(
            *cfg,
            origin as int,
            width,
            x as int,
            y0,
            rows,
            longer,
            rows.len() as int,
        );
        combine::lemma_applied_concat(
            *sink.combiner,
            sink.pass,
            sink.layout,
            column_writes(*cfg, origin as int, width, x as int, y0, longer, rows.len() as int),
            group_writes(*cfg, base as int, x as int, blocks),
            before,
            (old(state)@, old(dst)@),
            (state@, dst@),
        );
        assert forall|r: int| 0 <= r < longer.len() implies stepped::<T, G, X, D, A, B>(
            *kernels,
            *grid_data,
            *cfg,
            tail,
            y0 + r,
            steps[r],
            #[trigger] longer[r],
            steps[r + 1],
        ) by {
            if r < rows.len() {
                assert(longer[r] == rows[r]);
            }
        }
        assert forall|r: int| 0 <= r < longer.len() implies row_shaped(
            *cfg,
            tail,
            #[trigger] longer[r],
        ) by {
            if r < rows.len() {
                assert(longer[r] == rows[r]);
            }
        }
    }
    (left, Ghost(blocks))
}

/// Takes one column of groups: prepares its factors and blends its rows, four
/// at a time while there are four.
fn process_column<T: Copy, G, X, const D: usize, A, B, I, P, F>(
    kernels: &Kernels<A, B>,
    grid_data: &GridDataLerp<T, D>,
    source: &G,
    at: usize,
    cfg: &InterpolationConfig,
    tail: bool,
    origin: usize,
    x: usize,
    y0: usize,
    y1: usize,
    sink: &Sink<I, P, F>,
    state: &mut Vec<T>,
    dst: &mut Vec<T>,
) -> (group: Ghost<GroupTrace<T>>) where
    A: Fn(&GridDataLerp<T, D>, &G, usize, usize, usize) -> X,
    B: Fn(&GridDataLerp<T, D>, &X, usize, usize) -> (Vec<T>, X),
    I: Fn(Vec<T>) -> (Vec<Vec<T>>, Vec<T>),
    P: Fn(Vec<Vec<T>>, Vec<T>, Vec<T>) -> (Vec<Vec<T>>, Vec<T>),
    F: Fn(Vec<Vec<T>>, Vec<T>) -> Vec<T>,

    requires
        D > 1,
        cfg.wf(grid_data.grid_size[0] as int),
        cfg.group_starts(tail, x as int),
        y0 <= y1 <= grid_data.grid_size[1],
        serves::<T, G, X, D, A, B>(*kernels, *grid_data, *source, at, cfg.lanes as int),
        plane_fits(
            origin as int,
            grid_data.grid_size[0] as int,
            y1 as int,
            sink.layout.total_size as int,
        ),
        sink.wf::<T>(cfg.lanes as int, old(state).len() as int, old(dst).len() as int),
    ensures
        group_shaped(*cfg, tail, y1 - y0, group@),
        group_blended::<T, G, X, D, A, B>(
            *kernels,
            *grid_data,
            *source,
            at,
            *cfg,
            tail,
            x as int,
            y0 as int,
            group@.rows,
        ),
        sink.takes(
            column_writes(
                *cfg,
                origin as int,
                grid_data.grid_size[0] as int,
                x as int,
                y0 as int,
                group@.rows,
                y1 - y0,
            ),
            (old(state)@, old(dst)@),
            (final(state)@, final(dst)@),
        ),
        final(state).len() == old(state).len(),
        final(dst).len() == old(dst).len(),
{
    let ghost before = (state@, dst@);
    let mut factors = initialize_factors(kernels, grid_data, source, at, cfg, tail, x);
    let ghost mut rows: Seq<Seq<Vec<T>>> = seq![];
    let ghost mut history: Seq<Seq<X>> = seq![factors@];
    let mut y: usize = y0;
    while y < y1
        invariant
            D > 1,
            cfg.wf(grid_data.grid_size[0] as int),
            cfg.group_starts(tail, x as int),
            y0 <= y <= y1 <= grid_data.grid_size[1],
            serves::<T, G, X, D, A, B>(*kernels, *grid_data, *source, at, cfg.lanes as int),
            plane_fits(
                origin as int,
                grid_data.grid_size[0] as int,
                y1 as int,
                sink.layout.total_size as int,
            ),
            state.len() == before.0.len(),
            dst.len() == before.1.len(),
            sink.wf::<T>(cfg.lanes as int, before.0.len() as int, before.1.len() as int),
            y == y0 + rows.len(),
            history.len() > 0,
            factors@ == history.last(),
            factors@.len() == cfg.blocks(tail),
            column_done(
                *kernels,
                *grid_data,
                *source,
                at,
                *cfg,
                tail,
                origin as int,
                x as int,
                y0 as int,
                rows,
                history,
                *sink,
                before,
                (state@, dst@),
            ),
        decreases y1 - y,
    {
        let batch: usize = if y1 - y < 4 {
            1
        } else {
            4
        };
        let mut step: usize = 0;
        while step < batch
            invariant
                D > 1,
                cfg.wf(grid_data.grid_size[0] as int),
                cfg.group_starts(tail, x as int),
                batch == 1 || batch == 4,
                step <= batch,
                y0 <= y,
                y + batch <= y1 <= grid_data.grid_size[1],
                serves::<T, G, X, D, A, B>(*kernels, *grid_data, *source, at, cfg.lanes as int),
                plane_fits(
                    origin as int,
                    grid_data.grid_size[0] as int,
                    y1 as int,
                    sink.layout.total_size as int,
                ),
                state.len() == before.0.len(),
                dst.len() == before.1.len(),
                sink.wf::<T>(cfg.lanes as int, before.0.len() as int, before.1.len() as int),
                y + step == y0 + rows.len(),
                history.len() > 0,
                factors@ == history.last(),
                factors@.len() == cfg.blocks(tail),
                column_done(
                    *kernels,
                    *grid_data,
                    *source,
                    at,
                    *cfg,
                    tail,
                    origin as int,
                    x as int,
                    y0 as int,
                    rows,
                    history,
                    *sink,
                    before,
                    (state@, dst@),
                ),
            decreases batch - step,
        {
            let (left, Ghost(blocks)) = process_row(
                kernels,
                grid_data,
                cfg,
                tail,
                origin,
                x,
                y + step,
                &factors,
                sink,
                state,
                dst,
                Ghost(*source),
                Ghost(at),
                Ghost(y0 as int),
                Ghost(y1 as int),
                Ghost(rows),
                Ghost(history),
                Ghost(before),
            );
            proof {
                rows = rows.push(blocks);
                history = history.push(left@);
            }
            factors = left;
            step = step + 1;
        }
        y = y + batch;
    }
    proof {
        assert(carried(
            *kernels,
            *grid_data,
            *source,
            at,
            *cfg,
            tail,
            x as int,
            y0 as int,
            rows,
            history,
        ));
    }
    Ghost(GroupTrace { rows })
}

/// Blends the rows from `y0` to `y1` and combines them into the output: the full
/// groups of the rows, or their tail.
pub(crate) fn interpolate<T: Copy, G, X, const D: usize, A, B, I, P, F>(
    kernels: &Kernels<A, B>,
    grid_data: &GridDataLerp<T, D>,
    source: &G,
    at: usize,
    cfg: &InterpolationConfig,
    tail: bool,
    origin: usize,
    y0: usize,
    y1: usize,
    sink: &Sink<I, P, F>,
    state: &mut Vec<T>,
    dst: &mut Vec<T>,
) -> (groups: Ghost<Seq<GroupTrace<T>>>) where
    A: Fn(&GridDataLerp<T, D>, &G, usize, usize, usize) -> X,
    B: Fn(&GridDataLerp<T, D>, &X, usize, usize) -> (Vec<T>, X),
    I: Fn(Vec<T>) -> (Vec<Vec<T>>, Vec<T>),
    P: Fn(Vec<Vec<T>>, Vec<T>, Vec<T>) -> (Vec<Vec<T>>, Vec<T>),
    F: Fn(Vec<Vec<T>>, Vec<T>) -> Vec<T>,

    requires
        cfg.wf(grid_data.grid_size[0] as int),
        y0 <= y1 <= grid_data.grid_size[1],
        D > 1,
        serves::<T, G, X, D, A, B>(*kernels, *grid_data, *source, at, cfg.lanes as int),
        plane_fits(
            origin as int,
            grid_data.grid_size[0] as int,
            y1 as int,
            sink.layout.total_size as int,
        ),
        sink.wf::<T>(cfg.lanes as int, old(state).len() as int, old(dst).len() as int),
    ensures
        strip_shaped(*cfg, tail, y1 - y0, groups@),
        strip_blended::<T, G, X, D, A, B>(
            *kernels,
            *grid_data,
            *source,
            at,
            *cfg,
            tail,
            y0 as int,
            groups@,
        ),
        sink.takes(
            strip_writes(
                *cfg,
                origin as int,
                grid_data.grid_size[0] as int,
                tail,
                y0 as int,
                y1 - y0,
                groups@,
                groups@.len() as int,
            ),
            (old(state)@, old(dst)@),
            (final(state)@, final(dst)@),
        ),
        final(state).len() == old(state).len(),
        final(dst).len() == old(dst).len(),
{
    let width: usize = grid_data.grid_size[0];
    let (first, end): (usize, usize) = if tail {
        (cfg.block_tail_start, width)
    } else {
        (0, cfg.block_tail_start)
    };
    let ghost before = (state@, dst@);
    let ghost height = y1 - y0;
    let ghost mut groups: Seq<GroupTrace<T>> = seq![];
    let mut x: usize = first;
    proof {
        interpolation::lemma_strip_is_full(*cfg, width as int);
    }
    while x < end
        invariant
            D > 1,
            width == grid_data.grid_size[0],
            height == y1 - y0,
            cfg.wf(width as int),
            y0 <= y1 <= grid_data.grid_size[1],
            serves::<T, G, X, D, A, B>(*kernels, *grid_data, *source, at, cfg.lanes as int),
            plane_fits(origin as int, width as int, y1 as int, sink.layout.total_size as int),
            end == (if tail {
                width
            } else {
                cfg.block_tail_start
            }),
            x <= end,
            groups.len() <= interpolation::group_count(*cfg, tail),
            x < end <==> groups.len() < interpolation::group_count(*cfg, tail),
            x < end ==> x == interpolation::first_group(*cfg, tail) + groups.len()
                * cfg.block_lanes,
            state.len() == before.0.len(),
            dst.len() == before.1.len(),
            sink.wf::<T>(cfg.lanes as int, before.0.len() as int, before.1.len() as int),
            forall|m: int|
                0 <= m < groups.len() ==> group_shaped(*cfg, tail, height, #[trigger] groups[m]),
            strip_blended::<T, G, X, D, A, B>(
                *kernels,
                *grid_data,
                *source,
                at,
                *cfg,
                tail,
                y0 as int,
                groups,
            ),
            sink.takes(
                strip_writes(
                    *cfg,
                    origin as int,
                    width as int,
                    tail,
                    y0 as int,
                    height,
                    groups,
                    groups.len() as int,
                ),
                before,
                (state@, dst@),
            ),
        decreases end - x,
    {
        proof {
            interpolation::lemma_group_starts(*cfg, width as int, tail, groups.len() as int);
        }
        let ghost mid = (state@, dst@);
        let Ghost(group) = process_column(
            kernels,
            grid_data,
            source,
            at,
            cfg,
            tail,
            origin,
            x,
            y0,
            y1,
            sink,
            state,
            dst,
        );
        proof {
            let longer = groups.push(group);
            let m = groups.len() as int;
            lemma_strip_writes_prefix(
                *cfg,
                origin as int,
                width as int,
                tail,
                y0 as int,
                height,
                groups,
                longer,
                m,
            );
            combine::lemma_applied_concat(
                *sink.combiner,
                sink.pass,
                sink.layout,
                strip_writes(
                    *cfg,
                    origin as int,
                    width as int,
                    tail,
                    y0 as int,
                    height,
                    longer,
                    m,
                ),
                column_writes(
                    *cfg,
                    origin as int,
                    width as int,
                    x as int,
                    y0 as int,
                    group.rows,
                    height,
                ),
                before,
                mid,
                (state@, dst@),
            );
            groups = longer;
        }
        if end - x > cfg.block_lanes {
            x = x + cfg.block_lanes;
        } else {
            x = end;
        }
    }
    Ghost(groups)
}

/// The slices before `z1` of a solid fit the output, and so do the rows before
/// `y1` of each of them.
pub open spec fn solid_fits(plane: int, width: int, y1: int, z1: int, total: int) -> bool {
    0 <= y1 * width <= plane && z1 * plane <= total
}

proof fn lemma_slice_fits(plane: int, width: int, y1: int, z: int, z1: int, total: int)
    requires
        solid_fits(plane, width, y1, z1, total),
        0 <= z < z1,
    ensures
        plane_fits(z * plane, width, y1, total),
        z * plane <= total,
{
    assert(0 <= z * plane && z * plane + plane <= z1 * plane) by (nonlinear_arith)
        requires
            0 <= z,
            z + 1 <= z1,
            0 <= plane,
    ;
}

/// Blends the slices from `z0` to `z1` and combines them into the output: the
/// full groups of their rows, or their tail.
pub(crate) fn interpolate_slab<T: Copy, G, X, const D: usize, A, B, I, P, F>(
    kernels: &Kernels<A, B>,
    grid_data: &GridDataLerp<T, D>,
    source: &G,
    cfg: &InterpolationConfig,
    tail: bool,
    plane: usize,
    y0: usize,
    y1: usize,
    z0: usize,
    z1: usize,
    sink: &Sink<I, P, F>,
    state: &mut Vec<T>,
    dst: &mut Vec<T>,
) -> (slices: Ghost<Seq<Seq<GroupTrace<T>>>>) where
    A: Fn(&GridDataLerp<T, D>, &G, usize, usize, usize) -> X,
    B: Fn(&GridDataLerp<T, D>, &X, usize, usize) -> (Vec<T>, X),
    I: Fn(Vec<T>) -> (Vec<Vec<T>>, Vec<T>),
    P: Fn(Vec<Vec<T>>, Vec<T>, Vec<T>) -> (Vec<Vec<T>>, Vec<T>),
    F: Fn(Vec<Vec<T>>, Vec<T>) -> Vec<T>,

    requires
        cfg.wf(grid_data.grid_size[0] as int),
        y0 <= y1 <= grid_data.grid_size[1],
        z0 <= z1,
        D > 1,
        forall|at: usize|
            z0 <= at < z1 ==> #[trigger] serves::<T, G, X, D, A, B>(
                *kernels,
                *grid_data,
                *source,
                at,
                cfg.lanes as int,
            ),
        solid_fits(
            plane as int,
            grid_data.grid_size[0] as int,
            y1 as int,
            z1 as int,
            sink.layout.total_size as int,
        ),
        sink.wf::<T>(cfg.lanes as int, old(state).len() as int, old(dst).len() as int),
    ensures
        slab_shaped(*cfg, tail, y1 - y0, z1 - z0, slices@),
        slab_blended::<T, G, X, D, A, B>(
            *kernels,
            *grid_data,
            *source,
            *cfg,
            tail,
            y0 as int,
            z0 as int,
            slices@,
        ),
        sink.takes(
            slab_writes(
                *cfg,
                plane as int,
                grid_data.grid_size[0] as int,
                tail,
                y0 as int,
                y1 - y0,
                z0 as int,
                slices@,
                slices@.len() as int,
            ),
            (old(state)@, old(dst)@),
            (final(state)@, final(dst)@),
        ),
        final(state).len() == old(state).len(),
        final(dst).len() == old(dst).len(),
{
    let ghost before = (state@, dst@);
    let ghost width = grid_data.grid_size[0] as int;
    let ghost height = y1 - y0;
    let ghost mut slices: Seq<Seq<GroupTrace<T>>> = seq![];
    let mut z: usize = z0;
    while z < z1
        invariant
            width == grid_data.grid_size[0],
            height == y1 - y0,
            cfg.wf(width),
            y0 <= y1 <= grid_data.grid_size[1],
            z0 <= z <= z1,
            D > 1,
            forall|at: usize|
                z0 <= at < z1 ==> #[trigger] serves::<T, G, X, D, A, B>(
                    *kernels,
                    *grid_data,
                    *source,
                    at,
                    cfg.lanes as int,
                ),
            solid_fits(
                plane as int,
                width,
                y1 as int,
                z1 as int,
                sink.layout.total_size as int,
            ),
            state.len() == before.0.len(),
            dst.len() == before.1.len(),
            sink.wf::<T>(cfg.lanes as int, before.0.len() as int, before.1.len() as int),
            slices.len() == z - z0,
            forall|k: int|
                0 <= k < slices.len() ==> strip_shaped(*cfg, tail, height, #[trigger] slices[k]),
            slab_blended::<T, G, X, D, A, B>(
                *kernels,
                *grid_data,
                *source,
                *cfg,
                tail,
                y0 as int,
                z0 as int,
                slices,
            ),
            sink.takes(
                slab_writes(
                    *cfg,
                    plane as int,
                    width,
                    tail,
                    y0 as int,
                    height,
                    z0 as int,
                    slices,
                    slices.len() as int,
                ),
                before,
                (state@, dst@),
            ),
        decreases z1 - z,
    {
        proof {
            lemma_slice_fits(
                plane as int,
                width,
                y1 as int,
                z as int,
                z1 as int,
                sink.layout.total_size as int,
            );
            assert(serves::<T, G, X, D, A, B>(*kernels, *grid_data, *source, z, cfg.lanes as int));
        }
        let ghost mid = (state@, dst@);
        let origin: usize = z * plane;
        let Ghost(groups) = interpolate(
            kernels,
            grid_data,
            source,
            z,
            cfg,
            tail,
            origin,
            y0,
            y1,
            sink,
            state,
            dst,
        );
        proof {
            let longer = slices.push(groups);
            let n = slices.len() as int;
            assert(z0 + (n + 1) - 1 == z);
            lemma_slab_writes_prefix(
                *cfg,
                plane as int,
                width,
                tail,
                y0 as int,
                height,
                z0 as int,
                slices,
                longer,
                n,
            );
            combine::lemma_applied_concat(
                *sink.combiner,
                sink.pass,
                sink.layout,
                slab_writes(
                    *cfg,
                    plane as int,
                    width,
                    tail,
                    y0 as int,
                    height,
                    z0 as int,
                    longer,
                    n,
                ),
                strip_writes(
                    *cfg,
                    origin as int,
                    width,
                    tail,
                    y0 as int,
                    height,
                    groups,
                    groups.len() as int,
                ),
                before,
                mid,
                (state@, dst@),
            );
            slices = longer;
        }
        z = z + 1;
    }
    Ghost(slices)
}

/// Samples of the first `count` registers of a group.
spec fn group_filled(cfg: InterpolationConfig, tail: bool, count: int) -> int {
    if count * cfg.lanes <= interpolation::group_len(cfg, tail) {
        count * cfg.lanes
    } else {
        interpolation::group_len(cfg, tail)
    }
}

/// The first registers of a group go over their samples once.
proof fn lemma_group_cover<T>(
    cfg: InterpolationConfig,
    width: int,
    base: int,
    x: int,
    tail: bool,
    blocks: Seq<Vec<T>>,
    count: int,
    n: int,
)
    requires
        cfg.wf(width),
        width >= 0,
        cfg.group_starts(tail, x),
        row_shaped(cfg, tail, blocks),
        0 <= count <= blocks.len(),
    ensures
        combine::cover_count(group_writes(cfg, base, x, blocks.take(count)), n) == (if base + x <= n
            < base + x + group_filled(cfg, tail, count) {
            1int
        } else {
            0int
        }),
    decreases count,
{
    let writes = group_writes(cfg, base, x, blocks.take(count));
    if count > 0 {
        let b = count - 1;
        let shorter = group_writes(cfg, base, x, blocks.take(b));
        let w = combine::Write { start: base + x + b * cfg.lanes, value: blocks[b]@ };
        cfg.lemma_block_inside(width, tail, x, b);
        lemma_group_cover(cfg, width, base, x, tail, blocks, b, n);
        assert(blocks[b]@.len() == cfg.block_len(tail, b));
        assert(writes =~= shorter.push(w));
        combine::lemma_cover_push(shorter, w, n);
        let l = cfg.lanes as int;
        assert((b + 1) * l == b * l + l) by (nonlinear_arith);
    }
}

/// All registers of a group hold all of its samples.
proof fn lemma_group_is_filled(cfg: InterpolationConfig, width: int, tail: bool)
    requires
        cfg.wf(width),
        width >= 0,
    ensures
        group_filled(cfg, tail, cfg.blocks(tail)) == interpolation::group_len(cfg, tail),
        cfg.block_lanes > 0,
        0 <= cfg.blocks(tail),
{
    let l = cfg.lanes as int;
    let n = cfg.num_blocks as int;
    let bl = cfg.block_lanes as int;
    assert(bl > 0) by (nonlinear_arith)
        requires
            bl == n * l,
            n > 0,
            l > 0,
    ;
    lemma_mod_bound(width, bl);
    let t = cfg.tail_size as int;
    lemma_fundamental_div_mod(t + l - 1, l);
    lemma_mod_bound(t + l - 1, l);
    let k = cfg.block_tail_size as int;
    assert(k * l == l * k) by (nonlinear_arith);
}

/// Two samples of a plane are the same only in the same row.
pub(crate) proof fn lemma_same_row(width: int, y: int, s: int, row: int, at: int)
    requires
        0 <= s < width,
        0 <= at < width,
        y * width + s == row * width + at,
    ensures
        y == row,
        s == at,
{
    assert(y == row) by (nonlinear_arith)
        requires
            0 <= s < width,
            0 <= at < width,
            y * width + s == row * width + at,
    ;
}

/// The first rows of a group go over their samples once.
proof fn lemma_column_cover<T>(
    cfg: InterpolationConfig,
    origin: int,
    width: int,
    x: int,
    tail: bool,
    y0: int,
    height: int,
    group: GroupTrace<T>,
    count: int,
    y: int,
    s: int,
)
    requires
        cfg.wf(width),
        cfg.group_starts(tail, x),
        group_shaped(cfg, tail, height, group),
        0 <= count <= height,
        0 <= s < width,
    ensures
        combine::cover_count(
            column_writes(cfg, origin, width, x, y0, group.rows, count),
            origin + y * width + s,
        ) == (if y0 <= y < y0 + count && x <= s < x + interpolation::group_len(cfg, tail) {
            1int
        } else {
            0int
        }),
    decreases count,
{
    let n = origin + y * width + s;
    if count > 0 {
        let row = y0 + count - 1;
        let blocks = group.rows[count - 1];
        let base = origin + row * width;
        assert(row_shaped(cfg, tail, blocks));
        lemma_column_cover(
            cfg,
            origin,
            width,
            x,
            tail,
            y0,
            height,
            group,
            count - 1,
            y,
            s,
        );
        lemma_group_cover(cfg, width, base, x, tail, blocks, blocks.len() as int, n);
        assert(blocks.take(blocks.len() as int) =~= blocks);
        lemma_group_is_filled(cfg, width, tail);
        interpolation::lemma_group_inside(cfg, width, tail, x);
        combine::lemma_cover_concat(
            column_writes(cfg, origin, width, x, y0, group.rows, count - 1),
            group_writes(cfg, base, x, blocks),
            n,
        );
        if base + x <= n < base + x + interpolation::group_len(cfg, tail) {
            lemma_same_row(width, y, s, row, n - base);
        }
    }
}

/// The first groups of a band go over their samples once.
proof fn lemma_groups_cover<T>(
    cfg: InterpolationConfig,
    origin: int,
    width: int,
    tail: bool,
    y0: int,
    height: int,
    groups: Seq<GroupTrace<T>>,
    count: int,
    y: int,
    s: int,
)
    requires
        cfg.wf(width),
        strip_shaped(cfg, tail, height, groups),
        0 <= height,
        0 <= s < width,
        0 <= count <= groups.len(),
    ensures
        combine::cover_count(
            strip_writes(cfg, origin, width, tail, y0, height, groups, count),
            origin + y * width + s,
        ) == (if y0 <= y < y0 + height && interpolation::first_group(cfg, tail) <= s && count > 0
            && s < interpolation::first_group(cfg, tail) + (count - 1) * cfg.block_lanes
            + interpolation::group_len(cfg, tail) {
            1int
        } else {
            0int
        }),
    decreases count,
{
    if count > 0 {
        let m = count - 1;
        let x = interpolation::first_group(cfg, tail) + m * cfg.block_lanes;
        interpolation::lemma_group_starts(cfg, width, tail, m);
        lemma_groups_cover(cfg, origin, width, tail, y0, height, groups, m, y, s);
        lemma_column_cover(
            cfg,
            origin,
            width,
            x,
            tail,
            y0,
            height,
            groups[m],
            height,
            y,
            s,
        );
        combine::lemma_cover_concat(
            strip_writes(cfg, origin, width, tail, y0, height, groups, m),
            column_writes(cfg, origin, width, x, y0, groups[m].rows, height),
            origin + y * width + s,
        );
        let bl = cfg.block_lanes as int;
        if m > 0 {
            assert((m - 1) * bl == m * bl - bl) by (nonlinear_arith);
        } else {
            assert(m * bl == 0) by (nonlinear_arith)
                requires
                    m == 0,
            ;
        }
    }
}

/// The groups of a band go over the part of the rows that they hold once.
proof fn lemma_strip_cover<T>(
    cfg: InterpolationConfig,
    origin: int,
    width: int,
    tail: bool,
    y0: int,
    height: int,
    groups: Seq<GroupTrace<T>>,
    y: int,
    s: int,
)
    requires
        cfg.wf(width),
        strip_shaped(cfg, tail, height, groups),
        0 <= height,
        0 <= s < width,
    ensures
        combine::cover_count(
            strip_writes(
                cfg,
                origin,
                width,
                tail,
                y0,
                height,
                groups,
                groups.len() as int,
            ),
            origin + y * width + s,
        ) == (if y0 <= y < y0 + height && interpolation::in_part(cfg, width, tail, s) {
            1int
        } else {
            0int
        }),
{
    interpolation::lemma_strip_is_full(cfg, width);
    let count = groups.len() as int;
    lemma_groups_cover(cfg, origin, width, tail, y0, height, groups, count, y, s);
    let bl = cfg.block_lanes as int;
    if count > 0 {
        assert((count - 1) * bl == count * bl - bl) by (nonlinear_arith);
        assert(count == 1 ==> (count - 1) * bl == 0) by (nonlinear_arith);
    }
}

/// A band goes over each of its samples once, and over no other.
pub(crate) proof fn lemma_band_cover<T>(
    cfg: InterpolationConfig,
    origin: int,
    width: int,
    y0: int,
    height: int,
    t: BandTrace<T>,
    y: int,
    s: int,
)
    requires
        cfg.wf(width),
        band_shaped(cfg, height, t),
        0 <= height,
        0 <= s < width,
    ensures
        combine::cover_count(
            band_writes(cfg, origin, width, y0, height, t),
            origin + y * width + s,
        ) == (if y0 <= y < y0 + height {
            1int
        } else {
            0int
        }),
{
    lemma_strip_cover(cfg, origin, width, false, y0, height, t.head, y, s);
    lemma_strip_cover(cfg, origin, width, true, y0, height, t.tail, y, s);
    combine::lemma_cover_concat(
        strip_writes(cfg, origin, width, false, y0, height, t.head, t.head.len() as int),
        strip_writes(cfg, origin, width, true, y0, height, t.tail, t.tail.len() as int),
        origin + y * width + s,
    );
}

/// The first slices of a slab go over the part of their rows that their groups
/// hold once.
proof fn lemma_slab_cover<T>(
    cfg: InterpolationConfig,
    plane_height: int,
    width: int,
    tail: bool,
    y0: int,
    height: int,
    z0: int,
    depth: int,
    slices: Seq<Seq<GroupTrace<T>>>,
    count: int,
    z: int,
    y: int,
    s: int,
)
    requires
        cfg.wf(width),
        slab_shaped(cfg, tail, height, depth, slices),
        0 <= y0,
        0 <= height,
        y0 + height <= plane_height,
        0 <= count <= depth,
        0 <= s < width,
        0 <= y < plane_height,
    ensures
        combine::cover_count(
            slab_writes(
                cfg,
                width * plane_height,
                width,
                tail,
                y0,
                height,
                z0,
                slices,
                count,
            ),
            z * (width * plane_height) + y * width + s,
        ) == (if z0 <= z < z0 + count && y0 <= y < y0 + height && interpolation::in_part(
            cfg,
            width,
            tail,
            s,
        ) {
            1int
        } else {
            0int
        }),
    decreases count,
{
    let plane = width * plane_height;
    let n = z * plane + y * width + s;
    if count > 0 {
        let slice = z0 + count - 1;
        let groups = slices[count - 1];
        assert(strip_shaped(cfg, tail, height, groups));
        lemma_slab_cover(
            cfg,
            plane_height,
            width,
            tail,
            y0,
            height,
            z0,
            depth,
            slices,
            count - 1,
            z,
            y,
            s,
        );
        let row = (z - slice) * plane_height + y;
        assert(n == slice * plane + row * width + s) by (nonlinear_arith)
            requires
                n == z * plane + y * width + s,
                plane == width * plane_height,
                row == (z - slice) * plane_height + y,
        ;
        lemma_strip_cover(cfg, slice * plane, width, tail, y0, height, groups, row, s);
        combine::lemma_cover_concat(
            slab_writes(cfg, plane, width, tail, y0, height, z0, slices, count - 1),
            strip_writes(
                cfg,
                slice * plane,
                width,
                tail,
                y0,
                height,
                groups,
                groups.len() as int,
            ),
            n,
        );
        if y0 <= row < y0 + height {
            assert(z == slice) by (nonlinear_arith)
                requires
                    0 <= y < plane_height,
                    0 <= (z - slice) * plane_height + y < plane_height,
            ;
        }
        if z == slice {
            assert((z - slice) * plane_height == 0) by (nonlinear_arith)
                requires
                    z == slice,
            ;
        }
    }
}

/// A band of a slab goes over each of its samples once, and over no other.
pub(crate) proof fn lemma_block_cover<T>(
    cfg: InterpolationConfig,
    plane_height: int,
    width: int,
    y0: int,
    height: int,
    z0: int,
    depth: int,
    t: BlockTrace<T>,
    z: int,
    y: int,
    s: int,
)
    requires
        cfg.wf(width),
        block_shaped(cfg, height, depth, t),
        0 <= y0,
        0 <= height,
        0 <= depth,
        y0 + height <= plane_height,
        0 <= s < width,
        0 <= y < plane_height,
    ensures
        combine::cover_count(
            block_writes(cfg, width * plane_height, width, y0, height, z0, t),
            z * (width * plane_height) + y * width + s,
        ) == (if z0 <= z < z0 + depth && y0 <= y < y0 + height {
            1int
        } else {
            0int
        }),
{
    lemma_slab_cover(
        cfg,
        plane_height,
        width,
        false,
        y0,
        height,
        z0,
        depth,
        t.heads,
        depth,
        z,
        y,
        s,
    );
    lemma_slab_cover(
        cfg,
        plane_height,
        width,
        true,
        y0,
        height,
        z0,
        depth,
        t.tails,
        depth,
        z,
        y,
        s,
    );
    combine::lemma_cover_concat(
        slab_writes(cfg, width * plane_height, width, false, y0, height, z0, t.heads, depth),
        slab_writes(cfg, width * plane_height, width, true, y0, height, z0, t.tails, depth),
        z * (width * plane_height) + y * width + s,
    );
}

/// The registers of a group lie in the output where their row does.
proof fn lemma_group_fits<T>(
    layout: combine::Layout,
    cfg: InterpolationConfig,
    width: int,
    base: int,
    x: int,
    tail: bool,
    blocks: Seq<Vec<T>>,
)
    requires
        cfg.wf(width),
        width >= 0,
        cfg.group_starts(tail, x),
        row_shaped(cfg, tail, blocks),
        0 <= base,
        base + width <= layout.total_size,
    ensures
        combine::all_fit(layout, cfg.lanes as int, group_writes(cfg, base, x, blocks)),
{
    let writes = group_writes(cfg, base, x, blocks);
    assert forall|b: int| 0 <= b < writes.len() implies combine::fits(
        layout,
        #[trigger] writes[b],
    ) && writes[b].value.len() <= cfg.lanes by {
        cfg.lemma_block_inside(width, tail, x, b);
        assert(blocks[b]@.len() == cfg.block_len(tail, b));
    }
}

/// The first rows of a group lie in the output.
proof fn lemma_column_fits<T>(
    layout: combine::Layout,
    cfg: InterpolationConfig,
    origin: int,
    width: int,
    x: int,
    tail: bool,
    y0: int,
    height: int,
    group: GroupTrace<T>,
    count: int,
)
    requires
        cfg.wf(width),
        width >= 0,
        cfg.group_starts(tail, x),
        group_shaped(cfg, tail, height, group),
        0 <= count <= height,
        0 <= y0,
        0 <= origin,
        plane_fits(origin, width, y0 + height, layout.total_size as int),
    ensures
        combine::all_fit(
            layout,
            cfg.lanes as int,
            column_writes(cfg, origin, width, x, y0, group.rows, count),
        ),
    decreases count,
{
    if count > 0 {
        let row = y0 + count - 1;
        let blocks = group.rows[count - 1];
        lemma_column_fits(layout, cfg, origin, width, x, tail, y0, height, group, count - 1);
        lemma_row_fits(origin, width, row, y0 + height, layout.total_size as int);
        lemma_group_fits(layout, cfg, width, origin + row * width, x, tail, blocks);
        combine::lemma_fit_concat(
            layout,
            cfg.lanes as int,
            column_writes(cfg, origin, width, x, y0, group.rows, count - 1),
            group_writes(cfg, origin + row * width, x, blocks),
        );
    }
}

/// The first groups of a band lie in the output.
proof fn lemma_strip_fits<T>(
    layout: combine::Layout,
    cfg: InterpolationConfig,
    origin: int,
    width: int,
    tail: bool,
    y0: int,
    height: int,
    groups: Seq<GroupTrace<T>>,
    count: int,
)
    requires
        cfg.wf(width),
        width >= 0,
        strip_shaped(cfg, tail, height, groups),
        0 <= height,
        0 <= count <= groups.len(),
        0 <= y0,
        0 <= origin,
        plane_fits(origin, width, y0 + height, layout.total_size as int),
    ensures
        combine::all_fit(
            layout,
            cfg.lanes as int,
            strip_writes(cfg, origin, width, tail, y0, height, groups, count),
        ),
    decreases count,
{
    if count > 0 {
        let m = count - 1;
        let x = interpolation::first_group(cfg, tail) + m * cfg.block_lanes;
        interpolation::lemma_group_starts(cfg, width, tail, m);
        lemma_strip_fits(layout, cfg, origin, width, tail, y0, height, groups, m);
        lemma_column_fits(layout, cfg, origin, width, x, tail, y0, height, groups[m], height);
        combine::lemma_fit_concat(
            layout,
            cfg.lanes as int,
            strip_writes(cfg, origin, width, tail, y0, height, groups, m),
            column_writes(cfg, origin, width, x, y0, groups[m].rows, height),
        );
    }
}

/// A band lies in the output.
pub(crate) proof fn lemma_band_fits<T>(
    layout: combine::Layout,
    cfg: InterpolationConfig,
    origin: int,
    width: int,
    y0: int,
    height: int,
    t: BandTrace<T>,
)
    requires
        cfg.wf(width),
        width >= 0,
        band_shaped(cfg, height, t),
        0 <= height,
        0 <= y0,
        0 <= origin,
        plane_fits(origin, width, y0 + height, layout.total_size as int),
    ensures
        combine::all_fit(layout, cfg.lanes as int, band_writes(cfg, origin, width, y0, height, t)),
{
    let heads = t.head.len() as int;
    let tails = t.tail.len() as int;
    lemma_strip_fits(layout, cfg, origin, width, false, y0, height, t.head, heads);
    lemma_strip_fits(layout, cfg, origin, width, true, y0, height, t.tail, tails);
    combine::lemma_fit_concat(
        layout,
        cfg.lanes as int,
        strip_writes(cfg, origin, width, false, y0, height, t.head, heads),
        strip_writes(cfg, origin, width, true, y0, height, t.tail, tails),
    );
}

/// The first slices of a slab lie in the output.
proof fn lemma_slab_fits<T>(
    layout: combine::Layout,
    cfg: InterpolationConfig,
    plane: int,
    width: int,
    tail: bool,
    y0: int,
    height: int,
    z0: int,
    depth: int,
    slices: Seq<Seq<GroupTrace<T>>>,
    count: int,
)
    requires
        cfg.wf(width),
        width >= 0,
        slab_shaped(cfg, tail, height, depth, slices),
        0 <= height,
        0 <= y0,
        0 <= z0,
        0 <= count <= depth,
        solid_fits(plane, width, y0 + height, z0 + depth, layout.total_size as int),
    ensures
        combine::all_fit(
            layout,
            cfg.lanes as int,
            slab_writes(cfg, plane, width, tail, y0, height, z0, slices, count),
        ),
    decreases count,
{
    if count > 0 {
        let z = z0 + count - 1;
        let groups = slices[count - 1];
        assert(strip_shaped(cfg, tail, height, groups));
        lemma_slab_fits(
            layout,
            cfg,
            plane,
            width,
            tail,
            y0,
            height,
            z0,
            depth,
            slices,
            count - 1,
        );
        let total = layout.total_size as int;
        lemma_slice_fits(plane, width, y0 + height, z, z0 + depth, total);
        assert(0 <= z * plane) by (nonlinear_arith)
            requires
                0 <= z,
                0 <= plane,
        ;
        let groups_len = groups.len() as int;
        lemma_strip_fits(
            layout,
            cfg,
            z * plane,
            width,
            tail,
            y0,
            height,
            groups,
            groups_len,
        );
        combine::lemma_fit_concat(
            layout,
            cfg.lanes as int,
            slab_writes(cfg, plane, width, tail, y0, height, z0, slices, count - 1),
            strip_writes(cfg, z * plane, width, tail, y0, height, groups, groups_len),
        );
    }
}

/// A band of a slab lies in the output.
pub(crate) proof fn lemma_block_fits<T>(
    layout: combine::Layout,
    cfg: InterpolationConfig,
    plane: int,
    width: int,
    y0: int,
    height: int,
    z0: int,
    depth: int,
    t: BlockTrace<T>,
)
    requires
        cfg.wf(width),
        width >= 0,
        block_shaped(cfg, height, depth, t),
        0 <= height,
        0 <= depth,
        0 <= y0,
        0 <= z0,
        solid_fits(plane, width, y0 + height, z0 + depth, layout.total_size as int),
    ensures
        combine::all_fit(
            layout,
            cfg.lanes as int,
            block_writes(cfg, plane, width, y0, height, z0, t),
        ),
{
    lemma_slab_fits(
        layout,
        cfg,
        plane,
        width,
        false,
        y0,
        height,
        z0,
        depth,
        t.heads,
        depth,
    );
    lemma_slab_fits(
        layout,
        cfg,
        plane,
        width,
        true,
        y0,
        height,
        z0,
        depth,
        t.tails,
        depth,
    );
    combine::lemma_fit_concat(
        layout,
        cfg.lanes as int,
        slab_writes(cfg, plane, width, false, y0, height, z0, t.heads, depth),
        slab_writes(cfg, plane, width, true, y0, height, z0, t.tails, depth),
    );
}

impl<A, B> Kernels<A, B> {
    /// Each kernel gives the same for the same. `like` tells apart what bands are
    /// blended from, and `same` tells factors apart.
    pub open spec fn determined<T, G, X, const D: usize>(
        self,
        grid_data: GridDataLerp<T, D>,
        like: spec_fn(G, G) -> bool,
        same: spec_fn(X, X) -> bool,
    ) -> bool where
        A: Fn(&GridDataLerp<T, D>, &G, usize, usize, usize) -> X,
        B: Fn(&GridDataLerp<T, D>, &X, usize, usize) -> (Vec<T>, X),
     {
        &&& forall|g: G, h: G, at: usize, x: usize, len: usize, r: X, q: X|
            like(g, h) && #[trigger] self.prepare.ensures((&grid_data, &g, at, x, len), r)
                && #[trigger] self.prepare.ensures((&grid_data, &h, at, x, len), q) ==> same(r, q)
        &&& forall|f: X, e: X, y: usize, len: usize, r: (Vec<T>, X), q: (Vec<T>, X)|
            same(f, e) && #[trigger] self.blend.ensures((&grid_data, &f, y, len), r)
                && #[trigger] self.blend.ensures((&grid_data, &e, y, len), q) ==> r.0@ == q.0@
                && same(r.1, q.1)
    }
}

/// Determined kernels carry the same factors through the rows of a group.
proof fn lemma_factors_agree<T, G, X, const D: usize, A, B>(
    k: Kernels<A, B>,
    grid_data: GridDataLerp<T, D>,
    like: spec_fn(G, G) -> bool,
    same: spec_fn(X, X) -> bool,
    g: G,
    h: G,
    at: usize,
    cfg: InterpolationConfig,
    tail: bool,
    x: int,
    y0: int,
    rows: Seq<Seq<Vec<T>>>,
    factors: Seq<Seq<X>>,
    others: Seq<Seq<Vec<T>>>,
    other_factors: Seq<Seq<X>>,
    r: int,
) where
    A: Fn(&GridDataLerp<T, D>, &G, usize, usize, usize) -> X,
    B: Fn(&GridDataLerp<T, D>, &X, usize, usize) -> (Vec<T>, X),

    requires
        k.determined(grid_data, like, same),
        like(g, h),
        carried(k, grid_data, g, at, cfg, tail, x, y0, rows, factors),
        carried(k, grid_data, h, at, cfg, tail, x, y0, others, other_factors),
        rows.len() == others.len(),
        0 <= r <= rows.len(),
    ensures
        factors[r].len() == other_factors[r].len(),
        forall|b: int|
            0 <= b < factors[r].len() ==> same(#[trigger] factors[r][b], other_factors[r][b]),
    decreases r,
{
    if r == 0 {
        assert forall|b: int| 0 <= b < factors[0].len() implies same(
            #[trigger] factors[0][b],
            other_factors[0][b],
        ) by {
            let column = (x + b * cfg.lanes) as usize;
            let len = cfg.block_len(tail, b) as usize;
            assert(k.prepare.ensures((&grid_data, &g, at, column, len), factors[0][b]));
            assert(k.prepare.ensures((&grid_data, &h, at, column, len), other_factors[0][b]));
        }
    } else {
        let m = r - 1;
        lemma_factors_agree(
            k,
            grid_data,
            like,
            same,
            g,
            h,
            at,
            cfg,
            tail,
            x,
            y0,
            rows,
            factors,
            others,
            other_factors,
            m,
        );
        let blocks = rows[m];
        let made = others[m];
        assert forall|b: int| 0 <= b < factors[r].len() implies same(
            #[trigger] factors[r][b],
            other_factors[r][b],
        ) by {
            let y = (y0 + m) as usize;
            let len = cfg.block_len(tail, b) as usize;
            let value = blocks[b];
            let other = made[b];
            assert(same(factors[m][b], other_factors[m][b]));
            assert(k.blend.ensures(
                (&grid_data, &factors[m][b], y, len),
                (value, factors[m + 1][b]),
            ));
            assert(k.blend.ensures(
                (&grid_data, &other_factors[m][b], y, len),
                (other, other_factors[m + 1][b]),
            ));
        }
    }
}

/// Determined kernels give the same values for the first rows of a group.
proof fn lemma_column_agrees<T, G, X, const D: usize, A, B>(
    k: Kernels<A, B>,
    grid_data: GridDataLerp<T, D>,
    like: spec_fn(G, G) -> bool,
    same: spec_fn(X, X) -> bool,
    g: G,
    h: G,
    at: usize,
    cfg: InterpolationConfig,
    tail: bool,
    origin: int,
    width: int,
    x: int,
    y0: int,
    rows: Seq<Seq<Vec<T>>>,
    others: Seq<Seq<Vec<T>>>,
    count: int,
) where
    A: Fn(&GridDataLerp<T, D>, &G, usize, usize, usize) -> X,
    B: Fn(&GridDataLerp<T, D>, &X, usize, usize) -> (Vec<T>, X),

    requires
        k.determined(grid_data, like, same),
        like(g, h),
        group_blended::<T, G, X, D, A, B>(k, grid_data, g, at, cfg, tail, x, y0, rows),
        group_blended::<T, G, X, D, A, B>(k, grid_data, h, at, cfg, tail, x, y0, others),
        rows.len() == others.len(),
        0 <= count <= rows.len(),
    ensures
        column_writes(cfg, origin, width, x, y0, rows, count) == column_writes(
            cfg,
            origin,
            width,
            x,
            y0,
            others,
            count,
        ),
    decreases count,
{
    if count > 0 {
        let m = count - 1;
        lemma_column_agrees(
            k,
            grid_data,
            like,
            same,
            g,
            h,
            at,
            cfg,
            tail,
            origin,
            width,
            x,
            y0,
            rows,
            others,
            m,
        );
        let factors = choose|factors: Seq<Seq<X>>| #[trigger]
            carried(k, grid_data, g, at, cfg, tail, x, y0, rows, factors);
        let other_factors = choose|factors: Seq<Seq<X>>| #[trigger]
            carried(k, grid_data, h, at, cfg, tail, x, y0, others, factors);
        lemma_factors_agree(
            k,
            grid_data,
            like,
            same,
            g,
            h,
            at,
            cfg,
            tail,
            x,
            y0,
            rows,
            factors,
            others,
            other_factors,
            m,
        );
        let blocks = rows[m];
        let made = others[m];
        assert forall|b: int| 0 <= b < blocks.len() implies (#[trigger] blocks[b])@
            == made[b]@ by {
            let y = (y0 + m) as usize;
            let len = cfg.block_len(tail, b) as usize;
            assert(same(factors[m][b], other_factors[m][b]));
            let other = made[b];
            assert(k.blend.ensures(
                (&grid_data, &factors[m][b], y, len),
                (blocks[b], factors[m + 1][b]),
            ));
            assert(k.blend.ensures(
                (&grid_data, &other_factors[m][b], y, len),
                (other, other_factors[m + 1][b]),
            ));
        }
        let base = origin + (y0 + m) * width;
        assert(group_writes(cfg, base, x, blocks) =~= group_writes(cfg, base, x, made));
    }
}

/// Determined kernels give the same values for the first groups of a band.
proof fn lemma_strip_agrees<T, G, X, const D: usize, A, B>(
    k: Kernels<A, B>,
    grid_data: GridDataLerp<T, D>,
    like: spec_fn(G, G) -> bool,
    same: spec_fn(X, X) -> bool,
    g: G,
    h: G,
    at: usize,
    cfg: InterpolationConfig,
    tail: bool,
    origin: int,
    width: int,
    y0: int,
    height: int,
    groups: Seq<GroupTrace<T>>,
    others: Seq<GroupTrace<T>>,
    count: int,
) where
    A: Fn(&GridDataLerp<T, D>, &G, usize, usize, usize) -> X,
    B: Fn(&GridDataLerp<T, D>, &X, usize, usize) -> (Vec<T>, X),

    requires
        k.determined(grid_data, like, same),
        like(g, h),
        0 <= height,
        strip_shaped(cfg, tail, height, groups),
        strip_shaped(cfg, tail, height, others),
        strip_blended::<T, G, X, D, A, B>(k, grid_data, g, at, cfg, tail, y0, groups),
        strip_blended::<T, G, X, D, A, B>(k, grid_data, h, at, cfg, tail, y0, others),
        0 <= count <= groups.len(),
    ensures
        strip_writes(cfg, origin, width, tail, y0, height, groups, count) == strip_writes(
            cfg,
            origin,
            width,
            tail,
            y0,
            height,
            others,
            count,
        ),
    decreases count,
{
    if count > 0 {
        let m = count - 1;
        lemma_strip_agrees(
            k,
            grid_data,
            like,
            same,
            g,
            h,
            at,
            cfg,
            tail,
            origin,
            width,
            y0,
            height,
            groups,
            others,
            m,
        );
        let a = groups[m];
        let b = others[m];
        assert(group_shaped(cfg, tail, height, a) && group_shaped(cfg, tail, height, b));
        lemma_column_agrees(
            k,
            grid_data,
            like,
            same,
            g,
            h,
            at,
            cfg,
            tail,
            origin,
            width,
            interpolation::first_group(cfg, tail) + m * cfg.block_lanes,
            y0,
            a.rows,
            b.rows,
            height,
        );
    }
}

/// Determined kernels give the same values for a band.
pub(crate) proof fn lemma_band_agrees<T, G, X, const D: usize, A, B>(
    k: Kernels<A, B>,
    grid_data: GridDataLerp<T, D>,
    like: spec_fn(G, G) -> bool,
    same: spec_fn(X, X) -> bool,
    g: G,
    h: G,
    at: usize,
    cfg: InterpolationConfig,
    width: int,
    y0: int,
    height: int,
    t: BandTrace<T>,
    other: BandTrace<T>,
) where
    A: Fn(&GridDataLerp<T, D>, &G, usize, usize, usize) -> X,
    B: Fn(&GridDataLerp<T, D>, &X, usize, usize) -> (Vec<T>, X),

    requires
        k.determined(grid_data, like, same),
        like(g, h),
        0 <= height,
        band_shaped(cfg, height, t),
        band_shaped(cfg, height, other),
        strip_blended::<T, G, X, D, A, B>(k, grid_data, g, at, cfg, false, y0, t.head),
        strip_blended::<T, G, X, D, A, B>(k, grid_data, g, at, cfg, true, y0, t.tail),
        strip_blended::<T, G, X, D, A, B>(k, grid_data, h, at, cfg, false, y0, other.head),
        strip_blended::<T, G, X, D, A, B>(k, grid_data, h, at, cfg, true, y0, other.tail),
    ensures
        band_writes(cfg, 0, width, y0, height, t) == band_writes(
            cfg,
            0,
            width,
            y0,
            height,
            other,
        ),
{
    lemma_strip_agrees(
        k,
        grid_data,
        like,
        same,
        g,
        h,
        at,
        cfg,
        false,
        0,
        width,
        y0,
        height,
        t.head,
        other.head,
        t.head.len() as int,
    );
    lemma_strip_agrees(
        k,
        grid_data,
        like,
        same,
        g,
        h,
        at,
        cfg,
        true,
        0,
        width,
        y0,
        height,
        t.tail,
        other.tail,
        t.tail.len() as int,
    );
}

/// Determined kernels give the same values for the first slices of a slab.
proof fn lemma_slab_agrees<T, G, X, const D: usize, A, B>(
    k: Kernels<A, B>,
    grid_data: GridDataLerp<T, D>,
    like: spec_fn(G, G) -> bool,
    same: spec_fn(X, X) -> bool,
    g: G,
    h: G,
    cfg: InterpolationConfig,
    tail: bool,
    plane: int,
    width: int,
    y0: int,
    height: int,
    z0: int,
    depth: int,
    slices: Seq<Seq<GroupTrace<T>>>,
    others: Seq<Seq<GroupTrace<T>>>,
    count: int,
) where
    A: Fn(&GridDataLerp<T, D>, &G, usize, usize, usize) -> X,
    B: Fn(&GridDataLerp<T, D>, &X, usize, usize) -> (Vec<T>, X),

    requires
        k.determined(grid_data, like, same),
        like(g, h),
        0 <= height,
        slab_shaped(cfg, tail, height, depth, slices),
        slab_shaped(cfg, tail, height, depth, others),
        slab_blended::<T, G, X, D, A, B>(k, grid_data, g, cfg, tail, y0, z0, slices),
        slab_blended::<T, G, X, D, A, B>(k, grid_data, h, cfg, tail, y0, z0, others),
        0 <= count <= slices.len(),
    ensures
        slab_writes(cfg, plane, width, tail, y0, height, z0, slices, count) == slab_writes(
            cfg,
            plane,
            width,
            tail,
            y0,
            height,
            z0,
            others,
            count,
        ),
    decreases count,
{
    if count > 0 {
        let n = count - 1;
        lemma_slab_agrees(
            k,
            grid_data,
            like,
            same,
            g,
            h,
            cfg,
            tail,
            plane,
            width,
            y0,
            height,
            z0,
            depth,
            slices,
            others,
            n,
        );
        let a = slices[n];
        let b = others[n];
        assert(strip_shaped(cfg, tail, height, a) && strip_shaped(cfg, tail, height, b));
        lemma_strip_agrees(
            k,
            grid_data,
            like,
            same,
            g,
            h,
            (z0 + n) as usize,
            cfg,
            tail,
            (z0 + n) * plane,
            width,
            y0,
            height,
            a,
            b,
            a.len() as int,
        );
    }
}

/// Determined kernels give the same values for a band of a slab.
pub(crate) proof fn lemma_block_agrees<T, G, X, const D: usize, A, B>(
    k: Kernels<A, B>,
    grid_data: GridDataLerp<T, D>,
    like: spec_fn(G, G) -> bool,
    same: spec_fn(X, X) -> bool,
    g: G,
    h: G,
    cfg: InterpolationConfig,
    plane: int,
    width: int,
    y0: int,
    height: int,
    z0: int,
    depth: int,
    t: BlockTrace<T>,
    other: BlockTrace<T>,
) where
    A: Fn(&GridDataLerp<T, D>, &G, usize, usize, usize) -> X,
    B: Fn(&GridDataLerp<T, D>, &X, usize, usize) -> (Vec<T>, X),

    requires
        k.determined(grid_data, like, same),
        like(g, h),
        0 <= height,
        0 <= depth,
        block_shaped(cfg, height, depth, t),
        block_shaped(cfg, height, depth, other),
        slab_blended::<T, G, X, D, A, B>(k, grid_data, g, cfg, false, y0, z0, t.heads),
        slab_blended::<T, G, X, D, A, B>(k, grid_data, g, cfg, true, y0, z0, t.tails),
        slab_blended::<T, G, X, D, A, B>(k, grid_data, h, cfg, false, y0, z0, other.heads),
        slab_blended::<T, G, X, D, A, B>(k, grid_data, h, cfg, true, y0, z0, other.tails),
    ensures
        block_writes(cfg, plane, width, y0, height, z0, t) == block_writes(
            cfg,
            plane,
            width,
            y0,
            height,
            z0,
            other,
        ),
{
    lemma_slab_agrees(
        k,
        grid_data,
        like,
        same,
        g,
        h,
        cfg,
        false,
        plane,
        width,
        y0,
        height,
        z0,
        depth,
        t.heads,
        other.heads,
        depth,
    );
    lemma_slab_agrees(
        k,
        grid_data,
        like,
        same,
        g,
        h,
        cfg,
        true,
        plane,
        width,
        y0,
        height,
        z0,
        depth,
        t.tails,
        other.tails,
        depth,
    );
}

} // verus!

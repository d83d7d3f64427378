//! Cellular noise at eight places of the plane at once.

use crate::cellular::grid_2d;
use crate::cellular::grid_2d::split_hash_batch;
use crate::hash;
use crate::lane_coords;
use crate::lane_coords::{hash_carried, seed_lanes, step_back, step_on};
use crate::lanes::U32x8;
use crate::tiling;
use vstd::prelude::*;

verus! {

/// The offsets of the points of one cell per lane.
pub type LaneJitters = [(u32, u32); 8];

/// The four cells around a place, as offsets from the cell left of and above
/// it.
pub const BASE_4: [(i32, i32); 4] = [(0, 0), (0, 1), (1, 0), (1, 1)];

/// The eight cells of the ring around those four.
pub const RING_8: [(i32, i32); 8] = [
    (-1, 0),
    (0, -1),
    (-1, 1),
    (0, 2),
    (2, 0),
    (1, -1),
    (2, 1),
    (1, 2),
];

/// The offsets of the point of the cell at `offset` from `(x, y)`.
pub open spec fn neighbor_jitter(x: int, y: int, offset: (i32, i32), seed: u32) -> (u32, u32) {
    grid_2d::jitter(hash::vertex_hash(x + offset.0, y + offset.1, seed))
}

/// Every lane holds the offsets of the point of the cell at `offset` from its
/// own cell.
pub open spec fn lane_neighbors(
    xs: [i32; 8],
    ys: [i32; 8],
    offset: (i32, i32),
    seed: u32,
    jitters: LaneJitters,
) -> bool {
    forall|k: int|
        0 <= k < 8 ==> #[trigger] jitters[k] == neighbor_jitter(
            xs[k] as int,
            ys[k] as int,
            offset,
            seed,
        )
}

/// Every lane holds the offsets of the points of the four cells around it.
pub open spec fn base_found(
    xs: [i32; 8],
    ys: [i32; 8],
    seed: u32,
    jitters: [LaneJitters; 4],
) -> bool {
    forall|n: int|
        0 <= n < 4 ==> lane_neighbors(xs, ys, BASE_4[n], seed, #[trigger] jitters[n])
}

/// Every lane holds the offsets of the points of the ring around it.
pub open spec fn ring_found(
    xs: [i32; 8],
    ys: [i32; 8],
    seed: u32,
    jitters: [LaneJitters; 8],
) -> bool {
    forall|n: int|
        0 <= n < 8 ==> lane_neighbors(xs, ys, RING_8[n], seed, #[trigger] jitters[n])
}

/// The offsets of the points of the cells whose columns and rows are hashed.
fn split_cells(
    x_shuf: &U32x8,
    y_shuf: &U32x8,
    Ghost(xs): Ghost<[i32; 8]>,
    Ghost(ys): Ghost<[i32; 8]>,
    Ghost(offset): Ghost<(i32, i32)>,
    Ghost(seed): Ghost<u32>,
) -> (r: LaneJitters)
    requires
        lane_coords::hashed(xs, offset.0 as int, seed, *x_shuf),
        lane_coords::hashed(ys, offset.1 as int, seed, *y_shuf),
    ensures
        lane_neighbors(xs, ys, offset, seed, r),
{
    let hashes = x_shuf.times(y_shuf).xor(x_shuf);
    let (tx, ty) = split_hash_batch(&hashes);
    let tx_arr = tx.to_array();
    let ty_arr = ty.to_array();
    let mut r: LaneJitters = [(0, 0); 8];
    let mut k: usize = 0;
    while k < 8
        invariant
            k <= 8,
            forall|j: int| 0 <= j < k ==> #[trigger] r[j] == (tx_arr[j], ty_arr[j]),
        decreases 8 - k,
    {
        r[k] = (tx_arr[k], ty_arr[k]);
        k = k + 1;
    }
    proof {
        assert forall|k: int| 0 <= k < 8 implies #[trigger] r[k] == neighbor_jitter(
            xs[k] as int,
            ys[k] as int,
            offset,
            seed,
        ) by {
            assert(r[k] == (tx_arr[k], ty_arr[k]));
            assert(hashes@[k] == hash::folded(x_shuf@[k], y_shuf@[k]));
        }
    }
    r
}

/// Finds the offsets of the points of the four cells around each lane, and of
/// the ring around them, each as soon as it is asked for: `near` takes the four
/// and says what was found and whether the ring may hold a nearer point in
/// some lane; only if so does `far` take what was found and the ring.
pub fn sample_batch<V, N, R>(seed: u32, xs: [i32; 8], ys: [i32; 8], near: N, far: R) -> (r: V) where
    N: Fn([LaneJitters; 4]) -> (V, bool),
    R: Fn(V, [LaneJitters; 8]) -> V,

    requires
        forall|base: [LaneJitters; 4]|
            base_found(xs, ys, seed, base) ==> #[trigger] near.requires((base,)),
        forall|base: [LaneJitters; 4], found: (V, bool), ring: [LaneJitters; 8]|
            base_found(xs, ys, seed, base) && #[trigger] near.ensures((base,), found) && found.1
                && ring_found(xs, ys, seed, ring) ==> #[trigger] far.requires((found.0, ring)),
    ensures
        exists|base: [LaneJitters; 4], found: (V, bool)|
            {
                &&& base_found(xs, ys, seed, base)
                &&& #[trigger] near.ensures((base,), found)
                &&& !found.1 ==> r == found.0
                &&& found.1 ==> exists|ring: [LaneJitters; 8]|
                    ring_found(xs, ys, seed, ring) && #[trigger] far.ensures((found.0, ring), r)
            },
{
    let x1 = seed_lanes(&xs, seed);
    let y1 = seed_lanes(&ys, seed);
    let x2 = step_on(&x1, seed, Ghost(xs), Ghost(0));
    let y2 = step_on(&y1, seed, Ghost(ys), Ghost(0));
    let x1_shuf = hash_carried(&x1, Ghost(xs), Ghost(0), Ghost(seed));
    let y1_shuf = hash_carried(&y1, Ghost(ys), Ghost(0), Ghost(seed));
    let x2_shuf = hash_carried(&x2, Ghost(xs), Ghost(1), Ghost(seed));
    let y2_shuf = hash_carried(&y2, Ghost(ys), Ghost(1), Ghost(seed));
    let base = [
        split_cells(&x1_shuf, &y1_shuf, Ghost(xs), Ghost(ys), Ghost(BASE_4[0]), Ghost(seed)),
        split_cells(&x1_shuf, &y2_shuf, Ghost(xs), Ghost(ys), Ghost(BASE_4[1]), Ghost(seed)),
        split_cells(&x2_shuf, &y1_shuf, Ghost(xs), Ghost(ys), Ghost(BASE_4[2]), Ghost(seed)),
        split_cells(&x2_shuf, &y2_shuf, Ghost(xs), Ghost(ys), Ghost(BASE_4[3]), Ghost(seed)),
    ];
    assert(base_found(xs, ys, seed, base));
    let (nearest, is_far) = near(base);
    assert(near.ensures((base,), (nearest, is_far)));
    if !is_far {
        return nearest;
    }
    let x0 = step_back(&x1, seed, Ghost(xs), Ghost(0));
    let y0 = step_back(&y1, seed, Ghost(ys), Ghost(0));
    let x3 = step_on(&x2, seed, Ghost(xs), Ghost(1));
    let y3 = step_on(&y2, seed, Ghost(ys), Ghost(1));
    let x0_shuf = hash_carried(&x0, Ghost(xs), Ghost(-1), Ghost(seed));
    let y0_shuf = hash_carried(&y0, Ghost(ys), Ghost(-1), Ghost(seed));
    let x3_shuf = hash_carried(&x3, Ghost(xs), Ghost(2), Ghost(seed));
    let y3_shuf = hash_carried(&y3, Ghost(ys), Ghost(2), Ghost(seed));
    let ring = [
        split_cells(&x0_shuf, &y1_shuf, Ghost(xs), Ghost(ys), Ghost(RING_8[0]), Ghost(seed)),
        split_cells(&x1_shuf, &y0_shuf, Ghost(xs), Ghost(ys), Ghost(RING_8[1]), Ghost(seed)),
        split_cells(&x0_shuf, &y2_shuf, Ghost(xs), Ghost(ys), Ghost(RING_8[2]), Ghost(seed)),
        split_cells(&x1_shuf, &y3_shuf, Ghost(xs), Ghost(ys), Ghost(RING_8[3]), Ghost(seed)),
        split_cells(&x3_shuf, &y1_shuf, Ghost(xs), Ghost(ys), Ghost(RING_8[4]), Ghost(seed)),
        split_cells(&x2_shuf, &y0_shuf, Ghost(xs), Ghost(ys), Ghost(RING_8[5]), Ghost(seed)),
        split_cells(&x3_shuf, &y2_shuf, Ghost(xs), Ghost(ys), Ghost(RING_8[6]), Ghost(seed)),
        split_cells(&x2_shuf, &y3_shuf, Ghost(xs), Ghost(ys), Ghost(RING_8[7]), Ghost(seed)),
    ];
    assert(ring_found(xs, ys, seed, ring));
    far(nearest, ring)
}

/// The first four cells of a lane are its own, the one a row on, the one a column
/// on and the one across, and each point is scattered by the hash of its cell
/// under the whole seed.
pub proof fn law_base_is_the_four_cells(
    xs: [i32; 8],
    ys: [i32; 8],
    seed: u32,
    base: [LaneJitters; 4],
    k: int,
)
    requires
        base_found(xs, ys, seed, base),
        0 <= k < 8,
    ensures
        base[0][k] == grid_2d::jitter(hash::vertex_hash(xs[k] as int, ys[k] as int, seed)),
        base[1][k] == grid_2d::jitter(hash::vertex_hash(xs[k] as int, ys[k] + 1, seed)),
        base[2][k] == grid_2d::jitter(hash::vertex_hash(xs[k] + 1, ys[k] as int, seed)),
        base[3][k] == grid_2d::jitter(hash::vertex_hash(xs[k] + 1, ys[k] + 1, seed)),
{
    assert(BASE_4[0] == (0i32, 0i32) && BASE_4[1] == (0i32, 1i32) && BASE_4[2] == (1i32, 0i32)
        && BASE_4[3] == (1i32, 1i32));
    assert(lane_neighbors(xs, ys, BASE_4[0], seed, base[0]));
    assert(lane_neighbors(xs, ys, BASE_4[1], seed, base[1]));
    assert(lane_neighbors(xs, ys, BASE_4[2], seed, base[2]));
    assert(lane_neighbors(xs, ys, BASE_4[3], seed, base[3]));
}

/// The ring of a lane is the two cells before its four along either axis and the
/// two cells behind them, and each point is scattered by the hash of its cell
/// under the whole seed.
pub proof fn law_ring_is_the_eight_cells(
    xs: [i32; 8],
    ys: [i32; 8],
    seed: u32,
    ring: [LaneJitters; 8],
    k: int,
)
    requires
        ring_found(xs, ys, seed, ring),
        0 <= k < 8,
    ensures
        ring[0][k] == grid_2d::jitter(hash::vertex_hash(xs[k] - 1, ys[k] as int, seed)),
        ring[1][k] == grid_2d::jitter(hash::vertex_hash(xs[k] as int, ys[k] - 1, seed)),
        ring[2][k] == grid_2d::jitter(hash::vertex_hash(xs[k] - 1, ys[k] + 1, seed)),
        ring[3][k] == grid_2d::jitter(hash::vertex_hash(xs[k] as int, ys[k] + 2, seed)),
        ring[4][k] == grid_2d::jitter(hash::vertex_hash(xs[k] + 2, ys[k] as int, seed)),
        ring[5][k] == grid_2d::jitter(hash::vertex_hash(xs[k] + 1, ys[k] - 1, seed)),
        ring[6][k] == grid_2d::jitter(hash::vertex_hash(xs[k] + 2, ys[k] + 1, seed)),
        ring[7][k] == grid_2d::jitter(hash::vertex_hash(xs[k] + 1, ys[k] + 2, seed)),
{
    assert(RING_8[0] == (-1i32, 0i32) && RING_8[1] == (0i32, -1i32) && RING_8[2] == (-1i32, 1i32)
        && RING_8[3] == (0i32, 2i32) && RING_8[4] == (2i32, 0i32) && RING_8[5] == (1i32, -1i32)
        && RING_8[6] == (2i32, 1i32) && RING_8[7] == (1i32, 2i32));
    assert(lane_neighbors(xs, ys, RING_8[0], seed, ring[0]));
    assert(lane_neighbors(xs, ys, RING_8[1], seed, ring[1]));
    assert(lane_neighbors(xs, ys, RING_8[2], seed, ring[2]));
    assert(lane_neighbors(xs, ys, RING_8[3], seed, ring[3]));
    assert(lane_neighbors(xs, ys, RING_8[4], seed, ring[4]));
    assert(lane_neighbors(xs, ys, RING_8[5], seed, ring[5]));
    assert(lane_neighbors(xs, ys, RING_8[6], seed, ring[6]));
    assert(lane_neighbors(xs, ys, RING_8[7], seed, ring[7]));
}

/// To go `m` times as far along both axes is to take `m` times the seed, for
/// negative `m` too: the lanes find the same points in their own cells.
pub proof fn law_noise_scales(
    xs: [i32; 8],
    ys: [i32; 8],
    far_xs: [i32; 8],
    far_ys: [i32; 8],
    m: int,
    seed: u32,
    scaled: u32,
    base: [LaneJitters; 4],
    far_base: [LaneJitters; 4],
    k: int,
)
    requires
        (scaled - m * seed as int) % 0x1_0000_0000 == 0,
        0 <= k < 8,
        far_xs[k] == m * xs[k],
        far_ys[k] == m * ys[k],
        base_found(xs, ys, scaled, base),
        base_found(far_xs, far_ys, seed, far_base),
    ensures
        far_base[0][k] == base[0][k],
{
    law_base_is_the_four_cells(xs, ys, scaled, base, k);
    law_base_is_the_four_cells(far_xs, far_ys, seed, far_base, k);
    hash::law_vertex_hash_scales(xs[k] as int, ys[k] as int, m, seed, scaled);
}

/// Where no axis is tiled, a grid and a batch scatter the same points: the
/// offsets that a grid finds around a cell are those that a batch finds there.
pub proof fn law_grid_and_batch_agree(x: int, y: int, offset: (i32, i32), seed: u32)
    ensures
        grid_2d::cell_jitter(x + offset.0, y + offset.1, [None, None], seed) == neighbor_jitter(
            x,
            y,
            offset,
            seed,
        ),
{
    hash::lemma_axis_hash_wraps(tiling::wrapped(x + offset.0), x + offset.0, seed);
}

/// A grid and a batch look at the same twelve cells.
pub proof fn law_grid_and_batch_look_at_the_same_cells(offset: (i32, i32))
    ensures
        (exists|i: int| 0 <= i < 12 && grid_2d::NEIGHBORS_12[i] == offset) <==> ((exists|n: int|
            0 <= n < 4 && BASE_4[n] == offset) || (exists|n: int|
            0 <= n < 8 && RING_8[n] == offset)),
{
    if exists|i: int| 0 <= i < 12 && grid_2d::NEIGHBORS_12[i] == offset {
        assert(BASE_4[0] == (0i32, 0i32) && BASE_4[2] == (1i32, 0i32) && BASE_4[1] == (0i32, 1i32)
            && BASE_4[3] == (1i32, 1i32));
        assert(RING_8[0] == (-1i32, 0i32) && RING_8[2] == (-1i32, 1i32) && RING_8[1] == (
            0i32,
            -1i32,
        ) && RING_8[5] == (1i32, -1i32) && RING_8[4] == (2i32, 0i32) && RING_8[6] == (2i32, 1i32)
            && RING_8[3] == (0i32, 2i32) && RING_8[7] == (1i32, 2i32));
    }
    let wide = grid_2d::NEIGHBORS_12;
    assert(wide[0] == (0i32, 0i32) && wide[1] == (1i32, 0i32) && wide[2] == (0i32, 1i32)
        && wide[3] == (1i32, 1i32));
    assert(wide[4] == (-1i32, 0i32) && wide[5] == (-1i32, 1i32) && wide[6] == (0i32, -1i32)
        && wide[7] == (1i32, -1i32));
    assert(wide[8] == (2i32, 0i32) && wide[9] == (2i32, 1i32) && wide[10] == (0i32, 2i32)
        && wide[11] == (1i32, 2i32));
}

/// What is measured in a batch are the points of the four cells of each lane, and
/// then, only if that is asked for, those of the ring, all of them scattered by the
/// hashes of their cells under the very seed of the call.
pub proof fn law_calls_measure_the_cells<V, N, R>(
    seed: u32,
    xs: [i32; 8],
    ys: [i32; 8],
    near: N,
    far: R,
    r: V,
) where N: Fn([LaneJitters; 4]) -> (V, bool), R: Fn(V, [LaneJitters; 8]) -> V
    requires
        call_ensures(sample_batch::<V, N, R>, (seed, xs, ys, near, far), r),
    ensures
        exists|base: [LaneJitters; 4], found: (V, bool)|
            {
                &&& #[trigger] near.ensures((base,), found)
                &&& forall|k: int|
                    0 <= k < 8 ==> #[trigger] base[0][k] == grid_2d::jitter(
                        hash::vertex_hash(xs[k] as int, ys[k] as int, seed),
                    ) && base[1][k] == grid_2d::jitter(
                        hash::vertex_hash(xs[k] as int, ys[k] + 1, seed),
                    ) && base[2][k] == grid_2d::jitter(
                        hash::vertex_hash(xs[k] + 1, ys[k] as int, seed),
                    ) && base[3][k] == grid_2d::jitter(
                        hash::vertex_hash(xs[k] + 1, ys[k] + 1, seed),
                    )
                &&& !found.1 ==> r == found.0
                &&& found.1 ==> exists|ring: [LaneJitters; 8]| #[trigger]
                    far.ensures((found.0, ring), r) && forall|k: int|
                        0 <= k < 8 ==> #[trigger] ring[0][k] == grid_2d::jitter(
                            hash::vertex_hash(xs[k] - 1, ys[k] as int, seed),
                        ) && ring[1][k] == grid_2d::jitter(
                            hash::vertex_hash(xs[k] as int, ys[k] - 1, seed),
                        ) && ring[2][k] == grid_2d::jitter(
                            hash::vertex_hash(xs[k] - 1, ys[k] + 1, seed),
                        ) && ring[3][k] == grid_2d::jitter(
                            hash::vertex_hash(xs[k] as int, ys[k] + 2, seed),
                        ) && ring[4][k] == grid_2d::jitter(
                            hash::vertex_hash(xs[k] + 2, ys[k] as int, seed),
                        ) && ring[5][k] == grid_2d::jitter(
                            hash::vertex_hash(xs[k] + 1, ys[k] - 1, seed),
                        ) && ring[6][k] == grid_2d::jitter(
                            hash::vertex_hash(xs[k] + 2, ys[k] + 1, seed),
                        ) && ring[7][k] == grid_2d::jitter(
                            hash::vertex_hash(xs[k] + 1, ys[k] + 2, seed),
                        )
            },
{
    let (base, found) = choose|base: [LaneJitters; 4], found: (V, bool)|
        {
            &&& base_found(xs, ys, seed, base)
            &&& #[trigger] near.ensures((base,), found)
            &&& !found.1 ==> r == found.0
            &&& found.1 ==> exists|ring: [LaneJitters; 8]|
                ring_found(xs, ys, seed, ring) && #[trigger] far.ensures((found.0, ring), r)
        };
    assert forall|k: int| 0 <= k < 8 implies #[trigger] base[0][k] == grid_2d::jitter(
        hash::vertex_hash(xs[k] as int, ys[k] as int, seed),
    ) && base[1][k] == grid_2d::jitter(
        hash::vertex_hash(xs[k] as int, ys[k] + 1, seed),
    ) && base[2][k] == grid_2d::jitter(
        hash::vertex_hash(xs[k] + 1, ys[k] as int, seed),
    ) && base[3][k] == grid_2d::jitter(
        hash::vertex_hash(xs[k] + 1, ys[k] + 1, seed),
    ) by {
        law_base_is_the_four_cells(xs, ys, seed, base, k);
    }
    if found.1 {
        let ring = choose|ring: [LaneJitters; 8]|
            ring_found(xs, ys, seed, ring) && #[trigger] far.ensures((found.0, ring), r);
        assert forall|k: int| 0 <= k < 8 implies #[trigger] ring[0][k] == grid_2d::jitter(
            hash::vertex_hash(xs[k] - 1, ys[k] as int, seed),
        ) && ring[1][k] == grid_2d::jitter(
            hash::vertex_hash(xs[k] as int, ys[k] - 1, seed),
        ) && ring[2][k] == grid_2d::jitter(
            hash::vertex_hash(xs[k] - 1, ys[k] + 1, seed),
        ) && ring[3][k] == grid_2d::jitter(
            hash::vertex_hash(xs[k] as int, ys[k] + 2, seed),
        ) && ring[4][k] == grid_2d::jitter(
            hash::vertex_hash(xs[k] + 2, ys[k] as int, seed),
        ) && ring[5][k] == grid_2d::jitter(
            hash::vertex_hash(xs[k] + 1, ys[k] - 1, seed),
        ) && ring[6][k] == grid_2d::jitter(
            hash::vertex_hash(xs[k] + 2, ys[k] + 1, seed),
        ) && ring[7][k] == grid_2d::jitter(
            hash::vertex_hash(xs[k] + 1, ys[k] + 2, seed),
        ) by {
            law_ring_is_the_eight_cells(xs, ys, seed, ring, k);
        }
    }
}

} // verus!

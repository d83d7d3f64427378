//! Lattice coordinates that differ from lane to lane.
//!
//! The coordinates are kept seeded in a register, so that a neighbour is one
//! addition away.

use crate::hash;
use crate::hash::hash_lanes;
use crate::lanes::U32x8;
use vstd::prelude::*;

verus! {

/// A register of axis hashes, of the lanes' coordinates moved by `step`.
pub open spec fn hashed(coords: [i32; 8], step: int, seed: u32, v: U32x8) -> bool {
    v@ == Seq::new(8, |k: int| hash::axis_hash(coords[k] + step, seed))
}

/// A register of seeded coordinates, moved by `step`.
pub open spec fn carried(coords: [i32; 8], step: int, seed: u32, v: U32x8) -> bool {
    v@ == Seq::new(8, |k: int| hash::seeded(coords[k] + step, seed))
}

/// The lanes' coordinates, seeded.
pub(crate) fn seed_lanes(coords: &[i32; 8], seed: u32) -> (r: U32x8)
    ensures
        carried(*coords, 0, seed, r),
{
    let mut words: [u32; 8] = [0; 8];
    let mut k: usize = 0;
    while k < 8
        invariant
            k <= 8,
            forall|j: int| 0 <= j < k ==> #[trigger] words[j] == coords[j] as u32,
        decreases 8 - k,
    {
        words[k] = coords[k] as u32;
        k = k + 1;
    }
    let r = U32x8::from_array(words).times(&U32x8::splat(seed));
    proof {
        assert forall|k: int| 0 <= k < 8 implies r@[k] == hash::seeded(coords[k] + 0, seed) by {
            assert(words[k] == coords[k] as u32);
            hash::lemma_word_of(coords[k]);
            hash::lemma_seeded_word(words[k], coords[k] as int, seed);
        }
        assert(r@ =~= Seq::new(8, |k: int| hash::seeded(coords[k] + 0, seed)));
    }
    r
}

/// Seeded coordinates, moved one step on.
pub(crate) fn step_on(
    v: &U32x8,
    seed: u32,
    Ghost(coords): Ghost<[i32; 8]>,
    Ghost(step): Ghost<int>,
) -> (r: U32x8)
    requires
        carried(coords, step, seed, *v),
    ensures
        carried(coords, step + 1, seed, r),
{
    let r = v.plus(&U32x8::splat(seed));
    proof {
        assert forall|k: int| 0 <= k < 8 implies r@[k] == hash::seeded(
            coords[k] + (step + 1),
            seed,
        ) by {
            hash::lemma_seeded_one(seed);
            hash::lemma_seeded_sum(coords[k] + step, 1, seed);
            assert(coords[k] + step + 1 == coords[k] + (step + 1));
        }
        assert(r@ =~= Seq::new(8, |k: int| hash::seeded(coords[k] + (step + 1), seed)));
    }
    r
}

/// Seeded coordinates, moved one step back.
pub(crate) fn step_back(
    v: &U32x8,
    seed: u32,
    Ghost(coords): Ghost<[i32; 8]>,
    Ghost(step): Ghost<int>,
) -> (r: U32x8)
    requires
        carried(coords, step, seed, *v),
    ensures
        carried(coords, step - 1, seed, r),
{
    let r = v.minus(&U32x8::splat(seed));
    proof {
        assert forall|k: int| 0 <= k < 8 implies r@[k] == hash::seeded(
            coords[k] + (step - 1),
            seed,
        ) by {
            hash::lemma_seeded_back(coords[k] + step, seed);
            assert(coords[k] + step - 1 == coords[k] + (step - 1));
        }
        assert(r@ =~= Seq::new(8, |k: int| hash::seeded(coords[k] + (step - 1), seed)));
    }
    r
}

/// The axis hashes of seeded coordinates.
pub(crate) fn hash_carried(
    v: &U32x8,
    Ghost(coords): Ghost<[i32; 8]>,
    Ghost(step): Ghost<int>,
    Ghost(seed): Ghost<u32>,
) -> (r: U32x8)
    requires
        carried(coords, step, seed, *v),
    ensures
        hashed(coords, step, seed, r),
{
    let r = hash_lanes(v);
    assert(r@ =~= Seq::new(8, |k: int| hash::axis_hash(coords[k] + step, seed)));
    r
}

} // verus!

//! Hashes of consecutive lattice columns, a register at a time.

use crate::hash;
use crate::hash::hash_lanes;
use crate::lanes::U32x8;
use crate::tiling;
use crate::tiling::tile_column;
use vstd::prelude::*;

verus! {

/// The axis hash of column `i` of a row that starts at `start`.
pub open spec fn column_hash(start: i32, tiling: Option<u32>, seed: u32, i: int) -> u32 {
    hash::axis_hash(tiling::column(start, tiling, i), seed)
}

/// The hashes of the columns of a tiled row repeat after one period, as long as
/// the columns stay in the `i32` range.
pub proof fn law_column_hashes_tile(start: i32, t: u32, seed: u32, i: int)
    requires
        t > 0,
        i32::MIN <= start + i,
        start + i + t <= i32::MAX,
    ensures
        column_hash(start, Some(t), seed, i + t) == column_hash(start, Some(t), seed, i),
{
    tiling::lemma_columns_periodic(start, t, i);
}

/// A column is hashed by its coordinate. In a row that is not tiled that is its
/// place on the axis; in a tiled one it is the number from zero up to the period
/// that lies a multiple of the period away from its place.
pub proof fn law_column_hash_goes_by_place(
    start: i32,
    tiling: Option<u32>,
    seed: u32,
    i: int,
    c: int,
)
    requires
        tiling::column_stands_for(c, start + i, tiling),
    ensures
        column_hash(start, tiling, seed, i) == hash::axis_hash(c, seed),
{
    match tiling {
        None => {
            tiling::lemma_same_remainder_iff(start + i, c, 0x1_0000_0000);
            tiling::law_column_is_the_residue(start, 1, i, tiling::wrapped(start + i), 0);
            hash::lemma_axis_hash_wraps(start + i, c, seed);
        },
        Some(t) => {
            let inside = (start + i + 0x8000_0000) % 0x1_0000_0000 - 0x8000_0000;
            tiling::law_column_is_the_residue(start, t, i, inside, c);
        },
    }
}

/// Under an odd seed the columns of a row are told apart: two of them share a
/// hash exactly where they lie a multiple of the period apart, or of 2^32 in a
/// row that is not tiled.
pub proof fn law_column_hashes_tell_columns_apart(
    start: i32,
    tiling: Option<u32>,
    seed: u32,
    i: int,
    j: int,
)
    requires
        seed % 2 == 1,
        positive(tiling),
        i32::MIN <= start + i <= i32::MAX,
        i32::MIN <= start + j <= i32::MAX,
    ensures
        column_hash(start, tiling, seed, i) == column_hash(start, tiling, seed, j) <==> (i - j) % (
        match tiling {
            None => 0x1_0000_0000,
            Some(t) => t as int,
        }) == 0,
{
    let c = tiling::column(start, tiling, i);
    let d = tiling::column(start, tiling, j);
    hash::law_axis_hash_tells_coordinates_apart(c, d, seed);
    match tiling {
        None => {
            tiling::law_column_is_the_residue(start, 1, i, start + i, 0);
            tiling::law_column_is_the_residue(start, 1, j, start + j, 0);
        },
        Some(t) => {
            tiling::law_column_is_the_residue(start, t, i, start + i, c);
            tiling::law_column_is_the_residue(start, t, j, start + j, d);
            tiling::law_columns_coincide(start, t, i, j);
        },
    }
}

/// The hashes of the columns of a row that is not tiled depend only on where the
/// columns lie, not on where the row starts. To go `m` times as far is to take
/// `m` times the seed.
pub proof fn law_column_hashes_scale(
    start: i32,
    other: i32,
    seed: u32,
    scaled: u32,
    m: int,
    i: int,
    j: int,
)
    requires
        (scaled - m * seed as int) % 0x1_0000_0000 == 0,
        other + j == m * (start + i),
    ensures
        column_hash(other, None, seed, j) == column_hash(start, None, scaled, i),
{
    hash::law_axis_hash_scales(start + i, m, seed, scaled);
}

/// Whether a column period can be divided by.
pub open spec fn positive(tiling: Option<u32>) -> bool {
    tiling matches Some(t) ==> t > 0
}

/// Where a walk along the columns of a row stands.
///
/// Without a period the seeded columns are carried along in a register and
/// advanced by a constant stride; with a period each column is reduced anew.
pub(crate) enum Columns {
    Plain { seeded: U32x8, stride: U32x8 },
    Tiled { next: i32, period: u32, seed: u32 },
}

impl Columns {
    /// The walk stands at column `at` of the row.
    pub(crate) closed spec fn stands(
        self,
        start: i32,
        tiling: Option<u32>,
        seed: u32,
        at: int,
    ) -> bool {
        match self {
            Columns::Plain { seeded, stride } => {
                &&& tiling is None
                &&& seeded@ == Seq::new(8, |k: int| hash::seeded(start + at + k, seed))
                &&& stride@ == Seq::new(8, |k: int| hash::seeded(8, seed))
            },
            Columns::Tiled { next, period, seed: s } => {
                &&& tiling == Some(period)
                &&& period > 0
                &&& s == seed
                &&& next == tiling::wrapped(start + at)
            },
        }
    }

    pub(crate) fn new(start: i32, tiling: Option<u32>, seed: u32) -> (r: Columns)
        requires
            positive(tiling),
        ensures
            r.stands(start, tiling, seed, 0),
    {
        match tiling {
            Some(period) => {
                proof {
                    tiling::lemma_wrapped_in_range(start as int);
                }
                Columns::Tiled { next: start, period, seed }
            },
            None => {
                let iota = U32x8::iota(0).times(&U32x8::splat(seed));
                let first = U32x8::splat((start as u32).wrapping_mul(seed));
                let seeded = first.plus(&iota);
                let stride = U32x8::splat(8u32.wrapping_mul(seed));
                proof {
                    hash::lemma_word_of(start);
                    hash::lemma_seeded_word(start as u32, start as int, seed);
                    hash::lemma_seeded_word(8, 8, seed);
                    assert forall|k: int| 0 <= k < 8 implies seeded@[k] == hash::seeded(
                        start + 0 + k,
                        seed,
                    ) by {
                        hash::lemma_seeded_word(k as u32, k, seed);
                        hash::lemma_seeded_sum(start as int, k, seed);
                    }
                    assert(seeded@ =~= Seq::new(8, |k: int| hash::seeded(start + 0 + k, seed)));
                    assert(stride@ =~= Seq::new(8, |k: int| hash::seeded(8, seed)));
                }
                Columns::Plain { seeded, stride }
            },
        }
    }

    /// The hashes of the next eight columns, and the walk eight columns on.
    pub(crate) fn advance(
        self,
        Ghost(start): Ghost<i32>,
        Ghost(tiling): Ghost<Option<u32>>,
        Ghost(seed): Ghost<u32>,
        Ghost(at): Ghost<int>,
    ) -> (r: (U32x8, Columns))
        requires
            self.stands(start, tiling, seed, at),
        ensures
            r.0@ == Seq::new(8, |k: int| column_hash(start, tiling, seed, at + k)),
            r.1.stands(start, tiling, seed, at + 8),
    {
        match self {
            Columns::Plain { seeded, stride } => {
                let hashes = hash_lanes(&seeded);
                let ahead = seeded.plus(&stride);
                proof {
                    assert forall|k: int| 0 <= k < 8 implies ahead@[k] == hash::seeded(
                        start + (at + 8) + k,
                        seed,
                    ) by {
                        hash::lemma_seeded_sum(start + at + k, 8, seed);
                        assert(start + at + k + 8 == start + (at + 8) + k);
                    }
                    assert(ahead@ =~= Seq::new(
                        8,
                        |k: int| hash::seeded(start + (at + 8) + k, seed),
                    ));
                    assert forall|k: int| 0 <= k < 8 implies hashes@[k] == column_hash(
                        start,
                        tiling,
                        seed,
                        at + k,
                    ) by {
                        assert(start + at + k == start + (at + k));
                    }
                    assert(hashes@ =~= Seq::new(
                        8,
                        |k: int| column_hash(start, tiling, seed, at + k),
                    ));
                }
                (hashes, Columns::Plain { seeded: ahead, stride })
            },
            Columns::Tiled { next, period, seed: s } => {
                let mut words: [u32; 8] = [0; 8];
                let mut x: i32 = next;
                let mut k: usize = 0;
                while k < 8
                    invariant
                        k <= 8,
                        period > 0,
                        tiling == Some(period),
                        x == tiling::wrapped(start + at + k),
                        forall|j: int| 0 <= j < k ==> #[trigger] words[j] == tiling::column(
                            start,
                            tiling,
                            at + j,
                        ),
                    decreases 8 - k,
                {
                    words[k] = tile_column(x, period);
                    proof {
                        tiling::lemma_wrapped_step(start + at + k);
                        assert(start + at + k == start + (at + k));
                    }
                    x = x.wrapping_add(1);
                    k = k + 1;
                }
                let reduced = U32x8::from_array(words).times(&U32x8::splat(s));
                let hashes = hash_lanes(&reduced);
                proof {
                    assert forall|j: int| 0 <= j < 8 implies hashes@[j] == column_hash(
                        start,
                        tiling,
                        seed,
                        at + j,
                    ) by {
                        let c = tiling::column(start, tiling, at + j);
                        assert(words[j] == c);
                        hash::lemma_seeded_word(words[j], c, seed);
                        assert(reduced@[j] == hash::seeded(c, seed));
                    }
                    assert(hashes@ =~= Seq::new(
                        8,
                        |k: int| column_hash(start, tiling, seed, at + k),
                    ));
                }
                (hashes, Columns::Tiled { next: x, period, seed: s })
            },
        }
    }
}

/// Appends the lanes of a register to a row, up to `len` entries in all.
pub(crate) fn push_lanes(row: &mut Vec<u32>, lanes: &U32x8, len: usize)
    requires
        old(row).len() <= len,
        lanes@.len() == 8,
    ensures
        final(row).len() == (if old(row).len() + 8 <= len {
            old(row).len() + 8
        } else {
            len as int
        }),
        forall|j: int| 0 <= j < old(row).len() ==> final(row)[j] == old(row)[j],
        forall|j: int|
            old(row).len() <= j < final(row).len() ==> #[trigger] final(row)[j] == lanes@[j - old(
                row,
            ).len()],
{
    let values = lanes.to_array();
    let mut k: usize = 0;
    let ghost before = row@;
    while k < 8 && row.len() < len
        invariant
            k <= 8,
            values@ == lanes@,
            lanes@.len() == 8,
            before.len() <= len,
            row.len() <= len,
            row.len() == before.len() + k,
            forall|j: int| 0 <= j < before.len() ==> row[j] == before[j],
            forall|j: int|
                before.len() <= j < row.len() ==> #[trigger] row[j] == lanes@[j - before.len()],
        decreases 8 - k,
    {
        row.push(values[k]);
        k = k + 1;
    }
}

} // verus!

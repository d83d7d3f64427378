//! The part of a dot product that all rows of a band share: the column
//! component of a gradient times the distance along the columns.

use crate::cells;
use vstd::prelude::*;

verus! {

/// The product of the column component of a gradient with the distance of a
/// sample, for the vertex on the left of the sample and for the one on its
/// right. Both take the component and the distance to the left vertex.
pub struct Dots<L, R> {
    pub left: L,
    pub right: R,
}

impl<L, R> Dots<L, R> {
    /// Both products are defined on all numbers.
    pub open spec fn total<T>(self) -> bool where L: Fn(T, T) -> T, R: Fn(T, T) -> T {
        &&& forall|g: T, d: T| #[trigger] self.left.requires((g, d))
        &&& forall|g: T, d: T| #[trigger] self.right.requires((g, d))
    }

    /// The same component and the same distance have only one product.
    pub open spec fn determined<T>(self) -> bool where L: Fn(T, T) -> T, R: Fn(T, T) -> T {
        &&& forall|g: T, d: T, a: T, b: T| #[trigger]
            self.left.ensures((g, d), a) && #[trigger] self.left.ensures((g, d), b) ==> a == b
        &&& forall|g: T, d: T, a: T, b: T| #[trigger]
            self.right.ensures((g, d), a) && #[trigger] self.right.ensures((g, d), b) ==> a == b
    }
}

/// Every sample of run `k` holds the product of vertex `k + side` with its own
/// distance.
pub open spec fn runs_dotted<T, M>(
    ends: Seq<u32>,
    vertices: Seq<T>,
    distances: Seq<T>,
    samples: Seq<T>,
    side: int,
    product: M,
) -> bool where M: Fn(T, T) -> T {
    forall|k: int, s: int| #[trigger]
        cells::in_run(ends, k, s) ==> product.ensures(
            (vertices[k + side], distances[s]),
            samples[s],
        )
}

/// Replaces the first `n` components of a row by their products.
fn scale<T: Copy, M>(product: &M, distances: &Vec<T>, row: &mut Vec<T>, n: usize) where
    M: Fn(T, T) -> T,

    requires
        forall|g: T, d: T| #[trigger] product.requires((g, d)),
        distances.len() >= n,
        old(row).len() >= n,
    ensures
        final(row).len() == old(row).len(),
        forall|s: int|
            0 <= s < n ==> product.ensures(
                (old(row)@[s], distances@[s]),
                #[trigger] final(row)@[s],
            ),
        forall|s: int| n <= s < old(row).len() ==> final(row)@[s] == old(row)@[s],
{
    let ghost before = row@;
    let mut s: usize = 0;
    while s < n
        invariant
            s <= n,
            forall|g: T, d: T| #[trigger] product.requires((g, d)),
            distances.len() >= n,
            before.len() >= n,
            row.len() == before.len(),
            forall|q: int|
                0 <= q < s ==> product.ensures((before[q], distances@[q]), #[trigger] row@[q]),
            forall|q: int| s <= q < before.len() ==> row@[q] == before[q],
        decreases n - s,
    {
        let dotted = product(row[s], distances[s]);
        row.set(s, dotted);
        s = s + 1;
    }
}

/// Multiplies the column components of the gradients on both sides of each
/// sample.
pub fn dot_columns<T: Copy, L, R>(
    dots: &Dots<L, R>,
    ends: &Vec<u32>,
    distances: &Vec<T>,
    left: &mut Vec<T>,
    right: &mut Vec<T>,
    n: usize,
) where L: Fn(T, T) -> T, R: Fn(T, T) -> T
    requires
        dots.total(),
        cells::cuts(ends@, n as int),
        distances.len() >= n,
        old(left).len() >= n,
        old(right).len() >= n,
    ensures
        final(left).len() == old(left).len(),
        final(right).len() == old(right).len(),
        forall|vertices: Seq<T>| #[trigger]
            cells::runs_set(ends@, vertices, old(left)@, 0) ==> runs_dotted(
                ends@,
                vertices,
                distances@,
                final(left)@,
                0,
                dots.left,
            ),
        forall|vertices: Seq<T>| #[trigger]
            cells::runs_set(ends@, vertices, old(right)@, 1) ==> runs_dotted(
                ends@,
                vertices,
                distances@,
                final(right)@,
                1,
                dots.right,
            ),
{
    let ghost left0 = left@;
    let ghost right0 = right@;
    scale(&dots.left, distances, left, n);
    scale(&dots.right, distances, right, n);
    proof {
        assert forall|vertices: Seq<T>| #[trigger]
            cells::runs_set(ends@, vertices, left0, 0) implies runs_dotted(
            ends@,
            vertices,
            distances@,
            left@,
            0,
            dots.left,
        ) by {
            assert forall|k: int, s: int| #[trigger]
                cells::in_run(ends@, k, s) implies dots.left.ensures(
                (vertices[k + 0], distances@[s]),
                left@[s],
            ) by {
                lemma_inside(ends@, n as int, k, s);
            }
        }
        assert forall|vertices: Seq<T>| #[trigger]
            cells::runs_set(ends@, vertices, right0, 1) implies runs_dotted(
            ends@,
            vertices,
            distances@,
            right@,
            1,
            dots.right,
        ) by {
            assert forall|k: int, s: int| #[trigger]
                cells::in_run(ends@, k, s) implies dots.right.ensures(
                (vertices[k + 1], distances@[s]),
                right@[s],
            ) by {
                lemma_inside(ends@, n as int, k, s);
            }
        }
    }
}

/// The samples of a run are samples of the row.
proof fn lemma_inside(ends: Seq<u32>, n: int, k: int, s: int)
    requires
        cells::cuts(ends, n),
        cells::in_run(ends, k, s),
    ensures
        0 <= s < n,
{
    if k > 0 {
        assert(0 < ends[k - 1]);
    }
}

} // verus!

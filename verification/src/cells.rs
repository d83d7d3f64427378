//! Runs of samples that share a lattice cell.
//!
//! Along one axis the samples of a grid fall into consecutive runs, one for
//! each lattice cell that the axis crosses. A run is known by where it ends.

use vstd::prelude::*;

verus! {

/// The positions before `k`, the first one left out, at which a cell begins.
pub open spec fn boundaries(fresh: Seq<bool>, k: int) -> Seq<u32>
    decreases k,
{
    if k <= 1 {
        seq![]
    } else if fresh[k - 1] {
        boundaries(fresh, k - 1).push((k - 1) as u32)
    } else {
        boundaries(fresh, k - 1)
    }
}

/// Where each run ends, given the samples that enter a new cell.
pub open spec fn run_ends(fresh: Seq<bool>) -> Seq<u32> {
    if fresh.len() == 0 {
        seq![]
    } else {
        boundaries(fresh, fresh.len() as int).push(fresh.len() as u32)
    }
}

/// Ends that cut the first `n` samples into runs: each run holds a sample, and
/// the last run ends with the last sample.
pub open spec fn cuts(ends: Seq<u32>, n: int) -> bool {
    &&& ends.len() == 0 <==> n == 0
    &&& ends.len() > 0 ==> ends.last() == n
    &&& forall|i: int| 0 <= i < ends.len() ==> 0 < #[trigger] ends[i] <= n
    &&& forall|i: int, j: int| 0 <= i < j < ends.len() ==> ends[i] < ends[j]
}

/// Where run `k` begins.
pub open spec fn run_start(ends: Seq<u32>, k: int) -> int {
    if k == 0 {
        0
    } else {
        ends[k - 1] as int
    }
}

/// Run `k` holds sample `s`.
pub open spec fn in_run(ends: Seq<u32>, k: int, s: int) -> bool {
    0 <= k < ends.len() && run_start(ends, k) <= s < ends[k]
}

proof fn lemma_boundaries(fresh: Seq<bool>, k: int)
    requires
        0 <= k <= fresh.len(),
        fresh.len() <= u32::MAX,
    ensures
        ({
            let b = boundaries(fresh, k);
            &&& b.len() <= k
            &&& k >= 1 ==> b.len() < k
            &&& forall|i: int| 0 <= i < b.len() ==> 0 < #[trigger] b[i] < k
            &&& forall|i: int, j: int| 0 <= i < j < b.len() ==> b[i] < b[j]
        }),
    decreases k,
{
    if k > 1 {
        lemma_boundaries(fresh, k - 1);
    }
}

/// The ends found from the samples that enter a new cell cut the samples into
/// runs.
pub(crate) proof fn lemma_run_ends_cut(fresh: Seq<bool>)
    requires
        fresh.len() <= u32::MAX,
    ensures
        cuts(run_ends(fresh), fresh.len() as int),
        run_ends(fresh).len() <= fresh.len(),
{
    lemma_boundaries(fresh, fresh.len() as int);
}

/// The runs divide the samples among themselves: every sample is in exactly
/// one run.
pub proof fn law_every_sample_in_one_run(ends: Seq<u32>, n: int, s: int)
    requires
        cuts(ends, n),
        0 <= s < n,
    ensures
        exists|k: int| in_run(ends, k, s),
        forall|k: int, l: int| in_run(ends, k, s) && in_run(ends, l, s) ==> k == l,
{
    let k = lemma_run_of(ends, n, s, ends.len() as int);
    assert(in_run(ends, k, s));
    assert forall|k: int, l: int| in_run(ends, k, s) && in_run(ends, l, s) implies k == l by {
        if k < l {
            assert(k == l - 1 || ends[k] < ends[l - 1]);
        } else if l < k {
            assert(l == k - 1 || ends[l] < ends[k - 1]);
        }
    }
}

proof fn lemma_run_of(ends: Seq<u32>, n: int, s: int, upto: int) -> (k: int)
    requires
        cuts(ends, n),
        0 < upto <= ends.len(),
        0 <= s < ends[upto - 1],
    ensures
        in_run(ends, k, s),
    decreases upto,
{
    if run_start(ends, upto - 1) <= s {
        upto - 1
    } else {
        lemma_run_of(ends, n, s, upto - 1)
    }
}

/// A run begins exactly where a sample enters a new cell.
pub proof fn law_runs_begin_at_fresh_samples(fresh: Seq<bool>, s: int)
    requires
        fresh.len() <= u32::MAX,
        0 < s < fresh.len(),
    ensures
        fresh[s] <==> run_ends(fresh).contains(s as u32),
{
    lemma_boundary_iff(fresh, fresh.len() as int, s);
    lemma_boundaries(fresh, fresh.len() as int);
    let b = boundaries(fresh, fresh.len() as int);
    let ends = run_ends(fresh);
    if fresh[s] {
        let i = choose|i: int| 0 <= i < b.len() && b[i] == s as u32;
        assert(ends[i] == s as u32);
    }
    if ends.contains(s as u32) {
        let i = choose|i: int| 0 <= i < ends.len() && ends[i] == s as u32;
        assert(i < b.len());
        assert(b[i] == s as u32);
    }
}

proof fn lemma_boundary_iff(fresh: Seq<bool>, k: int, s: int)
    requires
        0 <= k <= fresh.len(),
        fresh.len() <= u32::MAX,
        0 < s < k,
    ensures
        fresh[s] <==> boundaries(fresh, k).contains(s as u32),
    decreases k,
{
    lemma_boundaries(fresh, k);
    lemma_boundaries(fresh, k - 1);
    let b = boundaries(fresh, k);
    let shorter = boundaries(fresh, k - 1);
    if s < k - 1 {
        lemma_boundary_iff(fresh, k - 1, s);
        if shorter.contains(s as u32) {
            let i = choose|i: int| 0 <= i < shorter.len() && shorter[i] == s as u32;
            assert(b[i] == s as u32);
        }
        if b.contains(s as u32) {
            let i = choose|i: int| 0 <= i < b.len() && b[i] == s as u32;
            assert(i < shorter.len());
            assert(shorter[i] == s as u32);
        }
    } else {
        if fresh[s] {
            assert(b[b.len() - 1] == s as u32);
        }
    }
}

/// The ends of the runs, one by one: they grow, all but the last are samples that
/// enter a new cell, and the last one is the number of samples.
pub proof fn law_runs_end_at_fresh_samples(fresh: Seq<bool>)
    requires
        fresh.len() <= u32::MAX,
    ensures
        fresh.len() == 0 <==> run_ends(fresh).len() == 0,
        fresh.len() > 0 ==> run_ends(fresh).last() == fresh.len(),
        forall|i: int, j: int|
            0 <= i < j < run_ends(fresh).len() ==> run_ends(fresh)[i] < run_ends(fresh)[j],
        forall|i: int|
            0 <= i < run_ends(fresh).len() - 1 ==> 0 < #[trigger] run_ends(fresh)[i]
                < fresh.len() && fresh[run_ends(fresh)[i] as int],
{
    let ends = run_ends(fresh);
    lemma_boundaries(fresh, fresh.len() as int);
    lemma_run_ends_cut(fresh);
    assert forall|i: int| 0 <= i < ends.len() - 1 implies 0 < #[trigger] ends[i] < fresh.len()
        && fresh[ends[i] as int] by {
        law_runs_begin_at_fresh_samples(fresh, ends[i] as int);
        assert(ends.contains(ends[i]));
    }
}

/// A run holds the samples from where the run before it ends, or from the first
/// sample on, up to its own end.
pub proof fn law_run_reaches_from_end_to_end(ends: Seq<u32>, k: int, s: int)
    requires
        0 <= k < ends.len(),
    ensures
        in_run(ends, 0, s) <==> 0 <= s < ends[0],
        k > 0 ==> (in_run(ends, k, s) <==> ends[k - 1] <= s < ends[k]),
        !in_run(ends, -1, s),
        !in_run(ends, ends.len() as int, s),
{
}

/// Samples that were set hold the vertex of their run, or the next vertex on the
/// other side, whichever run they lie in.
pub proof fn law_runs_hold_their_vertices<T>(
    ends: Seq<u32>,
    vertices: Seq<T>,
    samples: Seq<T>,
    side: int,
    k: int,
    s: int,
)
    requires
        runs_set(ends, vertices, samples, side),
        0 <= k < ends.len(),
        k > 0 ==> ends[k - 1] <= s,
        0 <= s < ends[k],
    ensures
        samples[s] == vertices[k + side],
{
    assert(in_run(ends, k, s));
}

/// Finds where each run ends, given the samples that enter a new cell.
pub fn fill_grid_indices(fresh: &Vec<bool>) -> (ends: Vec<u32>)
    requires
        fresh.len() <= u32::MAX,
    ensures
        ends@ == run_ends(fresh@),
        cuts(ends@, fresh.len() as int),
        ends.len() <= fresh.len(),
{
    proof {
        lemma_run_ends_cut(fresh@);
    }
    let mut ends: Vec<u32> = Vec::new();
    let n: usize = fresh.len();
    if n == 0 {
        return ends;
    }
    let mut i: usize = 1;
    while i < n
        invariant
            1 <= i <= n,
            n == fresh.len(),
            n <= u32::MAX,
            ends@ == boundaries(fresh@, i as int),
        decreases n - i,
    {
        if fresh[i] {
            ends.push(i as u32);
        }
        i = i + 1;
    }
    ends.push(n as u32);
    ends
}

/// Fills the samples of each run: `left` with the value at the run's first
/// lattice vertex, `right` with the value at the next one.
pub fn set_runs<T: Copy>(
    ends: &Vec<u32>,
    vertices: &Vec<T>,
    left: &mut Vec<T>,
    right: &mut Vec<T>,
    n: usize,
)
    requires
        cuts(ends@, n as int),
        vertices.len() > ends.len(),
        old(left).len() >= n,
        old(right).len() >= n,
    ensures
        runs_set(ends@, vertices@, final(left)@, 0),
        runs_set(ends@, vertices@, final(right)@, 1),
        final(left).len() == old(left).len(),
        final(right).len() == old(right).len(),
        forall|s: int| n <= s < old(left).len() ==> final(left)[s] == old(left)[s],
        forall|s: int| n <= s < old(right).len() ==> final(right)[s] == old(right)[s],
{
    let ghost left0 = left@;
    let ghost right0 = right@;
    let mut cur: usize = 0;
    let mut it: usize = 0;
    while it < ends.len()
        invariant
            it <= ends.len(),
            cuts(ends@, n as int),
            vertices.len() > ends.len(),
            left.len() == left0.len(),
            right.len() == right0.len(),
            left.len() >= n,
            right.len() >= n,
            cur <= n,
            it < ends.len() ==> cur == run_start(ends@, it as int),
            it == ends.len() ==> cur == n,
            forall|k: int, s: int|
                0 <= k < it && #[trigger] in_run(ends@, k, s) ==> s < cur && left@[s]
                    == vertices@[k] && right@[s] == vertices@[k + 1],
            forall|s: int| n <= s < left.len() ==> left[s] == left0[s],
            forall|s: int| n <= s < right.len() ==> right[s] == right0[s],
        decreases ends.len() - it,
    {
        let next: usize = ends[it] as usize;
        let l = vertices[it];
        let r = vertices[it + 1];
        let mut s: usize = cur;
        while s < next
            invariant
                it < ends.len(),
                cuts(ends@, n as int),
                cur <= s <= next,
                next == ends[it as int],
                next <= n,
                left.len() == left0.len(),
                right.len() == right0.len(),
                left.len() >= n,
                right.len() >= n,
                forall|k: int, q: int|
                    0 <= k < it && #[trigger] in_run(ends@, k, q) ==> q < cur && left@[q]
                        == vertices@[k] && right@[q] == vertices@[k + 1],
                forall|q: int| cur <= q < s ==> left@[q] == l,
                forall|q: int| cur <= q < s ==> right@[q] == r,
                forall|q: int| n <= q < left.len() ==> left[q] == left0[q],
                forall|q: int| n <= q < right.len() ==> right[q] == right0[q],
            decreases next - s,
        {
            left.set(s, l);
            right.set(s, r);
            s = s + 1;
        }
        cur = next;
        it = it + 1;
    }
}

/// Every sample of run `k` holds vertex `k + side`.
pub open spec fn runs_set<T>(
    ends: Seq<u32>,
    vertices: Seq<T>,
    samples: Seq<T>,
    side: int,
) -> bool {
    forall|k: int, s: int| #[trigger] in_run(ends, k, s) ==> samples[s] == vertices[k + side]
}

} // verus!

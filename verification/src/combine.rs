//! Folding noise values into the output.
//!
//! Octaves are combined sample by sample. A combiner turns the value of the
//! first octave into a running state and a result, folds each further octave
//! into both, and finishes the result on the last one. The results live in the
//! output, the state in planes of one value per sample.

use vstd::prelude::*;

verus! {

/// The three steps of a combiner, each on a block of consecutive samples.
///
/// `initialize` takes the values of the first octave, `apply` the running
/// state, the running results and the values of a further octave; both give
/// the new state, one block per plane, and the new results. `finalize` takes
/// the state and the results of the last octave and gives the finished results.
pub struct Combiner<I, P, F> {
    pub initialize: I,
    pub apply: P,
    pub finalize: F,
}

/// Whether an octave is the first one, and whether it is the last one.
#[derive(Clone, Copy)]
pub struct Pass {
    pub init: bool,
    pub last: bool,
}

/// Number of samples of the output and number of state planes.
#[derive(Clone, Copy)]
pub struct Layout {
    pub total_size: usize,
    pub state_size: usize,
}

/// A block of values that goes into the output at `start`.
pub ghost struct Write<T> {
    pub start: int,
    pub value: Seq<T>,
}

/// The contents of each plane.
pub open spec fn planes_of<T>(planes: Seq<Vec<T>>) -> Seq<Seq<T>> {
    Seq::new(planes.len(), |i: int| planes[i]@)
}

/// A buffer with the block at `start` replaced.
pub open spec fn spliced<T>(buffer: Seq<T>, start: int, block: Seq<T>) -> Seq<T> {
    Seq::new(
        buffer.len(),
        |n: int|
            if start <= n < start + block.len() {
                block[n - start]
            } else {
                buffer[n]
            },
    )
}

/// The block of each state plane that belongs to the `len` samples at `start`.
pub open spec fn loaded<T>(state: Seq<T>, layout: Layout, start: int, len: int) -> Seq<Seq<T>> {
    Seq::new(
        layout.state_size as nat,
        |i: int| state.subrange(start + i * layout.total_size, start + i * layout.total_size + len),
    )
}

/// The state with the block at `start` of the first `count` planes replaced.
pub open spec fn stored<T>(
    state: Seq<T>,
    layout: Layout,
    start: int,
    planes: Seq<Seq<T>>,
    count: int,
) -> Seq<T>
    decreases count,
{
    if count <= 0 {
        state
    } else {
        spliced(
            stored(state, layout, start, planes, count - 1),
            start + (count - 1) * layout.total_size,
            planes[count - 1],
        )
    }
}

/// A block that is put into a buffer takes the place of as many samples from its
/// start on, and no other sample changes.
pub proof fn law_splice_replaces_one_block<T>(buffer: Seq<T>, start: int, block: Seq<T>, n: int)
    requires
        0 <= start,
        start + block.len() <= buffer.len(),
        0 <= n < buffer.len(),
    ensures
        spliced(buffer, start, block).len() == buffer.len(),
        spliced(buffer, start, block).subrange(start, start + block.len()) == block,
        n < start || start + block.len() <= n ==> spliced(buffer, start, block)[n] == buffer[n],
{
    assert(spliced(buffer, start, block).subrange(start, start + block.len()) =~= block);
}

/// One block for each plane, each of `len` samples.
pub open spec fn block_state<T>(state: Seq<Vec<T>>, planes: int, len: int) -> bool {
    &&& state.len() == planes
    &&& forall|i: int| 0 <= i < planes ==> (#[trigger] state[i])@.len() == len
}

/// What a combiner owes on blocks of `len` samples: it takes them, and gives
/// blocks of the same length back.
pub open spec fn combines<T, I, P, F>(c: Combiner<I, P, F>, planes: int, len: int) -> bool where
    I: Fn(Vec<T>) -> (Vec<Vec<T>>, Vec<T>),
    P: Fn(Vec<Vec<T>>, Vec<T>, Vec<T>) -> (Vec<Vec<T>>, Vec<T>),
    F: Fn(Vec<Vec<T>>, Vec<T>) -> Vec<T>,
 {
    &&& forall|v: Vec<T>| v@.len() == len ==> #[trigger] c.initialize.requires((v,))
    &&& forall|v: Vec<T>, r: (Vec<Vec<T>>, Vec<T>)|
        v@.len() == len && #[trigger] c.initialize.ensures((v,), r) ==> block_state(
            r.0@,
            planes,
            len,
        ) && r.1@.len() == len
    &&& forall|s: Vec<Vec<T>>, d: Vec<T>, v: Vec<T>|
        block_state(s@, planes, len) && d@.len() == len && v@.len() == len
            ==> #[trigger] c.apply.requires((s, d, v))
    &&& forall|s: Vec<Vec<T>>, d: Vec<T>, v: Vec<T>, r: (Vec<Vec<T>>, Vec<T>)|
        block_state(s@, planes, len) && d@.len() == len && v@.len() == len
            && #[trigger] c.apply.ensures((s, d, v), r) ==> block_state(r.0@, planes, len)
            && r.1@.len() == len
    &&& forall|s: Vec<Vec<T>>, d: Vec<T>|
        block_state(s@, planes, len) && d@.len() == len ==> #[trigger] c.finalize.requires((s, d))
    &&& forall|s: Vec<Vec<T>>, d: Vec<T>, r: Vec<T>|
        block_state(s@, planes, len) && d@.len() == len && #[trigger] c.finalize.ensures(
            (s, d),
            r,
        ) ==> r@.len() == len
}

/// What a combiner owes on blocks of at most `lanes` samples.
pub open spec fn combines_upto<T, I, P, F>(
    c: Combiner<I, P, F>,
    planes: int,
    lanes: int,
) -> bool where
    I: Fn(Vec<T>) -> (Vec<Vec<T>>, Vec<T>),
    P: Fn(Vec<Vec<T>>, Vec<T>, Vec<T>) -> (Vec<Vec<T>>, Vec<T>),
    F: Fn(Vec<Vec<T>>, Vec<T>) -> Vec<T>,
 {
    forall|len: int| 0 <= len <= lanes ==> #[trigger] combines::<T, I, P, F>(c, planes, len)
}

/// The combiner's first step on a block: `initialize` on the first octave, and
/// `apply` on what the buffers hold on a further one.
pub open spec fn entered<T, I, P, F>(
    c: Combiner<I, P, F>,
    pass: Pass,
    layout: Layout,
    w: Write<T>,
    state: Seq<T>,
    dst: Seq<T>,
    r: (Vec<Vec<T>>, Vec<T>),
) -> bool where
    I: Fn(Vec<T>) -> (Vec<Vec<T>>, Vec<T>),
    P: Fn(Vec<Vec<T>>, Vec<T>, Vec<T>) -> (Vec<Vec<T>>, Vec<T>),
    F: Fn(Vec<Vec<T>>, Vec<T>) -> Vec<T>,
 {
    if pass.init {
        exists|v: Vec<T>| v@ == w.value && #[trigger] c.initialize.ensures((v,), r)
    } else {
        exists|s: Vec<Vec<T>>, d: Vec<T>, v: Vec<T>|
            planes_of(s@) == loaded(state, layout, w.start, w.value.len() as int) && d@
                == dst.subrange(w.start, w.start + w.value.len()) && v@ == w.value
                && #[trigger] c.apply.ensures((s, d, v), r)
    }
}

/// The combiner's last step on a block: `finalize` on the last octave, and
/// nothing before it.
pub open spec fn finished<T, I, P, F>(
    c: Combiner<I, P, F>,
    pass: Pass,
    r: (Vec<Vec<T>>, Vec<T>),
    out: Vec<T>,
) -> bool where
    I: Fn(Vec<T>) -> (Vec<Vec<T>>, Vec<T>),
    P: Fn(Vec<Vec<T>>, Vec<T>, Vec<T>) -> (Vec<Vec<T>>, Vec<T>),
    F: Fn(Vec<Vec<T>>, Vec<T>) -> Vec<T>,
 {
    if pass.last {
        c.finalize.ensures((r.0, r.1), out)
    } else {
        out@ == r.1@
    }
}

/// What one block does to the buffers: the results go to the output, and
/// before the last octave the new state goes to the planes.
pub open spec fn combined<T, I, P, F>(
    c: Combiner<I, P, F>,
    pass: Pass,
    layout: Layout,
    w: Write<T>,
    before: (Seq<T>, Seq<T>),
    after: (Seq<T>, Seq<T>),
) -> bool where
    I: Fn(Vec<T>) -> (Vec<Vec<T>>, Vec<T>),
    P: Fn(Vec<Vec<T>>, Vec<T>, Vec<T>) -> (Vec<Vec<T>>, Vec<T>),
    F: Fn(Vec<Vec<T>>, Vec<T>) -> Vec<T>,
 {
    exists|r: (Vec<Vec<T>>, Vec<T>), out: Vec<T>|
        {
            &&& #[trigger] entered(c, pass, layout, w, before.0, before.1, r)
            &&& #[trigger] finished(c, pass, r, out)
            &&& after.0 == (if pass.last {
                before.0
            } else {
                stored(before.0, layout, w.start, planes_of(r.0@), layout.state_size as int)
            })
            &&& after.1 == spliced(before.1, w.start, out@)
        }
}

/// What a sequence of blocks does to the buffers, one after the other.
pub open spec fn applied<T, I, P, F>(
    c: Combiner<I, P, F>,
    pass: Pass,
    layout: Layout,
    writes: Seq<Write<T>>,
    before: (Seq<T>, Seq<T>),
    after: (Seq<T>, Seq<T>),
) -> bool where
    I: Fn(Vec<T>) -> (Vec<Vec<T>>, Vec<T>),
    P: Fn(Vec<Vec<T>>, Vec<T>, Vec<T>) -> (Vec<Vec<T>>, Vec<T>),
    F: Fn(Vec<Vec<T>>, Vec<T>) -> Vec<T>,

    decreases writes.len(),
{
    if writes.len() == 0 {
        after == before
    } else {
        exists|mid: (Seq<T>, Seq<T>)|
            applied(c, pass, layout, writes.drop_last(), before, mid) && #[trigger] combined(
                c,
                pass,
                layout,
                writes.last(),
                mid,
                after,
            )
    }
}

/// One more block after a sequence of blocks.
pub(crate) proof fn lemma_applied_push<T, I, P, F>(
    c: Combiner<I, P, F>,
    pass: Pass,
    layout: Layout,
    writes: Seq<Write<T>>,
    w: Write<T>,
    before: (Seq<T>, Seq<T>),
    mid: (Seq<T>, Seq<T>),
    after: (Seq<T>, Seq<T>),
) where
    I: Fn(Vec<T>) -> (Vec<Vec<T>>, Vec<T>),
    P: Fn(Vec<Vec<T>>, Vec<T>, Vec<T>) -> (Vec<Vec<T>>, Vec<T>),
    F: Fn(Vec<Vec<T>>, Vec<T>) -> Vec<T>,

    requires
        applied(c, pass, layout, writes, before, mid),
        combined(c, pass, layout, w, mid, after),
    ensures
        applied(c, pass, layout, writes.push(w), before, after),
{
    let longer = writes.push(w);
    assert(longer.drop_last() =~= writes);
    assert(combined(c, pass, layout, longer.last(), mid, after));
}

/// Running two sequences of blocks in turn runs their concatenation.
pub(crate) proof fn lemma_applied_concat<T, I, P, F>(
    c: Combiner<I, P, F>,
    pass: Pass,
    layout: Layout,
    first: Seq<Write<T>>,
    second: Seq<Write<T>>,
    before: (Seq<T>, Seq<T>),
    mid: (Seq<T>, Seq<T>),
    after: (Seq<T>, Seq<T>),
) where
    I: Fn(Vec<T>) -> (Vec<Vec<T>>, Vec<T>),
    P: Fn(Vec<Vec<T>>, Vec<T>, Vec<T>) -> (Vec<Vec<T>>, Vec<T>),
    F: Fn(Vec<Vec<T>>, Vec<T>) -> Vec<T>,

    requires
        applied(c, pass, layout, first, before, mid),
        applied(c, pass, layout, second, mid, after),
    ensures
        applied(c, pass, layout, first + second, before, after),
    decreases second.len(),
{
    if second.len() == 0 {
        assert(first + second =~= first);
    } else {
        let m = choose|m: (Seq<T>, Seq<T>)|
            applied(c, pass, layout, second.drop_last(), mid, m) && #[trigger] combined(
                c,
                pass,
                layout,
                second.last(),
                m,
                after,
            );
        lemma_applied_concat(c, pass, layout, first, second.drop_last(), before, mid, m);
        let both = first + second;
        assert(both.drop_last() =~= first + second.drop_last());
        assert(combined(c, pass, layout, both.last(), m, after));
    }
}

/// A block goes over sample `n`.
pub open spec fn covers<T>(w: Write<T>, n: int) -> bool {
    w.start <= n < w.start + w.value.len()
}

/// A block goes over as many samples as it has values, from its start on.
pub proof fn law_block_covers_from_its_start<T>(w: Write<T>, n: int)
    ensures
        covers(w, n) <==> exists|i: int|
            0 <= i < w.value.len() && n == #[trigger] (w.start + i),
{
    if covers(w, n) {
        assert(n == w.start + (n - w.start));
    }
}

/// How many blocks of a sequence go over sample `n`.
pub open spec fn cover_count<T>(writes: Seq<Write<T>>, n: int) -> int
    decreases writes.len(),
{
    if writes.len() == 0 {
        0
    } else {
        cover_count(writes.drop_last(), n) + (if covers(writes.last(), n) {
            1int
        } else {
            0int
        })
    }
}

/// Blocks of two sequences are counted one after the other.
pub(crate) proof fn lemma_cover_concat<T>(first: Seq<Write<T>>, second: Seq<Write<T>>, n: int)
    ensures
        cover_count(first + second, n) == cover_count(first, n) + cover_count(second, n),
    decreases second.len(),
{
    let both = first + second;
    if second.len() == 0 {
        assert(both =~= first);
    } else {
        assert(both.drop_last() =~= first + second.drop_last());
        assert(both.last() == second.last());
        lemma_cover_concat(first, second.drop_last(), n);
    }
}

/// One more block is counted by itself.
pub(crate) proof fn lemma_cover_push<T>(writes: Seq<Write<T>>, w: Write<T>, n: int)
    ensures
        cover_count(writes.push(w), n) == cover_count(writes, n) + (if covers(w, n) {
            1int
        } else {
            0int
        }),
{
    assert(writes.push(w).drop_last() =~= writes);
}

/// What state plane `i` holds for sample `n`.
pub open spec fn plane_at<T>(state: Seq<T>, layout: Layout, i: int, n: int) -> T {
    state[i * layout.total_size + n]
}

/// A block fits the output.
pub open spec fn fits<T>(layout: Layout, w: Write<T>) -> bool {
    0 <= w.start && w.start + w.value.len() <= layout.total_size
}

/// Combining a block changes only the samples of that block, in the output and
/// in every state plane.
pub proof fn law_block_keeps_other_samples<T, I, P, F>(
    c: Combiner<I, P, F>,
    pass: Pass,
    layout: Layout,
    w: Write<T>,
    before: (Seq<T>, Seq<T>),
    after: (Seq<T>, Seq<T>),
) where
    I: Fn(Vec<T>) -> (Vec<Vec<T>>, Vec<T>),
    P: Fn(Vec<Vec<T>>, Vec<T>, Vec<T>) -> (Vec<Vec<T>>, Vec<T>),
    F: Fn(Vec<Vec<T>>, Vec<T>) -> Vec<T>,

    requires
        combines::<T, I, P, F>(c, layout.state_size as int, w.value.len() as int),
        fits(layout, w),
        layout.total_size <= before.1.len(),
        layout.total_size * layout.state_size <= before.0.len(),
        combined(c, pass, layout, w, before, after),
    ensures
        after.0.len() == before.0.len(),
        after.1.len() == before.1.len(),
        forall|n: int|
            0 <= n < before.1.len() && !(w.start <= n < w.start + w.value.len())
                ==> #[trigger] after.1[n] == before.1[n],
        forall|i: int, n: int|
            0 <= i < layout.state_size && 0 <= n < layout.total_size && !(w.start <= n < w.start
                + w.value.len()) ==> #[trigger] plane_at(after.0, layout, i, n) == plane_at(
                before.0,
                layout,
                i,
                n,
            ),
{
    let (r, out) = choose|r: (Vec<Vec<T>>, Vec<T>), out: Vec<T>|
        {
            &&& #[trigger] entered(c, pass, layout, w, before.0, before.1, r)
            &&& #[trigger] finished(c, pass, r, out)
            &&& after.0 == (if pass.last {
                before.0
            } else {
                stored(before.0, layout, w.start, planes_of(r.0@), layout.state_size as int)
            })
            &&& after.1 == spliced(before.1, w.start, out@)
        };
    lemma_entry_shape(c, pass, layout, w, before.0, before.1, r);
    let planes = planes_of(r.0@);
    let count = layout.state_size as int;
    lemma_stored_len(before.0, layout, w.start, planes, count);
    if !pass.last {
        let len = w.value.len() as int;
        assert forall|i: int, n: int|
            0 <= i < count && 0 <= n < layout.total_size && !(w.start <= n < w.start
                + len) implies #[trigger] plane_at(after.0, layout, i, n) == plane_at(
            before.0,
            layout,
            i,
            n,
        ) by {
            lemma_stored_at(before.0, layout, w.start, planes, len, count, i, n);
        }
    }
}

/// The combiner's first step gives blocks of the right length.
proof fn lemma_entry_shape<T, I, P, F>(
    c: Combiner<I, P, F>,
    pass: Pass,
    layout: Layout,
    w: Write<T>,
    state: Seq<T>,
    dst: Seq<T>,
    r: (Vec<Vec<T>>, Vec<T>),
) where
    I: Fn(Vec<T>) -> (Vec<Vec<T>>, Vec<T>),
    P: Fn(Vec<Vec<T>>, Vec<T>, Vec<T>) -> (Vec<Vec<T>>, Vec<T>),
    F: Fn(Vec<Vec<T>>, Vec<T>) -> Vec<T>,

    requires
        combines::<T, I, P, F>(c, layout.state_size as int, w.value.len() as int),
        fits(layout, w),
        layout.total_size <= dst.len(),
        layout.total_size * layout.state_size <= state.len(),
        entered(c, pass, layout, w, state, dst, r),
    ensures
        block_state(r.0@, layout.state_size as int, w.value.len() as int),
        r.1@.len() == w.value.len(),
{
    if !pass.init {
        let len = w.value.len() as int;
        let (s, d, v) = choose|s: Vec<Vec<T>>, d: Vec<T>, v: Vec<T>|
            planes_of(s@) == loaded(state, layout, w.start, len) && d@ == dst.subrange(
                w.start,
                w.start + len,
            ) && v@ == w.value && #[trigger] c.apply.ensures((s, d, v), r);
        assert(planes_of(s@).len() == layout.state_size);
        assert forall|i: int| 0 <= i < layout.state_size implies (#[trigger] s@[i])@.len()
            == len by {
            lemma_plane_fits(layout, i, w.start, len);
            assert(planes_of(s@)[i] == loaded(state, layout, w.start, len)[i]);
        }
    }
}

proof fn lemma_stored_len<T>(
    state: Seq<T>,
    layout: Layout,
    start: int,
    planes: Seq<Seq<T>>,
    count: int,
)
    ensures
        stored(state, layout, start, planes, count).len() == state.len(),
    decreases count,
{
    if count > 0 {
        lemma_stored_len(state, layout, start, planes, count - 1);
    }
}

/// A sample that no block of a sequence touches keeps its value, and every
/// state plane keeps what it holds for the sample.
pub proof fn law_untouched_samples_keep<T, I, P, F>(
    c: Combiner<I, P, F>,
    pass: Pass,
    layout: Layout,
    lanes: int,
    writes: Seq<Write<T>>,
    before: (Seq<T>, Seq<T>),
    after: (Seq<T>, Seq<T>),
    n: int,
) where
    I: Fn(Vec<T>) -> (Vec<Vec<T>>, Vec<T>),
    P: Fn(Vec<Vec<T>>, Vec<T>, Vec<T>) -> (Vec<Vec<T>>, Vec<T>),
    F: Fn(Vec<Vec<T>>, Vec<T>) -> Vec<T>,

    requires
        combines_upto::<T, I, P, F>(c, layout.state_size as int, lanes),
        all_fit(layout, lanes, writes),
        forall|k: int| 0 <= k < writes.len() ==> !covers(#[trigger] writes[k], n),
        layout.total_size <= before.1.len(),
        layout.total_size * layout.state_size <= before.0.len(),
        applied(c, pass, layout, writes, before, after),
        0 <= n < before.1.len(),
    ensures
        after.0.len() == before.0.len(),
        after.1.len() == before.1.len(),
        after.1[n] == before.1[n],
        n < layout.total_size ==> forall|i: int|
            0 <= i < layout.state_size ==> #[trigger] plane_at(after.0, layout, i, n) == plane_at(
                before.0,
                layout,
                i,
                n,
            ),
    decreases writes.len(),
{
    if writes.len() > 0 {
        let mid = choose|mid: (Seq<T>, Seq<T>)|
            applied(c, pass, layout, writes.drop_last(), before, mid) && #[trigger] combined(
                c,
                pass,
                layout,
                writes.last(),
                mid,
                after,
            );
        let shorter = writes.drop_last();
        assert forall|k: int| 0 <= k < shorter.len() implies !covers(
            #[trigger] shorter[k],
            n,
        ) by {
            assert(shorter[k] == writes[k]);
        }
        lemma_fit_shorter(layout, lanes, writes);
        law_untouched_samples_keep(c, pass, layout, lanes, shorter, before, mid, n);
        let w = writes[writes.len() - 1];
        assert(combines::<T, I, P, F>(c, layout.state_size as int, w.value.len() as int));
        law_block_keeps_other_samples(c, pass, layout, w, mid, after);
        assert(!covers(w, n));
    }
}

/// Two blocks share no sample.
pub open spec fn apart<T>(a: Write<T>, b: Write<T>) -> bool {
    ||| a.value.len() == 0
    ||| b.value.len() == 0
    ||| a.start + a.value.len() <= b.start
    ||| b.start + b.value.len() <= a.start
}

/// Every block of a sequence fits the output, and has at most `lanes` samples.
pub open spec fn all_fit<T>(layout: Layout, lanes: int, writes: Seq<Write<T>>) -> bool {
    forall|k: int|
        0 <= k < writes.len() ==> fits(layout, #[trigger] writes[k]) && writes[k].value.len()
            <= lanes
}

/// The blocks before the last one fit where all of them do.
proof fn lemma_fit_shorter<T>(layout: Layout, lanes: int, writes: Seq<Write<T>>)
    requires
        all_fit(layout, lanes, writes),
        writes.len() > 0,
    ensures
        all_fit(layout, lanes, writes.drop_last()),
        fits(layout, writes.last()),
        writes.last().value.len() <= lanes,
{
    let shorter = writes.drop_last();
    assert forall|k: int| 0 <= k < shorter.len() implies fits(layout, #[trigger] shorter[k])
        && shorter[k].value.len() <= lanes by {
        assert(shorter[k] == writes[k]);
    }
    let w = writes[writes.len() - 1];
    assert(fits(layout, w) && w.value.len() <= lanes);
}

/// Blocks of two sequences that fit fit together.
pub(crate) proof fn lemma_fit_concat<T>(
    layout: Layout,
    lanes: int,
    first: Seq<Write<T>>,
    second: Seq<Write<T>>,
)
    requires
        all_fit(layout, lanes, first),
        all_fit(layout, lanes, second),
    ensures
        all_fit(layout, lanes, first + second),
{
    let both = first + second;
    assert forall|k: int| 0 <= k < both.len() implies fits(layout, #[trigger] both[k])
        && both[k].value.len() <= lanes by {
        if k < first.len() {
            assert(both[k] == first[k]);
        } else {
            assert(both[k] == second[k - first.len()]);
        }
    }
}

/// What the planes hold at sample `n` after the block at `start` of the first
/// `count` of them was replaced.
proof fn lemma_stored_at<T>(
    state: Seq<T>,
    layout: Layout,
    start: int,
    planes: Seq<Seq<T>>,
    len: int,
    count: int,
    i: int,
    n: int,
)
    requires
        0 <= count <= layout.state_size,
        layout.total_size * layout.state_size <= state.len(),
        forall|k: int| 0 <= k < count ==> (#[trigger] planes[k]).len() == len,
        0 <= start,
        start + len <= layout.total_size,
        0 <= i < layout.state_size,
        0 <= n < layout.total_size,
    ensures
        0 <= i * layout.total_size + n < state.len(),
        stored(state, layout, start, planes, count)[i * layout.total_size + n] == (if i < count
            && start <= n < start + len {
            planes[i][n - start]
        } else {
            state[i * layout.total_size + n]
        }),
    decreases count,
{
    let t = layout.total_size as int;
    lemma_plane_fits(layout, i, n, 1);
    if count > 0 {
        let k = count - 1;
        lemma_stored_at(state, layout, start, planes, len, k, i, n);
        lemma_stored_len(state, layout, start, planes, k);
        assert(planes[k].len() == len);
        if i < k {
            assert(i * t + n < k * t) by (nonlinear_arith)
                requires
                    i + 1 <= k,
                    0 <= n < t,
            ;
        } else if i > k {
            assert(k * t + t <= i * t) by (nonlinear_arith)
                requires
                    k + 1 <= i,
                    0 < t,
            ;
        }
    }
}

/// The blocks of a state that is as long as its planes.
proof fn lemma_loaded_at<T>(state: Seq<T>, layout: Layout, start: int, len: int, i: int, k: int)
    requires
        layout.total_size * layout.state_size <= state.len(),
        0 <= start,
        start + len <= layout.total_size,
        0 <= i < layout.state_size,
        0 <= k < len,
    ensures
        loaded(state, layout, start, len)[i].len() == len,
        loaded(state, layout, start, len)[i][k] == state[i * layout.total_size + (start + k)],
{
    lemma_plane_fits(layout, i, start, len);
    assert(i * layout.total_size + (start + k) == start + i * layout.total_size + k);
}

/// What is stored in the planes is loaded back from them, plane by plane, and the
/// other samples of every plane stay.
pub proof fn law_planes_give_back_what_was_stored<T>(
    state: Seq<T>,
    layout: Layout,
    start: int,
    planes: Seq<Seq<T>>,
    len: int,
    i: int,
    n: int,
)
    requires
        layout.total_size * layout.state_size <= state.len(),
        0 <= start,
        0 <= len,
        start + len <= layout.total_size,
        planes.len() == layout.state_size,
        forall|p: int| 0 <= p < planes.len() ==> (#[trigger] planes[p]).len() == len,
        0 <= i < layout.state_size,
        0 <= n < layout.total_size,
    ensures
        ({
            let after = stored(state, layout, start, planes, layout.state_size as int);
            &&& after.len() == state.len()
            &&& loaded(after, layout, start, len) == planes
            &&& n < start || start + len <= n ==> after[i * layout.total_size + n] == state[i
                * layout.total_size + n]
        }),
{
    let count = layout.state_size as int;
    let after = stored(state, layout, start, planes, count);
    lemma_stored_len(state, layout, start, planes, count);
    lemma_stored_at(state, layout, start, planes, len, count, i, n);
    let again = loaded(after, layout, start, len);
    assert forall|p: int| 0 <= p < count implies again[p] == planes[p] by {
        lemma_plane_fits(layout, p, start, len);
        assert forall|q: int| 0 <= q < len implies again[p][q] == planes[p][q] by {
            lemma_loaded_at(after, layout, start, len, p, q);
            lemma_stored_at(state, layout, start, planes, len, count, p, start + q);
        }
        assert(again[p] =~= planes[p]);
    }
    assert(again =~= planes);
}

/// The samples of a block are loaded from where they lie in each plane.
pub proof fn law_planes_are_loaded_in_place<T>(
    state: Seq<T>,
    layout: Layout,
    start: int,
    len: int,
    i: int,
    q: int,
)
    requires
        layout.total_size * layout.state_size <= state.len(),
        0 <= start,
        start + len <= layout.total_size,
        0 <= i < layout.state_size,
        0 <= q < len,
    ensures
        loaded(state, layout, start, len).len() == layout.state_size,
        loaded(state, layout, start, len)[i].len() == len,
        loaded(state, layout, start, len)[i][q] == state[i * layout.total_size + (start + q)],
{
    lemma_loaded_at(state, layout, start, len, i, q);
}

/// Combining a block keeps what the buffers hold of a block apart from it.
proof fn lemma_block_keeps_block<T, I, P, F>(
    c: Combiner<I, P, F>,
    pass: Pass,
    layout: Layout,
    w: Write<T>,
    other: Write<T>,
    before: (Seq<T>, Seq<T>),
    after: (Seq<T>, Seq<T>),
) where
    I: Fn(Vec<T>) -> (Vec<Vec<T>>, Vec<T>),
    P: Fn(Vec<Vec<T>>, Vec<T>, Vec<T>) -> (Vec<Vec<T>>, Vec<T>),
    F: Fn(Vec<Vec<T>>, Vec<T>) -> Vec<T>,

    requires
        combines::<T, I, P, F>(c, layout.state_size as int, w.value.len() as int),
        fits(layout, w),
        fits(layout, other),
        apart(w, other),
        layout.total_size <= before.1.len(),
        layout.total_size * layout.state_size <= before.0.len(),
        combined(c, pass, layout, w, before, after),
    ensures
        after.0.len() == before.0.len(),
        after.1.len() == before.1.len(),
        after.1.subrange(other.start, other.start + other.value.len()) == before.1.subrange(
            other.start,
            other.start + other.value.len(),
        ),
        loaded(after.0, layout, other.start, other.value.len() as int) == loaded(
            before.0,
            layout,
            other.start,
            other.value.len() as int,
        ),
{
    let len = other.value.len() as int;
    let (r, out) = choose|r: (Vec<Vec<T>>, Vec<T>), out: Vec<T>|
        {
            &&& #[trigger] entered(c, pass, layout, w, before.0, before.1, r)
            &&& #[trigger] finished(c, pass, r, out)
            &&& after.0 == (if pass.last {
                before.0
            } else {
                stored(before.0, layout, w.start, planes_of(r.0@), layout.state_size as int)
            })
            &&& after.1 == spliced(before.1, w.start, out@)
        };
    lemma_entry_shape(c, pass, layout, w, before.0, before.1, r);
    let planes = planes_of(r.0@);
    lemma_stored_len(before.0, layout, w.start, planes, layout.state_size as int);
    assert(after.1.subrange(other.start, other.start + len) =~= before.1.subrange(
        other.start,
        other.start + len,
    ));
    let old_planes = loaded(before.0, layout, other.start, len);
    let new_planes = loaded(after.0, layout, other.start, len);
    if !pass.last {
        assert forall|i: int| 0 <= i < layout.state_size implies old_planes[i]
            == new_planes[i] by {
            lemma_plane_fits(layout, i, other.start, len);
            assert forall|k: int| 0 <= k < len implies old_planes[i][k] == new_planes[i][k] by {
                lemma_loaded_at(before.0, layout, other.start, len, i, k);
                lemma_loaded_at(after.0, layout, other.start, len, i, k);
                lemma_stored_at(
                    before.0,
                    layout,
                    w.start,
                    planes,
                    w.value.len() as int,
                    layout.state_size as int,
                    i,
                    other.start + k,
                );
            }
            assert(old_planes[i] =~= new_planes[i]);
        }
        assert(old_planes =~= new_planes);
    }
}

/// What a block leaves in its own samples.
pub open spec fn left_behind<T, I, P, F>(
    c: Combiner<I, P, F>,
    pass: Pass,
    layout: Layout,
    w: Write<T>,
    before: (Seq<T>, Seq<T>),
    after: (Seq<T>, Seq<T>),
    r: (Vec<Vec<T>>, Vec<T>),
    out: Vec<T>,
) -> bool where
    I: Fn(Vec<T>) -> (Vec<Vec<T>>, Vec<T>),
    P: Fn(Vec<Vec<T>>, Vec<T>, Vec<T>) -> (Vec<Vec<T>>, Vec<T>),
    F: Fn(Vec<Vec<T>>, Vec<T>) -> Vec<T>,
 {
    &&& entered(c, pass, layout, w, before.0, before.1, r)
    &&& finished(c, pass, r, out)
    &&& after.1.subrange(w.start, w.start + w.value.len()) == out@
    &&& !pass.last ==> loaded(after.0, layout, w.start, w.value.len() as int) == planes_of(r.0@)
}

/// A block leaves its results and its state in its own samples.
proof fn lemma_block_leaves<T, I, P, F>(
    c: Combiner<I, P, F>,
    pass: Pass,
    layout: Layout,
    w: Write<T>,
    before: (Seq<T>, Seq<T>),
    after: (Seq<T>, Seq<T>),
) -> (found: ((Vec<Vec<T>>, Vec<T>), Vec<T>)) where
    I: Fn(Vec<T>) -> (Vec<Vec<T>>, Vec<T>),
    P: Fn(Vec<Vec<T>>, Vec<T>, Vec<T>) -> (Vec<Vec<T>>, Vec<T>),
    F: Fn(Vec<Vec<T>>, Vec<T>) -> Vec<T>,

    requires
        combines::<T, I, P, F>(c, layout.state_size as int, w.value.len() as int),
        fits(layout, w),
        layout.total_size <= before.1.len(),
        layout.total_size * layout.state_size <= before.0.len(),
        combined(c, pass, layout, w, before, after),
    ensures
        left_behind(c, pass, layout, w, before, after, found.0, found.1),
{
    let len = w.value.len() as int;
    let (r, out) = choose|r: (Vec<Vec<T>>, Vec<T>), out: Vec<T>|
        {
            &&& #[trigger] entered(c, pass, layout, w, before.0, before.1, r)
            &&& #[trigger] finished(c, pass, r, out)
            &&& after.0 == (if pass.last {
                before.0
            } else {
                stored(before.0, layout, w.start, planes_of(r.0@), layout.state_size as int)
            })
            &&& after.1 == spliced(before.1, w.start, out@)
        };
    lemma_entry_shape(c, pass, layout, w, before.0, before.1, r);
    let planes = planes_of(r.0@);
    lemma_stored_len(before.0, layout, w.start, planes, layout.state_size as int);
    assert(out@.len() == len);
    assert(after.1.subrange(w.start, w.start + len) =~= out@);
    if !pass.last {
        let new_planes = loaded(after.0, layout, w.start, len);
        assert forall|i: int| 0 <= i < layout.state_size implies new_planes[i] == planes[i] by {
            lemma_plane_fits(layout, i, w.start, len);
            assert(r.0@[i]@.len() == len);
            assert forall|k: int| 0 <= k < len implies new_planes[i][k] == planes[i][k] by {
                lemma_loaded_at(after.0, layout, w.start, len, i, k);
                lemma_stored_at(
                    before.0,
                    layout,
                    w.start,
                    planes,
                    len,
                    layout.state_size as int,
                    i,
                    w.start + k,
                );
            }
            assert(new_planes[i] =~= planes[i]);
        }
        assert(new_planes =~= planes);
    }
    (r, out)
}

/// A block that no other block of a sequence meets is combined with what the
/// buffers held before the sequence, and what it leaves is still there after
/// it.
pub proof fn law_blocks_are_combined_apart<T, I, P, F>(
    c: Combiner<I, P, F>,
    pass: Pass,
    layout: Layout,
    lanes: int,
    writes: Seq<Write<T>>,
    before: (Seq<T>, Seq<T>),
    after: (Seq<T>, Seq<T>),
    j: int,
) where
    I: Fn(Vec<T>) -> (Vec<Vec<T>>, Vec<T>),
    P: Fn(Vec<Vec<T>>, Vec<T>, Vec<T>) -> (Vec<Vec<T>>, Vec<T>),
    F: Fn(Vec<Vec<T>>, Vec<T>) -> Vec<T>,

    requires
        combines_upto::<T, I, P, F>(c, layout.state_size as int, lanes),
        all_fit(layout, lanes, writes),
        layout.total_size <= before.1.len(),
        layout.total_size * layout.state_size <= before.0.len(),
        applied(c, pass, layout, writes, before, after),
        0 <= j < writes.len(),
        forall|k: int| 0 <= k < writes.len() && k != j ==> apart(#[trigger] writes[k], writes[j]),
    ensures
        exists|r: (Vec<Vec<T>>, Vec<T>), out: Vec<T>| #[trigger]
            left_behind(c, pass, layout, writes[j], before, after, r, out),
        after.0.len() == before.0.len(),
        after.1.len() == before.1.len(),
    decreases writes.len(),
{
    let mid = choose|mid: (Seq<T>, Seq<T>)|
        applied(c, pass, layout, writes.drop_last(), before, mid) && #[trigger] combined(
            c,
            pass,
            layout,
            writes.last(),
            mid,
            after,
        );
    let shorter = writes.drop_last();
    let w = writes[writes.len() - 1];
    lemma_fit_shorter(layout, lanes, writes);
    assert(combines::<T, I, P, F>(c, layout.state_size as int, w.value.len() as int));
    if j == writes.len() - 1 {
        assert forall|k: int| 0 <= k < shorter.len() implies apart(#[trigger] shorter[k], w) by {
            assert(shorter[k] == writes[k]);
        }
        lemma_blocks_keep_block(c, pass, layout, lanes, shorter, w, before, mid);
        let (r, out) = lemma_block_leaves(c, pass, layout, w, mid, after);
        assert(entered(c, pass, layout, w, before.0, before.1, r));
        assert(left_behind(c, pass, layout, w, before, after, r, out));
        law_block_keeps_other_samples(c, pass, layout, w, mid, after);
    } else {
        assert(shorter[j] == writes[j]);
        assert forall|k: int| 0 <= k < shorter.len() && k != j implies apart(
            #[trigger] shorter[k],
            shorter[j],
        ) by {
            assert(shorter[k] == writes[k]);
        }
        law_blocks_are_combined_apart(c, pass, layout, lanes, shorter, before, mid, j);
        let (r, out) = choose|r: (Vec<Vec<T>>, Vec<T>), out: Vec<T>| #[trigger]
            left_behind(c, pass, layout, shorter[j], before, mid, r, out);
        lemma_block_keeps_block(c, pass, layout, w, writes[j], mid, after);
        assert(left_behind(c, pass, layout, writes[j], before, after, r, out));
    }
}

/// Combining a sequence of blocks keeps what the buffers hold of a block apart
/// from all of them.
proof fn lemma_blocks_keep_block<T, I, P, F>(
    c: Combiner<I, P, F>,
    pass: Pass,
    layout: Layout,
    lanes: int,
    writes: Seq<Write<T>>,
    other: Write<T>,
    before: (Seq<T>, Seq<T>),
    after: (Seq<T>, Seq<T>),
) where
    I: Fn(Vec<T>) -> (Vec<Vec<T>>, Vec<T>),
    P: Fn(Vec<Vec<T>>, Vec<T>, Vec<T>) -> (Vec<Vec<T>>, Vec<T>),
    F: Fn(Vec<Vec<T>>, Vec<T>) -> Vec<T>,

    requires
        combines_upto::<T, I, P, F>(c, layout.state_size as int, lanes),
        all_fit(layout, lanes, writes),
        fits(layout, other),
        forall|k: int| 0 <= k < writes.len() ==> apart(#[trigger] writes[k], other),
        layout.total_size <= before.1.len(),
        layout.total_size * layout.state_size <= before.0.len(),
        applied(c, pass, layout, writes, before, after),
    ensures
        after.0.len() == before.0.len(),
        after.1.len() == before.1.len(),
        after.1.subrange(other.start, other.start + other.value.len()) == before.1.subrange(
            other.start,
            other.start + other.value.len(),
        ),
        loaded(after.0, layout, other.start, other.value.len() as int) == loaded(
            before.0,
            layout,
            other.start,
            other.value.len() as int,
        ),
    decreases writes.len(),
{
    if writes.len() > 0 {
        let mid = choose|mid: (Seq<T>, Seq<T>)|
            applied(c, pass, layout, writes.drop_last(), before, mid) && #[trigger] combined(
                c,
                pass,
                layout,
                writes.last(),
                mid,
                after,
            );
        let shorter = writes.drop_last();
        let w = writes[writes.len() - 1];
        assert(apart(w, other));
        assert forall|k: int| 0 <= k < shorter.len() implies apart(
            #[trigger] shorter[k],
            other,
        ) by {
            assert(shorter[k] == writes[k]);
        }
        lemma_fit_shorter(layout, lanes, writes);
        assert(combines::<T, I, P, F>(c, layout.state_size as int, w.value.len() as int));
        lemma_blocks_keep_block(c, pass, layout, lanes, shorter, other, before, mid);
        lemma_block_keeps_block(c, pass, layout, w, other, mid, after);
    }
}

/// A sample that some block goes over is counted.
proof fn lemma_covered_is_counted<T>(writes: Seq<Write<T>>, k: int, n: int)
    requires
        0 <= k < writes.len(),
        covers(writes[k], n),
    ensures
        cover_count(writes, n) >= 1,
    decreases writes.len(),
{
    lemma_cover_not_negative(writes.drop_last(), n);
    if k < writes.len() - 1 {
        lemma_covered_is_counted(writes.drop_last(), k, n);
    }
}

proof fn lemma_cover_not_negative<T>(writes: Seq<Write<T>>, n: int)
    ensures
        cover_count(writes, n) >= 0,
    decreases writes.len(),
{
    if writes.len() > 0 {
        lemma_cover_not_negative(writes.drop_last(), n);
    }
}

/// A sample that two blocks go over is counted twice.
proof fn lemma_covered_twice<T>(writes: Seq<Write<T>>, j: int, k: int, n: int)
    requires
        0 <= j < k < writes.len(),
        covers(writes[j], n),
        covers(writes[k], n),
    ensures
        cover_count(writes, n) >= 2,
    decreases writes.len(),
{
    if k == writes.len() - 1 {
        lemma_covered_is_counted(writes.drop_last(), j, n);
    } else {
        lemma_covered_twice(writes.drop_last(), j, k, n);
    }
}

/// A sample that is counted once is gone over by some block.
proof fn lemma_counted_is_covered<T>(writes: Seq<Write<T>>, n: int) -> (j: int)
    requires
        cover_count(writes, n) >= 1,
    ensures
        0 <= j < writes.len(),
        covers(writes[j], n),
    decreases writes.len(),
{
    if covers(writes.last(), n) {
        writes.len() - 1
    } else {
        lemma_counted_is_covered(writes.drop_last(), n)
    }
}

/// Only one block goes over a sample that is counted once.
pub(crate) proof fn lemma_one_cover<T>(writes: Seq<Write<T>>, j: int, k: int, n: int)
    requires
        cover_count(writes, n) == 1,
        0 <= j < writes.len(),
        0 <= k < writes.len(),
        covers(writes[j], n),
        covers(writes[k], n),
    ensures
        j == k,
{
    if j < k {
        lemma_covered_twice(writes, j, k, n);
    } else if k < j {
        lemma_covered_twice(writes, k, j, n);
    }
}

/// What a sequence of blocks makes of sample `n`: the block that goes over it
/// is combined with what the buffers held before, and the sample and its state
/// are what the combiner gave.
pub open spec fn combined_at<T, I, P, F>(
    c: Combiner<I, P, F>,
    pass: Pass,
    layout: Layout,
    writes: Seq<Write<T>>,
    before: (Seq<T>, Seq<T>),
    after: (Seq<T>, Seq<T>),
    n: int,
) -> bool where
    I: Fn(Vec<T>) -> (Vec<Vec<T>>, Vec<T>),
    P: Fn(Vec<Vec<T>>, Vec<T>, Vec<T>) -> (Vec<Vec<T>>, Vec<T>),
    F: Fn(Vec<Vec<T>>, Vec<T>) -> Vec<T>,
 {
    exists|j: int, r: (Vec<Vec<T>>, Vec<T>), out: Vec<T>|
        {
            &&& 0 <= j < writes.len()
            &&& covers(writes[j], n)
            &&& #[trigger] entered(c, pass, layout, writes[j], before.0, before.1, r)
            &&& #[trigger] finished(c, pass, r, out)
            &&& after.1[n] == out@[n - writes[j].start]
            &&& forall|i: int|
                0 <= i < layout.state_size && !pass.last ==> after.0[i * layout.total_size + n]
                    == (#[trigger] r.0@[i])@[n - writes[j].start]
        }
}

/// Where every sample of the output is written exactly once, every sample is
/// what the combiner makes of the one block that goes over it and of what the
/// buffers held of that block before: the order of the blocks does not matter.
pub proof fn law_samples_are_combined_once<T, I, P, F>(
    c: Combiner<I, P, F>,
    pass: Pass,
    layout: Layout,
    lanes: int,
    writes: Seq<Write<T>>,
    before: (Seq<T>, Seq<T>),
    after: (Seq<T>, Seq<T>),
    n: int,
) where
    I: Fn(Vec<T>) -> (Vec<Vec<T>>, Vec<T>),
    P: Fn(Vec<Vec<T>>, Vec<T>, Vec<T>) -> (Vec<Vec<T>>, Vec<T>),
    F: Fn(Vec<Vec<T>>, Vec<T>) -> Vec<T>,

    requires
        combines_upto::<T, I, P, F>(c, layout.state_size as int, lanes),
        all_fit(layout, lanes, writes),
        forall|m: int| 0 <= m < layout.total_size ==> #[trigger] cover_count(writes, m) == 1,
        layout.total_size <= before.1.len(),
        layout.total_size * layout.state_size <= before.0.len(),
        applied(c, pass, layout, writes, before, after),
        0 <= n < layout.total_size,
    ensures
        combined_at(c, pass, layout, writes, before, after, n),
{
    assert(cover_count(writes, n) == 1);
    let j = lemma_counted_is_covered(writes, n);
    let w = writes[j];
    assert(fits(layout, w));
    assert forall|k: int| 0 <= k < writes.len() && k != j implies apart(
        #[trigger] writes[k],
        w,
    ) by {
        if !apart(writes[k], w) {
            let o = writes[k];
            assert(fits(layout, o));
            let m = if o.start >= w.start {
                o.start
            } else {
                w.start
            };
            assert(covers(o, m) && covers(w, m));
            if j < k {
                lemma_covered_twice(writes, j, k, m);
            } else {
                lemma_covered_twice(writes, k, j, m);
            }
            assert(cover_count(writes, m) == 1);
        }
    }
    law_blocks_are_combined_apart(c, pass, layout, lanes, writes, before, after, j);
    let (r, out) = choose|r: (Vec<Vec<T>>, Vec<T>), out: Vec<T>| #[trigger]
        left_behind(c, pass, layout, w, before, after, r, out);
    let len = w.value.len() as int;
    assert(after.1.subrange(w.start, w.start + len)[n - w.start] == after.1[n]);
    assert forall|i: int| 0 <= i < layout.state_size && !pass.last implies after.0[i
        * layout.total_size + n] == (#[trigger] r.0@[i])@[n - w.start] by {
        lemma_loaded_at(after.0, layout, w.start, len, i, n - w.start);
        let planes = planes_of(r.0@);
        assert(planes == loaded(after.0, layout, w.start, len));
        assert(planes.len() == r.0@.len());
        assert(planes[i] == r.0@[i]@);
    }
}

/// What the combiner makes of sample `n`, step by step. On the first octave its
/// block goes to `initialize`, and on a further one to `apply`, behind the state
/// planes and the results that the buffers held in the same samples. On the last
/// octave `finalize` gives the sample; before it, the sample and its state are
/// what the first step gave.
pub proof fn law_sample_is_combined_step_by_step<T, I, P, F>(
    c: Combiner<I, P, F>,
    pass: Pass,
    layout: Layout,
    writes: Seq<Write<T>>,
    before: (Seq<T>, Seq<T>),
    after: (Seq<T>, Seq<T>),
    n: int,
) where
    I: Fn(Vec<T>) -> (Vec<Vec<T>>, Vec<T>),
    P: Fn(Vec<Vec<T>>, Vec<T>, Vec<T>) -> (Vec<Vec<T>>, Vec<T>),
    F: Fn(Vec<Vec<T>>, Vec<T>) -> Vec<T>,

    requires
        forall|k: int|
            0 <= k < writes.len() ==> 0 <= (#[trigger] writes[k]).start && writes[k].start
                + writes[k].value.len() <= layout.total_size,
        layout.total_size <= before.1.len(),
        layout.total_size * layout.state_size <= before.0.len(),
        combined_at(c, pass, layout, writes, before, after, n),
    ensures
        exists|j: int, r: (Vec<Vec<T>>, Vec<T>)|
            {
                let w = #[trigger] writes[j];
                let len = w.value.len();
                &&& 0 <= j < writes.len()
                &&& w.start <= n < w.start + len
                &&& pass.init ==> exists|v: Vec<T>|
                    v@ == w.value && #[trigger] c.initialize.ensures((v,), r)
                &&& !pass.init ==> exists|s: Vec<Vec<T>>, d: Vec<T>, v: Vec<T>|
                    {
                        &&& v@ == w.value
                        &&& d@.len() == len
                        &&& forall|m: int|
                            0 <= m < len ==> #[trigger] d@[m] == before.1[w.start + m]
                        &&& s@.len() == layout.state_size
                        &&& forall|i: int| 0 <= i < s@.len() ==> (#[trigger] s@[i])@.len() == len
                        &&& forall|i: int, m: int|
                            0 <= i < s@.len() && 0 <= m < len ==> #[trigger] s@[i]@[m]
                                == before.0[i * layout.total_size + (w.start + m)]
                        &&& #[trigger] c.apply.ensures((s, d, v), r)
                    }
                &&& pass.last ==> exists|out: Vec<T>| #[trigger]
                    c.finalize.ensures((r.0, r.1), out) && after.1[n] == out@[n - w.start]
                &&& !pass.last ==> after.1[n] == (#[trigger] r.1)@[n - w.start]
                &&& !pass.last ==> forall|i: int|
                    0 <= i < layout.state_size ==> after.0[i * layout.total_size + n] == (
                    #[trigger] r.0@[i])@[n - w.start]
            },
{
    let (j, r, out) = choose|j: int, r: (Vec<Vec<T>>, Vec<T>), out: Vec<T>|
        {
            &&& 0 <= j < writes.len()
            &&& covers(writes[j], n)
            &&& #[trigger] entered(c, pass, layout, writes[j], before.0, before.1, r)
            &&& #[trigger] finished(c, pass, r, out)
            &&& after.1[n] == out@[n - writes[j].start]
            &&& forall|i: int|
                0 <= i < layout.state_size && !pass.last ==> after.0[i * layout.total_size + n]
                    == (#[trigger] r.0@[i])@[n - writes[j].start]
        };
    let w = writes[j];
    let len = w.value.len() as int;
    let result = r.1;
    assert(fits(layout, w));
    if !pass.init {
        let (s, d, v) = choose|s: Vec<Vec<T>>, d: Vec<T>, v: Vec<T>|
            planes_of(s@) == loaded(before.0, layout, w.start, len) && d@ == before.1.subrange(
                w.start,
                w.start + len,
            ) && v@ == w.value && #[trigger] c.apply.ensures((s, d, v), r);
        assert(s@.len() == planes_of(s@).len());
        assert forall|i: int| 0 <= i < s@.len() implies (#[trigger] s@[i])@.len() == len by {
            lemma_plane_fits(layout, i, w.start, len);
            assert(planes_of(s@)[i] == s@[i]@);
        }
        assert forall|i: int, m: int| 0 <= i < s@.len() && 0 <= m < len implies #[trigger] s@[i]@[m]
            == before.0[i * layout.total_size + (w.start + m)] by {
            assert(planes_of(s@)[i] == s@[i]@);
            lemma_loaded_at(before.0, layout, w.start, len, i, m);
        }
        assert(c.apply.ensures((s, d, v), r));
    }
    if pass.last {
        assert(c.finalize.ensures((r.0, r.1), out));
    }
}

/// One block by itself does to each of its samples what a whole plane of blocks
/// does: the sample is what the combiner makes of the block and of what the
/// buffers held there.
pub proof fn law_block_is_combined_by_itself<T, I, P, F>(
    c: Combiner<I, P, F>,
    pass: Pass,
    layout: Layout,
    w: Write<T>,
    before: (Seq<T>, Seq<T>),
    after: (Seq<T>, Seq<T>),
    n: int,
) where
    I: Fn(Vec<T>) -> (Vec<Vec<T>>, Vec<T>),
    P: Fn(Vec<Vec<T>>, Vec<T>, Vec<T>) -> (Vec<Vec<T>>, Vec<T>),
    F: Fn(Vec<Vec<T>>, Vec<T>) -> Vec<T>,

    requires
        combines::<T, I, P, F>(c, layout.state_size as int, w.value.len() as int),
        0 <= w.start,
        w.start + w.value.len() <= layout.total_size,
        layout.total_size <= before.1.len(),
        layout.total_size * layout.state_size <= before.0.len(),
        combined(c, pass, layout, w, before, after),
        w.start <= n < w.start + w.value.len(),
    ensures
        combined_at(c, pass, layout, seq![w], before, after, n),
{
    let (r, out) = lemma_block_leaves(c, pass, layout, w, before, after);
    let len = w.value.len() as int;
    let writes = seq![w];
    assert(writes[0] == w && covers(w, n));
    assert(after.1.subrange(w.start, w.start + len)[n - w.start] == after.1[n]);
    law_block_keeps_other_samples(c, pass, layout, w, before, after);
    assert forall|i: int| 0 <= i < layout.state_size && !pass.last implies after.0[i
        * layout.total_size + n] == (#[trigger] r.0@[i])@[n - w.start] by {
        lemma_loaded_at(after.0, layout, w.start, len, i, n - w.start);
        let planes = planes_of(r.0@);
        assert(planes == loaded(after.0, layout, w.start, len));
        assert(planes.len() == r.0@.len());
        assert(planes[i] == r.0@[i]@);
    }
    assert(entered(c, pass, layout, writes[0], before.0, before.1, r));
}

/// The last octave leaves the state as it is.
pub proof fn law_last_octave_keeps_state<T, I, P, F>(
    c: Combiner<I, P, F>,
    pass: Pass,
    layout: Layout,
    writes: Seq<Write<T>>,
    before: (Seq<T>, Seq<T>),
    after: (Seq<T>, Seq<T>),
) where
    I: Fn(Vec<T>) -> (Vec<Vec<T>>, Vec<T>),
    P: Fn(Vec<Vec<T>>, Vec<T>, Vec<T>) -> (Vec<Vec<T>>, Vec<T>),
    F: Fn(Vec<Vec<T>>, Vec<T>) -> Vec<T>,

    requires
        pass.last,
        applied(c, pass, layout, writes, before, after),
    ensures
        after.0 == before.0,
    decreases writes.len(),
{
    if writes.len() > 0 {
        let mid = choose|mid: (Seq<T>, Seq<T>)|
            applied(c, pass, layout, writes.drop_last(), before, mid) && #[trigger] combined(
                c,
                pass,
                layout,
                writes.last(),
                mid,
                after,
            );
        law_last_octave_keeps_state(c, pass, layout, writes.drop_last(), before, mid);
    }
}

/// The first octave takes nothing from the buffers: what the combiner makes of
/// a block is the same whatever they held.
pub proof fn law_first_octave_ignores_buffers<T, I, P, F>(
    c: Combiner<I, P, F>,
    pass: Pass,
    layout: Layout,
    w: Write<T>,
    before: (Seq<T>, Seq<T>),
    other: (Seq<T>, Seq<T>),
    r: (Vec<Vec<T>>, Vec<T>),
) where
    I: Fn(Vec<T>) -> (Vec<Vec<T>>, Vec<T>),
    P: Fn(Vec<Vec<T>>, Vec<T>, Vec<T>) -> (Vec<Vec<T>>, Vec<T>),
    F: Fn(Vec<Vec<T>>, Vec<T>) -> Vec<T>,

    requires
        pass.init,
    ensures
        entered(c, pass, layout, w, before.0, before.1, r) == entered(
            c,
            pass,
            layout,
            w,
            other.0,
            other.1,
            r,
        ),
{
}

impl<I, P, F> Combiner<I, P, F> {
    /// Each step gives the same samples for the same samples.
    pub open spec fn determined<T>(self) -> bool where
        I: Fn(Vec<T>) -> (Vec<Vec<T>>, Vec<T>),
        P: Fn(Vec<Vec<T>>, Vec<T>, Vec<T>) -> (Vec<Vec<T>>, Vec<T>),
        F: Fn(Vec<Vec<T>>, Vec<T>) -> Vec<T>,
     {
        &&& forall|v: Vec<T>, w: Vec<T>, r: (Vec<Vec<T>>, Vec<T>), q: (Vec<Vec<T>>, Vec<T>)|
            v@ == w@ && #[trigger] self.initialize.ensures((v,), r)
                && #[trigger] self.initialize.ensures((w,), q) ==> same_blocks(r, q)
        &&& forall|
            s: Vec<Vec<T>>,
            d: Vec<T>,
            v: Vec<T>,
            r: (Vec<Vec<T>>, Vec<T>),
            z: Vec<Vec<T>>,
            e: Vec<T>,
            w: Vec<T>,
            q: (Vec<Vec<T>>, Vec<T>),
        |
            planes_of(s@) == planes_of(z@) && d@ == e@ && v@ == w@
                && #[trigger] self.apply.ensures((s, d, v), r)
                && #[trigger] self.apply.ensures((z, e, w), q) ==> same_blocks(r, q)
        &&& forall|
            s: Vec<Vec<T>>,
            d: Vec<T>,
            out: Vec<T>,
            z: Vec<Vec<T>>,
            e: Vec<T>,
            other: Vec<T>,
        |
            planes_of(s@) == planes_of(z@) && d@ == e@
                && #[trigger] self.finalize.ensures((s, d), out)
                && #[trigger] self.finalize.ensures((z, e), other) ==> out@ == other@
    }
}

/// The same state and the same results.
pub open spec fn same_blocks<T>(
    r: (Vec<Vec<T>>, Vec<T>),
    q: (Vec<Vec<T>>, Vec<T>),
) -> bool {
    planes_of(r.0@) == planes_of(q.0@) && r.1@ == q.1@
}

/// What a determined combiner makes of a block depends on the block alone on the
/// first octave, and on the block and the buffers on a further one.
proof fn lemma_block_determined<T, I, P, F>(
    c: Combiner<I, P, F>,
    pass: Pass,
    layout: Layout,
    w: Write<T>,
    before: (Seq<T>, Seq<T>),
    other: (Seq<T>, Seq<T>),
    r: (Vec<Vec<T>>, Vec<T>),
    out: Vec<T>,
    q: (Vec<Vec<T>>, Vec<T>),
    made: Vec<T>,
) where
    I: Fn(Vec<T>) -> (Vec<Vec<T>>, Vec<T>),
    P: Fn(Vec<Vec<T>>, Vec<T>, Vec<T>) -> (Vec<Vec<T>>, Vec<T>),
    F: Fn(Vec<Vec<T>>, Vec<T>) -> Vec<T>,

    requires
        c.determined::<T>(),
        pass.init || before == other,
        entered(c, pass, layout, w, before.0, before.1, r),
        finished(c, pass, r, out),
        entered(c, pass, layout, w, other.0, other.1, q),
        finished(c, pass, q, made),
    ensures
        same_blocks(r, q),
        out@ == made@,
{
    if pass.last {
        assert(c.finalize.ensures((r.0, r.1), out));
        assert(c.finalize.ensures((q.0, q.1), made));
    }
}

/// Two runs of the same blocks through a determined combiner, from equal
/// buffers, leave equal buffers.
pub proof fn law_equal_runs_leave_equal_buffers<T, I, P, F>(
    c: Combiner<I, P, F>,
    pass: Pass,
    layout: Layout,
    writes: Seq<Write<T>>,
    before: (Seq<T>, Seq<T>),
    after: (Seq<T>, Seq<T>),
    other: (Seq<T>, Seq<T>),
) where
    I: Fn(Vec<T>) -> (Vec<Vec<T>>, Vec<T>),
    P: Fn(Vec<Vec<T>>, Vec<T>, Vec<T>) -> (Vec<Vec<T>>, Vec<T>),
    F: Fn(Vec<Vec<T>>, Vec<T>) -> Vec<T>,

    requires
        c.determined::<T>(),
        applied(c, pass, layout, writes, before, after),
        applied(c, pass, layout, writes, before, other),
    ensures
        after == other,
    decreases writes.len(),
{
    if writes.len() > 0 {
        let w = writes.last();
        let mid = choose|mid: (Seq<T>, Seq<T>)|
            applied(c, pass, layout, writes.drop_last(), before, mid) && #[trigger] combined(
                c,
                pass,
                layout,
                w,
                mid,
                after,
            );
        let mid2 = choose|mid: (Seq<T>, Seq<T>)|
            applied(c, pass, layout, writes.drop_last(), before, mid) && #[trigger] combined(
                c,
                pass,
                layout,
                w,
                mid,
                other,
            );
        law_equal_runs_leave_equal_buffers(
            c,
            pass,
            layout,
            writes.drop_last(),
            before,
            mid,
            mid2,
        );
        let (r, out) = lemma_combined_steps(c, pass, layout, w, mid, after);
        let (q, made) = lemma_combined_steps(c, pass, layout, w, mid, other);
        lemma_block_determined(c, pass, layout, w, mid, mid, r, out, q, made);
    }
}

/// The two steps by which a block was combined.
proof fn lemma_combined_steps<T, I, P, F>(
    c: Combiner<I, P, F>,
    pass: Pass,
    layout: Layout,
    w: Write<T>,
    before: (Seq<T>, Seq<T>),
    after: (Seq<T>, Seq<T>),
) -> (found: ((Vec<Vec<T>>, Vec<T>), Vec<T>)) where
    I: Fn(Vec<T>) -> (Vec<Vec<T>>, Vec<T>),
    P: Fn(Vec<Vec<T>>, Vec<T>, Vec<T>) -> (Vec<Vec<T>>, Vec<T>),
    F: Fn(Vec<Vec<T>>, Vec<T>) -> Vec<T>,

    requires
        combined(c, pass, layout, w, before, after),
    ensures
        entered(c, pass, layout, w, before.0, before.1, found.0),
        finished(c, pass, found.0, found.1),
        after.0 == (if pass.last {
            before.0
        } else {
            stored(before.0, layout, w.start, planes_of(found.0.0@), layout.state_size as int)
        }),
        after.1 == spliced(before.1, w.start, found.1@),
{
    choose|r: (Vec<Vec<T>>, Vec<T>), out: Vec<T>|
        {
            &&& #[trigger] entered(c, pass, layout, w, before.0, before.1, r)
            &&& #[trigger] finished(c, pass, r, out)
            &&& after.0 == (if pass.last {
                before.0
            } else {
                stored(before.0, layout, w.start, planes_of(r.0@), layout.state_size as int)
            })
            &&& after.1 == spliced(before.1, w.start, out@)
        }
}

/// The first octave forgets the buffers: two runs of the same blocks through a
/// determined combiner leave the same in every sample that some block goes
/// over, whatever the buffers held before.
pub proof fn law_first_octave_forgets_buffers<T, I, P, F>(
    c: Combiner<I, P, F>,
    pass: Pass,
    layout: Layout,
    lanes: int,
    writes: Seq<Write<T>>,
    before: (Seq<T>, Seq<T>),
    after: (Seq<T>, Seq<T>),
    other_before: (Seq<T>, Seq<T>),
    other_after: (Seq<T>, Seq<T>),
    n: int,
) where
    I: Fn(Vec<T>) -> (Vec<Vec<T>>, Vec<T>),
    P: Fn(Vec<Vec<T>>, Vec<T>, Vec<T>) -> (Vec<Vec<T>>, Vec<T>),
    F: Fn(Vec<Vec<T>>, Vec<T>) -> Vec<T>,

    requires
        pass.init,
        c.determined::<T>(),
        combines_upto::<T, I, P, F>(c, layout.state_size as int, lanes),
        all_fit(layout, lanes, writes),
        layout.total_size <= before.1.len(),
        layout.total_size * layout.state_size <= before.0.len(),
        layout.total_size <= other_before.1.len(),
        layout.total_size * layout.state_size <= other_before.0.len(),
        applied(c, pass, layout, writes, before, after),
        applied(c, pass, layout, writes, other_before, other_after),
        0 <= n < layout.total_size,
        cover_count(writes, n) >= 1,
    ensures
        after.1[n] == other_after.1[n],
        !pass.last ==> forall|i: int|
            0 <= i < layout.state_size ==> #[trigger] plane_at(after.0, layout, i, n) == plane_at(
                other_after.0,
                layout,
                i,
                n,
            ),
    decreases writes.len(),
{
    let shorter = writes.drop_last();
    let w = writes.last();
    let mid = choose|mid: (Seq<T>, Seq<T>)|
        applied(c, pass, layout, shorter, before, mid) && #[trigger] combined(
            c,
            pass,
            layout,
            w,
            mid,
            after,
        );
    let other_mid = choose|mid: (Seq<T>, Seq<T>)|
        applied(c, pass, layout, shorter, other_before, mid) && #[trigger] combined(
            c,
            pass,
            layout,
            w,
            mid,
            other_after,
        );
    lemma_fit_shorter(layout, lanes, writes);
    lemma_applied_len(c, pass, layout, shorter, before, mid);
    lemma_applied_len(c, pass, layout, shorter, other_before, other_mid);
    assert(combines::<T, I, P, F>(c, layout.state_size as int, w.value.len() as int));
    if covers(w, n) {
        let (r, out) = lemma_combined_steps(c, pass, layout, w, mid, after);
        let (q, made) = lemma_combined_steps(c, pass, layout, w, other_mid, other_after);
        lemma_block_determined(c, pass, layout, w, mid, other_mid, r, out, q, made);
        lemma_entry_shape(c, pass, layout, w, mid.0, mid.1, r);
        let planes = planes_of(r.0@);
        let count = layout.state_size as int;
        let len = w.value.len() as int;
        assert(out@.len() == len);
        assert(after.1[n] == out@[n - w.start]);
        assert(other_after.1[n] == out@[n - w.start]);
        if !pass.last {
            assert forall|i: int| 0 <= i < count implies #[trigger] plane_at(
                after.0,
                layout,
                i,
                n,
            ) == plane_at(other_after.0, layout, i, n) by {
                lemma_stored_at(mid.0, layout, w.start, planes, len, count, i, n);
                lemma_stored_at(other_mid.0, layout, w.start, planes, len, count, i, n);
            }
        }
    } else {
        law_first_octave_forgets_buffers(
            c,
            pass,
            layout,
            lanes,
            shorter,
            before,
            mid,
            other_before,
            other_mid,
            n,
        );
        law_block_keeps_other_samples(c, pass, layout, w, mid, after);
        law_block_keeps_other_samples(c, pass, layout, w, other_mid, other_after);
    }
}

/// Where every sample of the output is written, the first octave leaves the same
/// output, and the same state where it is kept, whatever the buffers held
/// before. On an octave that is the last one as well, the state stays as it was.
pub proof fn law_filled_output_forgets_buffers<T, I, P, F>(
    sink: Sink<I, P, F>,
    lanes: int,
    writes: Seq<Write<T>>,
    before: (Seq<T>, Seq<T>),
    after: (Seq<T>, Seq<T>),
    other_before: (Seq<T>, Seq<T>),
    other_after: (Seq<T>, Seq<T>),
) where
    I: Fn(Vec<T>) -> (Vec<Vec<T>>, Vec<T>),
    P: Fn(Vec<Vec<T>>, Vec<T>, Vec<T>) -> (Vec<Vec<T>>, Vec<T>),
    F: Fn(Vec<Vec<T>>, Vec<T>) -> Vec<T>,

    requires
        sink.pass.init,
        sink.combiner.determined::<T>(),
        sink.wf::<T>(lanes, before.0.len() as int, before.1.len() as int),
        sink.wf::<T>(lanes, other_before.0.len() as int, other_before.1.len() as int),
        all_fit(sink.layout, lanes, writes),
        forall|n: int|
            0 <= n < sink.layout.total_size ==> #[trigger] cover_count(writes, n) >= 1,
        sink.takes(writes, before, after),
        sink.takes(writes, other_before, other_after),
    ensures
        sink.leaves_alike(before, after, other_before, other_after),
{
    let c = *sink.combiner;
    if sink.pass.last {
        law_last_octave_keeps_state(c, sink.pass, sink.layout, writes, before, after);
        law_last_octave_keeps_state(
            c,
            sink.pass,
            sink.layout,
            writes,
            other_before,
            other_after,
        );
    }
    assert forall|n: int| 0 <= n < sink.layout.total_size implies #[trigger] after.1[n]
        == other_after.1[n] by {
        assert(cover_count(writes, n) >= 1);
        law_first_octave_forgets_buffers(
            c,
            sink.pass,
            sink.layout,
            lanes,
            writes,
            before,
            after,
            other_before,
            other_after,
            n,
        );
    }
    if !sink.pass.last {
        assert forall|i: int, n: int|
            0 <= i < sink.layout.state_size && 0 <= n
                < sink.layout.total_size implies #[trigger] plane_at(after.0, sink.layout, i, n)
            == plane_at(other_after.0, sink.layout, i, n) by {
            assert(cover_count(writes, n) >= 1);
            law_first_octave_forgets_buffers(
                c,
                sink.pass,
                sink.layout,
                lanes,
                writes,
                before,
                after,
                other_before,
                other_after,
                n,
            );
        }
    }
}

/// Combining blocks keeps the length of the buffers.
proof fn lemma_applied_len<T, I, P, F>(
    c: Combiner<I, P, F>,
    pass: Pass,
    layout: Layout,
    writes: Seq<Write<T>>,
    before: (Seq<T>, Seq<T>),
    after: (Seq<T>, Seq<T>),
) where
    I: Fn(Vec<T>) -> (Vec<Vec<T>>, Vec<T>),
    P: Fn(Vec<Vec<T>>, Vec<T>, Vec<T>) -> (Vec<Vec<T>>, Vec<T>),
    F: Fn(Vec<Vec<T>>, Vec<T>) -> Vec<T>,

    requires
        applied(c, pass, layout, writes, before, after),
    ensures
        after.0.len() == before.0.len(),
        after.1.len() == before.1.len(),
    decreases writes.len(),
{
    if writes.len() > 0 {
        let w = writes.last();
        let mid = choose|mid: (Seq<T>, Seq<T>)|
            applied(c, pass, layout, writes.drop_last(), before, mid) && #[trigger] combined(
                c,
                pass,
                layout,
                w,
                mid,
                after,
            );
        lemma_applied_len(c, pass, layout, writes.drop_last(), before, mid);
        let (r, out) = lemma_combined_steps(c, pass, layout, w, mid, after);
        lemma_stored_len(mid.0, layout, w.start, planes_of(r.0@), layout.state_size as int);
    }
}

/// Where values go: through a combiner, on one octave, into an output of a
/// given layout.
pub struct Sink<'a, I, P, F> {
    pub combiner: &'a Combiner<I, P, F>,
    pub pass: Pass,
    pub layout: Layout,
}

impl<'a, I, P, F> Sink<'a, I, P, F> {
    /// The combiner works on blocks of at most `lanes` samples, and the buffers
    /// are as long as the layout says.
    pub open spec fn wf<T>(self, lanes: int, state: int, dst: int) -> bool where
        I: Fn(Vec<T>) -> (Vec<Vec<T>>, Vec<T>),
        P: Fn(Vec<Vec<T>>, Vec<T>, Vec<T>) -> (Vec<Vec<T>>, Vec<T>),
        F: Fn(Vec<Vec<T>>, Vec<T>) -> Vec<T>,
     {
        &&& combines_upto::<T, I, P, F>(*self.combiner, self.layout.state_size as int, lanes)
        &&& self.layout.total_size <= dst
        &&& self.layout.total_size * self.layout.state_size <= state
    }

    /// Two runs leave the same in every sample of the output, and the same state
    /// before the last octave; on the last octave each run leaves its state as
    /// it was.
    pub open spec fn leaves_alike<T>(
        self,
        before: (Seq<T>, Seq<T>),
        after: (Seq<T>, Seq<T>),
        other_before: (Seq<T>, Seq<T>),
        other_after: (Seq<T>, Seq<T>),
    ) -> bool {
        &&& forall|n: int|
            0 <= n < self.layout.total_size ==> #[trigger] after.1[n] == other_after.1[n]
        &&& !self.pass.last ==> forall|i: int, n: int|
            0 <= i < self.layout.state_size && 0 <= n < self.layout.total_size
                ==> #[trigger] plane_at(after.0, self.layout, i, n) == plane_at(
                other_after.0,
                self.layout,
                i,
                n,
            )
        &&& self.pass.last ==> after.0 == before.0 && other_after.0 == other_before.0
    }

    /// What a sequence of blocks does to the buffers.
    pub open spec fn takes<T>(
        self,
        writes: Seq<Write<T>>,
        before: (Seq<T>, Seq<T>),
        after: (Seq<T>, Seq<T>),
    ) -> bool where
        I: Fn(Vec<T>) -> (Vec<Vec<T>>, Vec<T>),
        P: Fn(Vec<Vec<T>>, Vec<T>, Vec<T>) -> (Vec<Vec<T>>, Vec<T>),
        F: Fn(Vec<Vec<T>>, Vec<T>) -> Vec<T>,
     {
        applied(*self.combiner, self.pass, self.layout, writes, before, after)
    }
}

/// Reads the block of `len` samples at `start` from each state plane.
pub fn load_state<T: Copy>(state: &Vec<T>, layout: Layout, start: usize, len: usize) -> (r: Vec<
    Vec<T>,
>)
    requires
        start + len <= layout.total_size,
        layout.total_size * layout.state_size <= state.len(),
    ensures
        planes_of(r@) == loaded(state@, layout, start as int, len as int),
        block_state(r@, layout.state_size as int, len as int),
{
    let mut r: Vec<Vec<T>> = Vec::new();
    let mut i: usize = 0;
    while i < layout.state_size
        invariant
            i <= layout.state_size,
            start + len <= layout.total_size,
            layout.total_size * layout.state_size <= state.len(),
            r.len() == i,
            forall|j: int|
                0 <= j < i ==> (#[trigger] r[j])@ == loaded(
                    state@,
                    layout,
                    start as int,
                    len as int,
                )[j],
            block_state(r@, i as int, len as int),
        decreases layout.state_size - i,
    {
        proof {
            lemma_plane_fits(layout, i as int, start as int, len as int);
        }
        let offset: usize = i * layout.total_size;
        r.push(load(state, start + offset, len));
        i = i + 1;
    }
    assert(planes_of(r@) =~= loaded(state@, layout, start as int, len as int));
    r
}

/// Plane `i` ends before the state does.
proof fn lemma_plane_fits(layout: Layout, i: int, start: int, len: int)
    requires
        0 <= i < layout.state_size,
        0 <= start,
        0 <= len,
        start + len <= layout.total_size,
    ensures
        0 <= i * layout.total_size,
        i * layout.total_size + start + len <= layout.total_size * layout.state_size,
{
    let t = layout.total_size as int;
    let n = layout.state_size as int;
    assert(0 <= i * t && i * t + t <= t * n) by (nonlinear_arith)
        requires
            0 <= i < n,
            0 <= t,
    ;
}

/// Reads the `len` values at `start`.
pub fn load<T: Copy>(buffer: &Vec<T>, start: usize, len: usize) -> (r: Vec<T>)
    requires
        start + len <= buffer.len(),
    ensures
        r@ == buffer@.subrange(start as int, start + len),
{
    let mut r: Vec<T> = Vec::new();
    let mut k: usize = 0;
    while k < len
        invariant
            k <= len,
            start + len <= buffer.len(),
            r@ == buffer@.subrange(start as int, start + k),
        decreases len - k,
    {
        r.push(buffer[start + k]);
        k = k + 1;
    }
    r
}

/// Replaces the values at `start` by those of the block.
pub fn store<T: Copy>(buffer: &mut Vec<T>, start: usize, block: &Vec<T>)
    requires
        start + block.len() <= old(buffer).len(),
    ensures
        final(buffer)@ == spliced(old(buffer)@, start as int, block@),
{
    let ghost before = buffer@;
    let mut k: usize = 0;
    while k < block.len()
        invariant
            k <= block.len(),
            start + block.len() <= before.len(),
            buffer.len() == before.len(),
            forall|n: int|
                0 <= n < before.len() ==> #[trigger] buffer[n] == (if start <= n < start + k {
                    block[n - start]
                } else {
                    before[n]
                }),
        decreases block.len() - k,
    {
        buffer.set(start + k, block[k]);
        k = k + 1;
    }
    assert(buffer@ =~= spliced(before, start as int, block@));
}

/// Writes one block into each state plane.
pub fn store_state<T: Copy>(state: &mut Vec<T>, layout: Layout, start: usize, planes: &Vec<Vec<T>>)
    requires
        exists|len: int|
            #[trigger] block_state(planes@, layout.state_size as int, len) && start + len
                <= layout.total_size,
        layout.total_size * layout.state_size <= old(state).len(),
    ensures
        final(state)@ == stored(
            old(state)@,
            layout,
            start as int,
            planes_of(planes@),
            layout.state_size as int,
        ),
        final(state).len() == old(state).len(),
{
    let ghost before = state@;
    let ghost len = choose|len: int|
        #[trigger] block_state(planes@, layout.state_size as int, len) && start + len
            <= layout.total_size;
    let mut i: usize = 0;
    while i < layout.state_size
        invariant
            i <= layout.state_size,
            block_state(planes@, layout.state_size as int, len),
            start + len <= layout.total_size,
            layout.total_size * layout.state_size <= state.len(),
            state.len() == before.len(),
            state@ == stored(before, layout, start as int, planes_of(planes@), i as int),
        decreases layout.state_size - i,
    {
        assert(planes[i as int]@.len() == len);
        proof {
            lemma_plane_fits(layout, i as int, start as int, len);
        }
        let offset: usize = i * layout.total_size;
        store(state, start + offset, &planes[i]);
        i = i + 1;
    }
}

/// Combines one block of values into the output, and into the state on every
/// octave but the last.
pub fn fill_block<T: Copy, I, P, F>(
    c: &Combiner<I, P, F>,
    pass: Pass,
    layout: Layout,
    start: usize,
    value: Vec<T>,
    state: &mut Vec<T>,
    dst: &mut Vec<T>,
) where
    I: Fn(Vec<T>) -> (Vec<Vec<T>>, Vec<T>),
    P: Fn(Vec<Vec<T>>, Vec<T>, Vec<T>) -> (Vec<Vec<T>>, Vec<T>),
    F: Fn(Vec<Vec<T>>, Vec<T>) -> Vec<T>,

    requires
        combines::<T, I, P, F>(*c, layout.state_size as int, value.len() as int),
        start + value.len() <= layout.total_size,
        layout.total_size <= old(dst).len(),
        layout.total_size * layout.state_size <= old(state).len(),
    ensures
        combined(
            *c,
            pass,
            layout,
            (Write { start: start as int, value: value@ }),
            (old(state)@, old(dst)@),
            (final(state)@, final(dst)@),
        ),
        final(state).len() == old(state).len(),
        final(dst).len() == old(dst).len(),
{
    let ghost w = Write { start: start as int, value: value@ };
    let ghost before = (state@, dst@);
    let len: usize = value.len();
    let r = if pass.init {
        let initialize = &c.initialize;
        initialize(value)
    } else {
        let cur_state = load_state(state, layout, start, len);
        let cur_result = load(dst, start, len);
        let apply = &c.apply;
        apply(cur_state, cur_result, value)
    };
    let ghost entry = r;
    assert(entered(*c, pass, layout, w, before.0, before.1, entry));
    assert(block_state(r.0@, layout.state_size as int, len as int));
    let out = if pass.last {
        let finalize = &c.finalize;
        let (s, d) = r;
        finalize(s, d)
    } else {
        store_state(state, layout, start, &r.0);
        r.1
    };
    assert(finished(*c, pass, entry, out));
    store(dst, start, &out);
    assert(combined(*c, pass, layout, w, before, (state@, dst@)));
}

} // verus!

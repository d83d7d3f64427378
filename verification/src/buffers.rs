//! Buffers of a given length.

use crate::combine;
use vstd::arithmetic::div_mod::*;
use vstd::prelude::*;

verus! {

/// A buffer of `size` times the same value.
pub fn filled<T: Copy>(value: T, size: usize) -> (r: Vec<T>)
    ensures
        r@ == Seq::new(size as nat, |i: int| value),
{
    let mut r: Vec<T> = Vec::new();
    let mut k: usize = 0;
    while k < size
        invariant
            k <= size,
            r@ == Seq::new(k as nat, |i: int| value),
        decreases size - k,
    {
        r.push(value);
        k = k + 1;
    }
    r
}

/// One component of the table entries that a row of numbers names.
pub fn pick_component<T: Copy, const C: usize, const N: usize>(
    numbers: &Vec<u32>,
    table: &[[T; C]; N],
    c: usize,
) -> (r: Vec<T>)
    requires
        c < C,
        forall|i: int| 0 <= i < numbers.len() ==> numbers[i] < N,
    ensures
        r.len() == numbers.len(),
        forall|i: int| 0 <= i < r.len() ==> #[trigger] r[i] == table[numbers[i] as int][c as int],
{
    let mut r: Vec<T> = Vec::new();
    let mut i: usize = 0;
    while i < numbers.len()
        invariant
            i <= numbers.len(),
            c < C,
            forall|i: int| 0 <= i < numbers.len() ==> numbers[i] < N,
            r.len() == i,
            forall|j: int|
                0 <= j < i ==> #[trigger] r[j] == table[numbers[j] as int][c as int],
        decreases numbers.len() - i,
    {
        let entry = table[numbers[i] as usize];
        r.push(entry[c]);
        i = i + 1;
    }
    r
}

/// Two buffers hold the same in their first `n` samples.
pub open spec fn same_on<T>(a: Seq<T>, b: Seq<T>, n: int) -> bool {
    forall|s: int| 0 <= s < n ==> #[trigger] a[s] == b[s]
}

/// Two groups of buffers hold the same in their first `n` samples.
pub open spec fn all_same_on<T, const N: usize>(a: [Vec<T>; N], b: [Vec<T>; N], n: int) -> bool {
    forall|c: int| 0 <= c < N ==> same_on((#[trigger] a[c])@, b[c]@, n)
}

/// A piece stands in a buffer at `x`.
pub open spec fn holds_at<T>(buffer: Seq<T>, x: int, piece: Seq<T>) -> bool {
    &&& 0 <= x
    &&& x + piece.len() <= buffer.len()
    &&& buffer.subrange(x, x + piece.len()) == piece
}

/// A piece that was put into a buffer stands there.
pub(crate) proof fn lemma_spliced_holds<T>(buffer: Seq<T>, x: int, piece: Seq<T>)
    requires
        0 <= x,
        x + piece.len() <= buffer.len(),
    ensures
        holds_at(combine::spliced(buffer, x, piece), x, piece),
{
    let after = combine::spliced(buffer, x, piece);
    assert(after.subrange(x, x + piece.len()) =~= piece);
}

/// A piece that is put behind another leaves it as it is.
pub(crate) proof fn lemma_spliced_keeps<T>(
    buffer: Seq<T>,
    x: int,
    piece: Seq<T>,
    before: int,
    other: Seq<T>,
)
    requires
        holds_at(buffer, before, other),
        before + other.len() <= x,
    ensures
        holds_at(combine::spliced(buffer, x, piece), before, other),
{
    let after = combine::spliced(buffer, x, piece);
    assert(after.subrange(before, before + other.len()) =~= buffer.subrange(
        before,
        before + other.len(),
    ));
}

/// Two buffers that hold the same piece hold the same in its samples.
pub(crate) proof fn lemma_held_alike<T>(a: Seq<T>, b: Seq<T>, x: int, piece: Seq<T>, s: int)
    requires
        holds_at(a, x, piece),
        holds_at(b, x, piece),
        x <= s < x + piece.len(),
    ensures
        a[s] == b[s],
{
    assert(a.subrange(x, x + piece.len())[s - x] == a[s]);
    assert(b.subrange(x, x + piece.len())[s - x] == b[s]);
}

/// The register that holds column `s` of a row.
pub(crate) proof fn lemma_register_of(s: int, lanes: int, width: int) -> (x: int)
    requires
        lanes > 0,
        0 <= s < width,
    ensures
        0 <= x <= s < x + register_size(x, lanes, width),
        x % lanes == 0,
{
    lemma_fundamental_div_mod(s, lanes);
    lemma_mod_bound(s, lanes);
    lemma_div_pos_is_pos(s, lanes);
    let q = s / lanes;
    let x = q * lanes;
    assert(x == lanes * q && 0 <= x) by (nonlinear_arith)
        requires
            x == q * lanes,
            0 <= q,
            0 < lanes,
    ;
    lemma_fundamental_div_mod_converse(x, lanes, q, 0);
    x
}

/// Where the next register of a row starts, or where the row ends.
pub(crate) fn next_register(x: usize, lanes: usize, width: usize) -> (next: usize)
    requires
        lanes > 0,
        x < width,
        x % lanes == 0,
    ensures
        next == x + register_size(x as int, lanes as int, width as int),
        x < next <= width,
        next < width ==> next % lanes == 0,
        forall|other: int|
            x < other < next ==> #[trigger] (other % (lanes as int)) != 0,
{
    let next: usize = if width - x > lanes {
        x + lanes
    } else {
        width
    };
    proof {
        let l = lanes as int;
        lemma_fundamental_div_mod(x as int, l);
        let q = x as int / l;
        assert(q * l == l * q && (q + 1) * l == l * q + l) by (nonlinear_arith);
        lemma_fundamental_div_mod_converse(x + l, l, q + 1, 0);
        assert forall|other: int| x < other < next implies #[trigger] (other % l) != 0 by {
            assert(other == q * l + (other - x));
            lemma_fundamental_div_mod_converse(other, l, q, other - x);
        }
    }
    next
}

/// Registers that start at different columns do not meet.
pub(crate) proof fn lemma_registers_apart(a: int, b: int, lanes: int)
    requires
        lanes > 0,
        a < b,
        a % lanes == 0,
        b % lanes == 0,
    ensures
        a + lanes <= b,
{
    lemma_fundamental_div_mod(a, lanes);
    lemma_fundamental_div_mod(b, lanes);
    let p = a / lanes;
    let q = b / lanes;
    assert(p + 1 <= q) by (nonlinear_arith)
        requires
            lanes * p < lanes * q,
            lanes > 0,
    ;
    assert(lanes * (p + 1) <= lanes * q) by (nonlinear_arith)
        requires
            p + 1 <= q,
            lanes > 0,
    ;
    assert(lanes * (p + 1) == lanes * p + lanes) by (nonlinear_arith);
}

/// The number of samples in the register at `x` of a row.
pub open spec fn register_size(x: int, lanes: int, width: int) -> int {
    if width - x > lanes {
        lanes
    } else {
        width - x
    }
}

} // verus!

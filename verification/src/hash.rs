//! The lattice hash.
//!
//! A lattice coordinate is any integer. It is multiplied by the seed modulo
//! 2^32, its bytes are shuffled and an odd constant is mixed in: that is the
//! hash of the coordinate along one axis. The generators combine the hashes of
//! the axes by multiplication, each in its own way.

use crate::lanes;
use crate::lanes::U32x8;
use vstd::arithmetic::div_mod::*;
use vstd::arithmetic::power2::*;
use vstd::prelude::*;

verus! {

/// Odd constant mixed into every shuffled coordinate.
pub const PRIME: u32 = 0x85eb_ca6b;

/// Byte order in which the lanes of a register are shuffled.
pub const BYTE_SHUFFLE: [u8; 64] = [
    3, 0, 2, 1, 7, 4, 6, 5, 11, 8, 10, 9, 15, 12, 14, 13,
    3, 0, 2, 1, 7, 4, 6, 5, 11, 8, 10, 9, 15, 12, 14, 13,
    3, 0, 2, 1, 7, 4, 6, 5, 11, 8, 10, 9, 15, 12, 14, 13,
    3, 0, 2, 1, 7, 4, 6, 5, 11, 8, 10, 9, 15, 12, 14, 13,
];

/// A word with its bytes `b3 b2 b1 b0` reordered to `b1 b2 b0 b3`.
pub open spec fn shuffled(x: u32) -> u32 {
    (x >> 24) | ((x & 0xff) << 8) | (x & 0x00ff_0000) | ((x & 0xff00) << 16)
}

/// The hash of a word that already carries the seed.
pub open spec fn word_hash(word: u32) -> u32 {
    shuffled(word) ^ PRIME
}

/// A lattice coordinate multiplied by the seed, modulo 2^32.
pub open spec fn seeded(c: int, seed: u32) -> u32 {
    ((c * seed as int) % 0x1_0000_0000) as u32
}

/// The hash of a lattice coordinate along one axis.
pub open spec fn axis_hash(c: int, seed: u32) -> u32 {
    word_hash(seeded(c, seed))
}

/// The product of two axis hashes, folded once more with the first.
pub open spec fn folded(x_hash: u32, y_hash: u32) -> u32 {
    x_hash.wrapping_mul(y_hash) ^ x_hash
}

/// The hash of the lattice vertex `(x, y)`.
pub open spec fn vertex_hash(x: int, y: int, seed: u32) -> u32 {
    folded(axis_hash(x, seed), axis_hash(y, seed))
}

proof fn lemma_shuffled_by_bytes(x: u32, y: u32)
    by (bit_vector)
    requires
        (y >> 0u32) & 0xff == (x >> 24u32) & 0xff,
        (y >> 8u32) & 0xff == (x >> 0u32) & 0xff,
        (y >> 16u32) & 0xff == (x >> 16u32) & 0xff,
        (y >> 24u32) & 0xff == (x >> 8u32) & 0xff,
    ensures
        y == (x >> 24) | ((x & 0xff) << 8) | (x & 0x00ff_0000) | ((x & 0xff00) << 16),
{
}

/// Reading a signed coordinate as an unsigned word keeps it modulo 2^32.
pub(crate) proof fn lemma_word_of(c: i32)
    ensures
        (c as u32) as int == (c as int) % 0x1_0000_0000,
{
    assert(c >= 0 ==> (c as u32) as int == c as int) by (bit_vector);
    assert(c < 0 ==> (c as u32) as int == c as int + 0x1_0000_0000) by (bit_vector);
}

/// Multiplying a word by the seed seeds every coordinate that the word stands
/// for.
pub(crate) proof fn lemma_seeded_word(word: u32, c: int, seed: u32)
    requires
        word as int == c % 0x1_0000_0000,
    ensures
        word.wrapping_mul(seed) == seeded(c, seed),
{
    lemma_mul_mod_noop_left(c, seed as int, 0x1_0000_0000);
    assert((word as nat * seed as nat) as int == (c % 0x1_0000_0000) * seed as int);
}

/// Seeded coordinates add up modulo 2^32.
pub(crate) proof fn lemma_seeded_sum(c: int, d: int, seed: u32)
    ensures
        seeded(c, seed).wrapping_add(seeded(d, seed)) == seeded(c + d, seed),
{
    let a = c * seed as int;
    let b = d * seed as int;
    assert((c + d) * seed as int == a + b) by (nonlinear_arith)
        requires
            a == c * seed as int,
            b == d * seed as int,
    ;
    lemma_add_mod_noop(a, b, 0x1_0000_0000);
    let s = a % 0x1_0000_0000 + b % 0x1_0000_0000;
    if s >= 0x1_0000_0000 {
        assert(s % 0x1_0000_0000 == s - 0x1_0000_0000);
    } else {
        assert(s % 0x1_0000_0000 == s);
    }
}

/// One step back along an axis takes the seed away once.
pub(crate) proof fn lemma_seeded_back(c: int, seed: u32)
    ensures
        seeded(c, seed).wrapping_sub(seed) == seeded(c - 1, seed),
{
    lemma_seeded_one(seed);
    lemma_seeded_sum(c - 1, 1, seed);
}

/// One step along an axis adds the seed once.
pub(crate) proof fn lemma_seeded_one(seed: u32)
    ensures
        seeded(1, seed) == seed,
{
    assert(1 * seed as int == seed as int);
}

/// Hashes of equal words agree: a coordinate may be moved by 2^32.
pub(crate) proof fn lemma_axis_hash_wraps(c: int, d: int, seed: u32)
    requires
        c % 0x1_0000_0000 == d % 0x1_0000_0000,
    ensures
        axis_hash(c, seed) == axis_hash(d, seed),
{
    lemma_mul_mod_noop_left(c, seed as int, 0x1_0000_0000);
    lemma_mul_mod_noop_left(d, seed as int, 0x1_0000_0000);
}

/// A word and its hash hold the same bytes, apart from the constant: the high
/// byte has moved to the bottom, the low two bytes up, and the third has stayed.
pub proof fn law_word_hash_moves_bytes(word: u32)
    ensures
        (word_hash(word) ^ 0x85eb_ca6b) & 0xff == word >> 24,
        ((word_hash(word) ^ 0x85eb_ca6b) >> 8) & 0xff == word & 0xff,
        ((word_hash(word) ^ 0x85eb_ca6b) >> 16) & 0xff == (word >> 16) & 0xff,
        (word_hash(word) ^ 0x85eb_ca6b) >> 24 == (word >> 8) & 0xff,
{
    let s = shuffled(word);
    let h = word_hash(word);
    assert(h ^ 0x85eb_ca6b == s) by (bit_vector)
        requires
            h == s ^ 0x85eb_ca6b,
    ;
    assert(s & 0xff == word >> 24 && (s >> 8) & 0xff == word & 0xff && (s >> 16) & 0xff == (word
        >> 16) & 0xff && s >> 24 == (word >> 8) & 0xff) by (bit_vector)
        requires
            s == (word >> 24) | ((word & 0xff) << 8) | (word & 0x00ff_0000) | ((word & 0xff00)
                << 16),
    ;
}

/// Different words have different hashes.
pub proof fn law_word_hash_keeps_words_apart(a: u32, b: u32)
    ensures
        word_hash(a) == word_hash(b) <==> a == b,
{
    law_word_hash_moves_bytes(a);
    law_word_hash_moves_bytes(b);
    if word_hash(a) == word_hash(b) {
        assert(a == b) by (bit_vector)
            requires
                a >> 24 == b >> 24,
                a & 0xff == b & 0xff,
                (a >> 16) & 0xff == (b >> 16) & 0xff,
                (a >> 8) & 0xff == (b >> 8) & 0xff,
        ;
    }
}

/// The hashes along an axis begin at the hash of zero and step by the seed:
/// whatever word hashes to the hash of a coordinate, that word and the seed
/// together hash to the hash of the next coordinate, and that word less the
/// seed to the hash of the one before.
pub proof fn law_axis_hash_steps_by_the_seed(c: int, seed: u32, word: u32)
    ensures
        axis_hash(0, seed) == 0x85eb_ca6b,
        word_hash(word) == axis_hash(c, seed) <==> word_hash(word.wrapping_add(seed)) == axis_hash(
            c + 1,
            seed,
        ),
        word_hash(word) == axis_hash(c, seed) <==> word_hash(word.wrapping_sub(seed)) == axis_hash(
            c - 1,
            seed,
        ),
{
    assert(0 * seed as int == 0);
    law_word_hash_moves_bytes(0);
    let z = word_hash(0);
    assert(z == 0x85eb_ca6b) by (bit_vector)
        requires
            z == ((0u32 >> 24) | ((0u32 & 0xff) << 8) | (0u32 & 0x00ff_0000) | ((0u32 & 0xff00)
                << 16)) ^ 0x85eb_ca6b,
    ;
    lemma_seeded_one(seed);
    lemma_seeded_sum(c, 1, seed);
    lemma_seeded_back(c, seed);
    law_word_hash_keeps_words_apart(word, seeded(c, seed));
    law_word_hash_keeps_words_apart(word.wrapping_add(seed), seeded(c + 1, seed));
    law_word_hash_keeps_words_apart(word.wrapping_sub(seed), seeded(c - 1, seed));
}

/// Coordinates that many steps of 2^32 apart, on either side of zero, have the
/// same hash.
pub proof fn law_axis_hash_wraps(c: int, turns: int, seed: u32)
    ensures
        axis_hash(c + turns * 0x1_0000_0000, seed) == axis_hash(c, seed),
{
    lemma_mod_multiples_vanish(turns, c, 0x1_0000_0000);
    assert(0x1_0000_0000 * turns + c == c + turns * 0x1_0000_0000);
    lemma_axis_hash_wraps(c + turns * 0x1_0000_0000, c, seed);
}

/// A product with an odd number is a multiple of a power of two only if the
/// other factor is.
proof fn lemma_odd_factor_drops(x: int, odd: int, k: nat)
    requires
        odd % 2 == 1,
        (x * odd) % (pow2(k) as int) == 0,
    ensures
        x % (pow2(k) as int) == 0,
    decreases k,
{
    lemma_pow2_pos(k);
    if k == 0 {
        lemma2_to64();
    } else {
        let p = pow2((k - 1) as nat) as int;
        lemma_pow2_unfold(k);
        lemma_pow2_pos((k - 1) as nat);
        let q = (x * odd) / (2 * p);
        lemma_fundamental_div_mod(x * odd, 2 * p);
        let a = x / 2;
        let b = odd / 2;
        if x % 2 == 1 {
            assert((2 * a + 1) * (2 * b + 1) == 2 * (2 * (a * b) + a + b) + 1)
                by (nonlinear_arith);
            assert(2 * p * q == 2 * (p * q)) by (nonlinear_arith);
            assert(x * odd == (2 * a + 1) * (2 * b + 1));
        }
        assert(x == 2 * a);
        assert(a * odd == p * q) by (nonlinear_arith)
            requires
                (2 * a) * odd == 2 * p * q,
        ;
        lemma_mod_multiples_basic(q, p);
        assert(q * p == p * q) by (nonlinear_arith);
        lemma_odd_factor_drops(a, odd, (k - 1) as nat);
        let r = a / p;
        lemma_fundamental_div_mod(a, p);
        assert(x == r * (2 * p)) by (nonlinear_arith)
            requires
                x == 2 * a,
                a == p * r,
        ;
        lemma_mod_multiples_basic(r, 2 * p);
    }
}

/// Products with the same odd number agree modulo 2^32 only where the other
/// factors do.
proof fn lemma_odd_factor_cancels(x: int, y: int, odd: int)
    requires
        odd % 2 == 1,
        (x * odd) % 0x1_0000_0000 == (y * odd) % 0x1_0000_0000,
    ensures
        x % 0x1_0000_0000 == y % 0x1_0000_0000,
{
    lemma2_to64();
    assert((x - y) * odd == x * odd - y * odd) by (nonlinear_arith);
    lemma_odd_factor_drops(x - y, odd, 32);
}

/// Under an odd seed the hash tells coordinates apart: two coordinates share a
/// hash exactly where they agree modulo 2^32, whatever their signs.
pub proof fn law_axis_hash_tells_coordinates_apart(c: int, d: int, seed: u32)
    requires
        seed % 2 == 1,
    ensures
        axis_hash(c, seed) == axis_hash(d, seed) <==> (c - d) % 0x1_0000_0000 == 0,
{
    law_word_hash_keeps_words_apart(seeded(c, seed), seeded(d, seed));
    if axis_hash(c, seed) == axis_hash(d, seed) {
        lemma_odd_factor_cancels(c, d, seed as int);
    }
    if (c - d) % 0x1_0000_0000 == 0 {
        lemma_axis_hash_wraps(c, d, seed);
    }
}

/// At an odd coordinate, such as 1 or -1, the hash tells seeds apart: every bit
/// of the seed counts.
pub proof fn law_axis_hash_tells_seeds_apart(c: int, seed: u32, other: u32)
    requires
        c % 2 == 1,
    ensures
        axis_hash(c, seed) == axis_hash(c, other) <==> seed == other,
{
    law_word_hash_keeps_words_apart(seeded(c, seed), seeded(c, other));
    if axis_hash(c, seed) == axis_hash(c, other) {
        assert(c * seed as int == seed as int * c) by (nonlinear_arith);
        assert(c * other as int == other as int * c) by (nonlinear_arith);
        lemma_odd_factor_cancels(seed as int, other as int, c);
    }
}

/// Coordinate and seed are one factor each of the same product: to go `m` times
/// as far along an axis is to take `m` times the seed, for negative `m` too.
pub proof fn law_axis_hash_scales(c: int, m: int, seed: u32, scaled: u32)
    requires
        (scaled - m * seed as int) % 0x1_0000_0000 == 0,
    ensures
        axis_hash(m * c, seed) == axis_hash(c, scaled),
{
    let s = seed as int;
    lemma_mul_mod_noop_right(c, scaled as int, 0x1_0000_0000);
    lemma_mul_mod_noop_right(c, m * s, 0x1_0000_0000);
    assert(scaled as int % 0x1_0000_0000 == (m * s) % 0x1_0000_0000);
    assert(c * (m * s) == (m * c) * s) by (nonlinear_arith);
}

/// The hash of a vertex, mixed with the hash of its column once more, is the
/// product of the hashes of its column and its row, modulo 2^32.
pub proof fn law_vertex_hash_holds_the_product(x: int, y: int, seed: u32)
    ensures
        (vertex_hash(x, y, seed) ^ axis_hash(x, seed)) as int == (axis_hash(x, seed) as int
            * axis_hash(y, seed) as int) % 0x1_0000_0000,
{
    let a = axis_hash(x, seed);
    let b = axis_hash(y, seed);
    let p = a.wrapping_mul(b);
    let h = vertex_hash(x, y, seed);
    assert(h ^ a == p) by (bit_vector)
        requires
            h == p ^ a,
    ;
}

/// A vertex is hashed by where it lies modulo 2^32 along each axis, whatever the
/// signs of its coordinates.
pub proof fn law_vertex_hash_wraps(x: int, y: int, x_turns: int, y_turns: int, seed: u32)
    ensures
        vertex_hash(x + x_turns * 0x1_0000_0000, y + y_turns * 0x1_0000_0000, seed)
            == vertex_hash(x, y, seed),
{
    law_axis_hash_wraps(x, x_turns, seed);
    law_axis_hash_wraps(y, y_turns, seed);
}

/// To go `m` times as far along both axes is to take `m` times the seed.
pub proof fn law_vertex_hash_scales(x: int, y: int, m: int, seed: u32, scaled: u32)
    requires
        (scaled - m * seed as int) % 0x1_0000_0000 == 0,
    ensures
        vertex_hash(m * x, m * y, seed) == vertex_hash(x, y, scaled),
{
    law_axis_hash_scales(x, m, seed, scaled);
    law_axis_hash_scales(y, m, seed, scaled);
}

/// Wrapping products and sums are products and sums modulo 2^32.
pub(crate) proof fn lemma_wrapping(a: u32, b: u32, c: u32)
    ensures
        a.wrapping_mul(b) as int == (a as int * b as int) % 0x1_0000_0000,
        a.wrapping_mul(b).wrapping_mul(c) as int == (a as int * b as int * c as int)
            % 0x1_0000_0000,
        a.wrapping_mul(b).wrapping_add(c) as int == (a as int * b as int + c as int)
            % 0x1_0000_0000,
{
    let m = a as int * b as int;
    let w = a.wrapping_mul(b);
    assert(a as nat * b as nat == m);
    assert(w as int == m % 0x1_0000_0000);
    assert(w as nat * c as nat == w as int * c as int);
    lemma_mul_mod_noop_left(m, c as int, 0x1_0000_0000);
    lemma_add_mod_noop(m, c as int, 0x1_0000_0000);
    let sum = w as int + c as int;
    if sum >= 0x1_0000_0000 {
        assert(sum % 0x1_0000_0000 == sum - 0x1_0000_0000);
    } else {
        assert(sum % 0x1_0000_0000 == sum);
    }
}

/// The low 23 bits of a word, under the bits of the number two, are what the word
/// leaves modulo 2^23, added to them.
pub(crate) proof fn lemma_mantissa(word: u32, n: int)
    requires
        word as int == n % 0x1_0000_0000,
    ensures
        ((word & 0x007f_ffff) | 0x4000_0000) as int == n % 0x80_0000 + 0x4000_0000,
{
    assert(((word & 0x007f_ffff) | 0x4000_0000) as int == word as int % 0x80_0000 + 0x4000_0000)
        by (bit_vector);
    lemma_mod_mod(n, 0x80_0000, 0x200);
}

/// Hashes eight words at once.
pub(crate) fn hash_lanes(words: &U32x8) -> (r: U32x8)
    ensures
        r@ == Seq::new(8, |i: int| word_hash(words@[i])),
{
    let bytes = words.permute_8(BYTE_SHUFFLE);
    let r = bytes.xor(&U32x8::splat(PRIME));
    proof {
        assert forall|k: int| 0 <= k < 8 implies r@[k] == word_hash(words@[k]) by {
            assert(lanes::byte_of(bytes@, 4 * k) == lanes::byte_of(words@, 4 * k + 3));
            assert(lanes::byte_of(bytes@, 4 * k + 1) == lanes::byte_of(words@, 4 * k));
            assert(lanes::byte_of(bytes@, 4 * k + 2) == lanes::byte_of(words@, 4 * k + 2));
            assert(lanes::byte_of(bytes@, 4 * k + 3) == lanes::byte_of(words@, 4 * k + 1));
            lemma_shuffled_by_bytes(words@[k], bytes@[k]);
            assert(bytes@[k] == shuffled(words@[k]));
        }
        assert(r@ =~= Seq::new(8, |i: int| word_hash(words@[i])));
    }
    r
}

/// Hashes one word.
pub fn hash_word(word: u32) -> (r: u32)
    ensures
        r == word_hash(word),
{
    let lanes = hash_lanes(&U32x8::splat(word));
    lanes.to_array()[0]
}

/// Hashes one coordinate along its axis.
pub fn hash_axis(c: i32, seed: u32) -> (r: u32)
    ensures
        r == axis_hash(c as int, seed),
{
    proof {
        lemma_word_of(c);
        lemma_seeded_word(c as u32, c as int, seed);
    }
    hash_word((c as u32).wrapping_mul(seed))
}

/// Two calls tell coordinates apart: under an odd seed, different `i32` coordinates
/// never get the same hash, whatever their signs.
pub proof fn law_calls_tell_coordinates_apart(c: i32, d: i32, seed: u32, r: u32, q: u32)
    requires
        seed % 2 == 1,
        call_ensures(hash_axis, (c, seed), r),
        call_ensures(hash_axis, (d, seed), q),
    ensures
        r == q <==> c == d,
{
    law_axis_hash_tells_coordinates_apart(c as int, d as int, seed);
}

/// Two calls tell seeds apart: at an odd coordinate, such as 1 or -1, different
/// seeds never give the same hash.
pub proof fn law_calls_tell_seeds_apart(c: i32, seed: u32, other: u32, r: u32, q: u32)
    requires
        c as int % 2 == 1,
        call_ensures(hash_axis, (c, seed), r),
        call_ensures(hash_axis, (c, other), q),
    ensures
        r == q <==> seed == other,
{
    law_axis_hash_tells_seeds_apart(c as int, seed, other);
}

/// A coordinate is hashed by its product with the seed: two calls agree wherever
/// the two products agree modulo 2^32.
pub proof fn law_calls_go_by_the_product(c: i32, d: i32, seed: u32, other: u32, r: u32, q: u32)
    requires
        call_ensures(hash_axis, (c, seed), r),
        call_ensures(hash_axis, (d, other), q),
    ensures
        r == q <==> (c * seed as int - d * other as int) % 0x1_0000_0000 == 0,
{
    law_word_hash_keeps_words_apart(seeded(c as int, seed), seeded(d as int, other));
    law_axis_hash_steps_by_the_seed(c as int, seed, seeded(c as int, seed));
}

} // verus!

//! Cellular noise on a plane.

use crate::bands;
use crate::blending;
use crate::buffers::filled;
use crate::cells;
use crate::combine;
use crate::combine::{fill_block, Sink};
use crate::grid_data::GridData;
use crate::hash;
use crate::hash::{hash_axis, hash_lanes, hash_word};
use crate::lanes::U32x8;
use crate::tiling;
use crate::tiling::tile;
use vstd::arithmetic::div_mod::*;
use vstd::prelude::*;

verus! {

/// The cells whose points can be nearest to a sample, as offsets from the cell
/// left of and above the sample: the four around it, and a ring of eight
/// grouped by the edge that they lie behind.
///
/// ```text
///        (0,-1) (1,-1)
/// (-1,0) (0, 0) (1, 0) (2,0)
/// (-1,1) (0, 1) (1, 1) (2,1)
///        (0, 2) (1, 2)
/// ```
pub const NEIGHBORS_12: [(i32, i32); 12] = [
    (0, 0),
    (1, 0),
    (0, 1),
    (1, 1),
    (-1, 0),
    (-1, 1),
    (0, -1),
    (1, -1),
    (2, 0),
    (2, 1),
    (0, 2),
    (1, 2),
];

/// The first four neighbours are the cells around a sample. Of the ring, the
/// next four lie behind the near edges of those cells, and the last four behind
/// their far edges.
pub proof fn law_ring_is_grouped_by_edge(i: int)
    requires
        0 <= i < 12,
    ensures
        i < 4 ==> 0 <= NEIGHBORS_12[i].0 <= 1 && 0 <= NEIGHBORS_12[i].1 <= 1,
        4 <= i < 8 <==> NEIGHBORS_12[i].0 == -1 || NEIGHBORS_12[i].1 == -1,
        8 <= i <==> NEIGHBORS_12[i].0 == 2 || NEIGHBORS_12[i].1 == 2,
{
    let cells = NEIGHBORS_12;
    assert(cells[0] == (0i32, 0i32) && cells[1] == (1i32, 0i32) && cells[2] == (0i32, 1i32)
        && cells[3] == (1i32, 1i32));
    assert(cells[4] == (-1i32, 0i32) && cells[5] == (-1i32, 1i32) && cells[6] == (0i32, -1i32)
        && cells[7] == (1i32, -1i32));
    assert(cells[8] == (2i32, 0i32) && cells[9] == (2i32, 1i32) && cells[10] == (0i32, 2i32)
        && cells[11] == (1i32, 2i32));
}

/// The two offsets of the point of a cell, from the hash of the cell: the low
/// and the high 23 bits as the mantissas of single-precision numbers from 1 up
/// to 2.
pub open spec fn jitter(h: u32) -> (u32, u32) {
    ((h & 0x007f_ffff) | 0x3f80_0000, (h >> 9) | 0x3f80_0000)
}

/// The sign and the exponent of both offsets are fixed: read as
/// single-precision numbers they are at least 1 and less than 2, whatever was
/// hashed.
pub proof fn law_jitter_in_range(h: u32)
    ensures
        0x3f80_0000 <= jitter(h).0 < 0x4000_0000,
        0x3f80_0000 <= jitter(h).1 < 0x4000_0000,
{
    assert(0x3f80_0000u32 <= ((h & 0x007f_ffff) | 0x3f80_0000)) by (bit_vector);
    assert(((h & 0x007f_ffff) | 0x3f80_0000) < 0x4000_0000u32) by (bit_vector);
    assert(0x3f80_0000u32 <= ((h >> 9u32) | 0x3f80_0000)) by (bit_vector);
    assert(((h >> 9u32) | 0x3f80_0000) < 0x4000_0000u32) by (bit_vector);
}

/// The two offsets give the hash back: together their mantissas hold all of
/// its bits.
pub proof fn law_jitter_keeps_hash(h: u32)
    ensures
        (jitter(h).0 & 0x007f_ffff) | ((jitter(h).1 & 0x007f_ffff) << 9) == h,
{
    assert(((((h & 0x007f_ffff) | 0x3f80_0000) & 0x007f_ffff) | ((((h >> 9u32) | 0x3f80_0000)
        & 0x007f_ffff) << 9)) == h) by (bit_vector);
}

/// Read as mantissas, the first offset is what the hash leaves modulo 2^23 and the
/// second is the hash without its low nine bits.
pub proof fn law_jitter_is_two_mantissas(h: u32)
    ensures
        jitter(h).0 as int == 0x3f80_0000 + h as int % 0x80_0000,
        jitter(h).1 as int == 0x3f80_0000 + h as int / 0x200,
{
    assert(((h & 0x007f_ffff) | 0x3f80_0000) == 0x3f80_0000 + h % 0x80_0000) by (bit_vector);
    assert(((h >> 9u32) | 0x3f80_0000) == 0x3f80_0000 + h / 0x200) by (bit_vector);
}

/// Splits the hash of a cell into the two offsets of its point.
pub fn split_hash(hash: u32) -> (r: (u32, u32))
    ensures
        r == jitter(hash),
{
    let exp_bits: u32 = 0x3f80_0000;
    let hash_mask: u32 = 0x007f_ffff;
    ((hash & hash_mask) | exp_bits, (hash >> 9) | exp_bits)
}

/// Splits eight hashes at once.
pub(crate) fn split_hash_batch(hashes: &U32x8) -> (r: (U32x8, U32x8))
    ensures
        r.0@ == Seq::new(8, |i: int| jitter(hashes@[i]).0),
        r.1@ == Seq::new(8, |i: int| jitter(hashes@[i]).1),
{
    let exp_bits = U32x8::splat(0x3f80_0000);
    let hash_mask = U32x8::splat(0x007f_ffff);
    let tx = hashes.and(&hash_mask).or(&exp_bits);
    let ty = hashes.shifted_right(9).or(&exp_bits);
    assert(tx@ =~= Seq::new(8, |i: int| jitter(hashes@[i]).0));
    assert(ty@ =~= Seq::new(8, |i: int| jitter(hashes@[i]).1));
    (tx, ty)
}

/// The part of a cell's hash that its row contributes.
pub fn hash_cell_y(y: u32, seed: u32) -> (r: u32)
    ensures
        r == hash::axis_hash(y as int, seed),
{
    proof {
        hash::lemma_seeded_word(y, y as int, seed);
    }
    hash_word(y.wrapping_mul(seed))
}

/// The hash of a cell, from its column and the part that its row contributes.
pub fn hash_cell_with_y(x: u32, y_shuf: u32, seed: u32) -> (r: u32)
    ensures
        r == hash::folded(hash::axis_hash(x as int, seed), y_shuf),
{
    proof {
        hash::lemma_seeded_word(x, x as int, seed);
    }
    let x_shuf: u32 = hash_word(x.wrapping_mul(seed));
    x_shuf.wrapping_mul(y_shuf) ^ x_shuf
}

/// The hash of a cell.
pub fn hash_cell(x: u32, y: u32, seed: u32) -> (r: u32)
    ensures
        r == hash::vertex_hash(x as int, y as int, seed),
{
    hash_cell_with_y(x, hash_cell_y(y, seed), seed)
}

/// The hashes of eight cells of one row.
pub(crate) fn hash_cells_row(lx_v: &U32x8, y_shuf: &U32x8, seed: u32) -> (r: U32x8)
    ensures
        r@ == Seq::new(
            8,
            |i: int| hash::folded(hash::axis_hash(lx_v@[i] as int, seed), y_shuf@[i]),
        ),
{
    let seeded = lx_v.times(&U32x8::splat(seed));
    let x_shuf = hash_lanes(&seeded);
    let r = x_shuf.times(y_shuf).xor(&x_shuf);
    proof {
        assert forall|i: int| 0 <= i < 8 implies r@[i] == hash::folded(
            hash::axis_hash(lx_v@[i] as int, seed),
            y_shuf@[i],
        ) by {
            hash::lemma_seeded_word(lx_v@[i], lx_v@[i] as int, seed);
            assert(x_shuf@[i] == hash::word_hash(seeded@[i]));
        }
        assert(r@ =~= Seq::new(
            8,
            |i: int| hash::folded(hash::axis_hash(lx_v@[i] as int, seed), y_shuf@[i]),
        ));
    }
    r
}

/// The offsets of the point of the lattice cell `(x, y)` on a grid with the
/// given periods.
pub open spec fn cell_jitter(x: int, y: int, tiling: [Option<u32>; 2], seed: u32) -> (u32, u32) {
    jitter(
        hash::vertex_hash(
            tiling::tiled(tiling::wrapped(x), tiling[0]),
            tiling::tiled(y, tiling[1]),
            seed,
        ),
    )
}

/// The point of a cell is scattered by the hash of the vertex whose coordinates
/// stand for the cell's column and row, on either side of zero, under the whole
/// seed. Columns past the ends of the `i32` range come in at the other end.
pub proof fn law_cell_jitter_goes_by_place(
    x: int,
    y: int,
    tiling: [Option<u32>; 2],
    seed: u32,
    column: int,
    row: int,
)
    requires
        tiling::stands_for(
            column,
            (x + 0x8000_0000) % 0x1_0000_0000 - 0x8000_0000,
            tiling[0],
        ),
        tiling::stands_for(row, y, tiling[1]),
    ensures
        cell_jitter(x, y, tiling, seed).0 as int == 0x3f80_0000 + hash::vertex_hash(
            column,
            row,
            seed,
        ) as int % 0x80_0000,
        cell_jitter(x, y, tiling, seed).1 as int == 0x3f80_0000 + hash::vertex_hash(
            column,
            row,
            seed,
        ) as int / 0x200,
{
    let inside = (x + 0x8000_0000) % 0x1_0000_0000 - 0x8000_0000;
    tiling::law_wrapped_is_the_i32(x, inside);
    tiling::lemma_stands_for(column, inside, tiling[0], seed);
    tiling::lemma_stands_for(row, y, tiling[1], seed);
    law_jitter_is_two_mantissas(hash::vertex_hash(column, row, seed));
}

/// Where no axis is tiled, to go `m` times as far along both axes is to take `m`
/// times the seed, for negative `m` too: the cells have their points in the same
/// places.
pub proof fn law_noise_scales(x: int, y: int, m: int, seed: u32, scaled: u32)
    requires
        (scaled - m * seed as int) % 0x1_0000_0000 == 0,
    ensures
        cell_jitter(m * x, m * y, [None, None], seed) == cell_jitter(x, y, [None, None], scaled),
{
    law_cell_jitter_goes_by_place(m * x, m * y, [None, None], seed, m * x, m * y);
    law_cell_jitter_goes_by_place(x, y, [None, None], scaled, x, y);
    hash::law_vertex_hash_scales(x, y, m, seed, scaled);
}

/// The offsets along a row of `len` cells that starts at `(x, y)`.
pub open spec fn row_jitters(
    x: int,
    y: int,
    tiling: [Option<u32>; 2],
    seed: u32,
    len: nat,
) -> Seq<(u32, u32)> {
    Seq::new(len, |i: int| cell_jitter(x + i, y, tiling, seed))
}

/// A row of offsets holds, cell by cell, those of the cells from its first column
/// on.
pub proof fn law_row_holds_its_cells(
    x: int,
    y: int,
    tiling: [Option<u32>; 2],
    seed: u32,
    len: nat,
    i: int,
)
    requires
        0 <= i < len,
    ensures
        row_jitters(x, y, tiling, seed, len).len() == len,
        row_jitters(x, y, tiling, seed, len)[i] == cell_jitter(x + i, y, tiling, seed),
{
}

/// A word that stands for a coordinate hashes as the coordinate does.
proof fn lemma_word_hash(c: i32, seed: u32)
    ensures
        hash::axis_hash((c as u32) as int, seed) == hash::axis_hash(c as int, seed),
{
    hash::lemma_word_of(c);
    assert((c as u32) as int % 0x1_0000_0000 == (c as u32) as int);
    hash::lemma_axis_hash_wraps((c as u32) as int, c as int, seed);
}

/// Eight columns from `lx`, reduced modulo the period where there is one.
fn column_words(lx: i32, tiling: Option<u32>, Ghost(x): Ghost<int>, Ghost(seed): Ghost<u32>) -> (r:
    U32x8)
    requires
        tiling::divides(tiling),
        lx == tiling::wrapped(x),
    ensures
        forall|k: int|
            0 <= k < 8 ==> hash::axis_hash(#[trigger] r@[k] as int, seed) == hash::axis_hash(
                tiling::tiled(tiling::wrapped(x + k), tiling),
                seed,
            ),
{
    if tiling.is_none() {
        let r = U32x8::splat(lx as u32).plus(&U32x8::iota(0));
        proof {
            assert forall|k: int| 0 <= k < 8 implies hash::axis_hash(
                #[trigger] r@[k] as int,
                seed,
            ) == hash::axis_hash(tiling::tiled(tiling::wrapped(x + k), tiling), seed) by {
                hash::lemma_word_of(lx);
                let c = tiling::wrapped(x + k);
                assert(r@[k] as int == (lx as u32 + k) % 0x1_0000_0000);
                assert((r@[k] as int) % 0x1_0000_0000 == c % 0x1_0000_0000);
                hash::lemma_axis_hash_wraps(r@[k] as int, c, seed);
            }
        }
        r
    } else {
        let mut words: [u32; 8] = [0; 8];
        let mut c: i32 = lx;
        let mut k: usize = 0;
        while k < 8
            invariant
                k <= 8,
                tiling::divides(tiling),
                c == tiling::wrapped(x + k),
                forall|j: int|
                    0 <= j < k ==> hash::axis_hash(#[trigger] words[j] as int, seed)
                        == hash::axis_hash(
                        tiling::tiled(tiling::wrapped(x + j), tiling),
                        seed,
                    ),
            decreases 8 - k,
        {
            let reduced: i32 = tile(c, tiling);
            proof {
                lemma_word_hash(reduced, seed);
                tiling::lemma_wrapped_step(x + k);
            }
            words[k] = reduced as u32;
            c = c.wrapping_add(1);
            k = k + 1;
        }
        let r = U32x8::from_array(words);
        proof {
            assert forall|k: int| 0 <= k < 8 implies hash::axis_hash(
                #[trigger] r@[k] as int,
                seed,
            ) == hash::axis_hash(tiling::tiled(tiling::wrapped(x + k), tiling), seed) by {
                assert(r@[k] == words[k]);
            }
        }
        r
    }
}

/// Four consecutive rows of cell offsets: the one above the cells that are
/// being filled, the one that they lie in, and the two below.
pub struct RowWindow {
    pub top: Vec<(u32, u32)>,
    pub sec: Vec<(u32, u32)>,
    pub thi: Vec<(u32, u32)>,
    pub bot: Vec<(u32, u32)>,
    pub width: usize,
}

impl RowWindow {
    /// Every row has as many cells as the window is wide.
    pub open spec fn wf(self) -> bool {
        &&& self.top@.len() == self.width
        &&& self.sec@.len() == self.width
        &&& self.thi@.len() == self.width
        &&& self.bot@.len() == self.width
    }

    /// The rows are lattice rows `y - 1` to `y + 2`, from column `x` on.
    pub open spec fn shows(self, x: int, y: int, tiling: [Option<u32>; 2], seed: u32) -> bool {
        &&& self.top@ == row_jitters(x, y - 1, tiling, seed, self.width as nat)
        &&& self.sec@ == row_jitters(x, y, tiling, seed, self.width as nat)
        &&& self.thi@ == row_jitters(x, y + 1, tiling, seed, self.width as nat)
        &&& self.bot@ == row_jitters(x, y + 2, tiling, seed, self.width as nat)
    }

    /// A window of `width` cells, all of whose offsets are zero.
    pub fn new(width: usize) -> (r: Self)
        ensures
            r.wf(),
            r.width == width,
            r.top@ == Seq::new(width as nat, |i: int| (0u32, 0u32)),
            r.sec@ == r.top@,
            r.thi@ == r.top@,
            r.bot@ == r.top@,
    {
        RowWindow {
            top: filled((0, 0), width),
            sec: filled((0, 0), width),
            thi: filled((0, 0), width),
            bot: filled((0, 0), width),
            width,
        }
    }

    /// Fills a row with the offsets of the cells of lattice row `ly`, from column
    /// `lx_start` on: eight at a time while there are eight, and then one by one.
    pub fn fill_row(
        seed: u32,
        octave_tiling: &[Option<u32>; 2],
        buff: &mut Vec<(u32, u32)>,
        ly: i32,
        lx_start: i32,
    )
        requires
            tiling::divides(octave_tiling[0]),
            tiling::divides(octave_tiling[1]),
        ensures
            final(buff)@ == row_jitters(
                lx_start as int,
                ly as int,
                *octave_tiling,
                seed,
                old(buff)@.len(),
            ),
    {
        let y_shuf: u32 = hash_axis(tile(ly, octave_tiling[1]), seed);
        let y_shuf_v = U32x8::splat(y_shuf);
        let ghost row = row_jitters(lx_start as int, ly as int, *octave_tiling, seed, buff@.len());
        let n: usize = buff.len();
        let mut lx: i32 = lx_start;
        let mut x_it: usize = 0;
        proof {
            tiling::lemma_wrapped_in_range(lx_start as int);
        }
        while n - x_it >= 8
            invariant
                x_it <= n,
                n == buff.len(),
                tiling::divides(octave_tiling[0]),
                y_shuf == hash::axis_hash(tiling::tiled(ly as int, octave_tiling[1]), seed),
                y_shuf_v@ == Seq::new(8, |k: int| y_shuf),
                row == row_jitters(lx_start as int, ly as int, *octave_tiling, seed, n as nat),
                lx == tiling::wrapped(lx_start + x_it),
                forall|i: int| 0 <= i < x_it ==> buff[i] == row[i],
            decreases n - x_it,
        {
            let ghost before = buff@;
            let lx_v = column_words(
                lx,
                octave_tiling[0],
                Ghost(lx_start + x_it),
                Ghost(seed),
            );
            let hashes = hash_cells_row(&lx_v, &y_shuf_v, seed);
            let (tx, ty) = split_hash_batch(&hashes);
            let tx_arr = tx.to_array();
            let ty_arr = ty.to_array();
            proof {
                assert forall|k: int| 0 <= k < 8 implies (
                    #[trigger] tx_arr[k],
                    ty_arr[k],
                ) == row[x_it + k] by {
                    assert(lx_start + x_it + k == lx_start + (x_it + k));
                    let h = hash::axis_hash(lx_v@[k] as int, seed);
                    assert(hashes@[k] == hash::folded(h, y_shuf_v@[k]));
                }
            }
            let mut k: usize = 0;
            while k < 8
                invariant
                    k <= 8,
                    x_it + 8 <= n,
                    n == buff.len(),
                    row.len() == n,
                    forall|i: int| 0 <= i < x_it + k ==> buff[i] == row[i],
                    forall|j: int|
                        0 <= j < 8 ==> (#[trigger] tx_arr[j], ty_arr[j]) == row[x_it + j],
                decreases 8 - k,
            {
                buff.set(x_it + k, (tx_arr[k], ty_arr[k]));
                k = k + 1;
            }
            proof {
                tiling::lemma_wrapped_add(lx_start + x_it, 8);
            }
            lx = lx.wrapping_add(8);
            x_it = x_it + 8;
        }
        while x_it < n
            invariant
                x_it <= n,
                n == buff.len(),
                tiling::divides(octave_tiling[0]),
                y_shuf == hash::axis_hash(tiling::tiled(ly as int, octave_tiling[1]), seed),
                row == row_jitters(lx_start as int, ly as int, *octave_tiling, seed, n as nat),
                lx == tiling::wrapped(lx_start + x_it),
                forall|i: int| 0 <= i < x_it ==> buff[i] == row[i],
            decreases n - x_it,
        {
            let reduced: i32 = tile(lx, octave_tiling[0]);
            proof {
                lemma_word_hash(reduced, seed);
                tiling::lemma_wrapped_step(lx_start + x_it);
            }
            buff.set(x_it, split_hash(hash_cell_with_y(reduced as u32, y_shuf, seed)));
            lx = lx.wrapping_add(1);
            x_it = x_it + 1;
        }
        assert(buff@ =~= row);
    }

    /// Every row moved up by one, and the top row moved to the bottom.
    pub open spec fn swapped(self) -> Self {
        RowWindow {
            top: self.sec,
            sec: self.thi,
            thi: self.bot,
            bot: self.top,
            width: self.width,
        }
    }

    /// Four moves bring every row back.
    pub proof fn law_swapped_four_times(self)
        ensures
            self.swapped().swapped().swapped().swapped() == self,
    {
    }

    /// A window slides down by one row: once its rows have moved up and the
    /// lowest one holds the next lattice row, it shows the rows around the next
    /// row.
    pub proof fn law_window_slides(
        self,
        next: Self,
        x: int,
        y: int,
        tiling: [Option<u32>; 2],
        seed: u32,
    )
        requires
            self.shows(x, y, tiling, seed),
            next == (RowWindow { bot: next.bot, ..self.swapped() }),
            next.bot@ == row_jitters(x, y + 3, tiling, seed, self.width as nat),
        ensures
            next.shows(x, y + 1, tiling, seed),
    {
    }

    /// Moves every row up by one. The row that was on top becomes the lowest.
    pub fn swap(&mut self)
        ensures
            *final(self) == old(self).swapped(),
    {
        core::mem::swap(&mut self.top, &mut self.sec);
        core::mem::swap(&mut self.sec, &mut self.thi);
        core::mem::swap(&mut self.thi, &mut self.bot);
    }
}

/// The offsets of the points of the twelve cells around a cell, in the order
/// of [`NEIGHBORS_12`].
pub struct CellJitters {
    pub parts: Vec<(u32, u32)>,
}

impl CellJitters {
    /// The offsets are those around the lattice cell `(x, y)`.
    pub open spec fn around(self, x: int, y: int, tiling: [Option<u32>; 2], seed: u32) -> bool {
        &&& self.parts@.len() == 12
        &&& forall|i: int|
            0 <= i < 12 ==> #[trigger] self.parts@[i] == cell_jitter(
                x + NEIGHBORS_12[i].0,
                y + NEIGHBORS_12[i].1,
                tiling,
                seed,
            )
    }

    /// Twelve offsets, all zero.
    pub fn new() -> (r: Self)
        ensures
            r.parts@ == Seq::new(12, |i: int| (0u32, 0u32)),
    {
        CellJitters { parts: filled((0, 0), 12) }
    }

    /// Takes the offsets around cell `x_it` of a window from its four rows.
    pub fn write(
        &mut self,
        top: &Vec<(u32, u32)>,
        sec: &Vec<(u32, u32)>,
        thi: &Vec<(u32, u32)>,
        bot: &Vec<(u32, u32)>,
        x_it: usize,
    )
        requires
            old(self).parts@.len() == 12,
            x_it + 3 < top.len(),
            x_it + 3 < sec.len(),
            x_it + 3 < thi.len(),
            x_it + 3 < bot.len(),
        ensures
            final(self).parts@.len() == 12,
            forall|i: int|
                0 <= i < 12 ==> #[trigger] final(self).parts@[i] == neighbor_in(
                    top@,
                    sec@,
                    thi@,
                    bot@,
                    x_it as int,
                    NEIGHBORS_12[i],
                ),
    {
        let mut i: usize = 0;
        while i < 12
            invariant
                i <= 12,
                self.parts@.len() == 12,
                x_it + 3 < top.len(),
                x_it + 3 < sec.len(),
                x_it + 3 < thi.len(),
                x_it + 3 < bot.len(),
                forall|j: int|
                    0 <= j < i ==> #[trigger] self.parts@[j] == neighbor_in(
                        top@,
                        sec@,
                        thi@,
                        bot@,
                        x_it as int,
                        NEIGHBORS_12[j],
                    ),
            decreases 12 - i,
        {
            proof {
                lemma_neighbor_offsets(i as int);
            }
            let (ox, oy): (i32, i32) = NEIGHBORS_12[i];
            let column: usize = x_it + (ox + 1) as usize;
            let part = if oy == -1 {
                top[column]
            } else if oy == 0 {
                sec[column]
            } else if oy == 1 {
                thi[column]
            } else {
                bot[column]
            };
            self.parts.set(i, part);
            i = i + 1;
        }
    }
}

/// No neighbour lies further than one cell back or two cells ahead.
pub(crate) proof fn lemma_neighbor_offsets(i: int)
    requires
        0 <= i < 12,
    ensures
        -1 <= NEIGHBORS_12[i].0 <= 2,
        -1 <= NEIGHBORS_12[i].1 <= 2,
{
}

/// The offsets at `offset` from cell `x_it` in a window of four rows.
pub open spec fn neighbor_in(
    top: Seq<(u32, u32)>,
    sec: Seq<(u32, u32)>,
    thi: Seq<(u32, u32)>,
    bot: Seq<(u32, u32)>,
    x_it: int,
    offset: (i32, i32),
) -> (u32, u32) {
    let row = if offset.1 == -1 {
        top
    } else if offset.1 == 0 {
        sec
    } else if offset.1 == 1 {
        thi
    } else {
        bot
    };
    row[x_it + offset.0 + 1]
}

/// Number of blocks of `lanes` samples that it takes to hold `len` samples.
pub open spec fn block_count(len: int, lanes: int) -> int {
    if len % lanes > 0 {
        len / lanes + 1
    } else {
        len / lanes
    }
}

/// Samples of block `b` of a run of `len` samples: the last block may be short.
pub open spec fn block_len(len: int, lanes: int, b: int) -> int {
    if b * lanes + lanes <= len {
        lanes
    } else {
        len - b * lanes
    }
}

/// The values of the samples of one cell: the blocks of each of its rows.
pub ghost struct CellTrace<T> {
    pub rows: Seq<Seq<Vec<T>>>,
}

/// What the blocks of a run write. The run begins at `base` in the output.
pub open spec fn run_writes<T>(base: int, blocks: Seq<Vec<T>>, lanes: int) -> Seq<
    combine::Write<T>,
> {
    Seq::new(
        blocks.len(),
        |b: int| combine::Write { start: base + b * lanes, value: blocks[b]@ },
    )
}

/// What the first `count` rows of a cell write. The cell begins at column `x0`
/// and row `y0`.
pub open spec fn cell_writes<T>(
    width: int,
    x0: int,
    y0: int,
    rows: Seq<Seq<Vec<T>>>,
    lanes: int,
    count: int,
) -> Seq<combine::Write<T>>
    decreases count,
{
    if count <= 0 {
        seq![]
    } else {
        cell_writes(width, x0, y0, rows, lanes, count - 1) + run_writes(
            (y0 + count - 1) * width + x0,
            rows[count - 1],
            lanes,
        )
    }
}

/// What the first `count` cells of a band write.
pub open spec fn band_writes<T>(
    width: int,
    x_ends: Seq<u32>,
    found: Seq<CellTrace<T>>,
    lanes: int,
    y0: int,
    y1: int,
    count: int,
) -> Seq<combine::Write<T>>
    decreases count,
{
    if count <= 0 {
        seq![]
    } else {
        band_writes(width, x_ends, found, lanes, y0, y1, count - 1) + cell_writes(
            width,
            cells::run_start(x_ends, count - 1),
            y0,
            found[count - 1].rows,
            lanes,
            y1 - y0,
        )
    }
}

/// What the first `count` bands of a plane write.
pub open spec fn plane_writes<T>(
    width: int,
    x_ends: Seq<u32>,
    y_ends: Seq<u32>,
    bands: Seq<Seq<CellTrace<T>>>,
    lanes: int,
    count: int,
) -> Seq<combine::Write<T>>
    decreases count,
{
    if count <= 0 {
        seq![]
    } else {
        plane_writes(width, x_ends, y_ends, bands, lanes, count - 1) + band_writes(
            width,
            x_ends,
            bands[count - 1],
            lanes,
            cells::run_start(y_ends, count - 1),
            y_ends[count - 1] as int,
            x_ends.len() as int,
        )
    }
}

proof fn lemma_cell_writes_prefix<T>(
    width: int,
    x0: int,
    y0: int,
    rows: Seq<Seq<Vec<T>>>,
    longer: Seq<Seq<Vec<T>>>,
    lanes: int,
    count: int,
)
    requires
        count <= rows.len(),
        rows.len() <= longer.len(),
        forall|k: int| 0 <= k < rows.len() ==> rows[k] == longer[k],
    ensures
        cell_writes(width, x0, y0, rows, lanes, count) == cell_writes(
            width,
            x0,
            y0,
            longer,
            lanes,
            count,
        ),
    decreases count,
{
    if count > 0 {
        lemma_cell_writes_prefix(width, x0, y0, rows, longer, lanes, count - 1);
    }
}

proof fn lemma_band_writes_prefix<T>(
    width: int,
    x_ends: Seq<u32>,
    found: Seq<CellTrace<T>>,
    longer: Seq<CellTrace<T>>,
    lanes: int,
    y0: int,
    y1: int,
    count: int,
)
    requires
        count <= found.len(),
        found.len() <= longer.len(),
        forall|k: int| 0 <= k < found.len() ==> found[k] == longer[k],
    ensures
        band_writes(width, x_ends, found, lanes, y0, y1, count) == band_writes(
            width,
            x_ends,
            longer,
            lanes,
            y0,
            y1,
            count,
        ),
    decreases count,
{
    if count > 0 {
        lemma_band_writes_prefix(width, x_ends, found, longer, lanes, y0, y1, count - 1);
    }
}

proof fn lemma_plane_writes_prefix<T>(
    width: int,
    x_ends: Seq<u32>,
    y_ends: Seq<u32>,
    bands: Seq<Seq<CellTrace<T>>>,
    longer: Seq<Seq<CellTrace<T>>>,
    lanes: int,
    count: int,
)
    requires
        count <= bands.len(),
        bands.len() <= longer.len(),
        forall|k: int| 0 <= k < bands.len() ==> bands[k] == longer[k],
    ensures
        plane_writes(width, x_ends, y_ends, bands, lanes, count) == plane_writes(
            width,
            x_ends,
            y_ends,
            longer,
            lanes,
            count,
        ),
    decreases count,
{
    if count > 0 {
        lemma_plane_writes_prefix(width, x_ends, y_ends, bands, longer, lanes, count - 1);
    }
}

/// What is measured off the lattice, for the block of samples at row `y` and
/// column `index` of the output.
///
/// `measure` takes the offsets of the four cells around the block. It gives the
/// distances to the nearest of their points, and says whether some sample may
/// have a nearer point before the block's cell, and whether some sample may
/// have one behind it. `widen` takes distances and the offsets of four further
/// cells, the first of which is numbered in [`NEIGHBORS_12`], and gives the
/// distances to the nearest of all points so far. `finish` turns distances into
/// values.
pub struct Kernels<B, R, E> {
    pub measure: B,
    pub widen: R,
    pub finish: E,
}

/// Distances that the kernels gave for the block of `len` samples at row `y` and
/// column `index`.
pub open spec fn handed<T, V, B, R, E>(
    k: Kernels<B, R, E>,
    grid_data: GridData<T, 2>,
    y: usize,
    index: usize,
    len: usize,
    v: V,
) -> bool where
    B: Fn(&GridData<T, 2>, usize, usize, usize, [(u32, u32); 4]) -> (V, bool, bool),
    R: Fn(&GridData<T, 2>, V, usize, usize, usize, usize, [(u32, u32); 4]) -> V,
    E: Fn(&GridData<T, 2>, V, usize) -> Vec<T>,
 {
    ||| exists|four: [(u32, u32); 4], near: bool, far: bool| #[trigger]
        k.measure.ensures((&grid_data, y, index, len, four), (v, near, far))
    ||| exists|from: V, first: usize, four: [(u32, u32); 4]|
        (first == 4 || first == 8) && #[trigger] k.widen.ensures(
            (&grid_data, from, y, index, len, first, four),
            v,
        )
}

/// What the kernels owe on blocks of at most `lanes` samples: a value for each
/// sample of a block.
pub open spec fn measures<T, V, B, R, E>(
    k: Kernels<B, R, E>,
    grid_data: GridData<T, 2>,
    lanes: int,
) -> bool where
    B: Fn(&GridData<T, 2>, usize, usize, usize, [(u32, u32); 4]) -> (V, bool, bool),
    R: Fn(&GridData<T, 2>, V, usize, usize, usize, usize, [(u32, u32); 4]) -> V,
    E: Fn(&GridData<T, 2>, V, usize) -> Vec<T>,
 {
    &&& forall|y: usize, index: usize, len: usize, four: [(u32, u32); 4]|
        len <= lanes && y < grid_data.grid_size[1] && index + len <= grid_data.grid_size[0]
            ==> #[trigger] k.measure.requires((&grid_data, y, index, len, four))
    &&& forall|v: V, y: usize, index: usize, len: usize, first: usize, four: [(u32, u32); 4]|
        len <= lanes && y < grid_data.grid_size[1] && index + len <= grid_data.grid_size[0] && (
        first == 4 || first == 8) && handed::<T, V, B, R, E>(k, grid_data, y, index, len, v)
            ==> #[trigger] k.widen.requires((&grid_data, v, y, index, len, first, four))
    &&& forall|v: V, y: usize, index: usize, len: usize|
        len <= lanes && y < grid_data.grid_size[1] && index + len <= grid_data.grid_size[0]
            && #[trigger] handed::<T, V, B, R, E>(k, grid_data, y, index, len, v)
            ==> k.finish.requires((&grid_data, v, len))
    &&& forall|v: V, y: usize, index: usize, len: usize, r: Vec<T>|
        len <= lanes && y < grid_data.grid_size[1] && index + len <= grid_data.grid_size[0]
            && #[trigger] handed::<T, V, B, R, E>(k, grid_data, y, index, len, v)
            && #[trigger] k.finish.ensures((&grid_data, v, len), r) ==> r@.len() == len
}

/// The offsets of the four cells from number `first` on.
pub open spec fn four_of(parts: Seq<(u32, u32)>, first: int) -> [(u32, u32); 4] {
    [parts[first], parts[first + 1], parts[first + 2], parts[first + 3]]
}

/// Distances widened by the four cells from number `first` on, where asked for.
pub open spec fn widened<T, V, B, R, E>(
    k: Kernels<B, R, E>,
    grid_data: GridData<T, 2>,
    parts: Seq<(u32, u32)>,
    y: usize,
    index: usize,
    len: usize,
    first: usize,
    asked: bool,
    v: V,
    r: V,
) -> bool where
    B: Fn(&GridData<T, 2>, usize, usize, usize, [(u32, u32); 4]) -> (V, bool, bool),
    R: Fn(&GridData<T, 2>, V, usize, usize, usize, usize, [(u32, u32); 4]) -> V,
    E: Fn(&GridData<T, 2>, V, usize) -> Vec<T>,
 {
    if asked {
        k.widen.ensures(
            (&grid_data, v, y, index, len, first, four_of(parts, first as int)),
            r,
        )
    } else {
        r == v
    }
}

/// The values of a block: measured against the four cells around it, against
/// the four before it only if some sample may have a nearer point there, and
/// against the four behind it only if some sample may have one there.
pub open spec fn block_measured<T, V, B, R, E>(
    k: Kernels<B, R, E>,
    grid_data: GridData<T, 2>,
    parts: Seq<(u32, u32)>,
    y: usize,
    index: usize,
    len: usize,
    value: Vec<T>,
) -> bool where
    B: Fn(&GridData<T, 2>, usize, usize, usize, [(u32, u32); 4]) -> (V, bool, bool),
    R: Fn(&GridData<T, 2>, V, usize, usize, usize, usize, [(u32, u32); 4]) -> V,
    E: Fn(&GridData<T, 2>, V, usize) -> Vec<T>,
 {
    exists|base: (V, bool, bool), near: V, far: V|
        {
            &&& k.measure.ensures((&grid_data, y, index, len, four_of(parts, 0)), base)
            &&& #[trigger] widened(
                k,
                grid_data,
                parts,
                y,
                index,
                len,
                4,
                base.1,
                base.0,
                near,
            )
            &&& #[trigger] widened(k, grid_data, parts, y, index, len, 8, base.2, near, far)
            &&& k.finish.ensures((&grid_data, far, len), value)
        }
}

/// The blocks of a run of `len` samples at row `y` and column `x0`.
pub open spec fn run_measured<T, V, B, R, E>(
    k: Kernels<B, R, E>,
    grid_data: GridData<T, 2>,
    parts: Seq<(u32, u32)>,
    y: int,
    x0: int,
    len: int,
    lanes: int,
    blocks: Seq<Vec<T>>,
) -> bool where
    B: Fn(&GridData<T, 2>, usize, usize, usize, [(u32, u32); 4]) -> (V, bool, bool),
    R: Fn(&GridData<T, 2>, V, usize, usize, usize, usize, [(u32, u32); 4]) -> V,
    E: Fn(&GridData<T, 2>, V, usize) -> Vec<T>,
 {
    forall|b: int|
        0 <= b < blocks.len() ==> block_measured::<T, V, B, R, E>(
            k,
            grid_data,
            parts,
            y as usize,
            (x0 + b * lanes) as usize,
            block_len(len, lanes, b) as usize,
            #[trigger] blocks[b],
        )
}

/// The blocks of a run hold all of its samples.
pub open spec fn run_shaped<T>(len: int, lanes: int, blocks: Seq<Vec<T>>) -> bool {
    &&& blocks.len() == block_count(len, lanes)
    &&& forall|b: int|
        0 <= b < blocks.len() ==> (#[trigger] blocks[b])@.len() == block_len(len, lanes, b)
}

/// The rows of the samples of cell `(x_it, y_it)`, measured against the points
/// around it.
pub open spec fn cell_measured<T, V, B, R, E>(
    k: Kernels<B, R, E>,
    grid_data: GridData<T, 2>,
    seed: u32,
    x_it: int,
    y_it: int,
    lanes: int,
    found: CellTrace<T>,
) -> bool where
    B: Fn(&GridData<T, 2>, usize, usize, usize, [(u32, u32); 4]) -> (V, bool, bool),
    R: Fn(&GridData<T, 2>, V, usize, usize, usize, usize, [(u32, u32); 4]) -> V,
    E: Fn(&GridData<T, 2>, V, usize) -> Vec<T>,
 {
    exists|j: CellJitters|
        #[trigger] j.around(
            grid_data.grid_start[0] + x_it,
            grid_data.grid_start[1] + y_it,
            grid_data.octave_tiling,
            seed,
        ) && rows_measured::<T, V, B, R, E>(
            k,
            grid_data,
            j.parts@,
            cells::run_start(grid_data.grid_indices[0]@, x_it),
            grid_data.grid_indices[0]@[x_it] as int,
            cells::run_start(grid_data.grid_indices[1]@, y_it),
            lanes,
            found.rows,
        )
}

/// The rows of a cell from column `x0` to column `x1`, from row `y0` on.
pub open spec fn rows_measured<T, V, B, R, E>(
    k: Kernels<B, R, E>,
    grid_data: GridData<T, 2>,
    parts: Seq<(u32, u32)>,
    x0: int,
    x1: int,
    y0: int,
    lanes: int,
    rows: Seq<Seq<Vec<T>>>,
) -> bool where
    B: Fn(&GridData<T, 2>, usize, usize, usize, [(u32, u32); 4]) -> (V, bool, bool),
    R: Fn(&GridData<T, 2>, V, usize, usize, usize, usize, [(u32, u32); 4]) -> V,
    E: Fn(&GridData<T, 2>, V, usize) -> Vec<T>,
 {
    forall|n: int|
        0 <= n < rows.len() ==> run_measured::<T, V, B, R, E>(
            k,
            grid_data,
            parts,
            y0 + n,
            x0,
            x1 - x0,
            lanes,
            #[trigger] rows[n],
        )
}

/// A cell of `height` rows holds all of its samples.
pub open spec fn cell_shaped<T>(len: int, height: int, lanes: int, found: CellTrace<T>) -> bool {
    &&& found.rows.len() == height
    &&& forall|n: int|
        0 <= n < found.rows.len() ==> run_shaped(len, lanes, #[trigger] found.rows[n])
}

/// Every cell of a band holds all of its samples.
pub open spec fn band_shaped<T>(
    x_ends: Seq<u32>,
    y0: int,
    y1: int,
    lanes: int,
    found: Seq<CellTrace<T>>,
) -> bool {
    &&& found.len() == x_ends.len()
    &&& forall|k: int|
        0 <= k < found.len() ==> cell_shaped(
            x_ends[k] - cells::run_start(x_ends, k),
            y1 - y0,
            lanes,
            #[trigger] found[k],
        )
}

/// Every band of a plane is complete.
pub open spec fn plane_shaped<T>(
    x_ends: Seq<u32>,
    y_ends: Seq<u32>,
    lanes: int,
    bands: Seq<Seq<CellTrace<T>>>,
) -> bool {
    &&& bands.len() == y_ends.len()
    &&& forall|k: int|
        0 <= k < bands.len() ==> band_shaped(
            x_ends,
            cells::run_start(y_ends, k),
            y_ends[k] as int,
            lanes,
            #[trigger] bands[k],
        )
}

/// The cells of one band, each measured against the points around it.
pub open spec fn band_measured<T, V, B, R, E>(
    k: Kernels<B, R, E>,
    grid_data: GridData<T, 2>,
    seed: u32,
    y_it: int,
    lanes: int,
    found: Seq<CellTrace<T>>,
) -> bool where
    B: Fn(&GridData<T, 2>, usize, usize, usize, [(u32, u32); 4]) -> (V, bool, bool),
    R: Fn(&GridData<T, 2>, V, usize, usize, usize, usize, [(u32, u32); 4]) -> V,
    E: Fn(&GridData<T, 2>, V, usize) -> Vec<T>,
 {
    &&& band_shaped(
        grid_data.grid_indices[0]@,
        cells::run_start(grid_data.grid_indices[1]@, y_it),
        grid_data.grid_indices[1]@[y_it] as int,
        lanes,
        found,
    )
    &&& forall|x_it: int|
        0 <= x_it < found.len() ==> cell_measured::<T, V, B, R, E>(
            k,
            grid_data,
            seed,
            x_it,
            y_it,
            lanes,
            #[trigger] found[x_it],
        )
}

/// All bands of a plane were measured.
pub open spec fn plane_measured<T, V, B, R, E>(
    k: Kernels<B, R, E>,
    grid_data: GridData<T, 2>,
    seed: u32,
    lanes: int,
    found: Seq<Seq<CellTrace<T>>>,
) -> bool where
    B: Fn(&GridData<T, 2>, usize, usize, usize, [(u32, u32); 4]) -> (V, bool, bool),
    R: Fn(&GridData<T, 2>, V, usize, usize, usize, usize, [(u32, u32); 4]) -> V,
    E: Fn(&GridData<T, 2>, V, usize) -> Vec<T>,
 {
    &&& plane_shaped(grid_data.grid_indices[0]@, grid_data.grid_indices[1]@, lanes, found)
    &&& forall|y_it: int|
        0 <= y_it < found.len() ==> band_measured::<T, V, B, R, E>(
            k,
            grid_data,
            seed,
            y_it,
            lanes,
            #[trigger] found[y_it],
        )
}

/// What the bands of a whole plane write.
pub open spec fn grid_writes<T>(
    grid_data: GridData<T, 2>,
    lanes: int,
    found: Seq<Seq<CellTrace<T>>>,
) -> Seq<combine::Write<T>> {
    plane_writes(
        grid_data.grid_size[0] as int,
        grid_data.grid_indices[0]@,
        grid_data.grid_indices[1]@,
        found,
        lanes,
        grid_data.num_loops[1] as int,
    )
}

/// The offsets of the four cells from number `first` on.
fn take_four(jitters: &CellJitters, first: usize) -> (r: [(u32, u32); 4])
    requires
        jitters.parts@.len() == 12,
        first + 4 <= 12,
    ensures
        r == four_of(jitters.parts@, first as int),
{
    [
        jitters.parts[first],
        jitters.parts[first + 1],
        jitters.parts[first + 2],
        jitters.parts[first + 3],
    ]
}

/// Measures one block of samples. The cells before it and the cells behind it
/// are looked at only where a nearer point may lie there.
pub fn measure_block<T: Copy, V, B, R, E>(
    grid_data: &GridData<T, 2>,
    jitters: &CellJitters,
    kernels: &Kernels<B, R, E>,
    y: usize,
    index: usize,
    len: usize,
) -> (value: Vec<T>) where
    B: Fn(&GridData<T, 2>, usize, usize, usize, [(u32, u32); 4]) -> (V, bool, bool),
    R: Fn(&GridData<T, 2>, V, usize, usize, usize, usize, [(u32, u32); 4]) -> V,
    E: Fn(&GridData<T, 2>, V, usize) -> Vec<T>,

    requires
        jitters.parts@.len() == 12,
        y < grid_data.grid_size[1],
        index + len <= grid_data.grid_size[0],
        measures::<T, V, B, R, E>(*kernels, *grid_data, len as int),
    ensures
        block_measured::<T, V, B, R, E>(
            *kernels,
            *grid_data,
            jitters.parts@,
            y,
            index,
            len,
            value,
        ),
        value@.len() == len,
{
    let ghost parts = jitters.parts@;
    let measure = &kernels.measure;
    let widen = &kernels.widen;
    let finish = &kernels.finish;
    let (base, any_near, any_far) = measure(
        grid_data,
        y,
        index,
        len,
        take_four(jitters, 0),
    );
    let ghost first = (base, any_near, any_far);
    assert(kernels.measure.ensures((grid_data, y, index, len, four_of(parts, 0)), first));
    assert(handed::<T, V, B, R, E>(*kernels, *grid_data, y, index, len, base));
    let near = if any_near {
        widen(grid_data, base, y, index, len, 4, take_four(jitters, 4))
    } else {
        base
    };
    let ghost second = near;
    assert(handed::<T, V, B, R, E>(*kernels, *grid_data, y, index, len, second));
    assert(widened(
        *kernels,
        *grid_data,
        parts,
        y,
        index,
        len,
        4,
        first.1,
        first.0,
        second,
    ));
    let far = if any_far {
        widen(grid_data, near, y, index, len, 8, take_four(jitters, 8))
    } else {
        near
    };
    let ghost third = far;
    assert(handed::<T, V, B, R, E>(*kernels, *grid_data, y, index, len, third));
    assert(widened(*kernels, *grid_data, parts, y, index, len, 8, first.2, second, third));
    finish(grid_data, far, len)
}

/// Measures one block of samples and combines it into the output.
fn grid_cellular_fill_block<T: Copy, V, B, R, E, I, P, F>(
    grid_data: &GridData<T, 2>,
    jitters: &CellJitters,
    kernels: &Kernels<B, R, E>,
    y: usize,
    row_start: usize,
    index: usize,
    len: usize,
    sink: &Sink<I, P, F>,
    state: &mut Vec<T>,
    dst: &mut Vec<T>,
) -> (made: Ghost<Vec<T>>) where
    B: Fn(&GridData<T, 2>, usize, usize, usize, [(u32, u32); 4]) -> (V, bool, bool),
    R: Fn(&GridData<T, 2>, V, usize, usize, usize, usize, [(u32, u32); 4]) -> V,
    E: Fn(&GridData<T, 2>, V, usize) -> Vec<T>,
    I: Fn(Vec<T>) -> (Vec<Vec<T>>, Vec<T>),
    P: Fn(Vec<Vec<T>>, Vec<T>, Vec<T>) -> (Vec<Vec<T>>, Vec<T>),
    F: Fn(Vec<Vec<T>>, Vec<T>) -> Vec<T>,

    requires
        jitters.parts@.len() == 12,
        y < grid_data.grid_size[1],
        index + len <= grid_data.grid_size[0],
        measures::<T, V, B, R, E>(*kernels, *grid_data, len as int),
        row_start + index + len <= sink.layout.total_size,
        sink.wf::<T>(len as int, old(state).len() as int, old(dst).len() as int),
    ensures
        block_measured::<T, V, B, R, E>(
            *kernels,
            *grid_data,
            jitters.parts@,
            y,
            index,
            len,
            made@,
        ),
        made@@.len() == len,
        combine::combined(
            *sink.combiner,
            sink.pass,
            sink.layout,
            (combine::Write { start: row_start + index, value: made@@ }),
            (old(state)@, old(dst)@),
            (final(state)@, final(dst)@),
        ),
        final(state).len() == old(state).len(),
        final(dst).len() == old(dst).len(),
{
    let value = measure_block(grid_data, jitters, kernels, y, index, len);
    let ghost made = value;
    assert(combine::combines::<T, I, P, F>(
        *sink.combiner,
        sink.layout.state_size as int,
        value.len() as int,
    ));
    fill_block(sink.combiner, sink.pass, sink.layout, row_start + index, value, state, dst);
    Ghost(made)
}

/// Measures one row of the samples of a cell and combines it into the output:
/// full blocks of `lanes`, and then what is left.
fn fill_run<T: Copy, V, B, R, E, I, P, F>(
    grid_data: &GridData<T, 2>,
    jitters: &CellJitters,
    kernels: &Kernels<B, R, E>,
    lanes: usize,
    x_idx: usize,
    x_next: usize,
    y: usize,
    row_start: usize,
    sink: &Sink<I, P, F>,
    state: &mut Vec<T>,
    dst: &mut Vec<T>,
) -> (made: Ghost<Seq<Vec<T>>>) where
    B: Fn(&GridData<T, 2>, usize, usize, usize, [(u32, u32); 4]) -> (V, bool, bool),
    R: Fn(&GridData<T, 2>, V, usize, usize, usize, usize, [(u32, u32); 4]) -> V,
    E: Fn(&GridData<T, 2>, V, usize) -> Vec<T>,
    I: Fn(Vec<T>) -> (Vec<Vec<T>>, Vec<T>),
    P: Fn(Vec<Vec<T>>, Vec<T>, Vec<T>) -> (Vec<Vec<T>>, Vec<T>),
    F: Fn(Vec<Vec<T>>, Vec<T>) -> Vec<T>,

    requires
        lanes > 0,
        jitters.parts@.len() == 12,
        y < grid_data.grid_size[1],
        x_idx <= x_next <= grid_data.grid_size[0],
        measures::<T, V, B, R, E>(*kernels, *grid_data, lanes as int),
        row_start + x_next <= sink.layout.total_size,
        sink.wf::<T>(lanes as int, old(state).len() as int, old(dst).len() as int),
    ensures
        run_measured::<T, V, B, R, E>(
            *kernels,
            *grid_data,
            jitters.parts@,
            y as int,
            x_idx as int,
            x_next - x_idx,
            lanes as int,
            made@,
        ),
        run_shaped(x_next - x_idx, lanes as int, made@),
        sink.takes(
            run_writes(row_start + x_idx, made@, lanes as int),
            (old(state)@, old(dst)@),
            (final(state)@, final(dst)@),
        ),
        final(state).len() == old(state).len(),
        final(dst).len() == old(dst).len(),
{
    let ghost before = (state@, dst@);
    let ghost l = lanes as int;
    let ghost run = x_next - x_idx;
    let ghost base = row_start + x_idx;
    let ghost mut blocks: Seq<Vec<T>> = seq![];
    let mut index: usize = x_idx;
    assert(run_writes(base, blocks, l) =~= seq![]);
    while x_next - index >= lanes
        invariant
            l == lanes,
            l > 0,
            run == x_next - x_idx,
            base == row_start + x_idx,
            jitters.parts@.len() == 12,
            y < grid_data.grid_size[1],
            x_idx <= index <= x_next <= grid_data.grid_size[0],
            index == x_idx + blocks.len() * l,
            measures::<T, V, B, R, E>(*kernels, *grid_data, lanes as int),
            row_start + x_next <= sink.layout.total_size,
            state.len() == before.0.len(),
            dst.len() == before.1.len(),
            sink.wf::<T>(lanes as int, before.0.len() as int, before.1.len() as int),
            run_measured::<T, V, B, R, E>(
                *kernels,
                *grid_data,
                jitters.parts@,
                y as int,
                x_idx as int,
                run,
                l,
                blocks,
            ),
            forall|b: int|
                0 <= b < blocks.len() ==> (#[trigger] blocks[b])@.len() == block_len(run, l, b),
            sink.takes(run_writes(base, blocks, l), before, (state@, dst@)),
        decreases x_next - index,
    {
        let ghost mid = (state@, dst@);
        let Ghost(block) = grid_cellular_fill_block(
            grid_data,
            jitters,
            kernels,
            y,
            row_start,
            index,
            lanes,
            sink,
            state,
            dst,
        );
        proof {
            let b = blocks.len() as int;
            assert((b + 1) * l == b * l + l) by (nonlinear_arith);
            assert(block_len(run, l, b) == l);
            lemma_block_pushed(sink, base, blocks, block, l, before, mid, (state@, dst@));
            blocks = blocks.push(block);
        }
        index = index + lanes;
    }
    proof {
        let b = blocks.len() as int;
        assert(run == l * b + (x_next - index)) by (nonlinear_arith)
            requires
                run == x_next - x_idx,
                index == x_idx + b * l,
        ;
        lemma_fundamental_div_mod_converse(run, l, b, x_next - index);
    }
    if index < x_next {
        let ghost mid = (state@, dst@);
        let Ghost(block) = grid_cellular_fill_block(
            grid_data,
            jitters,
            kernels,
            y,
            row_start,
            index,
            x_next - index,
            sink,
            state,
            dst,
        );
        proof {
            lemma_block_pushed(sink, base, blocks, block, l, before, mid, (state@, dst@));
            blocks = blocks.push(block);
        }
    }
    Ghost(blocks)
}

/// One more block of a run.
proof fn lemma_block_pushed<T, I, P, F>(
    sink: &Sink<I, P, F>,
    base: int,
    blocks: Seq<Vec<T>>,
    block: Vec<T>,
    lanes: int,
    before: (Seq<T>, Seq<T>),
    mid: (Seq<T>, Seq<T>),
    after: (Seq<T>, Seq<T>),
) where
    I: Fn(Vec<T>) -> (Vec<Vec<T>>, Vec<T>),
    P: Fn(Vec<Vec<T>>, Vec<T>, Vec<T>) -> (Vec<Vec<T>>, Vec<T>),
    F: Fn(Vec<Vec<T>>, Vec<T>) -> Vec<T>,

    requires
        sink.takes(run_writes(base, blocks, lanes), before, mid),
        combine::combined(
            *sink.combiner,
            sink.pass,
            sink.layout,
            (combine::Write { start: base + blocks.len() * lanes, value: block@ }),
            mid,
            after,
        ),
    ensures
        sink.takes(run_writes(base, blocks.push(block), lanes), before, after),
{
    let w = combine::Write { start: base + blocks.len() * lanes, value: block@ };
    combine::lemma_applied_push(
        *sink.combiner,
        sink.pass,
        sink.layout,
        run_writes(base, blocks, lanes),
        w,
        before,
        mid,
        after,
    );
    assert(run_writes(base, blocks, lanes).push(w) =~= run_writes(
        base,
        blocks.push(block),
        lanes,
    ));
}

/// Measures the samples of one cell and combines them into the output, row by
/// row.
pub fn grid_cellular_fill<T: Copy, V, B, R, E, I, P, F>(
    grid_data: &GridData<T, 2>,
    jitters: &CellJitters,
    kernels: &Kernels<B, R, E>,
    lanes: usize,
    x_idx: usize,
    x_next: usize,
    y_idx: usize,
    y_next: usize,
    sink: &Sink<I, P, F>,
    state: &mut Vec<T>,
    dst: &mut Vec<T>,
) where
    B: Fn(&GridData<T, 2>, usize, usize, usize, [(u32, u32); 4]) -> (V, bool, bool),
    R: Fn(&GridData<T, 2>, V, usize, usize, usize, usize, [(u32, u32); 4]) -> V,
    E: Fn(&GridData<T, 2>, V, usize) -> Vec<T>,
    I: Fn(Vec<T>) -> (Vec<Vec<T>>, Vec<T>),
    P: Fn(Vec<Vec<T>>, Vec<T>, Vec<T>) -> (Vec<Vec<T>>, Vec<T>),
    F: Fn(Vec<Vec<T>>, Vec<T>) -> Vec<T>,

    requires
        grid_data.wf(),
        jitters.parts@.len() == 12,
        lanes > 0,
        x_idx <= x_next <= grid_data.grid_size[0],
        y_idx <= y_next <= grid_data.grid_size[1],
        measures::<T, V, B, R, E>(*kernels, *grid_data, lanes as int),
        sink.layout.total_size == grid_data.total_size,
        sink.wf::<T>(lanes as int, old(state).len() as int, old(dst).len() as int),
    ensures
        exists|found: CellTrace<T>|
            {
                &&& cell_shaped(x_next - x_idx, y_next - y_idx, lanes as int, found)
                &&& rows_measured::<T, V, B, R, E>(
                    *kernels,
                    *grid_data,
                    jitters.parts@,
                    x_idx as int,
                    x_next as int,
                    y_idx as int,
                    lanes as int,
                    found.rows,
                )
                &&& sink.takes(
                    #[trigger] cell_writes(
                        grid_data.grid_size[0] as int,
                        x_idx as int,
                        y_idx as int,
                        found.rows,
                        lanes as int,
                        y_next - y_idx,
                    ),
                    (old(state)@, old(dst)@),
                    (final(state)@, final(dst)@),
                )
            },
        final(state).len() == old(state).len(),
        final(dst).len() == old(dst).len(),
{
    let ghost before = (state@, dst@);
    let row_width: usize = grid_data.grid_size[0];
    let ghost l = lanes as int;
    let ghost mut rows: Seq<Seq<Vec<T>>> = seq![];
    let mut y: usize = y_idx;
    while y < y_next
        invariant
            grid_data.wf(),
            row_width == grid_data.grid_size[0],
            l == lanes,
            lanes > 0,
            jitters.parts@.len() == 12,
            x_idx <= x_next <= row_width,
            y_idx <= y <= y_next <= grid_data.grid_size[1],
            measures::<T, V, B, R, E>(*kernels, *grid_data, lanes as int),
            sink.layout.total_size == grid_data.total_size,
            state.len() == before.0.len(),
            dst.len() == before.1.len(),
            sink.wf::<T>(lanes as int, before.0.len() as int, before.1.len() as int),
            rows.len() == y - y_idx,
            forall|n: int|
                0 <= n < rows.len() ==> run_shaped(x_next - x_idx, l, #[trigger] rows[n]),
            rows_measured::<T, V, B, R, E>(
                *kernels,
                *grid_data,
                jitters.parts@,
                x_idx as int,
                x_next as int,
                y_idx as int,
                l,
                rows,
            ),
            sink.takes(
                cell_writes(row_width as int, x_idx as int, y_idx as int, rows, l, y - y_idx),
                before,
                (state@, dst@),
            ),
        decreases y_next - y,
    {
        let ghost mid = (state@, dst@);
        proof {
            bands::lemma_rows_fit(grid_data.grid_size@, y + 1);
            assert((y + 1) * row_width == y * row_width + row_width) by (nonlinear_arith);
            assert(0 <= y * row_width) by (nonlinear_arith);
        }
        let row_start: usize = y * row_width;
        let Ghost(blocks) = fill_run(
            grid_data,
            jitters,
            kernels,
            lanes,
            x_idx,
            x_next,
            y,
            row_start,
            sink,
            state,
            dst,
        );
        proof {
            let longer = rows.push(blocks);
            lemma_cell_writes_prefix(
                row_width as int,
                x_idx as int,
                y_idx as int,
                rows,
                longer,
                l,
                y - y_idx,
            );
            combine::lemma_applied_concat(
                *sink.combiner,
                sink.pass,
                sink.layout,
                cell_writes(row_width as int, x_idx as int, y_idx as int, longer, l, y - y_idx),
                run_writes(row_start + x_idx, blocks, l),
                before,
                mid,
                (state@, dst@),
            );
            assert(y_idx + (y - y_idx + 1) - 1 == y);
            rows = longer;
        }
        y = y + 1;
    }
    proof {
        let found = CellTrace { rows };
        assert(sink.takes(
            cell_writes(
                row_width as int,
                x_idx as int,
                y_idx as int,
                found.rows,
                l,
                y_next - y_idx,
            ),
            before,
            (state@, dst@),
        ));
    }
}

/// What the window of a grid needs: periods that can be divided by, and rows
/// and columns that stay in the range of lattice coordinates.
pub open spec fn hashable<T>(grid_data: GridData<T, 2>) -> bool {
    &&& tiling::divides(grid_data.octave_tiling[0])
    &&& tiling::divides(grid_data.octave_tiling[1])
    &&& grid_data.grid_start[0] > i32::MIN
    &&& grid_data.grid_start[1] > i32::MIN
    &&& grid_data.num_loops[1] <= i32::MAX
    &&& grid_data.grid_start[1] + grid_data.num_loops[1] + 2 <= i32::MAX
    &&& grid_data.num_loops[0] + 3 <= usize::MAX
}

/// A window on the rows around a cell holds the offsets around it.
proof fn lemma_window_around(
    window: RowWindow,
    jitters: CellJitters,
    x: int,
    y: int,
    x_it: int,
    tiling: [Option<u32>; 2],
    seed: u32,
)
    requires
        window.wf(),
        window.shows(x - 1, y, tiling, seed),
        0 <= x_it,
        x_it + 3 < window.width,
        jitters.parts@.len() == 12,
        forall|i: int|
            0 <= i < 12 ==> #[trigger] jitters.parts@[i] == neighbor_in(
                window.top@,
                window.sec@,
                window.thi@,
                window.bot@,
                x_it,
                NEIGHBORS_12[i],
            ),
    ensures
        jitters.around(x + x_it, y, tiling, seed),
{
    assert forall|i: int| 0 <= i < 12 implies #[trigger] jitters.parts@[i] == cell_jitter(
        x + x_it + NEIGHBORS_12[i].0,
        y + NEIGHBORS_12[i].1,
        tiling,
        seed,
    ) by {
        lemma_neighbor_offsets(i);
        let (ox, oy) = NEIGHBORS_12[i];
        assert(x - 1 + (x_it + ox + 1) == x + x_it + ox);
    }
}

/// Fills one band, cell after cell.
fn sample_band<T: Copy, V, B, R, E, I, P, F>(
    seed: u32,
    grid_data: &GridData<T, 2>,
    kernels: &Kernels<B, R, E>,
    lanes: usize,
    window: &RowWindow,
    jitters: &mut CellJitters,
    y_it: usize,
    y_idx: usize,
    y_next: usize,
    sink: &Sink<I, P, F>,
    state: &mut Vec<T>,
    dst: &mut Vec<T>,
) -> (found: Ghost<Seq<CellTrace<T>>>) where
    B: Fn(&GridData<T, 2>, usize, usize, usize, [(u32, u32); 4]) -> (V, bool, bool),
    R: Fn(&GridData<T, 2>, V, usize, usize, usize, usize, [(u32, u32); 4]) -> V,
    E: Fn(&GridData<T, 2>, V, usize) -> Vec<T>,
    I: Fn(Vec<T>) -> (Vec<Vec<T>>, Vec<T>),
    P: Fn(Vec<Vec<T>>, Vec<T>, Vec<T>) -> (Vec<Vec<T>>, Vec<T>),
    F: Fn(Vec<Vec<T>>, Vec<T>) -> Vec<T>,

    requires
        grid_data.wf(),
        y_it < grid_data.num_loops[1],
        y_idx == cells::run_start(grid_data.grid_indices[1]@, y_it as int),
        y_next == grid_data.grid_indices[1]@[y_it as int],
        lanes > 0,
        window.wf(),
        window.width == grid_data.num_loops[0] + 3,
        window.shows(
            grid_data.grid_start[0] - 1,
            grid_data.grid_start[1] + y_it,
            grid_data.octave_tiling,
            seed,
        ),
        old(jitters).parts@.len() == 12,
        measures::<T, V, B, R, E>(*kernels, *grid_data, lanes as int),
        sink.layout.total_size == grid_data.total_size,
        sink.wf::<T>(lanes as int, old(state).len() as int, old(dst).len() as int),
    ensures
        final(jitters).parts@.len() == 12,
        band_measured::<T, V, B, R, E>(
            *kernels,
            *grid_data,
            seed,
            y_it as int,
            lanes as int,
            found@,
        ),
        sink.takes(
            band_writes(
                grid_data.grid_size[0] as int,
                grid_data.grid_indices[0]@,
                found@,
                lanes as int,
                y_idx as int,
                y_next as int,
                grid_data.num_loops[0] as int,
            ),
            (old(state)@, old(dst)@),
            (final(state)@, final(dst)@),
        ),
        final(state).len() == old(state).len(),
        final(dst).len() == old(dst).len(),
{
    let ghost before = (state@, dst@);
    let ghost width = grid_data.grid_size[0] as int;
    let ghost l = lanes as int;
    let ghost ends = grid_data.grid_indices[0]@;
    let ghost mut made: Seq<CellTrace<T>> = seq![];
    assert(ends.len() == grid_data.num_loops[0]);
    proof {
        assert(grid_data.grid_indices[1]@.len() == grid_data.num_loops[1]);
        bands::lemma_band_inside(
            grid_data.grid_indices[1]@,
            grid_data.grid_size[1] as int,
            y_it as int,
        );
    }
    let mut x_idx: usize = 0;
    let mut x_it: usize = 0;
    while x_it < grid_data.num_loops[0]
        invariant
            grid_data.wf(),
            ends == grid_data.grid_indices[0]@,
            ends.len() == grid_data.num_loops[0],
            width == grid_data.grid_size[0],
            l == lanes,
            y_idx <= y_next <= grid_data.grid_size[1],
            y_idx == cells::run_start(grid_data.grid_indices[1]@, y_it as int),
            y_next == grid_data.grid_indices[1]@[y_it as int],
            lanes > 0,
            window.wf(),
            window.width == grid_data.num_loops[0] + 3,
            window.shows(
                grid_data.grid_start[0] - 1,
                grid_data.grid_start[1] + y_it,
                grid_data.octave_tiling,
                seed,
            ),
            jitters.parts@.len() == 12,
            measures::<T, V, B, R, E>(*kernels, *grid_data, lanes as int),
            sink.layout.total_size == grid_data.total_size,
            state.len() == before.0.len(),
            dst.len() == before.1.len(),
            sink.wf::<T>(lanes as int, before.0.len() as int, before.1.len() as int),
            x_it <= grid_data.num_loops[0],
            x_it < ends.len() ==> x_idx == cells::run_start(ends, x_it as int),
            made.len() == x_it,
            forall|k: int|
                0 <= k < made.len() ==> cell_shaped(
                    ends[k] - cells::run_start(ends, k),
                    y_next - y_idx,
                    l,
                    #[trigger] made[k],
                ),
            forall|k: int|
                0 <= k < made.len() ==> cell_measured::<T, V, B, R, E>(
                    *kernels,
                    *grid_data,
                    seed,
                    k,
                    y_it as int,
                    l,
                    #[trigger] made[k],
                ),
            sink.takes(
                band_writes(width, ends, made, l, y_idx as int, y_next as int, x_it as int),
                before,
                (state@, dst@),
            ),
        decreases grid_data.num_loops[0] - x_it,
    {
        proof {
            bands::lemma_band_inside(ends, width, x_it as int);
        }
        let x_next: usize = grid_data.grid_indices[0][x_it] as usize;
        jitters.write(&window.top, &window.sec, &window.thi, &window.bot, x_it);
        proof {
            lemma_window_around(
                *window,
                *jitters,
                grid_data.grid_start[0] as int,
                grid_data.grid_start[1] + y_it,
                x_it as int,
                grid_data.octave_tiling,
                seed,
            );
        }
        let ghost mid = (state@, dst@);
        grid_cellular_fill(
            grid_data,
            jitters,
            kernels,
            lanes,
            x_idx,
            x_next,
            y_idx,
            y_next,
            sink,
            state,
            dst,
        );
        proof {
            let found = choose|found: CellTrace<T>|
                {
                    &&& cell_shaped(x_next - x_idx, y_next - y_idx, l, found)
                    &&& rows_measured::<T, V, B, R, E>(
                        *kernels,
                        *grid_data,
                        jitters.parts@,
                        x_idx as int,
                        x_next as int,
                        y_idx as int,
                        l,
                        found.rows,
                    )
                    &&& sink.takes(
                        #[trigger] cell_writes(
                            width,
                            x_idx as int,
                            y_idx as int,
                            found.rows,
                            l,
                            y_next - y_idx,
                        ),
                        mid,
                        (state@, dst@),
                    )
                };
            assert(cell_measured::<T, V, B, R, E>(
                *kernels,
                *grid_data,
                seed,
                x_it as int,
                y_it as int,
                l,
                found,
            ));
            let longer = made.push(found);
            lemma_band_writes_prefix(
                width,
                ends,
                made,
                longer,
                l,
                y_idx as int,
                y_next as int,
                x_it as int,
            );
            combine::lemma_applied_concat(
                *sink.combiner,
                sink.pass,
                sink.layout,
                band_writes(width, ends, longer, l, y_idx as int, y_next as int, x_it as int),
                cell_writes(
                    width,
                    x_idx as int,
                    y_idx as int,
                    found.rows,
                    l,
                    y_next - y_idx,
                ),
                before,
                mid,
                (state@, dst@),
            );
            made = longer;
        }
        x_idx = x_next;
        x_it = x_it + 1;
    }
    Ghost(made)
}

/// Fills a plane with one octave of cellular noise, band after band. Each
/// lattice row is hashed once: a window of four rows slides down the lattice.
pub fn sample_grid<T: Copy, V, B, R, E, I, P, F>(
    seed: u32,
    grid_data: &GridData<T, 2>,
    kernels: &Kernels<B, R, E>,
    lanes: usize,
    sink: &Sink<I, P, F>,
    state: &mut Vec<T>,
    dst: &mut Vec<T>,
) where
    B: Fn(&GridData<T, 2>, usize, usize, usize, [(u32, u32); 4]) -> (V, bool, bool),
    R: Fn(&GridData<T, 2>, V, usize, usize, usize, usize, [(u32, u32); 4]) -> V,
    E: Fn(&GridData<T, 2>, V, usize) -> Vec<T>,
    I: Fn(Vec<T>) -> (Vec<Vec<T>>, Vec<T>),
    P: Fn(Vec<Vec<T>>, Vec<T>, Vec<T>) -> (Vec<Vec<T>>, Vec<T>),
    F: Fn(Vec<Vec<T>>, Vec<T>) -> Vec<T>,

    requires
        grid_data.wf(),
        hashable(*grid_data),
        lanes > 0,
        measures::<T, V, B, R, E>(*kernels, *grid_data, lanes as int),
        sink.layout.total_size == grid_data.total_size,
        sink.wf::<T>(lanes as int, old(state).len() as int, old(dst).len() as int),
    ensures
        exists|found: Seq<Seq<CellTrace<T>>>|
            {
                &&& plane_measured::<T, V, B, R, E>(
                    *kernels,
                    *grid_data,
                    seed,
                    lanes as int,
                    found,
                )
                &&& sink.takes(
                    #[trigger] grid_writes(*grid_data, lanes as int, found),
                    (old(state)@, old(dst)@),
                    (final(state)@, final(dst)@),
                )
            },
        final(state).len() == old(state).len(),
        final(dst).len() == old(dst).len(),
{
    let ghost before = (state@, dst@);
    let ghost width = grid_data.grid_size[0] as int;
    let ghost x_ends = grid_data.grid_indices[0]@;
    let ghost y_ends = grid_data.grid_indices[1]@;
    let ghost mut made: Seq<Seq<CellTrace<T>>> = seq![];
    assert(x_ends.len() == grid_data.num_loops[0]);
    assert(y_ends.len() == grid_data.num_loops[1]);
    let lx: i32 = grid_data.grid_start[0] - 1;
    let ly: i32 = grid_data.grid_start[1];
    let mut window = RowWindow::new(grid_data.num_loops[0] + 3);
    let mut jitters = CellJitters::new();
    RowWindow::fill_row(seed, &grid_data.octave_tiling, &mut window.top, ly - 1, lx);
    RowWindow::fill_row(seed, &grid_data.octave_tiling, &mut window.sec, ly, lx);
    RowWindow::fill_row(seed, &grid_data.octave_tiling, &mut window.thi, ly + 1, lx);
    RowWindow::fill_row(seed, &grid_data.octave_tiling, &mut window.bot, ly + 2, lx);
    let mut y_idx: usize = 0;
    let mut y_it: usize = 0;
    while y_it < grid_data.num_loops[1]
        invariant
            grid_data.wf(),
            hashable(*grid_data),
            x_ends == grid_data.grid_indices[0]@,
            x_ends.len() == grid_data.num_loops[0],
            y_ends == grid_data.grid_indices[1]@,
            y_ends.len() == grid_data.num_loops[1],
            width == grid_data.grid_size[0],
            lx == grid_data.grid_start[0] - 1,
            ly == grid_data.grid_start[1],
            lanes > 0,
            window.wf(),
            window.width == grid_data.num_loops[0] + 3,
            window.shows(
                grid_data.grid_start[0] - 1,
                grid_data.grid_start[1] + y_it,
                grid_data.octave_tiling,
                seed,
            ),
            jitters.parts@.len() == 12,
            measures::<T, V, B, R, E>(*kernels, *grid_data, lanes as int),
            sink.layout.total_size == grid_data.total_size,
            state.len() == before.0.len(),
            dst.len() == before.1.len(),
            sink.wf::<T>(lanes as int, before.0.len() as int, before.1.len() as int),
            y_it <= grid_data.num_loops[1],
            y_it < y_ends.len() ==> y_idx == cells::run_start(y_ends, y_it as int),
            made.len() == y_it,
            forall|k: int|
                0 <= k < made.len() ==> band_measured::<T, V, B, R, E>(
                    *kernels,
                    *grid_data,
                    seed,
                    k,
                    lanes as int,
                    #[trigger] made[k],
                ),
            sink.takes(
                plane_writes(width, x_ends, y_ends, made, lanes as int, y_it as int),
                before,
                (state@, dst@),
            ),
        decreases grid_data.num_loops[1] - y_it,
    {
        proof {
            bands::lemma_band_inside(y_ends, grid_data.grid_size[1] as int, y_it as int);
        }
        let y_next: usize = grid_data.grid_indices[1][y_it] as usize;
        let ghost mid = (state@, dst@);
        let Ghost(found) = sample_band(
            seed,
            grid_data,
            kernels,
            lanes,
            &window,
            &mut jitters,
            y_it,
            y_idx,
            y_next,
            sink,
            state,
            dst,
        );
        proof {
            let longer = made.push(found);
            lemma_plane_writes_prefix(
                width,
                x_ends,
                y_ends,
                made,
                longer,
                lanes as int,
                y_it as int,
            );
            combine::lemma_applied_concat(
                *sink.combiner,
                sink.pass,
                sink.layout,
                plane_writes(width, x_ends, y_ends, longer, lanes as int, y_it as int),
                band_writes(
                    width,
                    x_ends,
                    found,
                    lanes as int,
                    y_idx as int,
                    y_next as int,
                    x_ends.len() as int,
                ),
                before,
                mid,
                (state@, dst@),
            );
            made = longer;
        }
        window.swap();
        RowWindow::fill_row(
            seed,
            &grid_data.octave_tiling,
            &mut window.bot,
            ly + y_it as i32 + 3,
            lx,
        );
        y_idx = y_next;
        y_it = y_it + 1;
    }
    assert(sink.takes(grid_writes(*grid_data, lanes as int, made), before, (state@, dst@)));
}

/// The first blocks of a run go over their samples once.
proof fn lemma_run_cover<T>(
    base: int,
    len: int,
    lanes: int,
    blocks: Seq<Vec<T>>,
    count: int,
    n: int,
)
    requires
        lanes > 0,
        0 <= len,
        run_shaped(len, lanes, blocks),
        0 <= count <= blocks.len(),
    ensures
        combine::cover_count(run_writes(base, blocks.take(count), lanes), n) == (if base <= n < base
            + run_filled(len, lanes, count) {
            1int
        } else {
            0int
        }),
    decreases count,
{
    let writes = run_writes(base, blocks.take(count), lanes);
    if count > 0 {
        let b = count - 1;
        let shorter = run_writes(base, blocks.take(b), lanes);
        lemma_run_cover(base, len, lanes, blocks, b, n);
        let w = combine::Write { start: base + b * lanes, value: blocks[b]@ };
        assert(writes =~= shorter.push(w));
        combine::lemma_cover_push(shorter, w, n);
        lemma_block_begins(len, lanes, b);
        assert(blocks[b]@.len() == block_len(len, lanes, b));
        assert((b + 1) * lanes == b * lanes + lanes) by (nonlinear_arith);
    }
}

/// Samples of the first `count` blocks of a run.
spec fn run_filled(len: int, lanes: int, count: int) -> int {
    if count * lanes <= len {
        count * lanes
    } else {
        len
    }
}

/// Every block of a run begins inside the run.
proof fn lemma_block_begins(len: int, lanes: int, b: int)
    requires
        lanes > 0,
        0 <= len,
        0 <= b < block_count(len, lanes),
    ensures
        0 <= b * lanes < len,
{
    lemma_fundamental_div_mod(len, lanes);
    lemma_mod_bound(len, lanes);
    let q = len / lanes;
    assert(0 <= b * lanes) by (nonlinear_arith)
        requires
            0 <= b,
            0 < lanes,
    ;
    if len % lanes > 0 {
        assert(b * lanes <= lanes * q) by (nonlinear_arith)
            requires
                b <= q,
                0 < lanes,
        ;
    } else {
        assert(b * lanes + lanes <= lanes * q) by (nonlinear_arith)
            requires
                b + 1 <= q,
                0 < lanes,
        ;
    }
}

/// The blocks of a run hold all of its samples.
proof fn lemma_run_is_filled(len: int, lanes: int)
    requires
        lanes > 0,
        0 <= len,
    ensures
        run_filled(len, lanes, block_count(len, lanes)) == len,
        0 <= block_count(len, lanes),
{
    lemma_fundamental_div_mod(len, lanes);
    lemma_mod_bound(len, lanes);
    lemma_div_pos_is_pos(len, lanes);
    let q = len / lanes;
    assert(q * lanes == lanes * q) by (nonlinear_arith);
    assert((q + 1) * lanes == lanes * q + lanes) by (nonlinear_arith);
}

/// The first rows of a cell go over their samples once.
proof fn lemma_cell_cover<T>(
    width: int,
    x0: int,
    x1: int,
    y0: int,
    height: int,
    found: CellTrace<T>,
    lanes: int,
    count: int,
    y: int,
    s: int,
)
    requires
        lanes > 0,
        0 <= x0 <= x1 <= width,
        cell_shaped(x1 - x0, height, lanes, found),
        0 <= count <= height,
        0 <= s < width,
    ensures
        combine::cover_count(
            cell_writes(width, x0, y0, found.rows, lanes, count),
            y * width + s,
        ) == (if y0 <= y < y0 + count && x0 <= s < x1 {
            1int
        } else {
            0int
        }),
    decreases count,
{
    if count > 0 {
        let row = y0 + count - 1;
        let blocks = found.rows[count - 1];
        let n = y * width + s;
        assert(run_shaped(x1 - x0, lanes, blocks));
        lemma_cell_cover(width, x0, x1, y0, height, found, lanes, count - 1, y, s);
        lemma_run_is_filled(x1 - x0, lanes);
        lemma_run_cover(
            row * width + x0,
            x1 - x0,
            lanes,
            blocks,
            blocks.len() as int,
            n,
        );
        assert(blocks.take(blocks.len() as int) =~= blocks);
        combine::lemma_cover_concat(
            cell_writes(width, x0, y0, found.rows, lanes, count - 1),
            run_writes(row * width + x0, blocks, lanes),
            n,
        );
        if row * width + x0 <= n < row * width + x1 {
            blending::lemma_same_row(width, y, s, row, n - row * width);
        }
    }
}

/// The first cells of a band go over their samples once.
proof fn lemma_band_cover<T>(
    width: int,
    x_ends: Seq<u32>,
    found: Seq<CellTrace<T>>,
    lanes: int,
    y0: int,
    y1: int,
    count: int,
    y: int,
    s: int,
)
    requires
        lanes > 0,
        cells::cuts(x_ends, width),
        band_shaped(x_ends, y0, y1, lanes, found),
        y0 <= y1,
        0 <= count <= x_ends.len(),
        0 <= s < width,
    ensures
        combine::cover_count(
            band_writes(width, x_ends, found, lanes, y0, y1, count),
            y * width + s,
        ) == (if y0 <= y < y1 && s < cells::run_start(x_ends, count) {
            1int
        } else {
            0int
        }),
    decreases count,
{
    if count > 0 {
        let k = count - 1;
        bands::lemma_band_inside(x_ends, width, k);
        lemma_band_cover(width, x_ends, found, lanes, y0, y1, k, y, s);
        let x0 = cells::run_start(x_ends, k);
        lemma_cell_cover(
            width,
            x0,
            x_ends[k] as int,
            y0,
            y1 - y0,
            found[k],
            lanes,
            y1 - y0,
            y,
            s,
        );
        combine::lemma_cover_concat(
            band_writes(width, x_ends, found, lanes, y0, y1, k),
            cell_writes(width, x0, y0, found[k].rows, lanes, y1 - y0),
            y * width + s,
        );
    }
}

/// The first bands of a plane go over their samples once.
proof fn lemma_plane_cover<T>(
    width: int,
    height: int,
    x_ends: Seq<u32>,
    y_ends: Seq<u32>,
    bands: Seq<Seq<CellTrace<T>>>,
    lanes: int,
    count: int,
    y: int,
    s: int,
)
    requires
        lanes > 0,
        cells::cuts(x_ends, width),
        cells::cuts(y_ends, height),
        plane_shaped(x_ends, y_ends, lanes, bands),
        0 <= count <= y_ends.len(),
        0 <= s < width,
        0 <= y,
    ensures
        combine::cover_count(
            plane_writes(width, x_ends, y_ends, bands, lanes, count),
            y * width + s,
        ) == (if y < cells::run_start(y_ends, count) {
            1int
        } else {
            0int
        }),
    decreases count,
{
    if count > 0 {
        let k = count - 1;
        bands::lemma_band_inside(y_ends, height, k);
        lemma_plane_cover(width, height, x_ends, y_ends, bands, lanes, k, y, s);
        let y0 = cells::run_start(y_ends, k);
        let y1 = y_ends[k] as int;
        let columns = x_ends.len() as int;
        lemma_band_cover(width, x_ends, bands[k], lanes, y0, y1, columns, y, s);
        bands::lemma_band_inside(x_ends, width, columns - 1);
        combine::lemma_cover_concat(
            plane_writes(width, x_ends, y_ends, bands, lanes, k),
            band_writes(width, x_ends, bands[k], lanes, y0, y1, columns),
            y * width + s,
        );
    }
}

/// A plane writes every one of its samples exactly once.
pub proof fn law_every_sample_written_once<T>(
    width: int,
    height: int,
    x_ends: Seq<u32>,
    y_ends: Seq<u32>,
    bands: Seq<Seq<CellTrace<T>>>,
    lanes: int,
    n: int,
)
    requires
        lanes > 0,
        cells::cuts(x_ends, width),
        cells::cuts(y_ends, height),
        plane_shaped(x_ends, y_ends, lanes, bands),
        0 <= width,
        0 <= n < width * height,
    ensures
        combine::cover_count(
            plane_writes(width, x_ends, y_ends, bands, lanes, y_ends.len() as int),
            n,
        ) == 1,
{
    let (y, s) = bands::lemma_place(width, height, n);
    let count = y_ends.len() as int;
    lemma_plane_cover(width, height, x_ends, y_ends, bands, lanes, count, y, s);
    if count > 0 {
        bands::lemma_band_inside(y_ends, height, count - 1);
    }
}

/// The first rows of a cell lie in the output.
proof fn lemma_cell_fits<T>(
    layout: combine::Layout,
    width: int,
    x0: int,
    x1: int,
    y0: int,
    height: int,
    found: CellTrace<T>,
    lanes: int,
    count: int,
)
    requires
        lanes > 0,
        0 <= x0 <= x1 <= width,
        0 <= y0,
        cell_shaped(x1 - x0, height, lanes, found),
        0 <= count <= height,
        (y0 + height) * width <= layout.total_size,
    ensures
        combine::all_fit(layout, lanes, cell_writes(width, x0, y0, found.rows, lanes, count)),
    decreases count,
{
    if count > 0 {
        let row = y0 + count - 1;
        let blocks = found.rows[count - 1];
        let len = x1 - x0;
        let base = row * width + x0;
        assert(run_shaped(len, lanes, blocks));
        lemma_cell_fits(layout, width, x0, x1, y0, height, found, lanes, count - 1);
        assert(0 <= row * width && row * width + width <= (y0 + height) * width)
            by (nonlinear_arith)
            requires
                0 <= row,
                row + 1 <= y0 + height,
                0 <= width,
        ;
        let writes = run_writes(base, blocks, lanes);
        assert forall|b: int| 0 <= b < writes.len() implies combine::fits(
            layout,
            #[trigger] writes[b],
        ) && writes[b].value.len() <= lanes by {
            lemma_block_begins(len, lanes, b);
            assert(blocks[b]@.len() == block_len(len, lanes, b));
        }
        combine::lemma_fit_concat(
            layout,
            lanes,
            cell_writes(width, x0, y0, found.rows, lanes, count - 1),
            writes,
        );
    }
}

/// The first cells of a band lie in the output.
proof fn lemma_band_fits<T>(
    layout: combine::Layout,
    width: int,
    x_ends: Seq<u32>,
    found: Seq<CellTrace<T>>,
    lanes: int,
    y0: int,
    y1: int,
    count: int,
)
    requires
        lanes > 0,
        cells::cuts(x_ends, width),
        band_shaped(x_ends, y0, y1, lanes, found),
        0 <= y0 <= y1,
        0 <= count <= x_ends.len(),
        y1 * width <= layout.total_size,
    ensures
        combine::all_fit(layout, lanes, band_writes(width, x_ends, found, lanes, y0, y1, count)),
    decreases count,
{
    if count > 0 {
        let k = count - 1;
        bands::lemma_band_inside(x_ends, width, k);
        lemma_band_fits(layout, width, x_ends, found, lanes, y0, y1, k);
        let x0 = cells::run_start(x_ends, k);
        let height = y1 - y0;
        assert(y0 + height == y1);
        lemma_cell_fits(
            layout,
            width,
            x0,
            x_ends[k] as int,
            y0,
            height,
            found[k],
            lanes,
            height,
        );
        combine::lemma_fit_concat(
            layout,
            lanes,
            band_writes(width, x_ends, found, lanes, y0, y1, k),
            cell_writes(width, x0, y0, found[k].rows, lanes, height),
        );
    }
}

/// The first bands of a plane lie in the output.
proof fn lemma_plane_fits<T>(
    layout: combine::Layout,
    width: int,
    height: int,
    x_ends: Seq<u32>,
    y_ends: Seq<u32>,
    bands: Seq<Seq<CellTrace<T>>>,
    lanes: int,
    count: int,
)
    requires
        lanes > 0,
        cells::cuts(x_ends, width),
        cells::cuts(y_ends, height),
        plane_shaped(x_ends, y_ends, lanes, bands),
        0 <= width,
        0 <= count <= y_ends.len(),
        layout.total_size == width * height,
    ensures
        combine::all_fit(layout, lanes, plane_writes(width, x_ends, y_ends, bands, lanes, count)),
    decreases count,
{
    if count > 0 {
        let k = count - 1;
        bands::lemma_band_inside(y_ends, height, k);
        lemma_plane_fits(layout, width, height, x_ends, y_ends, bands, lanes, k);
        let y0 = cells::run_start(y_ends, k);
        let y1 = y_ends[k] as int;
        let columns = x_ends.len() as int;
        assert(y1 * width <= width * height) by (nonlinear_arith)
            requires
                0 <= y1 <= height,
                0 <= width,
        ;
        lemma_band_fits(layout, width, x_ends, bands[k], lanes, y0, y1, columns);
        combine::lemma_fit_concat(
            layout,
            lanes,
            plane_writes(width, x_ends, y_ends, bands, lanes, k),
            band_writes(width, x_ends, bands[k], lanes, y0, y1, columns),
        );
    }
}

/// A plane that was filled holds, at every sample, what the combiner makes of
/// the one block that holds the sample and of what the buffers held there
/// before.
pub proof fn law_every_sample_combined_once<T, I, P, F>(
    sink: Sink<I, P, F>,
    width: int,
    height: int,
    x_ends: Seq<u32>,
    y_ends: Seq<u32>,
    bands: Seq<Seq<CellTrace<T>>>,
    lanes: int,
    before: (Seq<T>, Seq<T>),
    after: (Seq<T>, Seq<T>),
    n: int,
) where
    I: Fn(Vec<T>) -> (Vec<Vec<T>>, Vec<T>),
    P: Fn(Vec<Vec<T>>, Vec<T>, Vec<T>) -> (Vec<Vec<T>>, Vec<T>),
    F: Fn(Vec<Vec<T>>, Vec<T>) -> Vec<T>,

    requires
        lanes > 0,
        cells::cuts(x_ends, width),
        cells::cuts(y_ends, height),
        plane_shaped(x_ends, y_ends, lanes, bands),
        0 <= width,
        sink.layout.total_size == width * height,
        sink.wf::<T>(lanes, before.0.len() as int, before.1.len() as int),
        sink.takes(
            plane_writes(width, x_ends, y_ends, bands, lanes, y_ends.len() as int),
            before,
            after,
        ),
        0 <= n < width * height,
    ensures
        combine::combined_at(
            *sink.combiner,
            sink.pass,
            sink.layout,
            plane_writes(width, x_ends, y_ends, bands, lanes, y_ends.len() as int),
            before,
            after,
            n,
        ),
{
    let count = y_ends.len() as int;
    let writes = plane_writes(width, x_ends, y_ends, bands, lanes, count);
    lemma_plane_fits(sink.layout, width, height, x_ends, y_ends, bands, lanes, count);
    assert forall|m: int| 0 <= m < sink.layout.total_size implies #[trigger] combine::cover_count(
        writes,
        m,
    ) == 1 by {
        law_every_sample_written_once(width, height, x_ends, y_ends, bands, lanes, m);
    }
    combine::law_samples_are_combined_once(
        *sink.combiner,
        sink.pass,
        sink.layout,
        lanes,
        writes,
        before,
        after,
        n,
    );
}

impl<B, R, E> Kernels<B, R, E> {
    /// Each kernel gives the same for the same. `same` tells distances apart: the
    /// kernels give the same distances for the same, and the same values.
    pub open spec fn determined<T, V>(
        self,
        grid_data: GridData<T, 2>,
        same: spec_fn(V, V) -> bool,
    ) -> bool where
        B: Fn(&GridData<T, 2>, usize, usize, usize, [(u32, u32); 4]) -> (V, bool, bool),
        R: Fn(&GridData<T, 2>, V, usize, usize, usize, usize, [(u32, u32); 4]) -> V,
        E: Fn(&GridData<T, 2>, V, usize) -> Vec<T>,
     {
        &&& forall|
            y: usize,
            index: usize,
            len: usize,
            four: [(u32, u32); 4],
            r: (V, bool, bool),
            q: (V, bool, bool),
        | #[trigger]
            self.measure.ensures((&grid_data, y, index, len, four), r)
                && #[trigger] self.measure.ensures((&grid_data, y, index, len, four), q) ==> same(
                r.0,
                q.0,
            ) && r.1 == q.1 && r.2 == q.2
        &&& forall|
            v: V,
            w: V,
            y: usize,
            index: usize,
            len: usize,
            first: usize,
            four: [(u32, u32); 4],
            r: V,
            q: V,
        |
            same(v, w) && #[trigger] self.widen.ensures(
                (&grid_data, v, y, index, len, first, four),
                r,
            ) && #[trigger] self.widen.ensures((&grid_data, w, y, index, len, first, four), q)
                ==> same(r, q)
        &&& forall|v: V, w: V, len: usize, r: Vec<T>, q: Vec<T>|
            same(v, w) && #[trigger] self.finish.ensures((&grid_data, v, len), r)
                && #[trigger] self.finish.ensures((&grid_data, w, len), q) ==> r@ == q@
    }
}

/// Determined kernels give the same values for a block.
proof fn lemma_block_agrees<T, V, B, R, E>(
    k: Kernels<B, R, E>,
    grid_data: GridData<T, 2>,
    same: spec_fn(V, V) -> bool,
    parts: Seq<(u32, u32)>,
    y: usize,
    index: usize,
    len: usize,
    value: Vec<T>,
    other: Vec<T>,
) where
    B: Fn(&GridData<T, 2>, usize, usize, usize, [(u32, u32); 4]) -> (V, bool, bool),
    R: Fn(&GridData<T, 2>, V, usize, usize, usize, usize, [(u32, u32); 4]) -> V,
    E: Fn(&GridData<T, 2>, V, usize) -> Vec<T>,

    requires
        k.determined(grid_data, same),
        block_measured::<T, V, B, R, E>(k, grid_data, parts, y, index, len, value),
        block_measured::<T, V, B, R, E>(k, grid_data, parts, y, index, len, other),
    ensures
        value@ == other@,
{
    let (base, near, far) = choose|base: (V, bool, bool), near: V, far: V|
        {
            &&& k.measure.ensures((&grid_data, y, index, len, four_of(parts, 0)), base)
            &&& #[trigger] widened(
                k,
                grid_data,
                parts,
                y,
                index,
                len,
                4,
                base.1,
                base.0,
                near,
            )
            &&& #[trigger] widened(k, grid_data, parts, y, index, len, 8, base.2, near, far)
            &&& k.finish.ensures((&grid_data, far, len), value)
        };
    let (base2, near2, far2) = choose|base: (V, bool, bool), near: V, far: V|
        {
            &&& k.measure.ensures((&grid_data, y, index, len, four_of(parts, 0)), base)
            &&& #[trigger] widened(
                k,
                grid_data,
                parts,
                y,
                index,
                len,
                4,
                base.1,
                base.0,
                near,
            )
            &&& #[trigger] widened(k, grid_data, parts, y, index, len, 8, base.2, near, far)
            &&& k.finish.ensures((&grid_data, far, len), other)
        };
    assert(same(base.0, base2.0) && base.1 == base2.1 && base.2 == base2.2);
    assert(same(near, near2));
    assert(same(far, far2));
}

/// Determined kernels give the same values for the first rows of a cell.
proof fn lemma_cell_agrees<T, V, B, R, E>(
    k: Kernels<B, R, E>,
    grid_data: GridData<T, 2>,
    same: spec_fn(V, V) -> bool,
    parts: Seq<(u32, u32)>,
    x0: int,
    x1: int,
    y0: int,
    height: int,
    lanes: int,
    found: CellTrace<T>,
    other: CellTrace<T>,
    count: int,
) where
    B: Fn(&GridData<T, 2>, usize, usize, usize, [(u32, u32); 4]) -> (V, bool, bool),
    R: Fn(&GridData<T, 2>, V, usize, usize, usize, usize, [(u32, u32); 4]) -> V,
    E: Fn(&GridData<T, 2>, V, usize) -> Vec<T>,

    requires
        k.determined(grid_data, same),
        cell_shaped(x1 - x0, height, lanes, found),
        cell_shaped(x1 - x0, height, lanes, other),
        rows_measured::<T, V, B, R, E>(k, grid_data, parts, x0, x1, y0, lanes, found.rows),
        rows_measured::<T, V, B, R, E>(k, grid_data, parts, x0, x1, y0, lanes, other.rows),
        0 <= count <= height,
    ensures
        cell_writes(grid_data.grid_size[0] as int, x0, y0, found.rows, lanes, count) == cell_writes(
            grid_data.grid_size[0] as int,
            x0,
            y0,
            other.rows,
            lanes,
            count,
        ),
    decreases count,
{
    if count > 0 {
        let n = count - 1;
        let blocks = found.rows[n];
        let others = other.rows[n];
        let base = (y0 + n) * grid_data.grid_size[0] + x0;
        lemma_cell_agrees(
            k,
            grid_data,
            same,
            parts,
            x0,
            x1,
            y0,
            height,
            lanes,
            found,
            other,
            n,
        );
        assert(run_shaped(x1 - x0, lanes, blocks) && run_shaped(x1 - x0, lanes, others));
        assert forall|b: int| 0 <= b < blocks.len() implies (#[trigger] blocks[b])@
            == others[b]@ by {
            lemma_block_agrees::<T, V, B, R, E>(
                k,
                grid_data,
                same,
                parts,
                (y0 + n) as usize,
                (x0 + b * lanes) as usize,
                block_len(x1 - x0, lanes, b) as usize,
                blocks[b],
                others[b],
            );
        }
        assert(run_writes(base, blocks, lanes) =~= run_writes(base, others, lanes));
    }
}

/// Determined kernels give the same values for the first cells of a band.
proof fn lemma_band_agrees<T, V, B, R, E>(
    k: Kernels<B, R, E>,
    grid_data: GridData<T, 2>,
    same: spec_fn(V, V) -> bool,
    seed: u32,
    y_it: int,
    lanes: int,
    found: Seq<CellTrace<T>>,
    other: Seq<CellTrace<T>>,
    count: int,
) where
    B: Fn(&GridData<T, 2>, usize, usize, usize, [(u32, u32); 4]) -> (V, bool, bool),
    R: Fn(&GridData<T, 2>, V, usize, usize, usize, usize, [(u32, u32); 4]) -> V,
    E: Fn(&GridData<T, 2>, V, usize) -> Vec<T>,

    requires
        k.determined(grid_data, same),
        cells::cuts(grid_data.grid_indices[1]@, grid_data.grid_size[1] as int),
        0 <= y_it < grid_data.grid_indices[1]@.len(),
        band_measured::<T, V, B, R, E>(k, grid_data, seed, y_it, lanes, found),
        band_measured::<T, V, B, R, E>(k, grid_data, seed, y_it, lanes, other),
        0 <= count <= found.len(),
    ensures
        ({
            let width = grid_data.grid_size[0] as int;
            let x_ends = grid_data.grid_indices[0]@;
            let y0 = cells::run_start(grid_data.grid_indices[1]@, y_it);
            let y1 = grid_data.grid_indices[1]@[y_it] as int;
            band_writes(width, x_ends, found, lanes, y0, y1, count) == band_writes(
                width,
                x_ends,
                other,
                lanes,
                y0,
                y1,
                count,
            )
        }),
    decreases count,
{
    if count > 0 {
        let x_it = count - 1;
        let x_ends = grid_data.grid_indices[0]@;
        let y_ends = grid_data.grid_indices[1]@;
        let y0 = cells::run_start(y_ends, y_it);
        let x = grid_data.grid_start[0] + x_it;
        let y = grid_data.grid_start[1] + y_it;
        bands::lemma_band_inside(y_ends, grid_data.grid_size[1] as int, y_it);
        lemma_band_agrees::<T, V, B, R, E>(
            k,
            grid_data,
            same,
            seed,
            y_it,
            lanes,
            found,
            other,
            x_it,
        );
        let a = found[x_it];
        let b = other[x_it];
        let x0 = cells::run_start(x_ends, x_it);
        let x1 = x_ends[x_it] as int;
        assert(cell_measured::<T, V, B, R, E>(k, grid_data, seed, x_it, y_it, lanes, a));
        assert(cell_measured::<T, V, B, R, E>(k, grid_data, seed, x_it, y_it, lanes, b));
        let j = choose|j: CellJitters| #[trigger]
            j.around(x, y, grid_data.octave_tiling, seed) && rows_measured::<T, V, B, R, E>(
                k,
                grid_data,
                j.parts@,
                x0,
                x1,
                y0,
                lanes,
                a.rows,
            );
        let i = choose|j: CellJitters| #[trigger]
            j.around(x, y, grid_data.octave_tiling, seed) && rows_measured::<T, V, B, R, E>(
                k,
                grid_data,
                j.parts@,
                x0,
                x1,
                y0,
                lanes,
                b.rows,
            );
        assert(i.parts@ =~= j.parts@);
        lemma_cell_agrees(
            k,
            grid_data,
            same,
            j.parts@,
            x0,
            x1,
            y0,
            y_ends[y_it] - y0,
            lanes,
            a,
            b,
            y_ends[y_it] - y0,
        );
    }
}

/// Determined kernels give the same values for the first bands of a plane.
proof fn lemma_plane_agrees<T, V, B, R, E>(
    k: Kernels<B, R, E>,
    grid_data: GridData<T, 2>,
    same: spec_fn(V, V) -> bool,
    seed: u32,
    lanes: int,
    found: Seq<Seq<CellTrace<T>>>,
    other: Seq<Seq<CellTrace<T>>>,
    count: int,
) where
    B: Fn(&GridData<T, 2>, usize, usize, usize, [(u32, u32); 4]) -> (V, bool, bool),
    R: Fn(&GridData<T, 2>, V, usize, usize, usize, usize, [(u32, u32); 4]) -> V,
    E: Fn(&GridData<T, 2>, V, usize) -> Vec<T>,

    requires
        k.determined(grid_data, same),
        cells::cuts(grid_data.grid_indices[1]@, grid_data.grid_size[1] as int),
        plane_measured::<T, V, B, R, E>(k, grid_data, seed, lanes, found),
        plane_measured::<T, V, B, R, E>(k, grid_data, seed, lanes, other),
        0 <= count <= found.len(),
    ensures
        ({
            let width = grid_data.grid_size[0] as int;
            let x_ends = grid_data.grid_indices[0]@;
            let y_ends = grid_data.grid_indices[1]@;
            plane_writes(width, x_ends, y_ends, found, lanes, count) == plane_writes(
                width,
                x_ends,
                y_ends,
                other,
                lanes,
                count,
            )
        }),
    decreases count,
{
    if count > 0 {
        let y_it = count - 1;
        lemma_plane_agrees::<T, V, B, R, E>(
            k,
            grid_data,
            same,
            seed,
            lanes,
            found,
            other,
            y_it,
        );
        let a = found[y_it];
        let b = other[y_it];
        assert(band_measured::<T, V, B, R, E>(k, grid_data, seed, y_it, lanes, a));
        assert(band_measured::<T, V, B, R, E>(k, grid_data, seed, y_it, lanes, b));
        lemma_band_agrees::<T, V, B, R, E>(
            k,
            grid_data,
            same,
            seed,
            y_it,
            lanes,
            a,
            b,
            grid_data.grid_indices[0]@.len() as int,
        );
    }
}

/// Two runs with the same seed, grid, determined kernels and determined combiner,
/// from equal buffers, leave equal buffers.
pub proof fn law_equal_runs_leave_equal_buffers<T: Copy, V, B, R, E, I, P, F>(
    sink: Sink<I, P, F>,
    k: Kernels<B, R, E>,
    grid_data: GridData<T, 2>,
    same: spec_fn(V, V) -> bool,
    seed: u32,
    lanes: int,
    found: Seq<Seq<CellTrace<T>>>,
    other: Seq<Seq<CellTrace<T>>>,
    before: (Seq<T>, Seq<T>),
    after: (Seq<T>, Seq<T>),
    other_after: (Seq<T>, Seq<T>),
) where
    B: Fn(&GridData<T, 2>, usize, usize, usize, [(u32, u32); 4]) -> (V, bool, bool),
    R: Fn(&GridData<T, 2>, V, usize, usize, usize, usize, [(u32, u32); 4]) -> V,
    E: Fn(&GridData<T, 2>, V, usize) -> Vec<T>,
    I: Fn(Vec<T>) -> (Vec<Vec<T>>, Vec<T>),
    P: Fn(Vec<Vec<T>>, Vec<T>, Vec<T>) -> (Vec<Vec<T>>, Vec<T>),
    F: Fn(Vec<Vec<T>>, Vec<T>) -> Vec<T>,

    requires
        grid_data.wf(),
        k.determined(grid_data, same),
        sink.combiner.determined::<T>(),
        plane_measured::<T, V, B, R, E>(k, grid_data, seed, lanes, found),
        plane_measured::<T, V, B, R, E>(k, grid_data, seed, lanes, other),
        sink.takes(grid_writes(grid_data, lanes, found), before, after),
        sink.takes(grid_writes(grid_data, lanes, other), before, other_after),
    ensures
        after == other_after,
{
    assert(grid_data.grid_indices[1]@.len() == grid_data.num_loops[1]);
    lemma_plane_agrees::<T, V, B, R, E>(
        k,
        grid_data,
        same,
        seed,
        lanes,
        found,
        other,
        found.len() as int,
    );
    combine::law_equal_runs_leave_equal_buffers(
        *sink.combiner,
        sink.pass,
        sink.layout,
        grid_writes(grid_data, lanes, found),
        before,
        after,
        other_after,
    );
}

/// The first octave forgets the buffers: two runs with the same seed, grid,
/// determined kernels and determined combiner leave the same output, whatever
/// the buffers held before, and the same state where it is kept. On an octave
/// that is the last one as well, each run leaves its state as it was.
pub proof fn law_first_octave_forgets_buffers<T: Copy, V, B, R, E, I, P, F>(
    sink: Sink<I, P, F>,
    k: Kernels<B, R, E>,
    grid_data: GridData<T, 2>,
    same: spec_fn(V, V) -> bool,
    seed: u32,
    lanes: int,
    found: Seq<Seq<CellTrace<T>>>,
    other: Seq<Seq<CellTrace<T>>>,
    before: (Seq<T>, Seq<T>),
    after: (Seq<T>, Seq<T>),
    other_before: (Seq<T>, Seq<T>),
    other_after: (Seq<T>, Seq<T>),
) where
    B: Fn(&GridData<T, 2>, usize, usize, usize, [(u32, u32); 4]) -> (V, bool, bool),
    R: Fn(&GridData<T, 2>, V, usize, usize, usize, usize, [(u32, u32); 4]) -> V,
    E: Fn(&GridData<T, 2>, V, usize) -> Vec<T>,
    I: Fn(Vec<T>) -> (Vec<Vec<T>>, Vec<T>),
    P: Fn(Vec<Vec<T>>, Vec<T>, Vec<T>) -> (Vec<Vec<T>>, Vec<T>),
    F: Fn(Vec<Vec<T>>, Vec<T>) -> Vec<T>,

    requires
        sink.pass.init,
        grid_data.wf(),
        lanes > 0,
        k.determined(grid_data, same),
        sink.combiner.determined::<T>(),
        sink.layout.total_size == grid_data.total_size,
        sink.wf::<T>(lanes, before.0.len() as int, before.1.len() as int),
        sink.wf::<T>(lanes, other_before.0.len() as int, other_before.1.len() as int),
        plane_measured::<T, V, B, R, E>(k, grid_data, seed, lanes, found),
        plane_measured::<T, V, B, R, E>(k, grid_data, seed, lanes, other),
        sink.takes(grid_writes(grid_data, lanes, found), before, after),
        sink.takes(grid_writes(grid_data, lanes, other), other_before, other_after),
    ensures
        sink.leaves_alike(before, after, other_before, other_after),
{
    let width = grid_data.grid_size[0] as int;
    let height = grid_data.grid_size[1] as int;
    let x_ends = grid_data.grid_indices[0]@;
    let y_ends = grid_data.grid_indices[1]@;
    let count = y_ends.len() as int;
    let writes = grid_writes(grid_data, lanes, found);
    assert(x_ends.len() == grid_data.num_loops[0]);
    assert(count == grid_data.num_loops[1]);
    bands::lemma_plane_volume(grid_data.grid_size@);
    assert(height * width == width * height) by (nonlinear_arith);
    lemma_plane_agrees::<T, V, B, R, E>(k, grid_data, same, seed, lanes, found, other, count);
    lemma_plane_fits(sink.layout, width, height, x_ends, y_ends, found, lanes, count);
    assert forall|n: int| 0 <= n < sink.layout.total_size implies combine::cover_count(
        writes,
        n,
    ) == 1 by {
        law_every_sample_written_once(width, height, x_ends, y_ends, found, lanes, n);
    }
    combine::law_filled_output_forgets_buffers(
        sink,
        lanes,
        writes,
        before,
        after,
        other_before,
        other_after,
    );
}

/// A window over rows `y - 1` to `y + 2` gives, at each offset that it reaches, the
/// offsets of the cell there: its columns begin one before the cell that is looked
/// at.
pub proof fn law_window_gives_the_cell_at_an_offset(
    window: RowWindow,
    x: int,
    y: int,
    tiling: [Option<u32>; 2],
    seed: u32,
    x_it: int,
    offset: (i32, i32),
)
    requires
        window.wf(),
        window.shows(x, y, tiling, seed),
        -1 <= offset.0 <= 2,
        -1 <= offset.1 <= 2,
        0 <= x_it,
        x_it + 3 < window.width,
    ensures
        neighbor_in(
            window.top@,
            window.sec@,
            window.thi@,
            window.bot@,
            x_it,
            offset,
        ) == cell_jitter(x + 1 + x_it + offset.0, y + offset.1, tiling, seed),
{
    let at = x_it + offset.0 + 1;
    assert(x + at == x + 1 + x_it + offset.0);
    law_row_holds_its_cells(x, y - 1, tiling, seed, window.width as nat, at);
    law_row_holds_its_cells(x, y, tiling, seed, window.width as nat, at);
    law_row_holds_its_cells(x, y + 1, tiling, seed, window.width as nat, at);
    law_row_holds_its_cells(x, y + 2, tiling, seed, window.width as nat, at);
}

/// The twelve offsets around a cell are those of the four cells from it to the one
/// across, then of the cells before those, and then of the cells behind them, all
/// under the whole seed.
pub proof fn law_neighbours_in_order(
    jitters: CellJitters,
    x: int,
    y: int,
    tiling: [Option<u32>; 2],
    seed: u32,
)
    requires
        jitters.around(x, y, tiling, seed),
    ensures
        jitters.parts@ == seq![
            cell_jitter(x, y, tiling, seed),
            cell_jitter(x + 1, y, tiling, seed),
            cell_jitter(x, y + 1, tiling, seed),
            cell_jitter(x + 1, y + 1, tiling, seed),
            cell_jitter(x - 1, y, tiling, seed),
            cell_jitter(x - 1, y + 1, tiling, seed),
            cell_jitter(x, y - 1, tiling, seed),
            cell_jitter(x + 1, y - 1, tiling, seed),
            cell_jitter(x + 2, y, tiling, seed),
            cell_jitter(x + 2, y + 1, tiling, seed),
            cell_jitter(x, y + 2, tiling, seed),
            cell_jitter(x + 1, y + 2, tiling, seed),
        ],
{
    let cells = NEIGHBORS_12;
    assert(cells[0] == (0i32, 0i32) && cells[1] == (1i32, 0i32) && cells[2] == (0i32, 1i32)
        && cells[3] == (1i32, 1i32));
    assert(cells[4] == (-1i32, 0i32) && cells[5] == (-1i32, 1i32) && cells[6] == (0i32, -1i32)
        && cells[7] == (1i32, -1i32));
    assert(cells[8] == (2i32, 0i32) && cells[9] == (2i32, 1i32) && cells[10] == (0i32, 2i32)
        && cells[11] == (1i32, 2i32));
    let all = seq![
        cell_jitter(x, y, tiling, seed),
        cell_jitter(x + 1, y, tiling, seed),
        cell_jitter(x, y + 1, tiling, seed),
        cell_jitter(x + 1, y + 1, tiling, seed),
        cell_jitter(x - 1, y, tiling, seed),
        cell_jitter(x - 1, y + 1, tiling, seed),
        cell_jitter(x, y - 1, tiling, seed),
        cell_jitter(x + 1, y - 1, tiling, seed),
        cell_jitter(x + 2, y, tiling, seed),
        cell_jitter(x + 2, y + 1, tiling, seed),
        cell_jitter(x, y + 2, tiling, seed),
        cell_jitter(x + 1, y + 2, tiling, seed),
    ];
    assert forall|i: int| 0 <= i < 12 implies jitters.parts@[i] == all[i] by {
        assert(jitters.parts@[i] == cell_jitter(x + cells[i].0, y + cells[i].1, tiling, seed));
    }
    assert(jitters.parts@ =~= all);
}

/// A block is measured in steps: against the first four cells; then, if that asked
/// for the cells before, against the next four; then, if it asked for the cells
/// behind, against the last four. What is found last is finished.
pub proof fn law_block_is_measured_in_steps<T, V, B, R, E>(
    k: Kernels<B, R, E>,
    grid_data: GridData<T, 2>,
    parts: Seq<(u32, u32)>,
    y: usize,
    index: usize,
    len: usize,
    value: Vec<T>,
    around: [(u32, u32); 4],
    before: [(u32, u32); 4],
    behind: [(u32, u32); 4],
) where
    B: Fn(&GridData<T, 2>, usize, usize, usize, [(u32, u32); 4]) -> (V, bool, bool),
    R: Fn(&GridData<T, 2>, V, usize, usize, usize, usize, [(u32, u32); 4]) -> V,
    E: Fn(&GridData<T, 2>, V, usize) -> Vec<T>,

    requires
        block_measured::<T, V, B, R, E>(k, grid_data, parts, y, index, len, value),
        around == [parts[0], parts[1], parts[2], parts[3]],
        before == [parts[4], parts[5], parts[6], parts[7]],
        behind == [parts[8], parts[9], parts[10], parts[11]],
    ensures
        exists|base: (V, bool, bool), far: V|
            {
                &&& #[trigger] k.measure.ensures(
                    (&grid_data, y, index, len, around),
                    base,
                )
                &&& #[trigger] k.finish.ensures((&grid_data, far, len), value)
                &&& !base.1 && !base.2 ==> far == base.0
                &&& base.1 && !base.2 ==> k.widen.ensures(
                    (&grid_data, base.0, y, index, len, 4usize, before),
                    far,
                )
                &&& !base.1 && base.2 ==> k.widen.ensures(
                    (&grid_data, base.0, y, index, len, 8usize, behind),
                    far,
                )
                &&& base.1 && base.2 ==> exists|near: V| #[trigger]
                    k.widen.ensures(
                        (&grid_data, base.0, y, index, len, 4usize, before),
                        near,
                    ) && k.widen.ensures(
                        (&grid_data, near, y, index, len, 8usize, behind),
                        far,
                    )
            },
{
    let (base, near, far) = choose|base: (V, bool, bool), near: V, far: V|
        {
            &&& k.measure.ensures((&grid_data, y, index, len, four_of(parts, 0)), base)
            &&& #[trigger] widened(k, grid_data, parts, y, index, len, 4, base.1, base.0, near)
            &&& #[trigger] widened(k, grid_data, parts, y, index, len, 8, base.2, near, far)
            &&& k.finish.ensures((&grid_data, far, len), value)
        };
    assert(k.measure.ensures(
        (&grid_data, y, index, len, around),
        base,
    ));
    assert(k.finish.ensures((&grid_data, far, len), value));
    if base.1 && base.2 {
        assert(k.widen.ensures(
            (&grid_data, base.0, y, index, len, 4usize, before),
            near,
        ));
    }
}

/// A block of a row of a cell is among the blocks of the cell, where its samples
/// lie.
proof fn lemma_cell_block_written<T>(
    width: int,
    x0: int,
    y0: int,
    rows: Seq<Seq<Vec<T>>>,
    lanes: int,
    count: int,
    n: int,
    b: int,
) -> (j: int)
    requires
        0 <= n < count,
        0 <= b < rows[n].len(),
    ensures
        0 <= j < cell_writes(width, x0, y0, rows, lanes, count).len(),
        cell_writes(width, x0, y0, rows, lanes, count)[j] == (combine::Write {
            start: (y0 + n) * width + x0 + b * lanes,
            value: rows[n][b]@,
        }),
    decreases count,
{
    if n == count - 1 {
        cell_writes(width, x0, y0, rows, lanes, count - 1).len() + b
    } else {
        lemma_cell_block_written(width, x0, y0, rows, lanes, count - 1, n, b)
    }
}

/// What a cell writes is among what its band writes.
proof fn lemma_band_block_written<T>(
    width: int,
    x_ends: Seq<u32>,
    found: Seq<CellTrace<T>>,
    lanes: int,
    y0: int,
    y1: int,
    count: int,
    x_it: int,
    m: int,
) -> (j: int)
    requires
        0 <= x_it < count,
        0 <= m < cell_writes(
            width,
            cells::run_start(x_ends, x_it),
            y0,
            found[x_it].rows,
            lanes,
            y1 - y0,
        ).len(),
    ensures
        0 <= j < band_writes(width, x_ends, found, lanes, y0, y1, count).len(),
        band_writes(width, x_ends, found, lanes, y0, y1, count)[j] == cell_writes(
            width,
            cells::run_start(x_ends, x_it),
            y0,
            found[x_it].rows,
            lanes,
            y1 - y0,
        )[m],
    decreases count,
{
    if x_it == count - 1 {
        band_writes(width, x_ends, found, lanes, y0, y1, count - 1).len() + m
    } else {
        lemma_band_block_written(width, x_ends, found, lanes, y0, y1, count - 1, x_it, m)
    }
}

/// What a band writes is among what its plane writes.
proof fn lemma_plane_block_written<T>(
    width: int,
    x_ends: Seq<u32>,
    y_ends: Seq<u32>,
    bands: Seq<Seq<CellTrace<T>>>,
    lanes: int,
    count: int,
    y_it: int,
    m: int,
) -> (j: int)
    requires
        0 <= y_it < count,
        0 <= m < band_writes(
            width,
            x_ends,
            bands[y_it],
            lanes,
            cells::run_start(y_ends, y_it),
            y_ends[y_it] as int,
            x_ends.len() as int,
        ).len(),
    ensures
        0 <= j < plane_writes(width, x_ends, y_ends, bands, lanes, count).len(),
        plane_writes(width, x_ends, y_ends, bands, lanes, count)[j] == band_writes(
            width,
            x_ends,
            bands[y_it],
            lanes,
            cells::run_start(y_ends, y_it),
            y_ends[y_it] as int,
            x_ends.len() as int,
        )[m],
    decreases count,
{
    if y_it == count - 1 {
        plane_writes(width, x_ends, y_ends, bands, lanes, count - 1).len() + m
    } else {
        lemma_plane_block_written(width, x_ends, y_ends, bands, lanes, count - 1, y_it, m)
    }
}

/// Whatever goes over the sample in row `y` and column `s` of a plane was measured
/// for it: a block of its own row, which begins a multiple of the lanes behind the
/// first column of the sample's cell and ends with the cell if not with the lanes,
/// measured against the points around the lattice cell that the sample lies in,
/// scattered under the whole seed.
pub proof fn law_every_sample_is_measured_in_its_cell<T, V, B, R, E>(
    k: Kernels<B, R, E>,
    grid_data: GridData<T, 2>,
    seed: u32,
    lanes: int,
    found: Seq<Seq<CellTrace<T>>>,
    j: int,
    x_it: int,
    y_it: int,
    y: int,
    s: int,
) where
    B: Fn(&GridData<T, 2>, usize, usize, usize, [(u32, u32); 4]) -> (V, bool, bool),
    R: Fn(&GridData<T, 2>, V, usize, usize, usize, usize, [(u32, u32); 4]) -> V,
    E: Fn(&GridData<T, 2>, V, usize) -> Vec<T>,

    requires
        grid_data.wf(),
        lanes > 0,
        plane_measured::<T, V, B, R, E>(k, grid_data, seed, lanes, found),
        cells::in_run(grid_data.grid_indices[0]@, x_it, s),
        cells::in_run(grid_data.grid_indices[1]@, y_it, y),
        0 <= j < grid_writes(grid_data, lanes, found).len(),
        combine::covers(
            grid_writes(grid_data, lanes, found)[j],
            y * grid_data.grid_size[0] + s,
        ),
    ensures
        ({
            let w = grid_writes(grid_data, lanes, found)[j];
            let index = w.start - y * grid_data.grid_size[0];
            let len = w.value.len() as int;
            let x0 = if x_it == 0 {
                0
            } else {
                grid_data.grid_indices[0]@[x_it - 1] as int
            };
            let x1 = grid_data.grid_indices[0]@[x_it] as int;
            &&& x0 <= index <= s < index + len <= x1
            &&& (index - x0) % lanes == 0
            &&& len == lanes || (len < lanes && index + len == x1)
            &&& exists|jitters: CellJitters, value: Vec<T>|
                {
                    &&& #[trigger] jitters.around(
                        grid_data.grid_start[0] + x_it,
                        grid_data.grid_start[1] + y_it,
                        grid_data.octave_tiling,
                        seed,
                    )
                    &&& #[trigger] block_measured::<T, V, B, R, E>(
                        k,
                        grid_data,
                        jitters.parts@,
                        y as usize,
                        index as usize,
                        len as usize,
                        value,
                    )
                    &&& value@ == w.value
                }
        }),
{
    let width = grid_data.grid_size[0] as int;
    let height = grid_data.grid_size[1] as int;
    let x_ends = grid_data.grid_indices[0]@;
    let y_ends = grid_data.grid_indices[1]@;
    assert(x_ends.len() == grid_data.num_loops[0] && y_ends.len() == grid_data.num_loops[1]);
    assert(cells::cuts(x_ends, width) && cells::cuts(y_ends, height));
    bands::lemma_band_inside(x_ends, width, x_it);
    bands::lemma_band_inside(y_ends, height, y_it);
    let x0 = cells::run_start(x_ends, x_it);
    let x1 = x_ends[x_it] as int;
    let y0 = cells::run_start(y_ends, y_it);
    let y1 = y_ends[y_it] as int;
    let band = found[y_it];
    assert(band_measured::<T, V, B, R, E>(k, grid_data, seed, y_it, lanes, band));
    let cell = band[x_it];
    assert(cell_measured::<T, V, B, R, E>(k, grid_data, seed, x_it, y_it, lanes, cell));
    assert(cell_shaped(x1 - x0, y1 - y0, lanes, cell));
    let n = y - y0;
    let blocks = cell.rows[n];
    assert(run_shaped(x1 - x0, lanes, blocks));
    let b = (s - x0) / lanes;
    let r = (s - x0) % lanes;
    lemma_fundamental_div_mod(s - x0, lanes);
    lemma_mod_bound(s - x0, lanes);
    lemma_div_pos_is_pos(s - x0, lanes);
    assert(lanes * b == b * lanes) by (nonlinear_arith);
    lemma_fundamental_div_mod(x1 - x0, lanes);
    lemma_mod_bound(x1 - x0, lanes);
    let full = (x1 - x0) / lanes;
    assert(b <= full) by (nonlinear_arith)
        requires
            lanes * b + r == s - x0,
            lanes * full + (x1 - x0) % lanes == x1 - x0,
            0 <= r,
            s < x1,
            0 <= (x1 - x0) % lanes < lanes,
            lanes > 0,
    ;
    assert(b < block_count(x1 - x0, lanes));
    let m = lemma_cell_block_written(width, x0, y0, cell.rows, lanes, y1 - y0, n, b);
    let mm = lemma_band_block_written(
        width,
        x_ends,
        band,
        lanes,
        y0,
        y1,
        x_ends.len() as int,
        x_it,
        m,
    );
    let jj = lemma_plane_block_written(
        width,
        x_ends,
        y_ends,
        found,
        lanes,
        y_ends.len() as int,
        y_it,
        mm,
    );
    let writes = grid_writes(grid_data, lanes, found);
    assert(writes[jj] == (combine::Write {
        start: (y0 + n) * width + x0 + b * lanes,
        value: blocks[b]@,
    }));
    assert(y0 + n == y);
    assert(blocks[b]@.len() == block_len(x1 - x0, lanes, b));
    lemma_plane_cover(width, height, x_ends, y_ends, found, lanes, y_ends.len() as int, y, s);
    bands::lemma_band_inside(y_ends, height, y_ends.len() - 1);
    combine::lemma_one_cover(writes, j, jj, y * width + s);
    assert(writes[j].start - y * width == x0 + b * lanes);
    lemma_mod_multiples_basic(b, lanes);
    let jitters = choose|jitters: CellJitters|
        #[trigger] jitters.around(
            grid_data.grid_start[0] + x_it,
            grid_data.grid_start[1] + y_it,
            grid_data.octave_tiling,
            seed,
        ) && rows_measured::<T, V, B, R, E>(
            k,
            grid_data,
            jitters.parts@,
            x0,
            x1,
            y0,
            lanes,
            cell.rows,
        );
    assert(run_measured::<T, V, B, R, E>(
        k,
        grid_data,
        jitters.parts@,
        y0 + n,
        x0,
        x1 - x0,
        lanes,
        blocks,
    ));
    assert(block_measured::<T, V, B, R, E>(
        k,
        grid_data,
        jitters.parts@,
        y as usize,
        (x0 + b * lanes) as usize,
        block_len(x1 - x0, lanes, b) as usize,
        blocks[b],
    ));
}

/// Tiled noise repeats: the points of two cells that lie one period apart along
/// the columns or along the rows have the same offsets.
pub proof fn law_noise_tiles(x: int, y: int, tiling: [Option<u32>; 2], seed: u32)
    ensures
        tiling[0] matches Some(t) ==> t as i32 != 0 && i32::MIN <= x <= i32::MAX && i32::MIN <= x
            + (t as i32) <= i32::MAX ==> cell_jitter(x + (t as i32), y, tiling, seed)
            == cell_jitter(x, y, tiling, seed),
        tiling[1] matches Some(t) ==> t as i32 != 0 ==> cell_jitter(
            x,
            y + (t as i32),
            tiling,
            seed,
        ) == cell_jitter(x, y, tiling, seed),
{
    if let Some(t) = tiling[0] {
        if t as i32 != 0 {
            tiling::lemma_wrapped_in_range(x);
            tiling::lemma_wrapped_in_range(x + (t as i32));
            tiling::lemma_tiled_periodic(x, t);
        }
    }
    if let Some(t) = tiling[1] {
        if t as i32 != 0 {
            tiling::lemma_tiled_periodic(y, t);
        }
    }
}

/// Where no axis is tiled, the point of a cell is scattered by the split of the
/// cell's own hash: what calls of [`hash_cell`] and [`split_hash`] give for the
/// cell under the same seed.
pub proof fn law_cells_are_split_by_their_hash(x: i32, y: i32, seed: u32, h: u32, parts: (u32, u32))
    requires
        call_ensures(hash_cell, (x as u32, y as u32, seed), h),
        call_ensures(split_hash, (h,), parts),
    ensures
        cell_jitter(x as int, y as int, [None, None], seed) == parts,
        parts.0 as int == 0x3f80_0000 + h as int % 0x80_0000,
        parts.1 as int == 0x3f80_0000 + h as int / 0x200,
{
    lemma_word_hash(x, seed);
    lemma_word_hash(y, seed);
    law_jitter_is_two_mantissas(h);
    law_cell_jitter_goes_by_place(x as int, y as int, [None, None], seed, x as int, y as int);
}

/// A call leaves in every sample of the plane what the combiner makes of a value that
/// was measured there, under the very seed of the call, and of what the buffers held
/// there before. The last octave leaves the state as it was.
pub proof fn law_call_fills_the_plane<T: Copy, V, B, R, E, I, P, F>(
    seed: u32,
    grid_data: GridData<T, 2>,
    kernels: Kernels<B, R, E>,
    lanes: usize,
    sink: Sink<I, P, F>,
    state: &mut Vec<T>,
    dst: &mut Vec<T>,
    n: int,
) where
    B: Fn(&GridData<T, 2>, usize, usize, usize, [(u32, u32); 4]) -> (V, bool, bool),
    R: Fn(&GridData<T, 2>, V, usize, usize, usize, usize, [(u32, u32); 4]) -> V,
    E: Fn(&GridData<T, 2>, V, usize) -> Vec<T>,
    I: Fn(Vec<T>) -> (Vec<Vec<T>>, Vec<T>),
    P: Fn(Vec<Vec<T>>, Vec<T>, Vec<T>) -> (Vec<Vec<T>>, Vec<T>),
    F: Fn(Vec<Vec<T>>, Vec<T>) -> Vec<T>,

    requires
        grid_data.wf(),
        lanes > 0,
        sink.layout.total_size == grid_data.total_size,
        sink.wf::<T>(lanes as int, old(state)@.len() as int, old(dst)@.len() as int),
        call_ensures(
            sample_grid::<T, V, B, R, E, I, P, F>,
            (seed, &grid_data, &kernels, lanes, &sink, state, dst),
            (),
        ),
        0 <= n < grid_data.total_size,
    ensures
        final(state)@.len() == old(state)@.len(),
        final(dst)@.len() == old(dst)@.len(),
        exists|found: Seq<Seq<CellTrace<T>>>|
            {
                &&& plane_measured::<T, V, B, R, E>(kernels, grid_data, seed, lanes as int, found)
                &&& combine::combined_at(
                    *sink.combiner,
                    sink.pass,
                    sink.layout,
                    #[trigger] grid_writes(grid_data, lanes as int, found),
                    (old(state)@, old(dst)@),
                    (final(state)@, final(dst)@),
                    n,
                )
            },
        sink.pass.last ==> final(state)@ == old(state)@,
{
    let before = (old(state)@, old(dst)@);
    let after = (final(state)@, final(dst)@);
    let found = choose|found: Seq<Seq<CellTrace<T>>>|
        {
            &&& plane_measured::<T, V, B, R, E>(kernels, grid_data, seed, lanes as int, found)
            &&& sink.takes(#[trigger] grid_writes(grid_data, lanes as int, found), before, after)
        };
    let writes = grid_writes(grid_data, lanes as int, found);
    assert(sink.takes(writes, before, after));
    if sink.pass.last {
        combine::law_last_octave_keeps_state(
            *sink.combiner,
            sink.pass,
            sink.layout,
            writes,
            before,
            after,
        );
    }
    assert(grid_data.grid_indices[0]@.len() == grid_data.num_loops[0]);
    assert(grid_data.grid_indices[1]@.len() == grid_data.num_loops[1]);
    crate::grid_data::law_volume_is_the_product_of_the_sides(grid_data.grid_size@);
    law_every_sample_combined_once(
        sink,
        grid_data.grid_size[0] as int,
        grid_data.grid_size[1] as int,
        grid_data.grid_indices[0]@,
        grid_data.grid_indices[1]@,
        found,
        lanes as int,
        before,
        after,
        n,
    );
}

} // verus!

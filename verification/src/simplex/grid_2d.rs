//! Simplex noise on a plane.

use crate::bands;
use crate::blending;
use crate::buffers::filled;
use crate::columns;
use crate::columns::{push_lanes, Columns};
use crate::combine;
use crate::combine::{fill_block, Sink};
use crate::grid_data;
use crate::grid_data::{lattice_bounds, SimplexGridData};
use crate::hash;
use crate::hash::hash_axis;
use crate::lanes::U32x8;
use crate::simplex::batch_2d;
use crate::simplex::batch_2d::{corner_numbers, CornerNumbers};
use crate::simplex::counts;
use crate::simplex::counts::{read_clock, Readings, RowSplitCounts};
use vstd::prelude::*;

verus! {

/// The eight gradients, component by component.
pub struct Gradients<T> {
    pub x: [T; 8],
    pub y: [T; 8],
}

impl<T: Copy> Gradients<T> {
    /// The gradient with a given number.
    pub open spec fn numbered(self, n: u32) -> (T, T) {
        (self.x[n as int], self.y[n as int])
    }

    /// The gradient at the lattice vertex `(i, j)`.
    pub open spec fn at(self, i: int, j: int, seed: u32) -> (T, T) {
        self.numbered(batch_2d::vertex_number(i, j, seed))
    }

    /// The gradient with a given number.
    pub fn get(&self, n: u32) -> (r: (T, T))
        requires
            n < 8,
        ensures
            r == self.numbered(n),
    {
        (self.x[n as usize], self.y[n as usize])
    }

    /// The gradient at one lattice vertex.
    pub fn gradient(&self, i: i32, j: i32, seed: u32) -> (r: (T, T))
        ensures
            r == self.at(i as int, j as int, seed),
    {
        let x_shuf: u32 = hash_axis(i, seed);
        let y_shuf: u32 = hash_axis(j, seed);
        let mix: u32 = x_shuf.wrapping_mul(y_shuf) ^ x_shuf;
        proof {
            batch_2d::law_number_in_table(i as int, j as int, seed);
        }
        self.get(mix >> 29)
    }
}

/// The gradients of a block of lattice vertices, hashed once and kept row by
/// row.
pub struct GradientTable<T> {
    pub gx: Vec<T>,
    pub gy: Vec<T>,
    pub i_min: i32,
    pub j_min: i32,
    pub cols: usize,
    pub rows: usize,
}

impl<T: Copy> GradientTable<T> {
    /// The table has an entry for each vertex of its block.
    pub open spec fn shaped(self) -> bool {
        &&& self.cols <= i32::MAX
        &&& self.rows <= i32::MAX
        &&& self.gx@.len() == self.rows * self.cols
        &&& self.gy@.len() == self.rows * self.cols
    }

    /// The entries are the gradients of the vertices.
    pub open spec fn wf(self, gradients: Gradients<T>, seed: u32) -> bool {
        &&& self.shaped()
        &&& forall|r: int, c: int|
            0 <= r < self.rows && 0 <= c < self.cols ==> #[trigger] entry(
                self.gx@,
                self.gy@,
                self.cols as int,
                r,
                c,
            ) == gradients.at(self.i_min + c, self.j_min + r, seed)
    }

    /// The table reaches from the first lattice column and row of a range to one
    /// past the last.
    pub open spec fn reaches(self, bounds: (i32, i32, i32, i32)) -> bool {
        &&& self.i_min == bounds.0
        &&& self.j_min == bounds.2
        &&& self.cols == bounds.1 - bounds.0 + 2
        &&& self.rows == bounds.3 - bounds.2 + 2
    }

    /// The vertex `(i, j)` is in the table.
    pub open spec fn covers(self, i: int, j: int) -> bool {
        self.i_min <= i < self.i_min + self.cols && self.j_min <= j < self.j_min + self.rows
    }

    /// The entry of a vertex of the table.
    pub fn corner(&self, i: i32, j: i32) -> (r: (T, T))
        requires
            self.shaped(),
            self.covers(i as int, j as int),
        ensures
            r == entry(self.gx@, self.gy@, self.cols as int, j - self.j_min, i - self.i_min),
            forall|gradients: Gradients<T>, seed: u32|
                self.wf(gradients, seed) ==> r == #[trigger] gradients.at(
                    i as int,
                    j as int,
                    seed,
                ),
    {
        let row: usize = (j - self.j_min) as usize;
        let col: usize = (i - self.i_min) as usize;
        proof {
            lemma_entry_inside(self.rows as int, self.cols as int, row as int, col as int);
            assert(self.gx@.len() == self.gx.len());
            assert forall|gradients: Gradients<T>, seed: u32|
                self.wf(gradients, seed) implies entry(
                self.gx@,
                self.gy@,
                self.cols as int,
                row as int,
                col as int,
            ) == #[trigger] gradients.at(i as int, j as int, seed) by {
                assert(entry(self.gx@, self.gy@, self.cols as int, row as int, col as int)
                    == gradients.at(self.i_min + col, self.j_min + row, seed));
            }
        }
        let idx: usize = row * self.cols + col;
        (self.gx[idx], self.gy[idx])
    }
}

/// The gradient in row `r` and column `c` of a table of `cols` columns.
pub open spec fn entry<T>(gx: Seq<T>, gy: Seq<T>, cols: int, r: int, c: int) -> (T, T) {
    (gx[r * cols + c], gy[r * cols + c])
}

proof fn lemma_entry_inside(rows: int, cols: int, r: int, c: int)
    requires
        0 <= r < rows,
        0 <= c < cols,
    ensures
        0 <= r * cols,
        r * cols + c < rows * cols,
{
    assert(0 <= r * cols && r * cols + cols <= rows * cols) by (nonlinear_arith)
        requires
            0 <= r,
            r + 1 <= rows,
            0 <= cols,
    ;
}

/// The gradient numbers of `cols` vertices of one lattice row.
fn number_row(i_min: i32, j: i32, cols: usize, seed: u32) -> (row: Vec<u32>)
    ensures
        row@ == Seq::new(cols as nat, |c: int| batch_2d::vertex_number(i_min + c, j as int, seed)),
{
    let y_shuf = U32x8::splat(hash_axis(j, seed));
    let mut row: Vec<u32> = Vec::new();
    let mut walk = Columns::new(i_min, None, seed);
    let ghost mut at: int = 0;
    while row.len() < cols
        invariant
            y_shuf@ == Seq::new(8, |k: int| hash::axis_hash(j as int, seed)),
            walk.stands(i_min, None, seed, at),
            row.len() == (if at <= cols {
                at
            } else {
                cols as int
            }),
            forall|c: int|
                0 <= c < row.len() ==> #[trigger] row[c] == batch_2d::vertex_number(
                    i_min + c,
                    j as int,
                    seed,
                ),
        decreases cols - row.len(),
    {
        let (x_shuf, ahead) = walk.advance(Ghost(i_min), Ghost(None), Ghost(seed), Ghost(at));
        let numbers = x_shuf.times(&y_shuf).xor(&x_shuf).shifted_right(29);
        let ghost before = row@;
        push_lanes(&mut row, &numbers, cols);
        proof {
            assert forall|c: int| 0 <= c < row.len() implies #[trigger] row[c]
                == batch_2d::vertex_number(i_min + c, j as int, seed) by {
                if c >= before.len() {
                    assert(row[c] == numbers@[c - at]);
                    assert(x_shuf@[c - at] == columns::column_hash(i_min, None, seed, c));
                } else {
                    assert(row[c] == before[c]);
                }
            }
            at = at + 8;
        }
        walk = ahead;
    }
    row
}

/// Hashes a block of lattice vertices, `cols` by `rows` from `(i_min, j_min)`
/// on, and keeps their gradients.
pub fn build_gradient_table<T: Copy>(
    gradients: &Gradients<T>,
    i_min: i32,
    j_min: i32,
    cols: usize,
    rows: usize,
    seed: u32,
) -> (table: GradientTable<T>)
    requires
        cols <= i32::MAX,
        rows <= i32::MAX,
        j_min + rows - 1 <= i32::MAX,
    ensures
        table.wf(*gradients, seed),
        table.i_min == i_min,
        table.j_min == j_min,
        table.cols == cols,
        table.rows == rows,
{
    let mut gx: Vec<T> = Vec::new();
    let mut gy: Vec<T> = Vec::new();
    let mut jv: usize = 0;
    while jv < rows
        invariant
            jv <= rows,
            rows <= i32::MAX,
            j_min + rows - 1 <= i32::MAX,
            gx.len() == jv * cols,
            gy.len() == jv * cols,
            forall|r: int, c: int|
                0 <= r < jv && 0 <= c < cols ==> #[trigger] entry(gx@, gy@, cols as int, r, c)
                    == gradients.at(i_min + c, j_min + r, seed),
        decreases rows - jv,
    {
        let numbers = number_row(i_min, j_min + jv as i32, cols, seed);
        let ghost gx0 = gx@;
        let ghost gy0 = gy@;
        let mut col: usize = 0;
        while col < cols
            invariant
                col <= cols,
                numbers@ == Seq::new(
                    cols as nat,
                    |c: int| batch_2d::vertex_number(i_min + c, j_min + jv, seed),
                ),
                gx0.len() == jv * cols,
                gy0.len() == jv * cols,
                gx.len() == gx0.len() + col,
                gy.len() == gy0.len() + col,
                forall|n: int| 0 <= n < gx0.len() ==> gx[n] == gx0[n],
                forall|n: int| 0 <= n < gy0.len() ==> gy[n] == gy0[n],
                forall|c: int|
                    0 <= c < col ==> #[trigger] entry(gx@, gy@, cols as int, jv as int, c)
                        == gradients.at(i_min + c, j_min + jv, seed),
            decreases cols - col,
        {
            proof {
                batch_2d::law_number_in_table(i_min + col, j_min + jv, seed);
            }
            let ghost gx1 = gx@;
            let ghost gy1 = gy@;
            let (x, y) = gradients.get(numbers[col]);
            gx.push(x);
            gy.push(y);
            proof {
                assert forall|c: int| 0 <= c <= col implies #[trigger] entry(
                    gx@,
                    gy@,
                    cols as int,
                    jv as int,
                    c,
                ) == gradients.at(i_min + c, j_min + jv, seed) by {
                    if c < col {
                        assert(entry(gx1, gy1, cols as int, jv as int, c) == gradients.at(
                            i_min + c,
                            j_min + jv,
                            seed,
                        ));
                        lemma_entry_inside(jv + 1, cols as int, jv as int, c);
                    }
                }
            }
            col = col + 1;
        }
        proof {
            assert((jv + 1) * cols == jv * cols + cols) by (nonlinear_arith);
            assert forall|r: int, c: int| 0 <= r < jv + 1 && 0 <= c < cols implies #[trigger] entry(
                gx@,
                gy@,
                cols as int,
                r,
                c,
            ) == gradients.at(i_min + c, j_min + r, seed) by {
                if r < jv {
                    lemma_entry_inside(jv as int, cols as int, r, c);
                    assert(entry(gx0, gy0, cols as int, r, c) == gradients.at(
                        i_min + c,
                        j_min + r,
                        seed,
                    ));
                }
            }
        }
        jv = jv + 1;
    }
    GradientTable { gx, gy, i_min, j_min, cols, rows }
}

/// Where a sample lies: in which lattice cell, and whether in its upper
/// triangle.
#[derive(Clone, Copy)]
pub struct Place {
    pub i: i32,
    pub j: i32,
    pub upper: bool,
}

/// The gradients at the corners of a triangle: the low corner of its cell, the
/// corner in the middle and the high corner.
pub struct Corners<T> {
    pub lo: (T, T),
    pub mi: (T, T),
    pub hi: (T, T),
}

/// The gradients at the corners of the triangle that a sample lies in.
pub open spec fn corners_at<T: Copy>(gradients: Gradients<T>, seed: u32, p: Place) -> Corners<T> {
    let (i, j) = batch_2d::middle(p.i as int, p.j as int, p.upper);
    Corners {
        lo: gradients.at(p.i as int, p.j as int, seed),
        mi: gradients.at(i, j, seed),
        hi: gradients.at(p.i + 1, p.j + 1, seed),
    }
}

/// All samples of a chunk lie in the same lattice cell.
pub open spec fn uniform(places: [Place; 8]) -> bool {
    forall|k: int|
        0 <= k < 8 ==> (#[trigger] places[k]).i == places[0].i && places[k].j == places[0].j
}

/// All four corners of a cell are in the table.
pub open spec fn tabled<T: Copy>(table: GradientTable<T>, p: Place) -> bool {
    &&& p.i < i32::MAX
    &&& p.j < i32::MAX
    &&& table.covers(p.i as int, p.j as int)
    &&& table.covers(p.i + 1, p.j + 1)
}

/// The gradients for the samples of a chunk.
pub open spec fn corners_found<T: Copy>(
    gradients: Gradients<T>,
    seed: u32,
    places: [Place; 8],
    corners: Seq<Corners<T>>,
) -> bool {
    &&& corners.len() == 8
    &&& forall|k: int|
        0 <= k < 8 ==> #[trigger] corners[k] == corners_at(gradients, seed, places[k])
}

/// Whether all samples of a chunk lie in the same lattice cell.
fn is_uniform(places: &[Place; 8]) -> (r: bool)
    ensures
        r == uniform(*places),
{
    let mut k: usize = 1;
    while k < 8
        invariant
            1 <= k <= 8,
            forall|n: int|
                0 <= n < k ==> (#[trigger] places[n]).i == places[0].i && places[n].j
                    == places[0].j,
        decreases 8 - k,
    {
        if places[k].i != places[0].i || places[k].j != places[0].j {
            assert(!uniform(*places)) by {
                assert(places[k as int].i != places[0].i || places[k as int].j != places[0].j);
            }
            return false;
        }
        k = k + 1;
    }
    true
}

/// Finds the gradients for the samples of a chunk. A chunk that lies in one
/// cell takes them from the table; one that spans several cells hashes every
/// corner. Also says which of the two it was.
pub fn chunk_gradients<T: Copy>(
    table: &GradientTable<T>,
    gradients: &Gradients<T>,
    seed: u32,
    places: &[Place; 8],
) -> (r: (bool, Vec<Corners<T>>))
    requires
        table.wf(*gradients, seed),
        uniform(*places) ==> tabled(*table, places[0]),
    ensures
        r.0 == uniform(*places),
        corners_found(*gradients, seed, *places, r.1@),
{
    if is_uniform(places) {
        let i: i32 = places[0].i;
        let j: i32 = places[0].j;
        let lo = table.corner(i, j);
        let up = table.corner(i + 1, j);
        let lw = table.corner(i, j + 1);
        let hi = table.corner(i + 1, j + 1);
        assert(lo == gradients.at(i as int, j as int, seed));
        assert(up == gradients.at(i + 1, j as int, seed));
        assert(lw == gradients.at(i as int, j + 1, seed));
        assert(hi == gradients.at(i + 1, j + 1, seed));
        let mut corners: Vec<Corners<T>> = Vec::new();
        let mut k: usize = 0;
        while k < 8
            invariant
                k <= 8,
                uniform(*places),
                i == places[0].i,
                j == places[0].j,
                lo == gradients.at(i as int, j as int, seed),
                up == gradients.at(i + 1, j as int, seed),
                lw == gradients.at(i as int, j + 1, seed),
                hi == gradients.at(i + 1, j + 1, seed),
                corners.len() == k,
                forall|n: int|
                    0 <= n < k ==> #[trigger] corners[n] == corners_at(
                        *gradients,
                        seed,
                        places[n],
                    ),
            decreases 8 - k,
        {
            assert(places[k as int].i == i && places[k as int].j == j);
            let mi = if places[k].upper {
                up
            } else {
                lw
            };
            corners.push(Corners { lo, mi, hi });
            k = k + 1;
        }
        (true, corners)
    } else {
        (false, hashed_corners(gradients, seed, places))
    }
}

/// Hashes the corners of the triangle that each sample of a chunk lies in.
pub(crate) fn hashed_corners<T: Copy>(
    gradients: &Gradients<T>,
    seed: u32,
    places: &[Place; 8],
) -> (r: Vec<Corners<T>>)
    ensures
        corners_found(*gradients, seed, *places, r@),
{
    let mut xs: [i32; 8] = [0; 8];
    let mut ys: [i32; 8] = [0; 8];
    let mut upper: [bool; 8] = [false; 8];
    let mut k: usize = 0;
    while k < 8
        invariant
            k <= 8,
            forall|n: int| 0 <= n < k ==> #[trigger] xs[n] == places[n].i,
            forall|n: int| 0 <= n < k ==> #[trigger] ys[n] == places[n].j,
            forall|n: int| 0 <= n < k ==> #[trigger] upper[n] == places[n].upper,
        decreases 8 - k,
    {
        xs[k] = places[k].i;
        ys[k] = places[k].j;
        upper[k] = places[k].upper;
        k = k + 1;
    }
    let found: CornerNumbers = corner_numbers(seed, xs, ys, upper);
    proof {
        assert forall|n: int| 0 <= n < 8 implies #[trigger] found.lo[n] < 8 && found.mi[n] < 8
            && found.hi[n] < 8 by {
            assert(batch_2d::numbered(
                found,
                seed,
                xs[n] as int,
                ys[n] as int,
                upper[n],
                n,
            ));
            let (i, j) = batch_2d::middle(xs[n] as int, ys[n] as int, upper[n]);
            batch_2d::law_number_in_table(xs[n] as int, ys[n] as int, seed);
            batch_2d::law_number_in_table(i, j, seed);
            batch_2d::law_number_in_table(xs[n] + 1, ys[n] + 1, seed);
        }
    }
    let mut r: Vec<Corners<T>> = Vec::new();
    let mut k: usize = 0;
    while k < 8
        invariant
            k <= 8,
            forall|n: int|
                0 <= n < 8 ==> #[trigger] found.lo[n] < 8 && found.mi[n] < 8 && found.hi[n] < 8,
            r.len() == k,
            forall|n: int|
                0 <= n < k ==> #[trigger] r[n] == (Corners {
                    lo: gradients.numbered(found.lo[n]),
                    mi: gradients.numbered(found.mi[n]),
                    hi: gradients.numbered(found.hi[n]),
                }),
        decreases 8 - k,
    {
        assert(found.lo[k as int] < 8);
        r.push(
            Corners {
                lo: gradients.get(found.lo[k]),
                mi: gradients.get(found.mi[k]),
                hi: gradients.get(found.hi[k]),
            },
        );
        k = k + 1;
    }
    proof {
        assert forall|n: int| 0 <= n < 8 implies #[trigger] r[n] == corners_at(
            *gradients,
            seed,
            places[n],
        ) by {
            assert(xs[n] == places[n].i && ys[n] == places[n].j && upper[n] == places[n].upper);
            assert(batch_2d::numbered(
                found,
                seed,
                xs[n] as int,
                ys[n] as int,
                upper[n],
                n,
            ));
        }
    }
    r
}

/// The gradients at the four corners of the cell that a sample lies in.
pub open spec fn four_at<T: Copy>(gradients: Gradients<T>, seed: u32, p: Place) -> [(T, T); 4] {
    [
        gradients.at(p.i as int, p.j as int, seed),
        gradients.at(p.i + 1, p.j as int, seed),
        gradients.at(p.i as int, p.j + 1, seed),
        gradients.at(p.i + 1, p.j + 1, seed),
    ]
}

/// Finds the gradients at the four corners of the cell that one sample lies in.
pub fn sample_gradients<T: Copy>(gradients: &Gradients<T>, seed: u32, p: Place) -> (r: [(
    T,
    T,
); 4])
    requires
        p.i < i32::MAX,
        p.j < i32::MAX,
    ensures
        r == four_at(*gradients, seed, p),
{
    [
        gradients.gradient(p.i, p.j, seed),
        gradients.gradient(p.i + 1, p.j, seed),
        gradients.gradient(p.i, p.j + 1, seed),
        gradients.gradient(p.i + 1, p.j + 1, seed),
    ]
}

/// What is measured off the lattice, for the chunk of eight samples or for the
/// one sample at row `oy` and column `ox` of the output: where the samples lie,
/// and their values once the gradients around them are found.
pub struct Kernels<L, V, M, W> {
    pub locate: L,
    pub value: V,
    pub locate_one: M,
    pub value_one: W,
}

/// What the kernels owe on row `oy`: a value for each of its `width` samples. A
/// chunk that lies in one cell must find the corners of that cell in the table,
/// and a single sample must lie before the last lattice row and column.
pub open spec fn serves<T: Copy, L, V, M, W>(
    k: Kernels<L, V, M, W>,
    table: GradientTable<T>,
    oy: usize,
    width: int,
) -> bool where
    L: Fn(usize, usize) -> [Place; 8],
    V: Fn(usize, usize, [Place; 8], Vec<Corners<T>>) -> Vec<T>,
    M: Fn(usize, usize) -> Place,
    W: Fn(usize, usize, Place, [(T, T); 4]) -> T,
 {
    &&& forall|ox: usize| chunk_at(width, ox) ==> #[trigger] k.locate.requires((oy, ox))
    &&& forall|ox: usize, places: [Place; 8]|
        chunk_at(width, ox) && #[trigger] k.locate.ensures((oy, ox), places) && uniform(places)
            ==> tabled(table, places[0])
    &&& forall|ox: usize, places: [Place; 8], corners: Vec<Corners<T>>|
        chunk_at(width, ox) && k.locate.ensures((oy, ox), places) && corners@.len() == 8
            ==> #[trigger] k.value.requires((oy, ox, places, corners))
    &&& forall|ox: usize, places: [Place; 8], corners: Vec<Corners<T>>, v: Vec<T>|
        chunk_at(width, ox) && k.locate.ensures((oy, ox), places) && corners@.len() == 8
            && #[trigger] k.value.ensures((oy, ox, places, corners), v) ==> v@.len() == 8
    &&& forall|ox: usize| sample_at(width, ox) ==> #[trigger] k.locate_one.requires((oy, ox))
    &&& forall|ox: usize, p: Place|
        sample_at(width, ox) && #[trigger] k.locate_one.ensures((oy, ox), p) ==> p.i < i32::MAX
            && p.j < i32::MAX
    &&& forall|ox: usize, p: Place, g: [(T, T); 4]|
        sample_at(width, ox) && k.locate_one.ensures((oy, ox), p)
            ==> #[trigger] k.value_one.requires((oy, ox, p, g))
}

/// A chunk of a row of `width` samples begins at column `ox`.
pub open spec fn chunk_at(width: int, ox: usize) -> bool {
    ox % 8 == 0 && ox + 8 <= width
}

/// The sample at column `ox` lies behind the last chunk of a row of `width`
/// samples.
pub open spec fn sample_at(width: int, ox: usize) -> bool {
    8 * (width / 8) <= ox < width
}

/// The places and the values of the samples of one row, and the clock readings
/// of its chunks.
pub ghost struct RowTrace<T> {
    pub places: Seq<[Place; 8]>,
    pub values: Seq<Vec<T>>,
    pub readings: Seq<Readings>,
    pub tail_places: Seq<Place>,
    pub tail_values: Seq<T>,
}

/// The values of the chunk at `ox`, from the gradients around its samples.
pub open spec fn chunk_made<T: Copy, L, V, M, W>(
    k: Kernels<L, V, M, W>,
    gradients: Gradients<T>,
    seed: u32,
    oy: usize,
    ox: usize,
    places: [Place; 8],
    value: Vec<T>,
) -> bool where
    L: Fn(usize, usize) -> [Place; 8],
    V: Fn(usize, usize, [Place; 8], Vec<Corners<T>>) -> Vec<T>,
    M: Fn(usize, usize) -> Place,
    W: Fn(usize, usize, Place, [(T, T); 4]) -> T,
 {
    &&& k.locate.ensures((oy, ox), places)
    &&& value@.len() == 8
    &&& exists|corners: Vec<Corners<T>>|
        #[trigger] corners_found(gradients, seed, places, corners@) && k.value.ensures(
            (oy, ox, places, corners),
            value,
        )
}

/// The value of the sample at `ox`, from the gradients around it.
pub open spec fn sample_made<T: Copy, L, V, M, W>(
    k: Kernels<L, V, M, W>,
    gradients: Gradients<T>,
    seed: u32,
    oy: usize,
    ox: usize,
    p: Place,
    value: T,
) -> bool where
    L: Fn(usize, usize) -> [Place; 8],
    V: Fn(usize, usize, [Place; 8], Vec<Corners<T>>) -> Vec<T>,
    M: Fn(usize, usize) -> Place,
    W: Fn(usize, usize, Place, [(T, T); 4]) -> T,
 {
    &&& k.locate_one.ensures((oy, ox), p)
    &&& k.value_one.ensures((oy, ox, p, four_at(gradients, seed, p)), value)
}

/// The row `oy` of the output: as many chunks of eight as fit, and then single
/// samples.
pub open spec fn row_made<T: Copy, L, V, M, W>(
    k: Kernels<L, V, M, W>,
    gradients: Gradients<T>,
    seed: u32,
    oy: usize,
    width: int,
    t: RowTrace<T>,
) -> bool where
    L: Fn(usize, usize) -> [Place; 8],
    V: Fn(usize, usize, [Place; 8], Vec<Corners<T>>) -> Vec<T>,
    M: Fn(usize, usize) -> Place,
    W: Fn(usize, usize, Place, [(T, T); 4]) -> T,
 {
    &&& t.places.len() == width / 8
    &&& t.values.len() == width / 8
    &&& t.tail_places.len() == width % 8
    &&& t.tail_values.len() == width % 8
    &&& forall|c: int|
        0 <= c < t.places.len() ==> chunk_made(
            k,
            gradients,
            seed,
            oy,
            (8 * c) as usize,
            #[trigger] t.places[c],
            t.values[c],
        )
    &&& forall|n: int|
        0 <= n < t.tail_places.len() ==> sample_made(
            k,
            gradients,
            seed,
            oy,
            (8 * (width / 8) + n) as usize,
            #[trigger] t.tail_places[n],
            t.tail_values[n],
        )
}

/// What the chunks of a row write.
pub open spec fn chunk_writes<T>(row_start: int, values: Seq<Vec<T>>) -> Seq<combine::Write<T>> {
    Seq::new(
        values.len(),
        |c: int| combine::Write { start: row_start + 8 * c, value: values[c]@ },
    )
}

/// What single samples from `start` on write.
pub open spec fn sample_writes<T>(start: int, values: Seq<T>) -> Seq<combine::Write<T>> {
    Seq::new(values.len(), |n: int| combine::Write { start: start + n, value: seq![values[n]] })
}

/// What a row writes: its chunks, and then its single samples.
pub open spec fn row_writes<T>(row_start: int, t: RowTrace<T>) -> Seq<combine::Write<T>> {
    chunk_writes(row_start, t.values) + sample_writes(
        row_start + 8 * t.values.len(),
        t.tail_values,
    )
}

/// What the first `count` rows write.
pub open spec fn plane_writes<T>(width: int, rows: Seq<RowTrace<T>>, count: int) -> Seq<
    combine::Write<T>,
>
    decreases count,
{
    if count <= 0 {
        seq![]
    } else {
        plane_writes(width, rows, count - 1) + row_writes((count - 1) * width, rows[count - 1])
    }
}

/// How many chunks lie in one cell.
pub open spec fn uniform_count(places: Seq<[Place; 8]>) -> int
    decreases places.len(),
{
    if places.len() == 0 {
        0
    } else {
        uniform_count(places.drop_last()) + (if uniform(places.last()) {
            1int
        } else {
            0int
        })
    }
}

/// The tallies after the first `count` chunks of a row were timed.
pub open spec fn timed(
    before: RowSplitCounts,
    places: Seq<[Place; 8]>,
    readings: Seq<Readings>,
    count: int,
) -> RowSplitCounts
    decreases count,
{
    if count <= 0 {
        before
    } else {
        counts::chunk_timed(
            timed(before, places, readings, count - 1),
            uniform(places[count - 1]),
            readings[count - 1],
        )
    }
}

/// The tallies after the row: each chunk counts once, as uniform or as
/// fallback, and each single sample counts once; sampled chunks are timed by
/// the clock.
pub open spec fn row_counted<T, K>(
    clock: K,
    before: RowSplitCounts,
    after: RowSplitCounts,
    t: RowTrace<T>,
) -> bool where K: Fn() -> u64 {
    &&& t.readings.len() == t.places.len()
    &&& forall|c: int|
        0 <= c < t.readings.len() ==> counts::chunk_clocked(
            clock,
            timed(before, t.places, t.readings, c),
            #[trigger] t.readings[c],
        )
    &&& after == (RowSplitCounts {
        uniform: (before.uniform + uniform_count(t.places)) as u64,
        fallback: (before.fallback + t.places.len() - uniform_count(t.places)) as u64,
        tail: (before.tail + t.tail_places.len()) as u64,
        ..timed(before, t.places, t.readings, t.places.len() as int)
    })
}

/// Further chunks do not change what the first ones were timed at.
proof fn lemma_timed_prefix(
    before: RowSplitCounts,
    places: Seq<[Place; 8]>,
    readings: Seq<Readings>,
    spots: [Place; 8],
    r: Readings,
    count: int,
)
    requires
        count <= places.len(),
        count <= readings.len(),
    ensures
        timed(before, places.push(spots), readings.push(r), count) == timed(
            before,
            places,
            readings,
            count,
        ),
    decreases count,
{
    if count > 0 {
        lemma_timed_prefix(before, places, readings, spots, r, count - 1);
    }
}

/// Timing counts at most one sample for each chunk, and leaves the other
/// tallies alone.
proof fn lemma_timed_bound(
    before: RowSplitCounts,
    places: Seq<[Place; 8]>,
    readings: Seq<Readings>,
    count: int,
)
    requires
        0 <= count,
        before.samples + count <= u64::MAX,
    ensures
        ({
            let c = timed(before, places, readings, count);
            &&& before.samples <= c.samples <= before.samples + count
            &&& c.uniform == before.uniform
            &&& c.fallback == before.fallback
            &&& c.tail == before.tail
            &&& c.timing == before.timing
            &&& c.sample_every == before.sample_every
        }),
    decreases count,
{
    if count > 0 {
        lemma_timed_bound(before, places, readings, count - 1);
        reveal(counts::chunk_timed);
    }
}

proof fn lemma_uniform_count(places: Seq<[Place; 8]>)
    ensures
        0 <= uniform_count(places) <= places.len(),
    decreases places.len(),
{
    if places.len() > 0 {
        lemma_uniform_count(places.drop_last());
    }
}

/// Every chunk and every single sample of a row is counted once: the tallies
/// of a row add up to its samples.
pub proof fn law_counts_add_up<T: Copy, L, V, M, W, K>(
    k: Kernels<L, V, M, W>,
    clock: K,
    gradients: Gradients<T>,
    seed: u32,
    oy: usize,
    width: int,
    t: RowTrace<T>,
    before: RowSplitCounts,
    after: RowSplitCounts,
) where
    L: Fn(usize, usize) -> [Place; 8],
    V: Fn(usize, usize, [Place; 8], Vec<Corners<T>>) -> Vec<T>,
    M: Fn(usize, usize) -> Place,
    W: Fn(usize, usize, Place, [(T, T); 4]) -> T,
    K: Fn() -> u64,

    requires
        width >= 0,
        row_made(k, gradients, seed, oy, width, t),
        row_counted(clock, before, after, t),
        before.uniform + width <= u64::MAX,
        before.fallback + width <= u64::MAX,
        before.tail + width <= u64::MAX,
    ensures
        8 * (after.uniform - before.uniform) + 8 * (after.fallback - before.fallback) + (after.tail
            - before.tail) == width,
{
    lemma_uniform_count(t.places);
}

/// A chunk is uniform exactly if any two of its samples lie in the same cell.
pub proof fn law_uniform_chunks_lie_in_one_cell(places: [Place; 8])
    ensures
        uniform(places) <==> forall|k: int, l: int|
            0 <= k < 8 && 0 <= l < 8 ==> (#[trigger] places[k]).i == (#[trigger] places[l]).i
                && places[k].j == places[l].j,
{
    if forall|k: int, l: int|
        0 <= k < 8 && 0 <= l < 8 ==> (#[trigger] places[k]).i == (#[trigger] places[l]).i
            && places[k].j == places[l].j {
        let first = places[0];
    }
}

/// A row is tallied chunk by chunk. Each chunk is clocked and timed from the
/// tallies that the one before it left, by whether it is uniform; a chunk that is
/// uniform adds one to those, any other adds one to the fallbacks, and every
/// single sample adds one to the tail.
pub proof fn law_row_is_tallied_chunk_by_chunk<T, K>(
    clock: K,
    before: RowSplitCounts,
    after: RowSplitCounts,
    t: RowTrace<T>,
) where K: Fn() -> u64
    requires
        row_counted(clock, before, after, t),
        before.uniform + t.places.len() <= u64::MAX,
        before.fallback + t.places.len() <= u64::MAX,
        before.tail + t.tail_places.len() <= u64::MAX,
    ensures
        exists|steps: Seq<RowSplitCounts>, uniforms: Seq<int>|
            {
                &&& steps.len() == t.places.len() + 1
                &&& uniforms.len() == t.places.len() + 1
                &&& #[trigger] steps[0] == before
                &&& #[trigger] uniforms[0] == 0
                &&& forall|c: int|
                    0 <= c < t.places.len() ==> {
                        &&& counts::chunk_clocked(clock, steps[c], #[trigger] t.readings[c])
                        &&& steps[c + 1] == counts::chunk_timed(
                            steps[c],
                            uniform(t.places[c]),
                            t.readings[c],
                        )
                        &&& uniforms[c + 1] == uniforms[c] + (if uniform(t.places[c]) {
                            1int
                        } else {
                            0int
                        })
                    }
                &&& after.uniform == before.uniform + uniforms[t.places.len() as int]
                &&& after.fallback == before.fallback + t.places.len() - uniforms[t.places.len()
                    as int]
                &&& after.tail == before.tail + t.tail_places.len()
                &&& after == (RowSplitCounts {
                    uniform: after.uniform,
                    fallback: after.fallback,
                    tail: after.tail,
                    ..steps[t.places.len() as int]
                })
            },
{
    let n = t.places.len();
    let steps = Seq::new(n + 1, |c: int| timed(before, t.places, t.readings, c));
    let uniforms = Seq::new(n + 1, |c: int| uniform_count(t.places.take(c)));
    lemma_uniform_count(t.places);
    assert(t.places.take(n as int) =~= t.places);
    assert forall|c: int| 0 <= c < n implies {
        &&& counts::chunk_clocked(clock, steps[c], #[trigger] t.readings[c])
        &&& steps[c + 1] == counts::chunk_timed(steps[c], uniform(t.places[c]), t.readings[c])
        &&& uniforms[c + 1] == uniforms[c] + (if uniform(t.places[c]) {
            1int
        } else {
            0int
        })
    } by {
        let longer = t.places.take(c + 1);
        assert(longer.drop_last() =~= t.places.take(c));
        assert(longer.last() == t.places[c]);
    }
    assert(steps[0] == before);
    assert(uniforms[0] == 0);
}

/// How a chunk is timed does not depend on the tallies of the paths.
proof fn lemma_timing_apart<K>(
    clock: K,
    c: RowSplitCounts,
    d: RowSplitCounts,
    same: bool,
    r: Readings,
) where K: Fn() -> u64
    requires
        d == (RowSplitCounts { uniform: d.uniform, fallback: d.fallback, ..c }),
        counts::chunk_clocked(clock, d, r),
    ensures
        counts::chunk_clocked(clock, c, r),
        counts::chunk_timed(d, same, r) == (RowSplitCounts {
            uniform: d.uniform,
            fallback: d.fallback,
            ..counts::chunk_timed(c, same, r)
        }),
{
    reveal(counts::chunk_timed);
}

/// The tallies after one chunk: it counts once, and is timed by the clock if it
/// is sampled.
#[verifier::opaque]
spec fn chunk_counted<K>(
    clock: K,
    before: RowSplitCounts,
    after: RowSplitCounts,
    same: bool,
    r: Readings,
) -> bool where K: Fn() -> u64 {
    &&& counts::chunk_clocked(clock, before, r)
    &&& after == (RowSplitCounts {
        uniform: (before.uniform + (if same {
            1int
        } else {
            0int
        })) as u64,
        fallback: (before.fallback + (if same {
            0int
        } else {
            1int
        })) as u64,
        ..counts::chunk_timed(before, same, r)
    })
}

/// The tallies after the chunks of a row.
#[verifier::opaque]
spec fn chunks_counted<K>(
    clock: K,
    before: RowSplitCounts,
    after: RowSplitCounts,
    places: Seq<[Place; 8]>,
    readings: Seq<Readings>,
) -> bool where K: Fn() -> u64 {
    &&& readings.len() == places.len()
    &&& forall|c: int|
        0 <= c < readings.len() ==> counts::chunk_clocked(
            clock,
            timed(before, places, readings, c),
            #[trigger] readings[c],
        )
    &&& after == (RowSplitCounts {
        uniform: (before.uniform + uniform_count(places)) as u64,
        fallback: (before.fallback + places.len() - uniform_count(places)) as u64,
        ..timed(before, places, readings, places.len() as int)
    })
}

/// Nothing is counted before the first chunk.
proof fn lemma_no_chunks_counted<K>(clock: K, before: RowSplitCounts) where K: Fn() -> u64
    ensures
        chunks_counted(clock, before, before, seq![], seq![]),
{
    reveal(chunks_counted);
    let places: Seq<[Place; 8]> = seq![];
    lemma_uniform_count(places);
}

/// One more chunk of a row is counted.
proof fn lemma_chunk_counted<K>(
    clock: K,
    before: RowSplitCounts,
    mid: RowSplitCounts,
    after: RowSplitCounts,
    places: Seq<[Place; 8]>,
    readings: Seq<Readings>,
    spots: [Place; 8],
    r: Readings,
) where K: Fn() -> u64
    requires
        chunks_counted(clock, before, mid, places, readings),
        chunk_counted(clock, mid, after, uniform(spots), r),
        before.uniform + places.len() + 1 <= u64::MAX,
        before.fallback + places.len() + 1 <= u64::MAX,
    ensures
        chunks_counted(clock, before, after, places.push(spots), readings.push(r)),
{
    reveal(chunks_counted);
    reveal(chunk_counted);
    let chunk = places.len() as int;
    let more = places.push(spots);
    let marks = readings.push(r);
    assert(more.drop_last() =~= places);
    lemma_uniform_count(places);
    let timed_before = timed(before, places, readings, chunk);
    lemma_timing_apart(clock, timed_before, mid, uniform(spots), r);
    assert forall|c: int| 0 <= c < marks.len() implies counts::chunk_clocked(
        clock,
        timed(before, more, marks, c),
        #[trigger] marks[c],
    ) by {
        lemma_timed_prefix(before, places, readings, spots, r, c);
        if c < chunk {
            assert(marks[c] == readings[c]);
        }
    }
    lemma_timed_prefix(before, places, readings, spots, r, chunk);
}

/// Each chunk of a row adds at most one to a tally.
proof fn lemma_chunks_counted_bound<K>(
    clock: K,
    before: RowSplitCounts,
    after: RowSplitCounts,
    places: Seq<[Place; 8]>,
    readings: Seq<Readings>,
) where K: Fn() -> u64
    requires
        chunks_counted(clock, before, after, places, readings),
        before.uniform + places.len() <= u64::MAX,
        before.fallback + places.len() <= u64::MAX,
        before.samples + places.len() <= u64::MAX,
    ensures
        after.uniform <= before.uniform + places.len(),
        after.fallback <= before.fallback + places.len(),
        after.samples <= before.samples + places.len(),
        after.tail == before.tail,
        after.timing == before.timing,
{
    reveal(chunks_counted);
    lemma_uniform_count(places);
    lemma_timed_bound(before, places, readings, places.len() as int);
}

/// The tallies of a row whose chunks and whose single samples are counted.
proof fn lemma_row_counted<T, K>(
    clock: K,
    before: RowSplitCounts,
    mid: RowSplitCounts,
    after: RowSplitCounts,
    t: RowTrace<T>,
) where K: Fn() -> u64
    requires
        chunks_counted(clock, before, mid, t.places, t.readings),
        mid.tail == before.tail,
        after == (RowSplitCounts { tail: (mid.tail + t.tail_places.len()) as u64, ..mid }),
    ensures
        row_counted(clock, before, after, t),
{
    reveal(chunks_counted);
}

/// Fills the chunk at column `ox` of row `oy`, counts it and, if it is sampled,
/// times it.
fn fill_chunk<T: Copy, L, V, M, W, K, I, P, F>(
    kernels: &Kernels<L, V, M, W>,
    table: &GradientTable<T>,
    gradients: &Gradients<T>,
    seed: u32,
    oy: usize,
    ox: usize,
    row_width: usize,
    row_start: usize,
    clock: &K,
    counters: &mut RowSplitCounts,
    sink: &Sink<I, P, F>,
    state: &mut Vec<T>,
    dst: &mut Vec<T>,
) -> (made: Ghost<([Place; 8], Vec<T>, Readings)>) where
    L: Fn(usize, usize) -> [Place; 8],
    V: Fn(usize, usize, [Place; 8], Vec<Corners<T>>) -> Vec<T>,
    M: Fn(usize, usize) -> Place,
    W: Fn(usize, usize, Place, [(T, T); 4]) -> T,
    K: Fn() -> u64,
    I: Fn(Vec<T>) -> (Vec<Vec<T>>, Vec<T>),
    P: Fn(Vec<Vec<T>>, Vec<T>, Vec<T>) -> (Vec<Vec<T>>, Vec<T>),
    F: Fn(Vec<Vec<T>>, Vec<T>) -> Vec<T>,

    requires
        table.wf(*gradients, seed),
        serves(*kernels, *table, oy, row_width as int),
        chunk_at(row_width as int, ox),
        old(counters).timing ==> clock.requires(()),
        old(counters).uniform < u64::MAX,
        old(counters).fallback < u64::MAX,
        old(counters).samples < u64::MAX,
        row_start + row_width <= sink.layout.total_size,
        sink.wf::<T>(8, old(state).len() as int, old(dst).len() as int),
    ensures
        chunk_made(*kernels, *gradients, seed, oy, ox, made@.0, made@.1),
        chunk_counted(*clock, *old(counters), *final(counters), uniform(made@.0), made@.2),
        combine::combined(
            *sink.combiner,
            sink.pass,
            sink.layout,
            (combine::Write { start: row_start + ox, value: made@.1@ }),
            (old(state)@, old(dst)@),
            (final(state)@, final(dst)@),
        ),
        final(state).len() == old(state).len(),
        final(dst).len() == old(dst).len(),
{
    let start: u64 = read_clock(clock, counters.is_due());
    let t0: u64 = counters.tick(start);
    let locate = &kernels.locate;
    let spots = locate(oy, ox);
    let (same, corners) = chunk_gradients(table, gradients, seed, &spots);
    if same {
        counters.uniform = counters.uniform + 1;
    } else {
        counters.fallback = counters.fallback + 1;
    }
    let ghost found = corners;
    assert(corners_found(*gradients, seed, spots, found@));
    let compute = &kernels.value;
    let value = compute(oy, ox, spots, corners);
    assert(value@.len() == 8);
    let ghost kept = value;
    assert(chunk_made(*kernels, *gradients, seed, oy, ox, spots, kept));
    let computed: u64 = read_clock(clock, t0 != 0);
    let t1: u64 = counters.compute_done(t0, same, computed);
    assert(combine::combines::<T, I, P, F>(
        *sink.combiner,
        sink.layout.state_size as int,
        value.len() as int,
    ));
    fill_block(sink.combiner, sink.pass, sink.layout, row_start + ox, value, state, dst);
    let filled_at: u64 = read_clock(clock, t1 != 0);
    counters.fill_done(t1, filled_at);
    let done: u64 = read_clock(clock, t0 != 0);
    counters.iter_done(t0, done);
    proof {
        reveal(chunk_counted);
        reveal(counts::chunk_timed);
    }
    Ghost((spots, kept, Readings { start, computed, filled: filled_at, done }))
}

/// Fills one row: chunks of eight while there are eight samples left, and then
/// sample by sample. The clock is read only for sampled chunks.
pub fn simplex_fill_row<T: Copy, L, V, M, W, K, I, P, F>(
    kernels: &Kernels<L, V, M, W>,
    table: &GradientTable<T>,
    gradients: &Gradients<T>,
    seed: u32,
    oy: usize,
    row_width: usize,
    clock: &K,
    counters: &mut RowSplitCounts,
    sink: &Sink<I, P, F>,
    state: &mut Vec<T>,
    dst: &mut Vec<T>,
) where
    L: Fn(usize, usize) -> [Place; 8],
    V: Fn(usize, usize, [Place; 8], Vec<Corners<T>>) -> Vec<T>,
    M: Fn(usize, usize) -> Place,
    W: Fn(usize, usize, Place, [(T, T); 4]) -> T,
    K: Fn() -> u64,
    I: Fn(Vec<T>) -> (Vec<Vec<T>>, Vec<T>),
    P: Fn(Vec<Vec<T>>, Vec<T>, Vec<T>) -> (Vec<Vec<T>>, Vec<T>),
    F: Fn(Vec<Vec<T>>, Vec<T>) -> Vec<T>,

    requires
        table.wf(*gradients, seed),
        serves(*kernels, *table, oy, row_width as int),
        old(counters).timing ==> clock.requires(()),
        old(counters).uniform + row_width <= u64::MAX,
        old(counters).fallback + row_width <= u64::MAX,
        old(counters).tail + row_width <= u64::MAX,
        old(counters).samples + row_width <= u64::MAX,
        (oy + 1) * row_width <= sink.layout.total_size,
        sink.wf::<T>(8, old(state).len() as int, old(dst).len() as int),
    ensures
        exists|t: RowTrace<T>|
            {
                &&& row_made(*kernels, *gradients, seed, oy, row_width as int, t)
                &&& row_counted(*clock, *old(counters), *final(counters), t)
                &&& sink.takes(
                    #[trigger] row_writes(oy * row_width, t),
                    (old(state)@, old(dst)@),
                    (final(state)@, final(dst)@),
                )
            },
        final(state).len() == old(state).len(),
        final(dst).len() == old(dst).len(),
{
    let ghost before = (state@, dst@);
    let ghost counted = *counters;
    let ghost mut places: Seq<[Place; 8]> = seq![];
    let ghost mut values: Seq<Vec<T>> = seq![];
    let ghost mut readings: Seq<Readings> = seq![];
    proof {
        assert((oy + 1) * row_width == oy * row_width + row_width) by (nonlinear_arith);
        assert(0 <= oy * row_width) by (nonlinear_arith);
    }
    let row_start: usize = oy * row_width;
    assert(chunk_writes(row_start as int, values) =~= seq![]);
    proof {
        lemma_no_chunks_counted(*clock, counted);
    }
    let mut ox: usize = 0;
    while row_width - ox >= 8
        invariant
            ox <= row_width,
            table.wf(*gradients, seed),
            serves(*kernels, *table, oy, row_width as int),
            counted.timing ==> clock.requires(()),
            row_start + row_width <= sink.layout.total_size,
            counted.uniform + row_width <= u64::MAX,
            counted.fallback + row_width <= u64::MAX,
            counted.samples + row_width <= u64::MAX,
            state.len() == before.0.len(),
            dst.len() == before.1.len(),
            sink.wf::<T>(8, before.0.len() as int, before.1.len() as int),
            ox == 8 * places.len(),
            values.len() == places.len(),
            chunks_counted(*clock, counted, *counters, places, readings),
            forall|c: int|
                0 <= c < places.len() ==> chunk_made(
                    *kernels,
                    *gradients,
                    seed,
                    oy,
                    (8 * c) as usize,
                    #[trigger] places[c],
                    values[c],
                ),
            sink.takes(chunk_writes(row_start as int, values), before, (state@, dst@)),
        decreases row_width - ox,
    {
        let ghost mid = (state@, dst@);
        let ghost mid_counts = *counters;
        proof {
            lemma_chunks_counted_bound(*clock, counted, *counters, places, readings);
        }
        let Ghost(made) = fill_chunk(
            kernels,
            table,
            gradients,
            seed,
            oy,
            ox,
            row_width,
            row_start,
            clock,
            counters,
            sink,
            state,
            dst,
        );
        proof {
            let (spots, value, r) = made;
            lemma_chunk_counted(
                *clock,
                counted,
                mid_counts,
                *counters,
                places,
                readings,
                spots,
                r,
            );
            combine::lemma_applied_push(
                *sink.combiner,
                sink.pass,
                sink.layout,
                chunk_writes(row_start as int, values),
                (combine::Write { start: row_start + ox, value: value@ }),
                before,
                mid,
                (state@, dst@),
            );
            let longer = values.push(value);
            assert(chunk_writes(row_start as int, values).push(
                (combine::Write { start: row_start + ox, value: value@ }),
            ) =~= chunk_writes(row_start as int, longer));
            values = longer;
            readings = readings.push(r);
            places = places.push(spots);
        }
        ox = ox + 8;
    }
    let ghost chunked = (state@, dst@);
    let ghost chunk_counts = *counters;
    let ghost tail_start = row_start + ox;
    let ghost mut tail_places: Seq<Place> = seq![];
    let ghost mut tail_values: Seq<T> = seq![];
    assert(sample_writes(tail_start, tail_values) =~= seq![]);
    proof {
        lemma_chunks_counted_bound(*clock, counted, *counters, places, readings);
    }
    while ox < row_width
        invariant
            ox <= row_width,
            serves(*kernels, *table, oy, row_width as int),
            row_start + row_width <= sink.layout.total_size,
            counted.tail + row_width <= u64::MAX,
            state.len() == before.0.len(),
            dst.len() == before.1.len(),
            chunked.0.len() == before.0.len(),
            chunked.1.len() == before.1.len(),
            sink.wf::<T>(8, before.0.len() as int, before.1.len() as int),
            places.len() == row_width / 8,
            ox == 8 * places.len() + tail_places.len(),
            tail_start == row_start + 8 * places.len(),
            tail_values.len() == tail_places.len(),
            chunk_counts.tail == counted.tail,
            *counters == (RowSplitCounts {
                tail: (counted.tail + tail_places.len()) as u64,
                ..chunk_counts
            }),
            forall|n: int|
                0 <= n < tail_places.len() ==> sample_made(
                    *kernels,
                    *gradients,
                    seed,
                    oy,
                    (8 * (row_width / 8) + n) as usize,
                    #[trigger] tail_places[n],
                    tail_values[n],
                ),
            sink.takes(sample_writes(tail_start, tail_values), chunked, (state@, dst@)),
        decreases row_width - ox,
    {
        counters.tail = counters.tail + 1;
        let locate_one = &kernels.locate_one;
        let spot = locate_one(oy, ox);
        let four = sample_gradients(gradients, seed, spot);
        let compute_one = &kernels.value_one;
        let value = compute_one(oy, ox, spot, four);
        assert(sample_made(*kernels, *gradients, seed, oy, ox, spot, value));
        let block = filled(value, 1);
        let ghost mid = (state@, dst@);
        let ghost w = combine::Write { start: row_start + ox, value: seq![value] };
        assert(block@ =~= seq![value]);
        assert(combine::combines::<T, I, P, F>(
            *sink.combiner,
            sink.layout.state_size as int,
            block.len() as int,
        ));
        fill_block(sink.combiner, sink.pass, sink.layout, row_start + ox, block, state, dst);
        proof {
            combine::lemma_applied_push(
                *sink.combiner,
                sink.pass,
                sink.layout,
                sample_writes(tail_start, tail_values),
                w,
                chunked,
                mid,
                (state@, dst@),
            );
            let longer = tail_values.push(value);
            assert(sample_writes(tail_start, tail_values).push(w) =~= sample_writes(
                tail_start,
                longer,
            ));
            tail_values = longer;
            tail_places = tail_places.push(spot);
        }
        ox = ox + 1;
    }
    let ghost t = RowTrace { places, values, readings, tail_places, tail_values };
    proof {
        combine::lemma_applied_concat(
            *sink.combiner,
            sink.pass,
            sink.layout,
            chunk_writes(row_start as int, values),
            sample_writes(tail_start, tail_values),
            before,
            chunked,
            (state@, dst@),
        );
        lemma_row_counted(*clock, counted, chunk_counts, *counters, t);
        assert(sink.takes(row_writes(oy * row_width, t), before, (state@, dst@)));
    }
}

/// The rows of the output and the tallies, row after row.
pub open spec fn rows_made<T: Copy, L, V, M, W, K>(
    k: Kernels<L, V, M, W>,
    clock: K,
    gradients: Gradients<T>,
    seed: u32,
    width: int,
    rows: Seq<RowTrace<T>>,
    counts: Seq<RowSplitCounts>,
) -> bool where
    L: Fn(usize, usize) -> [Place; 8],
    V: Fn(usize, usize, [Place; 8], Vec<Corners<T>>) -> Vec<T>,
    M: Fn(usize, usize) -> Place,
    W: Fn(usize, usize, Place, [(T, T); 4]) -> T,
    K: Fn() -> u64,
 {
    &&& counts.len() == rows.len() + 1
    &&& forall|oy: int|
        0 <= oy < rows.len() ==> row_made(
            k,
            gradients,
            seed,
            oy as usize,
            width,
            #[trigger] rows[oy],
        ) && row_counted(clock, counts[oy], counts[oy + 1], rows[oy])
}

proof fn lemma_plane_writes_prefix<T>(
    width: int,
    rows: Seq<RowTrace<T>>,
    longer: Seq<RowTrace<T>>,
    count: int,
)
    requires
        count <= rows.len(),
        rows.len() <= longer.len(),
        forall|k: int| 0 <= k < rows.len() ==> rows[k] == longer[k],
    ensures
        plane_writes(width, rows, count) == plane_writes(width, longer, count),
    decreases count,
{
    if count > 0 {
        lemma_plane_writes_prefix(width, rows, longer, count - 1);
    }
}

/// A row that was counted took no more from the tallies than it has samples.
proof fn lemma_row_counted_bound<T, K>(
    clock: K,
    before: RowSplitCounts,
    after: RowSplitCounts,
    t: RowTrace<T>,
    width: int,
) where K: Fn() -> u64
    requires
        row_counted(clock, before, after, t),
        t.places.len() == width / 8,
        t.tail_places.len() == width % 8,
        0 <= width,
        before.uniform + width <= u64::MAX,
        before.fallback + width <= u64::MAX,
        before.tail + width <= u64::MAX,
        before.samples + width <= u64::MAX,
    ensures
        before.uniform <= after.uniform <= before.uniform + width,
        before.fallback <= after.fallback <= before.fallback + width,
        before.tail <= after.tail <= before.tail + width,
        before.samples <= after.samples <= before.samples + width,
        after.timing == before.timing,
{
    lemma_uniform_count(t.places);
    lemma_timed_bound(before, t.places, t.readings, t.places.len() as int);
}

/// Fills a plane with one octave of simplex noise, row after row. `corners` are
/// the lattice cells at the four corners of the output; the gradients of all
/// vertices between them are hashed once.
pub fn sample_grid<T: Copy, L, V, M, W, K, I, P, F>(
    seed: u32,
    grid_data: &SimplexGridData<T>,
    gradients: &Gradients<T>,
    corners: &[(i32, i32); 4],
    kernels: &Kernels<L, V, M, W>,
    clock: &K,
    counters: &mut RowSplitCounts,
    sink: &Sink<I, P, F>,
    state: &mut Vec<T>,
    dst: &mut Vec<T>,
) where
    L: Fn(usize, usize) -> [Place; 8],
    V: Fn(usize, usize, [Place; 8], Vec<Corners<T>>) -> Vec<T>,
    M: Fn(usize, usize) -> Place,
    W: Fn(usize, usize, Place, [(T, T); 4]) -> T,
    K: Fn() -> u64,
    I: Fn(Vec<T>) -> (Vec<Vec<T>>, Vec<T>),
    P: Fn(Vec<Vec<T>>, Vec<T>, Vec<T>) -> (Vec<Vec<T>>, Vec<T>),
    F: Fn(Vec<Vec<T>>, Vec<T>) -> Vec<T>,

    requires
        grid_data.wf(),
        ({
            let (i_min, i_max, j_min, j_max) = grid_data::lattice_span(*corners);
            i_max - i_min + 2 <= i32::MAX && j_max - j_min + 2 <= i32::MAX && j_max < i32::MAX
        }),
        forall|table: GradientTable<T>, oy: usize|
            table.reaches(grid_data::lattice_span(*corners)) && oy < grid_data.grid_size[1]
                ==> #[trigger] serves(*kernels, table, oy, grid_data.grid_size[0] as int),
        old(counters).timing ==> clock.requires(()),
        old(counters).uniform + grid_data.total_size <= u64::MAX,
        old(counters).fallback + grid_data.total_size <= u64::MAX,
        old(counters).tail + grid_data.total_size <= u64::MAX,
        old(counters).samples + grid_data.total_size <= u64::MAX,
        sink.layout.total_size == grid_data.total_size,
        sink.wf::<T>(8, old(state).len() as int, old(dst).len() as int),
    ensures
        exists|rows: Seq<RowTrace<T>>, counts: Seq<RowSplitCounts>|
            {
                &&& rows.len() == grid_data.grid_size[1]
                &&& #[trigger] rows_made(
                    *kernels,
                    *clock,
                    *gradients,
                    seed,
                    grid_data.grid_size[0] as int,
                    rows,
                    counts,
                )
                &&& counts.first() == *old(counters)
                &&& counts.last() == *final(counters)
                &&& sink.takes(
                    plane_writes(
                        grid_data.grid_size[0] as int,
                        rows,
                        grid_data.grid_size[1] as int,
                    ),
                    (old(state)@, old(dst)@),
                    (final(state)@, final(dst)@),
                )
            },
        final(state).len() == old(state).len(),
        final(dst).len() == old(dst).len(),
{
    let ghost before = (state@, dst@);
    let row_width: usize = grid_data.grid_size[0];
    let height: usize = grid_data.grid_size[1];
    let (i_min, i_max, j_min, j_max): (i32, i32, i32, i32) = lattice_bounds(corners);
    proof {
        grid_data::law_span_is_tight(
            [corners[0].0, corners[1].0, corners[2].0, corners[3].0],
        );
        grid_data::law_span_is_tight(
            [corners[0].1, corners[1].1, corners[2].1, corners[3].1],
        );
    }
    let cols: usize = (i_max as i64 - i_min as i64 + 2) as usize;
    let rows: usize = (j_max as i64 - j_min as i64 + 2) as usize;
    let table = build_gradient_table(gradients, i_min, j_min, cols, rows, seed);
    assert(table.reaches(grid_data::lattice_span(*corners)));
    let ghost mut made: Seq<RowTrace<T>> = seq![];
    let ghost mut counts: Seq<RowSplitCounts> = seq![*counters];
    let ghost counted = *counters;
    let mut oy: usize = 0;
    proof {
        bands::lemma_plane_volume(grid_data.grid_size@);
    }
    while oy < height
        invariant
            oy <= height,
            row_width == grid_data.grid_size[0],
            height == grid_data.grid_size[1],
            grid_data.total_size == height * row_width,
            table.wf(*gradients, seed),
            forall|y: usize|
                y < height ==> #[trigger] serves(*kernels, table, y, row_width as int),
            counted.timing ==> clock.requires(()),
            counters.timing == counted.timing,
            counted.uniform + grid_data.total_size <= u64::MAX,
            counted.fallback + grid_data.total_size <= u64::MAX,
            counted.tail + grid_data.total_size <= u64::MAX,
            counted.samples + grid_data.total_size <= u64::MAX,
            counters.uniform <= counted.uniform + oy * row_width,
            counters.fallback <= counted.fallback + oy * row_width,
            counters.tail <= counted.tail + oy * row_width,
            counters.samples <= counted.samples + oy * row_width,
            sink.layout.total_size == grid_data.total_size,
            state.len() == before.0.len(),
            dst.len() == before.1.len(),
            sink.wf::<T>(8, before.0.len() as int, before.1.len() as int),
            made.len() == oy,
            rows_made(*kernels, *clock, *gradients, seed, row_width as int, made, counts),
            counts.first() == counted,
            counts.last() == *counters,
            sink.takes(plane_writes(row_width as int, made, oy as int), before, (state@, dst@)),
        decreases height - oy,
    {
        let ghost mid = (state@, dst@);
        let ghost counted_before = *counters;
        proof {
            assert((oy + 1) * row_width == oy * row_width + row_width) by (nonlinear_arith);
            assert((oy + 1) * row_width <= height * row_width) by (nonlinear_arith)
                requires
                    oy + 1 <= height,
                    0 <= row_width,
            ;
        }
        simplex_fill_row(
            kernels,
            &table,
            gradients,
            seed,
            oy,
            row_width,
            clock,
            counters,
            sink,
            state,
            dst,
        );
        proof {
            let t = choose|t: RowTrace<T>|
                {
                    &&& row_made(*kernels, *gradients, seed, oy, row_width as int, t)
                    &&& row_counted(*clock, counted_before, *counters, t)
                    &&& sink.takes(#[trigger] row_writes(oy * row_width, t), mid, (state@, dst@))
                };
            lemma_row_counted_bound(*clock, counted_before, *counters, t, row_width as int);
            let longer = made.push(t);
            let more = counts.push(*counters);
            lemma_plane_writes_prefix(row_width as int, made, longer, oy as int);
            combine::lemma_applied_concat(
                *sink.combiner,
                sink.pass,
                sink.layout,
                plane_writes(row_width as int, longer, oy as int),
                row_writes(oy * row_width, t),
                before,
                mid,
                (state@, dst@),
            );
            assert forall|y: int| 0 <= y < longer.len() implies row_made(
                *kernels,
                *gradients,
                seed,
                y as usize,
                row_width as int,
                #[trigger] longer[y],
            ) && row_counted(*clock, more[y], more[y + 1], longer[y]) by {
                if y < made.len() {
                    assert(longer[y] == made[y]);
                }
            }
            made = longer;
            counts = more;
        }
        oy = oy + 1;
    }
}

/// Every row holds a value for each of its samples.
pub open spec fn row_shaped<T>(width: int, t: RowTrace<T>) -> bool {
    &&& t.values.len() == width / 8
    &&& t.tail_values.len() == width % 8
    &&& forall|c: int| 0 <= c < t.values.len() ==> (#[trigger] t.values[c])@.len() == 8
}

/// The chunks of a row go over their samples once.
proof fn lemma_chunk_cover<T>(row_start: int, values: Seq<Vec<T>>, n: int)
    requires
        forall|c: int| 0 <= c < values.len() ==> (#[trigger] values[c])@.len() == 8,
    ensures
        combine::cover_count(chunk_writes(row_start, values), n) == (if row_start <= n < row_start
            + 8 * values.len() {
            1int
        } else {
            0int
        }),
    decreases values.len(),
{
    if values.len() > 0 {
        let shorter = values.drop_last();
        let w = combine::Write { start: row_start + 8 * shorter.len(), value: values.last()@ };
        assert forall|c: int| 0 <= c < shorter.len() implies (#[trigger] shorter[c])@.len()
            == 8 by {
            assert(shorter[c] == values[c]);
        }
        assert(values[values.len() - 1]@.len() == 8);
        lemma_chunk_cover(row_start, shorter, n);
        assert(chunk_writes(row_start, values) =~= chunk_writes(row_start, shorter).push(w));
        combine::lemma_cover_push(chunk_writes(row_start, shorter), w, n);
    }
}

/// Single samples go over themselves once.
proof fn lemma_sample_cover<T>(start: int, values: Seq<T>, n: int)
    ensures
        combine::cover_count(sample_writes(start, values), n) == (if start <= n < start
            + values.len() {
            1int
        } else {
            0int
        }),
    decreases values.len(),
{
    if values.len() > 0 {
        let shorter = values.drop_last();
        let w = combine::Write { start: start + shorter.len(), value: seq![values.last()] };
        lemma_sample_cover(start, shorter, n);
        assert(sample_writes(start, values) =~= sample_writes(start, shorter).push(w));
        combine::lemma_cover_push(sample_writes(start, shorter), w, n);
    }
}

/// The first rows go over their samples once.
proof fn lemma_plane_cover<T>(
    width: int,
    rows: Seq<RowTrace<T>>,
    count: int,
    y: int,
    s: int,
)
    requires
        forall|k: int| 0 <= k < rows.len() ==> row_shaped(width, #[trigger] rows[k]),
        0 <= count <= rows.len(),
        0 <= s < width,
        0 <= y,
    ensures
        combine::cover_count(plane_writes(width, rows, count), y * width + s) == (if y < count {
            1int
        } else {
            0int
        }),
    decreases count,
{
    if count > 0 {
        let k = count - 1;
        let n = y * width + s;
        let t = rows[k];
        lemma_plane_cover(width, rows, k, y, s);
        lemma_chunk_cover(k * width, t.values, n);
        lemma_sample_cover(k * width + 8 * t.values.len(), t.tail_values, n);
        combine::lemma_cover_concat(
            chunk_writes(k * width, t.values),
            sample_writes(k * width + 8 * t.values.len(), t.tail_values),
            n,
        );
        combine::lemma_cover_concat(
            plane_writes(width, rows, k),
            row_writes(k * width, t),
            n,
        );
        if k * width <= n < k * width + width {
            blending::lemma_same_row(width, y, s, k, n - k * width);
        }
    }
}

/// A plane writes every one of its samples exactly once.
pub proof fn law_every_sample_written_once<T>(
    width: int,
    rows: Seq<RowTrace<T>>,
    n: int,
)
    requires
        forall|k: int| 0 <= k < rows.len() ==> row_shaped(width, #[trigger] rows[k]),
        0 <= width,
        0 <= n < width * rows.len(),
    ensures
        combine::cover_count(plane_writes(width, rows, rows.len() as int), n) == 1,
{
    let (y, s) = bands::lemma_place(width, rows.len() as int, n);
    lemma_plane_cover(width, rows, rows.len() as int, y, s);
}

/// The first rows lie in the output.
proof fn lemma_plane_fits<T>(
    layout: combine::Layout,
    width: int,
    rows: Seq<RowTrace<T>>,
    count: int,
)
    requires
        forall|k: int| 0 <= k < rows.len() ==> row_shaped(width, #[trigger] rows[k]),
        0 <= count <= rows.len(),
        0 <= width,
        layout.total_size == width * rows.len(),
    ensures
        combine::all_fit(layout, 8, plane_writes(width, rows, count)),
    decreases count,
{
    if count > 0 {
        let k = count - 1;
        let t = rows[k];
        let start = k * width;
        assert(row_shaped(width, t));
        lemma_plane_fits(layout, width, rows, k);
        assert(0 <= start && start + width <= width * rows.len()) by (nonlinear_arith)
            requires
                start == k * width,
                0 <= k,
                k + 1 <= rows.len(),
                0 <= width,
        ;
        let chunks = chunk_writes(start, t.values);
        let samples = sample_writes(start + 8 * t.values.len(), t.tail_values);
        assert forall|c: int| 0 <= c < chunks.len() implies combine::fits(
            layout,
            #[trigger] chunks[c],
        ) && chunks[c].value.len() <= 8 by {
            assert(t.values[c]@.len() == 8);
        }
        assert forall|c: int| 0 <= c < samples.len() implies combine::fits(
            layout,
            #[trigger] samples[c],
        ) && samples[c].value.len() <= 8 by {
        }
        combine::lemma_fit_concat(layout, 8, chunks, samples);
        combine::lemma_fit_concat(layout, 8, plane_writes(width, rows, k), row_writes(start, t));
    }
}

/// The rows that were filled hold all of their samples.
proof fn lemma_rows_shaped<T: Copy, L, V, M, W, K>(
    k: Kernels<L, V, M, W>,
    clock: K,
    gradients: Gradients<T>,
    seed: u32,
    width: int,
    rows: Seq<RowTrace<T>>,
    counts: Seq<RowSplitCounts>,
) where
    L: Fn(usize, usize) -> [Place; 8],
    V: Fn(usize, usize, [Place; 8], Vec<Corners<T>>) -> Vec<T>,
    M: Fn(usize, usize) -> Place,
    W: Fn(usize, usize, Place, [(T, T); 4]) -> T,
    K: Fn() -> u64,

    requires
        rows_made(k, clock, gradients, seed, width, rows, counts),
    ensures
        forall|oy: int| 0 <= oy < rows.len() ==> row_shaped(width, #[trigger] rows[oy]),
{
    assert forall|oy: int| 0 <= oy < rows.len() implies row_shaped(width, #[trigger] rows[oy]) by {
        let t = rows[oy];
        assert(row_made(k, gradients, seed, oy as usize, width, t));
        assert forall|c: int| 0 <= c < t.values.len() implies (#[trigger] t.values[c])@.len()
            == 8 by {
            let places = t.places[c];
        }
    }
}

/// A plane that was filled holds, at every sample, what the combiner makes of
/// the one chunk that holds the sample, or of the sample by itself, and of what
/// the buffers held there before.
pub proof fn law_every_sample_combined_once<T: Copy, L, V, M, W, K, I, P, F>(
    sink: Sink<I, P, F>,
    k: Kernels<L, V, M, W>,
    clock: K,
    gradients: Gradients<T>,
    seed: u32,
    width: int,
    rows: Seq<RowTrace<T>>,
    counts: Seq<RowSplitCounts>,
    before: (Seq<T>, Seq<T>),
    after: (Seq<T>, Seq<T>),
    n: int,
) where
    L: Fn(usize, usize) -> [Place; 8],
    V: Fn(usize, usize, [Place; 8], Vec<Corners<T>>) -> Vec<T>,
    M: Fn(usize, usize) -> Place,
    W: Fn(usize, usize, Place, [(T, T); 4]) -> T,
    K: Fn() -> u64,
    I: Fn(Vec<T>) -> (Vec<Vec<T>>, Vec<T>),
    P: Fn(Vec<Vec<T>>, Vec<T>, Vec<T>) -> (Vec<Vec<T>>, Vec<T>),
    F: Fn(Vec<Vec<T>>, Vec<T>) -> Vec<T>,

    requires
        0 <= width,
        rows_made(k, clock, gradients, seed, width, rows, counts),
        sink.layout.total_size == width * rows.len(),
        sink.wf::<T>(8, before.0.len() as int, before.1.len() as int),
        sink.takes(plane_writes(width, rows, rows.len() as int), before, after),
        0 <= n < width * rows.len(),
    ensures
        combine::combined_at(
            *sink.combiner,
            sink.pass,
            sink.layout,
            plane_writes(width, rows, rows.len() as int),
            before,
            after,
            n,
        ),
{
    let writes = plane_writes(width, rows, rows.len() as int);
    lemma_rows_shaped(k, clock, gradients, seed, width, rows, counts);
    lemma_plane_fits(sink.layout, width, rows, rows.len() as int);
    assert forall|m: int| 0 <= m < sink.layout.total_size implies #[trigger] combine::cover_count(
        writes,
        m,
    ) == 1 by {
        law_every_sample_written_once(width, rows, m);
    }
    combine::law_samples_are_combined_once(
        *sink.combiner,
        sink.pass,
        sink.layout,
        8,
        writes,
        before,
        after,
        n,
    );
}

impl<L, V, M, W> Kernels<L, V, M, W> {
    /// Each kernel gives the same for the same.
    pub open spec fn determined<T: Copy>(self) -> bool where
        L: Fn(usize, usize) -> [Place; 8],
        V: Fn(usize, usize, [Place; 8], Vec<Corners<T>>) -> Vec<T>,
        M: Fn(usize, usize) -> Place,
        W: Fn(usize, usize, Place, [(T, T); 4]) -> T,
     {
        &&& forall|oy: usize, ox: usize, r: [Place; 8], q: [Place; 8]| #[trigger]
            self.locate.ensures((oy, ox), r) && #[trigger] self.locate.ensures((oy, ox), q)
                ==> r == q
        &&& forall|
            oy: usize,
            ox: usize,
            places: [Place; 8],
            c: Vec<Corners<T>>,
            d: Vec<Corners<T>>,
            r: Vec<T>,
            q: Vec<T>,
        |
            c@ == d@ && #[trigger] self.value.ensures((oy, ox, places, c), r)
                && #[trigger] self.value.ensures((oy, ox, places, d), q) ==> r@ == q@
        &&& forall|oy: usize, ox: usize, r: Place, q: Place| #[trigger]
            self.locate_one.ensures((oy, ox), r) && #[trigger] self.locate_one.ensures(
                (oy, ox),
                q,
            ) ==> r == q
        &&& forall|oy: usize, ox: usize, p: Place, g: [(T, T); 4], r: T, q: T| #[trigger]
            self.value_one.ensures((oy, ox, p, g), r) && #[trigger] self.value_one.ensures(
                (oy, ox, p, g),
                q,
            ) ==> r == q
    }
}

/// Determined kernels give the same values for a row.
proof fn lemma_row_agrees<T: Copy, L, V, M, W>(
    k: Kernels<L, V, M, W>,
    gradients: Gradients<T>,
    seed: u32,
    oy: usize,
    width: int,
    row_start: int,
    t: RowTrace<T>,
    other: RowTrace<T>,
) where
    L: Fn(usize, usize) -> [Place; 8],
    V: Fn(usize, usize, [Place; 8], Vec<Corners<T>>) -> Vec<T>,
    M: Fn(usize, usize) -> Place,
    W: Fn(usize, usize, Place, [(T, T); 4]) -> T,

    requires
        0 <= width,
        k.determined::<T>(),
        row_made(k, gradients, seed, oy, width, t),
        row_made(k, gradients, seed, oy, width, other),
    ensures
        row_writes(row_start, t) == row_writes(row_start, other),
{
    assert forall|c: int| 0 <= c < t.values.len() implies (#[trigger] t.values[c])@
        == other.values[c]@ by {
        let places = t.places[c];
        let others = other.places[c];
        let ox = (8 * c) as usize;
        assert(chunk_made(k, gradients, seed, oy, ox, places, t.values[c]));
        assert(chunk_made(k, gradients, seed, oy, ox, others, other.values[c]));
        assert(places == others);
        let corners = choose|corners: Vec<Corners<T>>| #[trigger]
            corners_found(gradients, seed, places, corners@) && k.value.ensures(
                (oy, ox, places, corners),
                t.values[c],
            );
        let found = choose|corners: Vec<Corners<T>>| #[trigger]
            corners_found(gradients, seed, places, corners@) && k.value.ensures(
                (oy, ox, places, corners),
                other.values[c],
            );
        assert(corners@ =~= found@);
    }
    assert forall|n: int| 0 <= n < t.tail_values.len() implies #[trigger] t.tail_values[n]
        == other.tail_values[n] by {
        let p = t.tail_places[n];
        let q = other.tail_places[n];
        let ox = (8 * (width / 8) + n) as usize;
        assert(sample_made(k, gradients, seed, oy, ox, p, t.tail_values[n]));
        assert(sample_made(k, gradients, seed, oy, ox, q, other.tail_values[n]));
        assert(p == q);
    }
    let start = row_start + 8 * t.values.len();
    assert(chunk_writes(row_start, t.values) =~= chunk_writes(row_start, other.values));
    assert(t.tail_values =~= other.tail_values);
}

/// Determined kernels give the same values for the first rows of a plane.
proof fn lemma_plane_agrees<T: Copy, L, V, M, W, K, H>(
    k: Kernels<L, V, M, W>,
    gradients: Gradients<T>,
    seed: u32,
    width: int,
    clock: K,
    rows: Seq<RowTrace<T>>,
    counts: Seq<RowSplitCounts>,
    other_clock: H,
    others: Seq<RowTrace<T>>,
    other_counts: Seq<RowSplitCounts>,
    count: int,
) where
    L: Fn(usize, usize) -> [Place; 8],
    V: Fn(usize, usize, [Place; 8], Vec<Corners<T>>) -> Vec<T>,
    M: Fn(usize, usize) -> Place,
    W: Fn(usize, usize, Place, [(T, T); 4]) -> T,
    K: Fn() -> u64,
    H: Fn() -> u64,

    requires
        0 <= width,
        k.determined::<T>(),
        rows_made(k, clock, gradients, seed, width, rows, counts),
        rows_made(k, other_clock, gradients, seed, width, others, other_counts),
        0 <= count <= rows.len(),
        count <= others.len(),
    ensures
        plane_writes(width, rows, count) == plane_writes(width, others, count),
    decreases count,
{
    if count > 0 {
        let oy = count - 1;
        lemma_plane_agrees(
            k,
            gradients,
            seed,
            width,
            clock,
            rows,
            counts,
            other_clock,
            others,
            other_counts,
            oy,
        );
        let t = rows[oy];
        let other = others[oy];
        lemma_row_agrees(k, gradients, seed, oy as usize, width, oy * width, t, other);
    }
}

/// Timing leaves no trace in the buffers: two runs with the same seed, determined
/// kernels and determined combiner, from equal buffers, leave equal buffers,
/// whatever clock and tallies each of them has, and whether it is timed or not.
pub proof fn law_timing_leaves_buffers_alone<T: Copy, L, V, M, W, K, H, I, P, F>(
    sink: Sink<I, P, F>,
    k: Kernels<L, V, M, W>,
    gradients: Gradients<T>,
    seed: u32,
    width: int,
    clock: K,
    rows: Seq<RowTrace<T>>,
    counts: Seq<RowSplitCounts>,
    other_clock: H,
    others: Seq<RowTrace<T>>,
    other_counts: Seq<RowSplitCounts>,
    before: (Seq<T>, Seq<T>),
    after: (Seq<T>, Seq<T>),
    other_after: (Seq<T>, Seq<T>),
) where
    L: Fn(usize, usize) -> [Place; 8],
    V: Fn(usize, usize, [Place; 8], Vec<Corners<T>>) -> Vec<T>,
    M: Fn(usize, usize) -> Place,
    W: Fn(usize, usize, Place, [(T, T); 4]) -> T,
    K: Fn() -> u64,
    H: Fn() -> u64,
    I: Fn(Vec<T>) -> (Vec<Vec<T>>, Vec<T>),
    P: Fn(Vec<Vec<T>>, Vec<T>, Vec<T>) -> (Vec<Vec<T>>, Vec<T>),
    F: Fn(Vec<Vec<T>>, Vec<T>) -> Vec<T>,

    requires
        0 <= width,
        k.determined::<T>(),
        sink.combiner.determined::<T>(),
        rows.len() == others.len(),
        rows_made(k, clock, gradients, seed, width, rows, counts),
        rows_made(k, other_clock, gradients, seed, width, others, other_counts),
        sink.takes(plane_writes(width, rows, rows.len() as int), before, after),
        sink.takes(plane_writes(width, others, others.len() as int), before, other_after),
    ensures
        after == other_after,
{
    lemma_plane_agrees(
        k,
        gradients,
        seed,
        width,
        clock,
        rows,
        counts,
        other_clock,
        others,
        other_counts,
        rows.len() as int,
    );
    combine::law_equal_runs_leave_equal_buffers(
        *sink.combiner,
        sink.pass,
        sink.layout,
        plane_writes(width, rows, rows.len() as int),
        before,
        after,
        other_after,
    );
}

/// The first octave forgets the buffers: two runs with the same seed, determined
/// kernels and determined combiner leave the same output, whatever the buffers
/// held before, and the same state where it is kept. On an octave that is the
/// last one as well, each run leaves its state as it was.
pub proof fn law_first_octave_forgets_buffers<T: Copy, L, V, M, W, K, H, I, P, F>(
    sink: Sink<I, P, F>,
    k: Kernels<L, V, M, W>,
    gradients: Gradients<T>,
    seed: u32,
    width: int,
    clock: K,
    rows: Seq<RowTrace<T>>,
    counts: Seq<RowSplitCounts>,
    other_clock: H,
    others: Seq<RowTrace<T>>,
    other_counts: Seq<RowSplitCounts>,
    before: (Seq<T>, Seq<T>),
    after: (Seq<T>, Seq<T>),
    other_before: (Seq<T>, Seq<T>),
    other_after: (Seq<T>, Seq<T>),
) where
    L: Fn(usize, usize) -> [Place; 8],
    V: Fn(usize, usize, [Place; 8], Vec<Corners<T>>) -> Vec<T>,
    M: Fn(usize, usize) -> Place,
    W: Fn(usize, usize, Place, [(T, T); 4]) -> T,
    K: Fn() -> u64,
    H: Fn() -> u64,
    I: Fn(Vec<T>) -> (Vec<Vec<T>>, Vec<T>),
    P: Fn(Vec<Vec<T>>, Vec<T>, Vec<T>) -> (Vec<Vec<T>>, Vec<T>),
    F: Fn(Vec<Vec<T>>, Vec<T>) -> Vec<T>,

    requires
        sink.pass.init,
        0 <= width,
        k.determined::<T>(),
        sink.combiner.determined::<T>(),
        rows.len() == others.len(),
        rows_made(k, clock, gradients, seed, width, rows, counts),
        rows_made(k, other_clock, gradients, seed, width, others, other_counts),
        sink.layout.total_size == width * rows.len(),
        sink.wf::<T>(8, before.0.len() as int, before.1.len() as int),
        sink.wf::<T>(8, other_before.0.len() as int, other_before.1.len() as int),
        sink.takes(plane_writes(width, rows, rows.len() as int), before, after),
        sink.takes(plane_writes(width, others, others.len() as int), other_before, other_after),
    ensures
        sink.leaves_alike(before, after, other_before, other_after),
{
    let writes = plane_writes(width, rows, rows.len() as int);
    lemma_plane_agrees(
        k,
        gradients,
        seed,
        width,
        clock,
        rows,
        counts,
        other_clock,
        others,
        other_counts,
        rows.len() as int,
    );
    lemma_rows_shaped(k, clock, gradients, seed, width, rows, counts);
    lemma_plane_fits(sink.layout, width, rows, rows.len() as int);
    assert forall|n: int| 0 <= n < sink.layout.total_size implies combine::cover_count(
        writes,
        n,
    ) == 1 by {
        law_every_sample_written_once(width, rows, n);
    }
    combine::law_filled_output_forgets_buffers(
        sink,
        8,
        writes,
        before,
        after,
        other_before,
        other_after,
    );
}

/// The gradient at a vertex is the entry of the two tables that the number of the
/// vertex, under the whole seed, names.
pub proof fn law_gradient_is_named_by_its_vertex<T: Copy>(
    gradients: Gradients<T>,
    i: int,
    j: int,
    seed: u32,
    n: int,
)
    requires
        n == (((hash::axis_hash(i, seed) as int * hash::axis_hash(j, seed) as int)
            % 0x1_0000_0000) as u32 ^ hash::axis_hash(i, seed)) as int / 0x2000_0000,
    ensures
        0 <= n < 8,
        gradients.at(i, j, seed).0 == gradients.x[n],
        gradients.at(i, j, seed).1 == gradients.y[n],
{
    batch_2d::law_vertex_number_goes_by_place(i, j, seed);
    batch_2d::law_number_in_table(i, j, seed);
}

/// A chunk takes the gradients at the vertices around each of its samples, under
/// the whole seed: where its cell begins, across the cell, and one step along the
/// columns in the upper triangle, along the rows in the lower.
pub proof fn law_chunk_takes_the_corners<T: Copy>(
    gradients: Gradients<T>,
    seed: u32,
    places: [Place; 8],
    corners: Seq<Corners<T>>,
    k: int,
)
    requires
        corners_found(gradients, seed, places, corners),
        0 <= k < 8,
    ensures
        corners.len() == 8,
        corners[k].lo == gradients.at(places[k].i as int, places[k].j as int, seed),
        places[k].upper ==> corners[k].mi == gradients.at(
            places[k].i + 1,
            places[k].j as int,
            seed,
        ),
        !places[k].upper ==> corners[k].mi == gradients.at(
            places[k].i as int,
            places[k].j + 1,
            seed,
        ),
        corners[k].hi == gradients.at(places[k].i + 1, places[k].j + 1, seed),
{
}

/// A table holds, row by row, the gradients of a block of vertices under the whole
/// seed.
pub proof fn law_table_holds_the_gradients<T: Copy>(
    table: GradientTable<T>,
    gradients: Gradients<T>,
    seed: u32,
    i: int,
    j: int,
)
    requires
        table.wf(gradients, seed),
        table.i_min <= i < table.i_min + table.cols,
        table.j_min <= j < table.j_min + table.rows,
    ensures
        (
            table.gx@[(j - table.j_min) * table.cols + (i - table.i_min)],
            table.gy@[(j - table.j_min) * table.cols + (i - table.i_min)],
        ) == gradients.at(i, j, seed),
{
    let e = entry(table.gx@, table.gy@, table.cols as int, j - table.j_min, i - table.i_min);
    assert(e == gradients.at(
        table.i_min + (i - table.i_min),
        table.j_min + (j - table.j_min),
        seed,
    ));
}

/// A chunk of a row is among the blocks of the plane, where its samples lie.
proof fn lemma_chunk_is_written<T>(
    width: int,
    rows: Seq<RowTrace<T>>,
    count: int,
    y: int,
    c: int,
) -> (j: int)
    requires
        0 <= y < count <= rows.len(),
        0 <= c < rows[y].values.len(),
    ensures
        0 <= j < plane_writes(width, rows, count).len(),
        plane_writes(width, rows, count)[j] == (combine::Write {
            start: y * width + 8 * c,
            value: rows[y].values[c]@,
        }),
    decreases count,
{
    if y == count - 1 {
        plane_writes(width, rows, count - 1).len() + c
    } else {
        lemma_chunk_is_written(width, rows, count - 1, y, c)
    }
}

/// A single sample of a row is among the blocks of the plane, where it lies.
proof fn lemma_sample_is_written<T>(
    width: int,
    rows: Seq<RowTrace<T>>,
    count: int,
    y: int,
    n: int,
) -> (j: int)
    requires
        0 <= y < count <= rows.len(),
        0 <= n < rows[y].tail_values.len(),
    ensures
        0 <= j < plane_writes(width, rows, count).len(),
        plane_writes(width, rows, count)[j] == (combine::Write {
            start: y * width + 8 * rows[y].values.len() + n,
            value: seq![rows[y].tail_values[n]],
        }),
    decreases count,
{
    if y == count - 1 {
        plane_writes(width, rows, count - 1).len() + rows[y].values.len() + n
    } else {
        lemma_sample_is_written(width, rows, count - 1, y, n)
    }
}

/// Whatever goes over the sample in row `y` and column `s` of a plane was made for
/// it. Where the sample lies in a chunk of eight, that chunk was located at row `y`
/// and at the column that the chunk begins at, and valued from the gradients at
/// the corners of its triangles. Behind the last chunk the sample stands by itself:
/// it was located at its own row and column, and valued from the gradients at the
/// four corners of its cell.
pub proof fn law_every_sample_is_made_in_its_place<T: Copy, L, V, M, W, K>(
    k: Kernels<L, V, M, W>,
    clock: K,
    gradients: Gradients<T>,
    seed: u32,
    width: int,
    rows: Seq<RowTrace<T>>,
    counts: Seq<RowSplitCounts>,
    j: int,
    y: int,
    s: int,
) where
    L: Fn(usize, usize) -> [Place; 8],
    V: Fn(usize, usize, [Place; 8], Vec<Corners<T>>) -> Vec<T>,
    M: Fn(usize, usize) -> Place,
    W: Fn(usize, usize, Place, [(T, T); 4]) -> T,
    K: Fn() -> u64,

    requires
        rows_made(k, clock, gradients, seed, width, rows, counts),
        0 <= y < rows.len(),
        0 <= s < width,
        0 <= j < plane_writes(width, rows, rows.len() as int).len(),
        combine::covers(plane_writes(width, rows, rows.len() as int)[j], y * width + s),
    ensures
        ({
            let w = plane_writes(width, rows, rows.len() as int)[j];
            let ox = s - s % 8;
            &&& ox + 8 <= width ==> w.start == y * width + ox && w.value.len() == 8 && exists|
                places: [Place; 8],
                corners: Vec<Corners<T>>,
                v: Vec<T>,
            |
                {
                    &&& #[trigger] k.locate.ensures((y as usize, ox as usize), places)
                    &&& corners_found(gradients, seed, places, corners@)
                    &&& #[trigger] k.value.ensures((y as usize, ox as usize, places, corners), v)
                    &&& v@ == w.value
                }
            &&& ox + 8 > width ==> w.start == y * width + s && w.value.len() == 1 && exists|
                p: Place,
                four: [(T, T); 4],
            |
                {
                    &&& #[trigger] k.locate_one.ensures((y as usize, s as usize), p)
                    &&& four[0] == gradients.at(p.i as int, p.j as int, seed)
                    &&& four[1] == gradients.at(p.i + 1, p.j as int, seed)
                    &&& four[2] == gradients.at(p.i as int, p.j + 1, seed)
                    &&& four[3] == gradients.at(p.i + 1, p.j + 1, seed)
                    &&& #[trigger] k.value_one.ensures(
                        (y as usize, s as usize, p, four),
                        w.value[0],
                    )
                }
        }),
{
    let writes = plane_writes(width, rows, rows.len() as int);
    let t = rows[y];
    let ox = s - s % 8;
    assert(row_made(k, gradients, seed, y as usize, width, t));
    lemma_rows_shaped(k, clock, gradients, seed, width, rows, counts);
    lemma_plane_cover(width, rows, rows.len() as int, y, s);
    if ox + 8 <= width {
        let c = s / 8;
        let jj = lemma_chunk_is_written(width, rows, rows.len() as int, y, c);
        let places = t.places[c];
        assert(chunk_made(
            k,
            gradients,
            seed,
            y as usize,
            (8 * c) as usize,
            places,
            t.values[c],
        ));
        combine::lemma_one_cover(writes, j, jj, y * width + s);
        let corners = choose|corners: Vec<Corners<T>>|
            #[trigger] corners_found(gradients, seed, places, corners@) && k.value.ensures(
                (y as usize, (8 * c) as usize, places, corners),
                t.values[c],
            );
        assert(8 * c == ox);
        assert(k.locate.ensures((y as usize, ox as usize), places));
        assert(k.value.ensures((y as usize, ox as usize, places, corners), t.values[c]));
    } else {
        let n = s - 8 * (width / 8);
        let jj = lemma_sample_is_written(width, rows, rows.len() as int, y, n);
        let p = t.tail_places[n];
        assert(sample_made(
            k,
            gradients,
            seed,
            y as usize,
            (8 * (width / 8) + n) as usize,
            p,
            t.tail_values[n],
        ));
        combine::lemma_one_cover(writes, j, jj, y * width + s);
        let four = four_at(gradients, seed, p);
        assert(k.locate_one.ensures((y as usize, s as usize), p));
        assert(k.value_one.ensures((y as usize, s as usize, p, four), writes[j].value[0]));
    }
}

/// A single sample is blended from the same gradients as a sample of a chunk in
/// the same place.
pub proof fn law_chunks_and_samples_agree<T: Copy>(gradients: Gradients<T>, seed: u32, p: Place)
    ensures
        ({
            let four = four_at(gradients, seed, p);
            let corners = corners_at(gradients, seed, p);
            &&& corners.lo == four[0]
            &&& corners.mi == (if p.upper {
                four[1]
            } else {
                four[2]
            })
            &&& corners.hi == four[3]
        }),
{
}

/// A grid and a batch take the same gradients at a place: those that the batch's
/// numbers name are those at the corners of the triangle that the place lies in.
pub proof fn law_grid_and_batch_agree<T: Copy>(
    gradients: Gradients<T>,
    seed: u32,
    places: [Place; 8],
    found: CornerNumbers,
    k: int,
)
    requires
        batch_2d::numbered(
            found,
            seed,
            places[k].i as int,
            places[k].j as int,
            places[k].upper,
            k,
        ),
        0 <= k < 8,
    ensures
        gradients.numbered(found.lo[k]) == corners_at(gradients, seed, places[k]).lo,
        gradients.numbered(found.mi[k]) == corners_at(gradients, seed, places[k]).mi,
        gradients.numbered(found.hi[k]) == corners_at(gradients, seed, places[k]).hi,
{
}

/// A call leaves in every sample of the plane what the combiner makes of a value that
/// was made there, under the very seed of the call, and of what the buffers held
/// there before. The last octave leaves the state as it was.
pub proof fn law_call_fills_the_plane<T: Copy, L, V, M, W, K, I, P, F>(
    seed: u32,
    grid_data: SimplexGridData<T>,
    gradients: Gradients<T>,
    corners: [(i32, i32); 4],
    kernels: Kernels<L, V, M, W>,
    clock: K,
    counters: &mut RowSplitCounts,
    sink: Sink<I, P, F>,
    state: &mut Vec<T>,
    dst: &mut Vec<T>,
    n: int,
) where
    L: Fn(usize, usize) -> [Place; 8],
    V: Fn(usize, usize, [Place; 8], Vec<Corners<T>>) -> Vec<T>,
    M: Fn(usize, usize) -> Place,
    W: Fn(usize, usize, Place, [(T, T); 4]) -> T,
    K: Fn() -> u64,
    I: Fn(Vec<T>) -> (Vec<Vec<T>>, Vec<T>),
    P: Fn(Vec<Vec<T>>, Vec<T>, Vec<T>) -> (Vec<Vec<T>>, Vec<T>),
    F: Fn(Vec<Vec<T>>, Vec<T>) -> Vec<T>,

    requires
        grid_data.wf(),
        sink.layout.total_size == grid_data.total_size,
        sink.wf::<T>(8, old(state)@.len() as int, old(dst)@.len() as int),
        call_ensures(
            sample_grid::<T, L, V, M, W, K, I, P, F>,
            (
                seed,
                &grid_data,
                &gradients,
                &corners,
                &kernels,
                &clock,
                counters,
                &sink,
                state,
                dst,
            ),
            (),
        ),
        0 <= n < grid_data.total_size,
    ensures
        final(state)@.len() == old(state)@.len(),
        final(dst)@.len() == old(dst)@.len(),
        exists|rows: Seq<RowTrace<T>>, counts: Seq<RowSplitCounts>|
            {
                &&& rows.len() == grid_data.grid_size[1]
                &&& #[trigger] rows_made(
                    kernels,
                    clock,
                    gradients,
                    seed,
                    grid_data.grid_size[0] as int,
                    rows,
                    counts,
                )
                &&& counts.first() == *old(counters)
                &&& counts.last() == *final(counters)
                &&& combine::combined_at(
                    *sink.combiner,
                    sink.pass,
                    sink.layout,
                    plane_writes(grid_data.grid_size[0] as int, rows, rows.len() as int),
                    (old(state)@, old(dst)@),
                    (final(state)@, final(dst)@),
                    n,
                )
            },
        sink.pass.last ==> final(state)@ == old(state)@,
{
    let before = (old(state)@, old(dst)@);
    let after = (final(state)@, final(dst)@);
    let width = grid_data.grid_size[0] as int;
    let height = grid_data.grid_size[1] as int;
    let (rows, counts) = choose|rows: Seq<RowTrace<T>>, counts: Seq<RowSplitCounts>|
        {
            &&& rows.len() == grid_data.grid_size[1]
            &&& #[trigger] rows_made(kernels, clock, gradients, seed, width, rows, counts)
            &&& counts.first() == *old(counters)
            &&& counts.last() == *final(counters)
            &&& sink.takes(plane_writes(width, rows, height), before, after)
        };
    assert(rows_made(kernels, clock, gradients, seed, width, rows, counts));
    let writes = plane_writes(width, rows, height);
    assert(sink.takes(writes, before, after));
    if sink.pass.last {
        combine::law_last_octave_keeps_state(
            *sink.combiner,
            sink.pass,
            sink.layout,
            writes,
            before,
            after,
        );
    }
    grid_data::law_volume_is_the_product_of_the_sides(grid_data.grid_size@);
    law_every_sample_combined_once(
        sink,
        kernels,
        clock,
        gradients,
        seed,
        width,
        rows,
        counts,
        before,
        after,
        n,
    );
}

} // verus!

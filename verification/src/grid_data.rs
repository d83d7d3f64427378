//! What a generator knows of the grid that it fills.
//!
//! The values along the axes are of some type `T`, a floating-point number in
//! practice: nothing here looks inside them.

use crate::cells;
use crate::cells::fill_grid_indices;
use vstd::prelude::*;

verus! {

/// The number of samples of a grid whose first `k` sides are given.
pub open spec fn volume(sides: Seq<usize>, k: int) -> int
    decreases k,
{
    if k <= 0 {
        1
    } else {
        volume(sides, k - 1) * sides[k - 1]
    }
}

/// Each partial volume fits the machine word.
pub open spec fn measurable(sides: Seq<usize>) -> bool {
    forall|k: int| 0 <= k <= sides.len() ==> 0 <= #[trigger] volume(sides, k) <= usize::MAX
}

/// A plane has as many samples as its sides have when multiplied, and so has a
/// solid.
pub proof fn law_volume_is_the_product_of_the_sides(sides: Seq<usize>)
    ensures
        sides.len() == 2 ==> volume(sides, 2) == sides[0] * sides[1],
        sides.len() == 3 ==> volume(sides, 3) == sides[0] * sides[1] * sides[2],
{
    reveal_with_fuel(volume, 4);
    if sides.len() >= 2 {
        assert(1 * sides[0] == sides[0]);
    }
}

/// Number of samples of a grid.
pub fn sample_count<const D: usize>(grid_size: &[usize; D]) -> (r: usize)
    requires
        measurable(grid_size@),
    ensures
        r == volume(grid_size@, D as int),
{
    let mut r: usize = 1;
    let mut k: usize = 0;
    while k < D
        invariant
            k <= D,
            measurable(grid_size@),
            r == volume(grid_size@, k as int),
        decreases D - k,
    {
        assert(volume(grid_size@, k + 1) == r * grid_size[k as int]);
        r = r * grid_size[k];
        k = k + 1;
    }
    r
}

/// The runs of samples along each axis fit the axis.
pub open spec fn axes_cut<const D: usize>(
    grid_size: [usize; D],
    num_loops: [usize; D],
    grid_indices: Seq<Vec<u32>>,
) -> bool {
    &&& grid_indices.len() == D
    &&& forall|a: int|
        0 <= a < D ==> num_loops[a] == (#[trigger] grid_indices[a])@.len() && num_loops[a]
            < usize::MAX && cells::cuts(grid_indices[a]@, grid_size[a] as int)
}

/// The sides of a grid that can be indexed along each axis.
pub open spec fn indexable(sides: Seq<usize>) -> bool {
    forall|a: int|
        0 <= a < sides.len() ==> #[trigger] sides[a] <= u32::MAX && sides[a] < usize::MAX
}

/// One value per sample along each axis.
pub open spec fn axes_hold<T, const D: usize>(grid_size: [usize; D], values: Seq<Vec<T>>) -> bool {
    &&& values.len() == D
    &&& forall|a: int| 0 <= a < D ==> (#[trigger] values[a])@.len() == grid_size[a]
}

/// The runs found from the samples that enter a new cell, axis by axis.
pub open spec fn runs_found<const D: usize>(
    fresh: Seq<Vec<bool>>,
    grid_indices: Seq<Vec<u32>>,
) -> bool {
    forall|a: int|
        0 <= a < D ==> (#[trigger] grid_indices[a])@ == cells::run_ends(fresh[a]@)
}

/// Along every axis the runs that were found end where a sample enters a new cell
/// and at the last sample, and nowhere else.
pub proof fn law_runs_are_found_at_fresh_samples<const D: usize>(
    fresh: Seq<Vec<bool>>,
    grid_indices: Seq<Vec<u32>>,
    a: int,
    s: int,
)
    requires
        runs_found::<D>(fresh, grid_indices),
        0 <= a < D,
        0 < s <= fresh[a]@.len() <= u32::MAX,
    ensures
        grid_indices[a]@.contains(s as u32) <==> s == fresh[a]@.len() || fresh[a]@[s],
{
    let n = fresh[a]@.len();
    let ends = grid_indices[a]@;
    assert(ends == cells::run_ends(fresh[a]@));
    if s < n {
        cells::law_runs_begin_at_fresh_samples(fresh[a]@, s);
    } else {
        cells::law_runs_end_at_fresh_samples(fresh[a]@);
        assert(ends[ends.len() - 1] == s as u32);
    }
}

/// The runs along every axis are counted, and cut the samples of the axis: they
/// grow, and the last one ends with the last sample.
pub proof fn law_axes_are_cut<const D: usize>(
    grid_size: [usize; D],
    num_loops: [usize; D],
    grid_indices: Seq<Vec<u32>>,
    a: int,
)
    requires
        axes_cut(grid_size, num_loops, grid_indices),
        0 <= a < D,
    ensures
        grid_indices.len() == D,
        grid_indices[a]@.len() == num_loops[a],
        num_loops[a] == 0 <==> grid_size[a] == 0,
        num_loops[a] > 0 ==> grid_indices[a]@.last() == grid_size[a] && grid_indices[a]@[0] > 0,
        forall|i: int, j: int|
            0 <= i < j < num_loops[a] ==> grid_indices[a]@[i] < grid_indices[a]@[j],
{
    let ends = grid_indices[a]@;
    assert(cells::cuts(ends, grid_size[a] as int));
}

/// Cuts every axis into runs.
fn cut_axes<const D: usize>(grid_size: &[usize; D], fresh: &Vec<Vec<bool>>) -> (r: (
    [usize; D],
    Vec<Vec<u32>>,
))
    requires
        axes_hold(*grid_size, fresh@),
        indexable(grid_size@),
    ensures
        axes_cut(*grid_size, r.0, r.1@),
        runs_found::<D>(fresh@, r.1@),
{
    let mut num_loops: [usize; D] = [0; D];
    let mut grid_indices: Vec<Vec<u32>> = Vec::new();
    let mut a: usize = 0;
    while a < D
        invariant
            a <= D,
            axes_hold(*grid_size, fresh@),
            indexable(grid_size@),
            grid_indices.len() == a,
            forall|b: int|
                0 <= b < a ==> num_loops[b] == (#[trigger] grid_indices[b])@.len() && num_loops[b]
                    < usize::MAX && cells::cuts(grid_indices[b]@, grid_size[b] as int)
                    && grid_indices[b]@ == cells::run_ends(fresh[b]@),
        decreases D - a,
    {
        assert(fresh[a as int]@.len() == grid_size[a as int]);
        assert(grid_size@[a as int] < usize::MAX);
        let ends = fill_grid_indices(&fresh[a]);
        let ghost found = ends@;
        let count: usize = ends.len();
        num_loops[a] = count;
        grid_indices.push(ends);
        assert(count < usize::MAX);
        assert(num_loops[a as int] == count);
        assert(grid_indices[a as int]@ == found);
        a = a + 1;
    }
    (num_loops, grid_indices)
}

/// A grid whose samples carry their distance to the cell they lie in.
pub struct GridData<T, const D: usize> {
    pub total_size: usize,
    pub weight: T,
    pub grid_size: [usize; D],
    pub grid_start: [i32; D],
    pub num_loops: [usize; D],
    pub octave_tiling: [Option<u32>; D],
    pub distances: Vec<Vec<T>>,
    pub grid_indices: Vec<Vec<u32>>,
}

impl<T, const D: usize> GridData<T, D> {
    /// The sizes, the runs and the values along the axes agree.
    pub open spec fn wf(self) -> bool {
        &&& measurable(self.grid_size@)
        &&& self.total_size == volume(self.grid_size@, D as int)
        &&& axes_cut(self.grid_size, self.num_loops, self.grid_indices@)
        &&& axes_hold(self.grid_size, self.distances@)
    }

    /// Builds the grid from where it starts on the lattice, the distances of
    /// its samples along each axis, and which samples enter a new cell.
    pub fn new(
        grid_size: [usize; D],
        weight: T,
        grid_start: [i32; D],
        octave_tiling: [Option<u32>; D],
        distances: Vec<Vec<T>>,
        fresh: &Vec<Vec<bool>>,
    ) -> (r: Self)
        requires
            measurable(grid_size@),
            indexable(grid_size@),
            axes_hold(grid_size, distances@),
            axes_hold(grid_size, fresh@),
        ensures
            r.wf(),
            r.weight == weight,
            r.grid_size == grid_size,
            r.grid_start == grid_start,
            r.octave_tiling == octave_tiling,
            r.distances == distances,
            runs_found::<D>(fresh@, r.grid_indices@),
    {
        let total_size: usize = sample_count(&grid_size);
        let (num_loops, grid_indices) = cut_axes(&grid_size, fresh);
        GridData {
            total_size,
            weight,
            grid_size,
            grid_start,
            num_loops,
            octave_tiling,
            distances,
            grid_indices,
        }
    }
}

/// The curve along which neighbouring lattice values are blended.
#[derive(Clone, Copy, PartialEq, Eq, Structural, Debug)]
pub enum Lerp {
    Cubic,
    Quintic,
}

impl Lerp {
    /// The curve with a given number: 0 for the cubic one, 1 for the quintic.
    pub fn from_u8(val: u8) -> (r: Self)
        requires
            val <= 1,
        ensures
            r is Cubic <==> val == 0,
            r is Quintic <==> val == 1,
    {
        match val {
            0 => Lerp::Cubic,
            _ => Lerp::Quintic,
        }
    }
}

/// A grid whose samples also carry their blending factor.
pub struct GridDataLerp<T, const D: usize> {
    pub total_size: usize,
    pub weight: T,
    pub grid_size: [usize; D],
    pub grid_start: [i32; D],
    pub increment: [T; D],
    pub num_loops: [usize; D],
    pub octave_tiling: [Option<u32>; D],
    pub distances: Vec<Vec<T>>,
    pub fade_factors: Vec<Vec<T>>,
    pub grid_indices: Vec<Vec<u32>>,
}

/// Every factor is what the chosen curve makes of the distance beside it.
pub open spec fn faded<T, C, Q>(
    lerp: Lerp,
    cubic: C,
    quintic: Q,
    distances: Seq<T>,
    factors: Seq<T>,
) -> bool where C: Fn(T) -> T, Q: Fn(T) -> T {
    &&& factors.len() == distances.len()
    &&& forall|i: int|
        0 <= i < distances.len() ==> (match lerp {
            Lerp::Cubic => cubic.ensures((distances[i],), #[trigger] factors[i]),
            Lerp::Quintic => quintic.ensures((distances[i],), factors[i]),
        })
}

/// Every sample along an axis has a factor, and each factor is the chosen curve's
/// value at the distance of its own sample.
pub proof fn law_factors_follow_the_curve<T, C, Q>(
    lerp: Lerp,
    cubic: C,
    quintic: Q,
    distances: Seq<T>,
    factors: Seq<T>,
    i: int,
) where C: Fn(T) -> T, Q: Fn(T) -> T
    requires
        faded(lerp, cubic, quintic, distances, factors),
        0 <= i < distances.len(),
    ensures
        factors.len() == distances.len(),
        lerp is Cubic ==> cubic.ensures((distances[i],), factors[i]),
        lerp is Quintic ==> quintic.ensures((distances[i],), factors[i]),
{
    let f = factors[i];
}

/// The chosen curve takes the distances along one axis.
pub open spec fn fades<T, C, Q>(lerp: Lerp, cubic: C, quintic: Q, distances: Seq<T>) -> bool where
    C: Fn(T) -> T,
    Q: Fn(T) -> T,
 {
    forall|i: int|
        0 <= i < distances.len() ==> (match lerp {
            Lerp::Cubic => cubic.requires((#[trigger] distances[i],)),
            Lerp::Quintic => quintic.requires((distances[i],)),
        })
}

/// Applies the chosen curve to the distances along one axis.
fn fade_axis<T: Copy, C, Q>(lerp: Lerp, cubic: &C, quintic: &Q, distances: &Vec<T>) -> (r: Vec<
    T,
>) where C: Fn(T) -> T, Q: Fn(T) -> T
    requires
        fades(lerp, *cubic, *quintic, distances@),
    ensures
        faded(lerp, *cubic, *quintic, distances@, r@),
{
    let mut r: Vec<T> = Vec::new();
    let mut i: usize = 0;
    while i < distances.len()
        invariant
            i <= distances.len(),
            fades(lerp, *cubic, *quintic, distances@),
            r.len() == i,
            forall|j: int|
                0 <= j < i ==> (match lerp {
                    Lerp::Cubic => cubic.ensures((distances[j],), #[trigger] r[j]),
                    Lerp::Quintic => quintic.ensures((distances[j],), r[j]),
                }),
        decreases distances.len() - i,
    {
        let factor = match lerp {
            Lerp::Cubic => cubic(distances[i]),
            Lerp::Quintic => quintic(distances[i]),
        };
        r.push(factor);
        i = i + 1;
    }
    r
}

impl<T: Copy, const D: usize> GridDataLerp<T, D> {
    /// The sizes, the runs and the values along the axes agree.
    pub open spec fn wf(self) -> bool {
        &&& measurable(self.grid_size@)
        &&& self.total_size == volume(self.grid_size@, D as int)
        &&& axes_cut(self.grid_size, self.num_loops, self.grid_indices@)
        &&& axes_hold(self.grid_size, self.distances@)
        &&& axes_hold(self.grid_size, self.fade_factors@)
    }

    /// Builds the grid as [`GridData::new`] does, and finds the blending
    /// factors by the curve that `lerp` names.
    pub fn new<C, Q>(
        grid_size: [usize; D],
        weight: T,
        grid_start: [i32; D],
        increment: [T; D],
        octave_tiling: [Option<u32>; D],
        distances: Vec<Vec<T>>,
        fresh: &Vec<Vec<bool>>,
        lerp: Lerp,
        cubic: C,
        quintic: Q,
    ) -> (r: Self) where C: Fn(T) -> T, Q: Fn(T) -> T
        requires
            measurable(grid_size@),
            indexable(grid_size@),
            axes_hold(grid_size, distances@),
            axes_hold(grid_size, fresh@),
            forall|a: int|
                0 <= a < D ==> fades(lerp, cubic, quintic, (#[trigger] distances[a])@),
        ensures
            r.wf(),
            r.weight == weight,
            r.grid_size == grid_size,
            r.grid_start == grid_start,
            r.increment == increment,
            r.octave_tiling == octave_tiling,
            r.distances == distances,
            runs_found::<D>(fresh@, r.grid_indices@),
            forall|a: int|
                0 <= a < D ==> faded(
                    lerp,
                    cubic,
                    quintic,
                    distances[a]@,
                    (#[trigger] r.fade_factors[a])@,
                ),
    {
        let total_size: usize = sample_count(&grid_size);
        let (num_loops, grid_indices) = cut_axes(&grid_size, fresh);
        let mut fade_factors: Vec<Vec<T>> = Vec::new();
        let mut a: usize = 0;
        while a < D
            invariant
                a <= D,
                distances.len() == D,
                forall|b: int|
                    0 <= b < D ==> fades(lerp, cubic, quintic, (#[trigger] distances[b])@),
                fade_factors.len() == a,
                forall|b: int|
                    0 <= b < a ==> faded(
                        lerp,
                        cubic,
                        quintic,
                        distances[b]@,
                        (#[trigger] fade_factors[b])@,
                    ),
            decreases D - a,
        {
            fade_factors.push(fade_axis(lerp, &cubic, &quintic, &distances[a]));
            a = a + 1;
        }
        proof {
            assert forall|b: int| 0 <= b < D implies (#[trigger] fade_factors[b])@.len()
                == grid_size[b] by {
                assert(distances[b]@.len() == grid_size[b]);
            }
        }
        GridDataLerp {
            total_size,
            weight,
            grid_size,
            grid_start,
            increment,
            num_loops,
            octave_tiling,
            distances,
            fade_factors,
            grid_indices,
        }
    }
}

/// A grid on the skewed lattice of simplex noise, whose cells lie across the
/// rows and columns of the samples.
pub struct SimplexGridData<T> {
    pub total_size: usize,
    pub weight: T,
    pub grid_size: [usize; 2],
    pub increment: [T; 2],
    /// Where the first sample lies.
    pub origin: [T; 2],
    /// The lattice cell that the first sample lies in.
    pub grid_start: [i32; 2],
    pub octave_tiling: [Option<u32>; 2],
    /// Whether a cell is wider than the step from sample to sample.
    pub per_cell: bool,
}

/// The smaller of two coordinates.
pub open spec fn lesser(a: i32, b: i32) -> i32 {
    if a <= b {
        a
    } else {
        b
    }
}

/// The larger of two coordinates.
pub open spec fn greater(a: i32, b: i32) -> i32 {
    if a >= b {
        a
    } else {
        b
    }
}

/// The least and the greatest of four coordinates.
pub open spec fn span(c: [i32; 4]) -> (i32, i32) {
    (
        lesser(lesser(lesser(c[0], c[1]), c[2]), c[3]),
        greater(greater(greater(c[0], c[1]), c[2]), c[3]),
    )
}

/// The ranges of lattice columns and rows that four lattice cells span.
pub open spec fn lattice_span(corners: [(i32, i32); 4]) -> (i32, i32, i32, i32) {
    let (i_min, i_max) = span([corners[0].0, corners[1].0, corners[2].0, corners[3].0]);
    let (j_min, j_max) = span([corners[0].1, corners[1].1, corners[2].1, corners[3].1]);
    (i_min, i_max, j_min, j_max)
}

/// The least and the greatest of four coordinates bound each of them, and are
/// among them.
pub proof fn law_span_is_tight(c: [i32; 4])
    ensures
        forall|k: int| 0 <= k < 4 ==> span(c).0 <= #[trigger] c[k] <= span(c).1,
        exists|k: int| 0 <= k < 4 && #[trigger] c[k] == span(c).0,
        exists|k: int| 0 <= k < 4 && #[trigger] c[k] == span(c).1,
{
    let (lo, hi) = span(c);
    assert(c[0] == lo || c[1] == lo || c[2] == lo || c[3] == lo);
    assert(c[0] == hi || c[1] == hi || c[2] == hi || c[3] == hi);
}

/// The ranges that four cells span hold each of them, and no range is wider than
/// the cells are: each bound is the column or the row of one of them.
pub proof fn law_lattice_span_is_tight(corners: [(i32, i32); 4])
    ensures
        ({
            let (i_min, i_max, j_min, j_max) = lattice_span(corners);
            &&& forall|k: int|
                0 <= k < 4 ==> i_min <= (#[trigger] corners[k]).0 <= i_max && j_min <= corners[k].1
                    <= j_max
            &&& exists|k: int| 0 <= k < 4 && (#[trigger] corners[k]).0 == i_min
            &&& exists|k: int| 0 <= k < 4 && (#[trigger] corners[k]).0 == i_max
            &&& exists|k: int| 0 <= k < 4 && (#[trigger] corners[k]).1 == j_min
            &&& exists|k: int| 0 <= k < 4 && (#[trigger] corners[k]).1 == j_max
        }),
{
    let (i_min, i_max, j_min, j_max) = lattice_span(corners);
    law_span_is_tight([corners[0].0, corners[1].0, corners[2].0, corners[3].0]);
    law_span_is_tight([corners[0].1, corners[1].1, corners[2].1, corners[3].1]);
    assert(corners[0].0 == i_min || corners[1].0 == i_min || corners[2].0 == i_min || corners[3].0
        == i_min);
    assert(corners[0].0 == i_max || corners[1].0 == i_max || corners[2].0 == i_max || corners[3].0
        == i_max);
    assert(corners[0].1 == j_min || corners[1].1 == j_min || corners[2].1 == j_min || corners[3].1
        == j_min);
    assert(corners[0].1 == j_max || corners[1].1 == j_max || corners[2].1 == j_max || corners[3].1
        == j_max);
}

/// Finds the least and the greatest of four coordinates.
fn find_span(c: [i32; 4]) -> (r: (i32, i32))
    ensures
        r == span(c),
{
    let mut lo: i32 = c[0];
    let mut hi: i32 = c[0];
    let mut k: usize = 1;
    while k < 4
        invariant
            1 <= k <= 4,
            k == 1 ==> lo == c[0] && hi == c[0],
            k == 2 ==> lo == lesser(c[0], c[1]) && hi == greater(c[0], c[1]),
            k == 3 ==> lo == lesser(lesser(c[0], c[1]), c[2]) && hi == greater(
                greater(c[0], c[1]),
                c[2],
            ),
            k == 4 ==> (lo, hi) == span(c),
        decreases 4 - k,
    {
        if c[k] < lo {
            lo = c[k];
        }
        if c[k] > hi {
            hi = c[k];
        }
        k = k + 1;
    }
    (lo, hi)
}

/// Finds the ranges of lattice columns and rows that four lattice cells span.
pub fn lattice_bounds(corners: &[(i32, i32); 4]) -> (r: (i32, i32, i32, i32))
    ensures
        r == lattice_span(*corners),
{
    let (i_min, i_max): (i32, i32) = find_span(
        [corners[0].0, corners[1].0, corners[2].0, corners[3].0],
    );
    let (j_min, j_max): (i32, i32) = find_span(
        [corners[0].1, corners[1].1, corners[2].1, corners[3].1],
    );
    (i_min, i_max, j_min, j_max)
}

/// The lattice cells at the four corners of the output.
pub open spec fn corners_located<L>(
    locate: L,
    width: i32,
    height: i32,
    corners: [(i32, i32); 4],
) -> bool where L: Fn(i32, i32) -> (i32, i32) {
    &&& locate.ensures((0, 0), corners[0])
    &&& locate.ensures((width, 0), corners[1])
    &&& locate.ensures((0, height), corners[2])
    &&& locate.ensures((width, height), corners[3])
}

/// Each corner of the output, the first sample or one past the last along either
/// axis, is located, and the cell that is found there is one of the four.
pub proof fn law_every_corner_is_located<L>(
    locate: L,
    width: i32,
    height: i32,
    corners: [(i32, i32); 4],
    x: i32,
    y: i32,
) where L: Fn(i32, i32) -> (i32, i32)
    requires
        corners_located(locate, width, height, corners),
        x == 0 || x == width,
        y == 0 || y == height,
    ensures
        exists|k: int| 0 <= k < 4 && locate.ensures((x, y), #[trigger] corners[k]),
{
    let k: int = if x == 0 {
        if y == 0 {
            0
        } else {
            2
        }
    } else {
        if y == 0 {
            1
        } else {
            3
        }
    };
    assert(locate.ensures((x, y), corners[k]));
}

/// A box of samples, clipped to a grid of `width` by `height` samples: the part
/// of it that lies on the grid, if there is one.
pub open spec fn clipped(raw: [i32; 4], width: i32, height: i32) -> Option<[i32; 4]> {
    let x_lo = greater(raw[0], 0);
    let x_hi = lesser(raw[1], width);
    let y_lo = greater(raw[2], 0);
    let y_hi = lesser(raw[3], height);
    if x_lo >= x_hi || y_lo >= y_hi {
        None
    } else {
        Some([x_lo, x_hi, y_lo, y_hi])
    }
}

/// A clipped box holds exactly the samples of the grid that the box held.
pub proof fn law_clipping_keeps_the_grid(
    raw: [i32; 4],
    width: i32,
    height: i32,
    x: i32,
    y: i32,
)
    ensures
        (raw[0] <= x < raw[1] && raw[2] <= y < raw[3] && 0 <= x < width && 0 <= y < height) <==> (
        clipped(raw, width, height) matches Some(b) && b[0] <= x < b[1] && b[2] <= y < b[3]),
{
}

/// Clips a box of samples to a grid.
pub fn clip(raw: [i32; 4], width: i32, height: i32) -> (r: Option<[i32; 4]>)
    ensures
        r == clipped(raw, width, height),
{
    let x_lo: i32 = if raw[0] >= 0 {
        raw[0]
    } else {
        0
    };
    let x_hi: i32 = if raw[1] <= width {
        raw[1]
    } else {
        width
    };
    let y_lo: i32 = if raw[2] >= 0 {
        raw[2]
    } else {
        0
    };
    let y_hi: i32 = if raw[3] <= height {
        raw[3]
    } else {
        height
    };
    if x_lo >= x_hi || y_lo >= y_hi {
        None
    } else {
        Some([x_lo, x_hi, y_lo, y_hi])
    }
}

impl<T> SimplexGridData<T> {
    /// The sizes agree.
    pub open spec fn wf(self) -> bool {
        &&& measurable(self.grid_size@)
        &&& self.total_size == volume(self.grid_size@, 2)
    }

    /// Builds the grid from where its samples lie and where the first of them
    /// is on the lattice. `fine` says along which axes the step between samples
    /// is shorter than a cell.
    pub fn new(
        grid_size: [usize; 2],
        weight: T,
        increment: [T; 2],
        origin: [T; 2],
        grid_start: [i32; 2],
        octave_tiling: [Option<u32>; 2],
        fine: [bool; 2],
    ) -> (r: Self)
        requires
            measurable(grid_size@),
        ensures
            r.wf(),
            r.weight == weight,
            r.grid_size == grid_size,
            r.increment == increment,
            r.origin == origin,
            r.grid_start == grid_start,
            r.octave_tiling == octave_tiling,
            r.per_cell <==> fine[0] && fine[1],
    {
        let total_size: usize = sample_count(&grid_size);
        SimplexGridData {
            total_size,
            weight,
            grid_size,
            increment,
            origin,
            grid_start,
            octave_tiling,
            per_cell: fine[0] && fine[1],
        }
    }

    /// The sample `(x, y)` is a corner of the output, or just past one.
    pub open spec fn at_corner(self, x: i32, y: i32) -> bool {
        &&& x == 0 || x == self.grid_size[0] as i32
        &&& y == 0 || y == self.grid_size[1] as i32
    }

    /// The ranges of lattice cells that can meet the output, one cell wider on
    /// each side than those at its corners. `locate` gives the cell at a
    /// sample.
    pub fn cell_bounds<L>(&self, locate: L) -> (r: [i32; 4]) where L: Fn(i32, i32) -> (i32, i32)
        requires
            forall|x: i32, y: i32|
                self.at_corner(x, y) ==> #[trigger] locate.requires((x, y)),
            forall|x: i32, y: i32, c: (i32, i32)|
                self.at_corner(x, y) && #[trigger] locate.ensures((x, y), c) ==> i32::MIN < c.0
                    < i32::MAX && i32::MIN < c.1 < i32::MAX,
        ensures
            exists|corners: [(i32, i32); 4]|
                #[trigger] corners_located(
                    locate,
                    self.grid_size[0] as i32,
                    self.grid_size[1] as i32,
                    corners,
                ) && ({
                    let (i_lo, i_hi, j_lo, j_hi) = lattice_span(corners);
                    r[0] == i_lo - 1 && r[1] == i_hi + 1 && r[2] == j_lo - 1 && r[3] == j_hi + 1
                }),
    {
        let width: i32 = self.grid_size[0] as i32;
        let height: i32 = self.grid_size[1] as i32;
        let corners = [locate(0, 0), locate(width, 0), locate(0, height), locate(width, height)];
        assert(corners_located(locate, width, height, corners));
        let (i_lo, i_hi, j_lo, j_hi): (i32, i32, i32, i32) = lattice_bounds(&corners);
        proof {
            law_span_is_tight([corners[0].0, corners[1].0, corners[2].0, corners[3].0]);
            law_span_is_tight([corners[0].1, corners[1].1, corners[2].1, corners[3].1]);
        }
        [i_lo - 1, i_hi + 1, j_lo - 1, j_hi + 1]
    }

    /// The box of samples that cell `(i, j)` can meet, clipped to the grid.
    /// `extent` gives the box before it is clipped.
    pub fn cell_bbox<E>(&self, i: i32, j: i32, extent: E) -> (r: Option<[i32; 4]>) where
        E: Fn(i32, i32) -> [i32; 4],

        requires
            extent.requires((i, j)),
        ensures
            exists|raw: [i32; 4]|
                #[trigger] extent.ensures((i, j), raw) && r == clipped(
                    raw,
                    self.grid_size[0] as i32,
                    self.grid_size[1] as i32,
                ),
    {
        let raw = extent(i, j);
        clip(raw, self.grid_size[0] as i32, self.grid_size[1] as i32)
    }
}

} // verus!

//! The capability interface shared by the tiling families.
//!
//! A coordinate is a pair of signed 8-bit components whose meaning is
//! family-specific. Each family fixes a distance metric (`ring_xy`), a
//! closed-form cell count per radius (`area_spec`), a row decomposition of the
//! disc of cells within a radius (`xmin_spec` / `row_len_spec`), and a fixed
//! rotational neighbor order (`dir_dx` / `dir_dy`). The canonical enumeration
//! of a radius-`r` disc walks rows from the topmost extent (`y == -r`) to the
//! bottommost (`y == r`), left to right within a row; it is derived once here,
//! generically, from the row decomposition.

use vstd::prelude::*;

verus! {

use vstd::math::abs;

/// The specification half of a coordinate algebra: the mathematical model
/// every tiling family provides. The executable operations and the laws the
/// family must prove live in [`Coord`].
pub trait CoordSpec: Sized + Copy {
    /// First (column) component, as a mathematical integer.
    spec fn xi(self) -> int;

    /// Second (row) component, as a mathematical integer.
    spec fn yi(self) -> int;

    /// The coordinate with the given components; exact for components that
    /// fit in `i8`.
    spec fn make(x: int, y: int) -> Self;

    /// The family metric: distance from the origin of the point `(x, y)`,
    /// over unbounded integers.
    spec fn ring_xy(x: int, y: int) -> int;

    /// Closed-form count of coordinates `c` with `ring(c) <= r`.
    spec fn area_spec(r: int) -> int;

    /// Leftmost column of row `y` in the disc of radius `r`.
    spec fn xmin_spec(r: int, y: int) -> int;

    /// Number of cells of row `y` in the disc of radius `r`.
    spec fn row_len_spec(r: int, y: int) -> int;

    /// Leading indentation of row `y` in a 2D rendering of the disc.
    spec fn indent_spec(y: int) -> int;

    /// Size of the fixed neighbor set.
    spec fn n_dirs() -> int;

    /// Column offset of the neighbor at rotational position `k`.
    spec fn dir_dx(k: int) -> int;

    /// Row offset of the neighbor at rotational position `k`.
    spec fn dir_dy(k: int) -> int;
}

/// The laws a tiling family must prove about its model: the metric behaves
/// like a distance, the row decomposition tiles each disc, and the closed-form
/// area counts the rows' cells.
pub trait CoordLaws: CoordSpec {
    /// The metric is a nonnegative, subadditive function that vanishes at the
    /// origin and dominates both components.
    proof fn lemma_metric(x1: int, y1: int, x2: int, y2: int)
        ensures
            Self::ring_xy(x1, y1) >= 0,
            Self::ring_xy(0, 0) == 0,
            abs(x1) <= Self::ring_xy(x1, y1),
            abs(y1) <= Self::ring_xy(x1, y1),
            Self::ring_xy(x1 + x2, y1 + y2) <= Self::ring_xy(x1, y1) + Self::ring_xy(x2, y2),
    ;

    /// Components always fit in `i8`, and `make` is inverse to reading the
    /// components.
    proof fn lemma_make_roundtrip(c: Self, x: int, y: int)
        ensures
            -128 <= c.xi() <= 127,
            -128 <= c.yi() <= 127,
            Self::make(c.xi(), c.yi()) == c,
            (-128 <= x <= 127 && -128 <= y <= 127) ==> Self::make(x, y).xi() == x
                && Self::make(x, y).yi() == y,
    ;

    /// Every row of a disc of radius at most 127 is nonempty and lies within
    /// the `i8` component range.
    proof fn lemma_row_shape(r: int, y: int)
        requires
            0 <= r <= 127,
            -r <= y <= r,
        ensures
            1 <= Self::row_len_spec(r, y),
            -127 <= Self::xmin_spec(r, y),
            Self::xmin_spec(r, y) + Self::row_len_spec(r, y) - 1 <= 127,
    ;

    /// Membership in the disc of radius `r` is exactly membership in one of
    /// its rows: the row decomposition tiles the disc.
    proof fn lemma_in_row(r: int, c: Self)
        requires
            0 <= r <= 127,
        ensures
            Self::ring_xy(c.xi(), c.yi()) <= r <==> (-r <= c.yi() <= r
                && Self::xmin_spec(r, c.yi()) <= c.xi() < Self::xmin_spec(r, c.yi())
                + Self::row_len_spec(r, c.yi())),
    ;

    /// The closed-form area is the sum of the row lengths.
    proof fn lemma_area_is_sum(r: int)
        requires
            0 <= r <= 127,
        ensures
            Self::area_spec(r) == row_start::<Self>(r, r + 1),
    ;

    /// The fixed neighbor set is nonempty and small enough for a byte mask.
    proof fn lemma_dirs()
        ensures
            1 <= Self::n_dirs() <= 8,
    ;
}

/// One coordinate algebra: the executable operations of a tiling family.
pub trait Coord: CoordLaws {
    /// Distance of this coordinate from the origin.
    fn ring(&self) -> (d: u16)
        ensures
            d as int == ring_of(*self),
    ;

    /// The coordinate with the given components.
    fn from_xy(x: i8, y: i8) -> (c: Self)
        ensures
            c == Self::make(x as int, y as int),
    ;

    /// First (column) component.
    fn x(&self) -> (x: i8)
        ensures
            x as int == self.xi(),
    ;

    /// Second (row) component.
    fn y(&self) -> (y: i8)
        ensures
            y as int == self.yi(),
    ;

    /// Translation: the coordinate offset from `self` by `other`.
    fn add(self, other: Self) -> (c: Self)
        requires
            -128 <= self.xi() + other.xi() <= 127,
            -128 <= self.yi() + other.yi() <= 127,
        ensures
            c == Self::make(self.xi() + other.xi(), self.yi() + other.yi()),
    ;

    /// Total number of coordinates within radius `r`.
    fn map_area(r: u8) -> (n: usize)
        requires
            r <= 127,
        ensures
            n as int == Self::area_spec(r as int),
    ;

    /// Number of cells of row `y` in the disc of radius `r`.
    fn row_len(r: u8, y: i8) -> (n: usize)
        requires
            r <= 127,
            -(r as int) <= y as int <= r as int,
        ensures
            n as int == Self::row_len_spec(r as int, y as int),
    ;

    /// Leftmost column of row `y` in the disc of radius `r`.
    fn xmin_row(r: u8, y: i8) -> (x: i8)
        requires
            r <= 127,
            -(r as int) <= y as int <= r as int,
        ensures
            x as int == Self::xmin_spec(r as int, y as int),
    ;

    /// Leading indentation of row `y` in a 2D rendering.
    fn aa_indent(y: i8) -> (n: usize)
        ensures
            n as int == Self::indent_spec(y as int),
    ;

    /// Offset of an in-bounds coordinate in the canonical enumeration of the
    /// disc of radius `r`.
    fn index(r: u8, c: Self) -> (i: usize)
        requires
            r <= 127,
            ring_of(c) <= r as int,
        ensures
            i as int == index_of::<Self>(r as int, c),
    ;

    /// The fixed-size neighbor set of `self`, in the family's rotational
    /// order.
    fn neighbors(&self) -> (v: Vec<Self>)
        requires
            -127 <= self.xi() <= 126,
            -127 <= self.yi() <= 126,
        ensures
            v@.len() == Self::n_dirs(),
            forall|k: int|
                0 <= k < Self::n_dirs() ==> v@[k] == Self::make(
                    self.xi() + Self::dir_dx(k),
                    self.yi() + Self::dir_dy(k),
                ),
    ;
}

/// Distance of `c` from the origin under its family's metric.
pub open spec fn ring_of<C: CoordSpec>(c: C) -> int {
    C::ring_xy(c.xi(), c.yi())
}

/// Number of cells in rows `-r, ..., y - 1` of the disc of radius `r`: the
/// canonical offset at which row `y` starts.
pub open spec fn row_start<C: CoordSpec>(r: int, y: int) -> int
    decreases y + r,
{
    if y <= -r {
        0
    } else {
        row_start::<C>(r, y - 1) + C::row_len_spec(r, y - 1)
    }
}

/// Row `y` of the disc of radius `r`, left to right.
pub open spec fn row_seq<C: CoordSpec>(r: int, y: int) -> Seq<C> {
    Seq::new(C::row_len_spec(r, y) as nat, |i: int| C::make(C::xmin_spec(r, y) + i, y))
}

/// Rows `-r, ..., y - 1` of the disc of radius `r`, concatenated in order.
pub open spec fn canon<C: CoordSpec>(r: int, y: int) -> Seq<C>
    decreases y + r,
{
    if y <= -r {
        Seq::empty()
    } else {
        canon::<C>(r, y - 1) + row_seq::<C>(r, y - 1)
    }
}

/// The canonical enumeration of the whole disc of radius `r`.
pub open spec fn canon_all<C: CoordSpec>(r: int) -> Seq<C> {
    canon::<C>(r, r + 1)
}

/// Canonical offset of `c` in the disc of radius `r`: cells in earlier rows,
/// plus cells to the left of `c` in its own row.
pub open spec fn index_of<C: CoordSpec>(r: int, c: C) -> int {
    row_start::<C>(r, c.yi()) + c.xi() - C::xmin_spec(r, c.yi())
}

/// Row offsets are nondecreasing from row to row.
pub proof fn lemma_row_start_mono<C: CoordLaws>(r: int, y1: int, y2: int)
    requires
        0 <= r <= 127,
        -r <= y1 <= y2 <= r + 1,
    ensures
        0 <= row_start::<C>(r, y1) <= row_start::<C>(r, y2),
    decreases y2 - y1,
{
    if y1 == y2 {
        lemma_row_start_nonneg::<C>(r, y1);
    } else {
        lemma_row_start_mono::<C>(r, y1, y2 - 1);
        C::lemma_row_shape(r, y2 - 1);
    }
}

/// Row offsets are nonnegative.
pub proof fn lemma_row_start_nonneg<C: CoordLaws>(r: int, y: int)
    requires
        0 <= r <= 127,
        -r <= y <= r + 1,
    ensures
        row_start::<C>(r, y) >= 0,
    decreases y + r,
{
    if y > -r {
        lemma_row_start_nonneg::<C>(r, y - 1);
        C::lemma_row_shape(r, y - 1);
    }
}

/// The canonical offset of an in-bounds coordinate falls inside the disc's
/// cell count.
pub proof fn lemma_index_of_range<C: CoordLaws>(r: int, c: C)
    requires
        0 <= r <= 127,
        ring_of(c) <= r,
    ensures
        0 <= index_of::<C>(r, c) < C::area_spec(r),
{
    C::lemma_in_row(r, c);
    let y = c.yi();
    lemma_row_start_mono::<C>(r, -r, y);
    assert(row_start::<C>(r, y + 1) == row_start::<C>(r, y) + C::row_len_spec(r, y));
    lemma_row_start_mono::<C>(r, y + 1, r + 1);
    C::lemma_area_is_sum(r);
}

/// The coordinate offset from `c` by `o`, componentwise.
pub open spec fn translate<C: CoordSpec>(c: C, o: C) -> C {
    C::make(c.xi() + o.xi(), c.yi() + o.yi())
}

/// The canonical enumeration of rows `-r, ..., y - 1` holds exactly the cells
/// those rows count.
pub proof fn lemma_canon_len<C: CoordLaws>(r: int, y: int)
    requires
        0 <= r <= 127,
        -r <= y <= r + 1,
    ensures
        canon::<C>(r, y).len() == row_start::<C>(r, y),
    decreases y + r,
{
    if y > -r {
        lemma_canon_len::<C>(r, y - 1);
        C::lemma_row_shape(r, y - 1);
    }
}

/// Within the canonical enumeration of the disc of radius `r`, the cell at
/// offset `j` of row `y` stands at position `row_start + j`.
pub proof fn lemma_canon_row_index<C: CoordLaws>(r: int, y: int, j: int, t: int)
    requires
        0 <= r <= 127,
        -r <= y <= r,
        0 <= j < C::row_len_spec(r, y),
        y + 1 <= t <= r + 1,
    ensures
        0 <= row_start::<C>(r, y) + j < canon::<C>(r, t).len(),
        canon::<C>(r, t)[row_start::<C>(r, y) + j] == C::make(C::xmin_spec(r, y) + j, y),
    decreases t + r,
{
    lemma_canon_len::<C>(r, t);
    lemma_canon_len::<C>(r, t - 1);
    if t == y + 1 {
        lemma_canon_len::<C>(r, y);
        assert(canon::<C>(r, t) == canon::<C>(r, y) + row_seq::<C>(r, y));
        assert(row_seq::<C>(r, y)[j] == C::make(C::xmin_spec(r, y) + j, y));
    } else {
        lemma_canon_row_index::<C>(r, y, j, t - 1);
        assert(canon::<C>(r, t) == canon::<C>(r, t - 1) + row_seq::<C>(r, t - 1));
        C::lemma_row_shape(r, t - 1);
    }
}

/// Every position of the canonical enumeration decomposes as a row and an
/// offset within the row.
pub proof fn lemma_row_of_index<C: CoordLaws>(r: int, t: int, i: int) -> (p: (int, int))
    requires
        0 <= r <= 127,
        -r <= t <= r + 1,
        0 <= i < row_start::<C>(r, t),
    ensures
        -r <= p.0 < t,
        0 <= p.1 < C::row_len_spec(r, p.0),
        i == row_start::<C>(r, p.0) + p.1,
    decreases t + r,
{
    lemma_row_start_nonneg::<C>(r, t - 1);
    if i >= row_start::<C>(r, t - 1) {
        (t - 1, i - row_start::<C>(r, t - 1))
    } else {
        lemma_row_of_index::<C>(r, t - 1, i)
    }
}

/// Canonical order and canonical offset are mutual inverses: the enumeration
/// of the disc of radius `r` has exactly `area` cells with no repetition, the
/// cell at position `i` has canonical offset `i`, and every in-bounds
/// coordinate stands at its canonical offset.
pub proof fn lemma_canon_bijection<C: CoordLaws>(r: int)
    requires
        0 <= r <= 127,
    ensures
        canon_all::<C>(r).len() == C::area_spec(r),
        canon_all::<C>(r).no_duplicates(),
        forall|i: int|
            0 <= i < C::area_spec(r) ==> index_of::<C>(r, #[trigger] canon_all::<C>(r)[i]) == i,
        forall|c: C|
            ring_of(c) <= r ==> 0 <= index_of::<C>(r, c) < C::area_spec(r) && canon_all::<C>(
                r)[index_of::<C>(r, c)] == c,
{
    lemma_canon_len::<C>(r, r + 1);
    C::lemma_area_is_sum(r);
    assert forall|i: int| 0 <= i < C::area_spec(r) implies index_of::<C>(
        r,
        #[trigger] canon_all::<C>(r)[i],
    ) == i by {
        let p = lemma_row_of_index::<C>(r, r + 1, i);
        let (y, j) = p;
        lemma_canon_row_index::<C>(r, y, j, r + 1);
        let c = canon_all::<C>(r)[i];
        C::lemma_row_shape(r, y);
        C::lemma_make_roundtrip(c, C::xmin_spec(r, y) + j, y);
    }
    assert forall|c: C| ring_of(c) <= r implies 0 <= index_of::<C>(r, c) < C::area_spec(r)
        && canon_all::<C>(r)[index_of::<C>(r, c)] == c by {
        lemma_index_of_range::<C>(r, c);
        C::lemma_in_row(r, c);
        let y = c.yi();
        let j = c.xi() - C::xmin_spec(r, y);
        lemma_canon_row_index::<C>(r, y, j, r + 1);
        C::lemma_make_roundtrip(c, C::xmin_spec(r, y) + j, y);
    }
    assert forall|i: int, j: int|
        0 <= i < canon_all::<C>(r).len() && 0 <= j < canon_all::<C>(r).len() && i
            != j implies canon_all::<C>(r)[i] != canon_all::<C>(r)[j] by {
        assert(index_of::<C>(r, canon_all::<C>(r)[i]) == i);
        assert(index_of::<C>(r, canon_all::<C>(r)[j]) == j);
    }
}

/// The canonical enumeration of the disc of radius `r` holds exactly the
/// coordinates within ring `r`, and the origin has ring zero.
pub proof fn lemma_canon_complete<C: CoordLaws>(r: int)
    requires
        0 <= r <= 127,
    ensures
        C::ring_xy(0, 0) == 0,
        forall|c: C| canon_all::<C>(r).contains(c) <==> ring_of(c) <= r,
{
    C::lemma_metric(0, 0, 0, 0);
    lemma_canon_len::<C>(r, r + 1);
    lemma_canon_bijection::<C>(r);
    C::lemma_area_is_sum(r);
    assert forall|c: C| canon_all::<C>(r).contains(c) implies ring_of(c) <= r by {
        let i = choose|i: int| 0 <= i < canon_all::<C>(r).len() && canon_all::<C>(r)[i] == c;
        let p = lemma_row_of_index::<C>(r, r + 1, i);
        let (y, j) = p;
        lemma_canon_row_index::<C>(r, y, j, r + 1);
        C::lemma_row_shape(r, y);
        C::lemma_make_roundtrip(c, C::xmin_spec(r, y) + j, y);
        C::lemma_in_row(r, c);
    }
    assert forall|c: C| ring_of(c) <= r implies canon_all::<C>(r).contains(c) by {
        assert(canon_all::<C>(r)[index_of::<C>(r, c)] == c);
    }
}

/// Builds the canonical enumeration of the disc of radius `r`: every
/// coordinate with `ring(c) <= r` exactly once, row by row, left to right.
pub fn iter_coords_of<C: Coord>(r: u8) -> (v: Vec<C>)
    requires
        r <= 127,
    ensures
        v@ == canon_all::<C>(r as int),
{
    let ri = r as i32;
    let mut v: Vec<C> = Vec::new();
    let mut y: i32 = -ri;
    while y <= ri
        invariant
            r <= 127,
            ri == r as int,
            -ri <= y <= ri + 1,
            v@ == canon::<C>(r as int, y as int),
        decreases ri + 1 - y,
    {
        let xmin = C::xmin_row(r, y as i8);
        let len = C::row_len(r, y as i8);
        proof {
            C::lemma_row_shape(r as int, y as int);
        }
        let mut j: usize = 0;
        while j < len
            invariant
                r <= 127,
                ri == r as int,
                -ri <= y <= ri,
                xmin as int == C::xmin_spec(r as int, y as int),
                len as int == C::row_len_spec(r as int, y as int),
                C::xmin_spec(r as int, y as int) + C::row_len_spec(r as int, y as int) - 1 <= 127,
                0 <= j <= len,
                v@ == canon::<C>(r as int, y as int) + row_seq::<C>(r as int, y as int).take(
                    j as int),
            decreases len - j,
        {
            let x = (xmin as i32 + j as i32) as i8;
            let c = C::from_xy(x, y as i8);
            proof {
                C::lemma_make_roundtrip(c, x as int, y as int);
                assert(row_seq::<C>(r as int, y as int)[j as int] == c);
                assert(row_seq::<C>(r as int, y as int).take(j + 1) == row_seq::<C>(
                    r as int, y as int).take(j as int).push(c));
            }
            v.push(c);
            j += 1;
        }
        proof {
            assert(row_seq::<C>(r as int, y as int).take(len as int) == row_seq::<C>(
                r as int, y as int));
            assert(canon::<C>(r as int, y as int + 1) == canon::<C>(r as int, y as int)
                + row_seq::<C>(r as int, y as int));
        }
        y += 1;
    }
    v
}

} // verus!

//! The square tiling family.
//!
//! A `Sq` coordinate is an orthogonal pair `(x, y)`: column and row of an
//! axis-aligned grid. The ring of a cell is the Chebyshev distance
//! `max(|x|, |y|)`, and the disc of radius `r` is the axis-aligned square of
//! `(2*r + 1) * (2*r + 1)` cells.

use vstd::prelude::*;

verus! {

use vstd::math::{abs, max};

use crate::coord::{Coord, CoordLaws, CoordSpec, lemma_index_of_range, lemma_row_start_nonneg,
    row_start};

/// An orthogonal coordinate on the square tiling: column `x`, then row `y`.
#[derive(Debug, Clone, Copy, PartialEq, Eq, Hash, Structural)]
pub struct Sq(pub i8, pub i8);

/// Canonical row offset for the square family, in closed form:
/// `sq_rs(r, y) == row_start::<Sq>(r, y)`.
pub open spec fn sq_rs(r: int, y: int) -> int {
    (y + r) * (2 * r + 1)
}

/// The recursive row-offset sum for `Sq` equals its closed form.
pub proof fn lemma_sq_rs(r: int, y: int)
    requires
        0 <= r <= 127,
        -r <= y <= r + 1,
    ensures
        row_start::<Sq>(r, y) == sq_rs(r, y),
    decreases y + r,
{
    if y <= -r {
        assert((y + r) * (2 * r + 1) == 0) by (nonlinear_arith)
            requires y + r == 0;
    } else {
        lemma_sq_rs(r, y - 1);
        assert((y - 1 + r) * (2 * r + 1) + (2 * r + 1) == (y + r) * (2 * r + 1))
            by (nonlinear_arith);
    }
}

impl CoordSpec for Sq {
    open spec fn xi(self) -> int {
        self.0 as int
    }

    open spec fn yi(self) -> int {
        self.1 as int
    }

    open spec fn make(x: int, y: int) -> Self {
        Sq(x as i8, y as i8)
    }

    open spec fn ring_xy(x: int, y: int) -> int {
        max(abs(x) as int, abs(y) as int)
    }

    open spec fn area_spec(r: int) -> int {
        (2 * r + 1) * (2 * r + 1)
    }

    open spec fn xmin_spec(r: int, y: int) -> int {
        -r
    }

    open spec fn row_len_spec(r: int, y: int) -> int {
        2 * r + 1
    }

    open spec fn indent_spec(y: int) -> int {
        0
    }

    open spec fn n_dirs() -> int {
        4
    }

    open spec fn dir_dx(k: int) -> int {
        if k == 0 {
            1
        } else if k == 1 {
            0
        } else if k == 2 {
            -1
        } else {
            0
        }
    }

    open spec fn dir_dy(k: int) -> int {
        if k == 0 {
            0
        } else if k == 1 {
            1
        } else if k == 2 {
            0
        } else {
            -1
        }
    }
}

impl CoordLaws for Sq {
    proof fn lemma_metric(x1: int, y1: int, x2: int, y2: int) {
    }

    proof fn lemma_make_roundtrip(c: Self, x: int, y: int) {
    }

    proof fn lemma_row_shape(r: int, y: int) {
    }

    proof fn lemma_in_row(r: int, c: Self) {
    }

    proof fn lemma_dirs() {
    }

    proof fn lemma_area_is_sum(r: int) {
        lemma_sq_rs(r, r + 1);
        assert((r + 1 + r) * (2 * r + 1) == (2 * r + 1) * (2 * r + 1)) by (nonlinear_arith);
    }
}

impl Coord for Sq {
    fn ring(&self) -> (d: u16) {
        let x = self.0 as i32;
        let y = self.1 as i32;
        let ax = if x < 0 { -x } else { x };
        let ay = if y < 0 { -y } else { y };
        let m = if ax >= ay { ax } else { ay };
        m as u16
    }

    fn from_xy(x: i8, y: i8) -> (c: Self) {
        Sq(x, y)
    }

    fn x(&self) -> (x: i8) {
        self.0
    }

    fn y(&self) -> (y: i8) {
        self.1
    }

    fn add(self, other: Self) -> (c: Self) {
        let x = self.0 as i16 + other.0 as i16;
        let y = self.1 as i16 + other.1 as i16;
        Sq(x as i8, y as i8)
    }

    fn map_area(r: u8) -> (n: usize) {
        let side = 2 * (r as i32) + 1;
        proof {
            assert(0 <= (side as int) * (side as int) <= 65025) by (nonlinear_arith)
                requires
                    1 <= side as int <= 255,
            ;
        }
        (side * side) as usize
    }

    fn row_len(r: u8, y: i8) -> (n: usize) {
        (2 * (r as i32) + 1) as usize
    }

    fn xmin_row(r: u8, y: i8) -> (x: i8) {
        -(r as i8)
    }

    fn aa_indent(y: i8) -> (n: usize) {
        0
    }

    fn index(r: u8, c: Self) -> (i: usize) {
        let ri = r as i32;
        let x = c.0 as i32;
        let y = c.1 as i32;
        proof {
            Sq::lemma_in_row(r as int, c);
            lemma_sq_rs(r as int, y as int);
            lemma_row_start_nonneg::<Sq>(r as int, y as int);
            lemma_index_of_range::<Sq>(r as int, c);
            assert(0 <= (y + ri) as int * (2 * ri + 1) as int <= 65010) by (nonlinear_arith)
                requires
                    0 <= (y + ri) as int <= 254,
                    1 <= (2 * ri + 1) as int <= 255,
            ;
        }
        let start = (y + ri) * (2 * ri + 1);
        (start + x + ri) as usize
    }

    fn neighbors(&self) -> (v: Vec<Self>) {
        let x = self.0;
        let y = self.1;
        let mut v: Vec<Sq> = Vec::new();
        v.push(Sq(x + 1, y));
        v.push(Sq(x, y + 1));
        v.push(Sq(x - 1, y));
        v.push(Sq(x, y - 1));
        v
    }
}

} // verus!

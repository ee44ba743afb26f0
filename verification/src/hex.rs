//! The hexagonal tiling family.
//!
//! A `Hex` coordinate is an axial pair `(x, y)`: `y` selects a row, `x` a
//! cell within the row, and rows are offset so that the three axes of the
//! hexagonal lattice are `x`, `y` and `x + y`. The ring of a cell is the
//! standard axial hex distance `max(|x|, |y|, |x + y|)`, and the disc of
//! radius `r` holds `3*r*(r + 1) + 1` cells (a centered hexagon).

use vstd::prelude::*;

verus! {

use vstd::math::{abs, max3};

use crate::coord::{Coord, CoordLaws, CoordSpec, canon_all, iter_coords_of, lemma_canon_complete,
    lemma_index_of_range, lemma_row_start_nonneg, ring_of, row_start, translate};

/// An axial coordinate on the hexagonal tiling: column `x`, then row `y`.
#[derive(Debug, Clone, Copy, PartialEq, Eq, Hash, Structural)]
pub struct Hex(pub i8, pub i8);

/// Doubled canonical row offset for the hexagonal family, in closed form:
/// `hex_rs2(r, y) == 2 * row_start::<Hex>(r, y)`.
pub open spec fn hex_rs2(r: int, y: int) -> int {
    if y <= 0 {
        (y + r) * (2 * r + (y + r) + 1)
    } else {
        r * (3 * r + 1) + y * (4 * r + 3) - y * y
    }
}

/// The recursive row-offset sum for `Hex` equals its closed form.
pub proof fn lemma_hex_rs2(r: int, y: int)
    requires
        0 <= r <= 127,
        -r <= y <= r + 1,
    ensures
        2 * row_start::<Hex>(r, y) == hex_rs2(r, y),
    decreases y + r,
{
    if y <= -r {
        assert((y + r) * (2 * r + (y + r) + 1) == 0) by (nonlinear_arith)
            requires y + r == 0;
    } else {
        lemma_hex_rs2(r, y - 1);
        let k = y + r;
        if y <= 0 {
            assert(Hex::row_len_spec(r, y - 1) == 2 * r + y);
            assert((k - 1) * (2 * r + (k - 1) + 1) + 2 * (2 * r + y) == k * (2 * r + k + 1))
                by (nonlinear_arith)
                requires k == y + r;
        } else if y == 1 {
            assert(hex_rs2(r, 0) == r * (2 * r + r + 1));
            assert(Hex::row_len_spec(r, 0) == 2 * r + 1);
            assert(r * (2 * r + r + 1) + 2 * (2 * r + 1) == r * (3 * r + 1) + 1 * (4 * r + 3) - 1
                * 1) by (nonlinear_arith);
        } else {
            assert(Hex::row_len_spec(r, y - 1) == 2 * r + 2 - y);
            assert(r * (3 * r + 1) + (y - 1) * (4 * r + 3) - (y - 1) * (y - 1) + 2 * (2 * r + 2
                - y) == r * (3 * r + 1) + y * (4 * r + 3) - y * y) by (nonlinear_arith);
        }
    }
}

impl Hex {
    /// The cells at hex distance exactly `d` from `self`: the result holds a
    /// coordinate exactly when its offset from `self` has ring `d`.
    pub fn iter_ring(&self, d: u8) -> (v: Vec<Hex>)
        requires
            d <= 127,
            -128 <= self.xi() - d as int,
            self.xi() + d as int <= 127,
            -128 <= self.yi() - d as int,
            self.yi() + d as int <= 127,
        ensures
            forall|w: Hex|
                v@.contains(w) <==> Hex::ring_xy(w.xi() - self.xi(), w.yi() - self.yi())
                    == d as int,
    {
        proof {
            lemma_canon_complete::<Hex>(d as int);
        }
        let cells = iter_coords_of::<Hex>(d);
        let len = cells.len();
        let mut v: Vec<Hex> = Vec::new();
        let mut i: usize = 0;
        while i < len
            invariant
                d <= 127,
                -128 <= self.xi() - d as int,
                self.xi() + d as int <= 127,
                -128 <= self.yi() - d as int,
                self.yi() + d as int <= 127,
                cells@ == canon_all::<Hex>(d as int),
                len == cells@.len(),
                0 <= i <= len,
                forall|j: int|
                    0 <= j < i as int && ring_of(#[trigger] cells@[j]) == d as int
                        ==> v@.contains(translate(cells@[j], *self)),
                forall|w: Hex|
                    #[trigger] v@.contains(w) ==> Hex::ring_xy(
                        w.xi() - self.xi(),
                        w.yi() - self.yi(),
                    ) == d as int,
            decreases len - i,
        {
            let u = cells[i];
            let ghost vold = v@;
            if u.ring() == d as u16 {
                proof {
                    Hex::lemma_metric(u.xi(), u.yi(), 0, 0);
                }
                let w = u.add(*self);
                v.push(w);
                proof {
                    Hex::lemma_make_roundtrip(w, self.xi() + u.xi(), self.yi() + u.yi());
                    assert forall|j: int|
                        0 <= j < i as int + 1 && ring_of(#[trigger] cells@[j])
                            == d as int implies v@.contains(translate(cells@[j], *self)) by {
                        if j < i as int {
                            let t = choose|t: int|
                                0 <= t < vold.len() && vold[t] == translate(cells@[j], *self);
                            assert(v@[t] == translate(cells@[j], *self));
                        } else {
                            assert(v@[vold.len() as int] == translate(cells@[i as int], *self));
                        }
                    }
                    assert forall|w0: Hex| #[trigger] v@.contains(w0) implies Hex::ring_xy(
                        w0.xi() - self.xi(),
                        w0.yi() - self.yi(),
                    ) == d as int by {
                        let t = choose|t: int| 0 <= t < v@.len() && v@[t] == w0;
                        if t < vold.len() {
                            assert(vold[t] == w0);
                            assert(vold.contains(w0));
                        } else {
                            assert(w0 == w);
                        }
                    }
                }
            } else {
                proof {
                    assert(ring_of(cells@[i as int]) != d as int);
                }
            }
            i += 1;
        }
        proof {
            assert forall|w: Hex|
                Hex::ring_xy(w.xi() - self.xi(), w.yi() - self.yi()) == d as int implies v@
                .contains(w) by {
                let dx = w.xi() - self.xi();
                let dy = w.yi() - self.yi();
                Hex::lemma_metric(dx, dy, 0, 0);
                Hex::lemma_make_roundtrip(w, dx, dy);
                let u = Hex::make(dx, dy);
                Hex::lemma_make_roundtrip(u, dx, dy);
                assert(ring_of(u) == d as int);
                assert(canon_all::<Hex>(d as int).contains(u));
                let j = choose|j: int|
                    0 <= j < canon_all::<Hex>(d as int).len() && canon_all::<Hex>(
                        d as int)[j] == u;
                assert(v@.contains(translate(cells@[j], *self)));
                assert(translate(u, *self) == w);
            }
        }
        v
    }
}

impl CoordSpec for Hex {
    open spec fn xi(self) -> int {
        self.0 as int
    }

    open spec fn yi(self) -> int {
        self.1 as int
    }

    open spec fn make(x: int, y: int) -> Self {
        Hex(x as i8, y as i8)
    }

    open spec fn ring_xy(x: int, y: int) -> int {
        max3(abs(x) as int, abs(y) as int, abs(x + y) as int)
    }

    open spec fn area_spec(r: int) -> int {
        3 * r * (r + 1) + 1
    }

    open spec fn xmin_spec(r: int, y: int) -> int {
        if y >= 0 {
            -r
        } else {
            -y - r
        }
    }

    open spec fn row_len_spec(r: int, y: int) -> int {
        2 * r + 1 - abs(y)
    }

    open spec fn indent_spec(y: int) -> int {
        abs(y) as int
    }

    open spec fn n_dirs() -> int {
        6
    }

    open spec fn dir_dx(k: int) -> int {
        if k == 0 {
            1
        } else if k == 1 {
            0
        } else if k == 2 {
            -1
        } else if k == 3 {
            -1
        } else if k == 4 {
            0
        } else {
            1
        }
    }

    open spec fn dir_dy(k: int) -> int {
        if k == 0 {
            0
        } else if k == 1 {
            1
        } else if k == 2 {
            1
        } else if k == 3 {
            0
        } else if k == 4 {
            -1
        } else {
            -1
        }
    }

}

impl CoordLaws for Hex {
    proof fn lemma_metric(x1: int, y1: int, x2: int, y2: int) {
    }

    proof fn lemma_make_roundtrip(c: Self, x: int, y: int) {
    }

    proof fn lemma_row_shape(r: int, y: int) {
    }

    proof fn lemma_in_row(r: int, c: Self) {
    }

    proof fn lemma_dirs() {
    }

    proof fn lemma_area_is_sum(r: int) {
        lemma_hex_rs2(r, r + 1);
        let y = r + 1;
        assert(hex_rs2(r, y) == r * (3 * r + 1) + y * (4 * r + 3) - y * y);
        assert(r * (3 * r + 1) + (r + 1) * (4 * r + 3) - (r + 1) * (r + 1) == 2 * (3 * r * (r + 1)
            + 1)) by (nonlinear_arith);
    }
}

impl Coord for Hex {
    fn ring(&self) -> (d: u16) {
        let x = self.0 as i32;
        let y = self.1 as i32;
        let s = x + y;
        let ax = if x < 0 { -x } else { x };
        let ay = if y < 0 { -y } else { y };
        let az = if s < 0 { -s } else { s };
        let m = if ax >= ay && ax >= az {
            ax
        } else if ay >= az {
            ay
        } else {
            az
        };
        m as u16
    }

    fn from_xy(x: i8, y: i8) -> (c: Self) {
        Hex(x, y)
    }

    fn x(&self) -> (x: i8) {
        self.0
    }

    fn y(&self) -> (y: i8) {
        self.1
    }

    fn add(self, other: Self) -> (c: Self) {
        let x = self.0 as i16 + other.0 as i16;
        let y = self.1 as i16 + other.1 as i16;
        Hex(x as i8, y as i8)
    }

    fn map_area(r: u8) -> (n: usize) {
        let ri = r as i32;
        proof {
            assert(0 <= 3 * (ri as int) * (ri as int + 1) <= 48768) by (nonlinear_arith)
                requires
                    0 <= ri as int <= 127,
            ;
        }
        let a = 3 * ri;
        (a * (ri + 1) + 1) as usize
    }

    fn row_len(r: u8, y: i8) -> (n: usize) {
        let ri = r as i32;
        let yi = y as i32;
        let ay = if yi < 0 { -yi } else { yi };
        (2 * ri + 1 - ay) as usize
    }

    fn xmin_row(r: u8, y: i8) -> (x: i8) {
        let ri = r as i32;
        let yi = y as i32;
        let m = if yi >= 0 { -ri } else { -yi - ri };
        m as i8
    }

    fn aa_indent(y: i8) -> (n: usize) {
        let yi = y as i32;
        let ay = if yi < 0 { -yi } else { yi };
        ay as usize
    }

    fn index(r: u8, c: Self) -> (i: usize) {
        let ri = r as i32;
        let x = c.0 as i32;
        let y = c.1 as i32;
        proof {
            Hex::lemma_in_row(r as int, c);
            lemma_hex_rs2(r as int, y as int);
            lemma_row_start_nonneg::<Hex>(r as int, y as int);
            lemma_index_of_range::<Hex>(r as int, c);
            assert forall|a: int, b: int| 0 <= a <= 254 && 0 <= b <= 511 implies 0 <= #[trigger] (a
                * b) <= 130562 by {
                vstd::arithmetic::mul::lemma_mul_upper_bound(a, 254, b, 511);
                vstd::arithmetic::mul::lemma_mul_nonnegative(a, b);
            }
        }
        let k = y + ri;
        let rs2 = if y <= 0 {
            k * (2 * ri + k + 1)
        } else {
            let p1 = ri * (3 * ri + 1);
            let p2 = y * (4 * ri + 3);
            let p3 = y * y;
            p1 + p2 - p3
        };
        assert(rs2 == hex_rs2(r as int, y as int));
        let start = rs2 / 2;
        let xmin = if y >= 0 { -ri } else { -y - ri };
        (start + x - xmin) as usize
    }

    fn neighbors(&self) -> (v: Vec<Self>) {
        let x = self.0;
        let y = self.1;
        let mut v: Vec<Hex> = Vec::new();
        v.push(Hex(x + 1, y));
        v.push(Hex(x, y + 1));
        v.push(Hex(x - 1, y + 1));
        v.push(Hex(x - 1, y));
        v.push(Hex(x, y - 1));
        v.push(Hex(x + 1, y - 1));
        v
    }
}

} // verus!

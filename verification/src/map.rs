//! Dense storage for a radius-bounded map.
//!
//! A [`MapData`] owns one element per coordinate whose ring is at most its
//! radius, laid out contiguously in the coordinate family's canonical order.
//! The family is chosen by the `C` type parameter and fixed for the life of
//! the map.

use vstd::prelude::*;

verus! {

use core::marker::PhantomData;
use vstd::pervasive::cloned;

use crate::coord::{Coord, CoordSpec, canon_all, index_of, iter_coords_of, lemma_canon_bijection,
    lemma_canon_complete, lemma_index_of_range, lemma_row_start_mono, ring_of, row_start,
    translate};

/// `n` spaces (no bytes when `n` is not positive).
pub open spec fn spaces(n: int) -> Seq<u8> {
    Seq::new(if n >= 0 { n as nat } else { 0 }, |i: int| 32u8)
}

/// One rendered row body: each glyph preceded by a single space delimiter.
pub open spec fn row_glyph_bytes(g: Seq<u8>) -> Seq<u8>
    decreases g.len(),
{
    if g.len() == 0 {
        Seq::empty()
    } else {
        row_glyph_bytes(g.drop_last()) + seq![32u8, g.last()]
    }
}

/// The rendered form of rows `-r, ..., y - 1` of a disc of radius `r` whose
/// cells were drawn as `glyphs` (one byte per cell, canonical order): each
/// row after the first is preceded by a newline, then indented per the
/// family's row indentation, then holds its glyphs space-delimited.
pub open spec fn render_rows<C: CoordSpec>(r: int, glyphs: Seq<u8>, y: int) -> Seq<u8>
    decreases y + r,
{
    if y <= -r {
        Seq::empty()
    } else {
        render_rows::<C>(r, glyphs, y - 1) + (if y - 1 > -r {
            seq![10u8]
        } else {
            Seq::<u8>::empty()
        }) + spaces(C::indent_spec(y - 1)) + row_glyph_bytes(
            glyphs.subrange(
                row_start::<C>(r, y - 1),
                row_start::<C>(r, y - 1) + C::row_len_spec(r, y - 1),
            ),
        )
    }
}

/// The full rendered form of a disc of radius `r`: every row, followed by a
/// final newline.
pub open spec fn render_spec<C: CoordSpec>(r: int, glyphs: Seq<u8>) -> Seq<u8> {
    render_rows::<C>(r, glyphs, r + 1) + seq![10u8]
}

/// The value of a bitmask built over `bits` from the most-significant end:
/// each new bit is shifted in from the right, so `bits[0]` lands in the
/// highest occupied position.
pub open spec fn mask_fold(bits: Seq<bool>) -> int
    decreases bits.len(),
{
    if bits.len() == 0 {
        0
    } else {
        2 * mask_fold(bits.drop_last()) + if bits.last() {
            1int
        } else {
            0int
        }
    }
}

/// Exclusive upper bound of a mask over `n` bits: two to the `n`th power.
pub open spec fn mask_bound(n: int) -> int
    decreases n,
{
    if n <= 0 {
        1
    } else {
        2 * mask_bound(n - 1)
    }
}

/// The mask bound is positive.
pub proof fn lemma_mask_bound_pos(n: int)
    ensures
        mask_bound(n) > 0,
    decreases n,
{
    if n > 0 {
        lemma_mask_bound_pos(n - 1);
    }
}

/// The mask bound grows with the number of bits.
pub proof fn lemma_mask_bound_mono(n1: int, n2: int)
    requires
        n1 <= n2,
    ensures
        0 < mask_bound(n1) <= mask_bound(n2),
    decreases n2 - n1,
{
    lemma_mask_bound_pos(n1);
    if n1 < n2 {
        lemma_mask_bound_mono(n1, n2 - 1);
        lemma_mask_bound_pos(n2 - 1);
    }
}

/// Error returned when a windowed crop would reach outside its source map.
#[derive(Debug, Clone, Copy, PartialEq, Eq, Structural)]
pub struct OutOfBoundsError;

/// Map storage for a "radial" map, as a compact dense array.
///
/// `C` is the type of coordinate, `D` the data stored for each cell.
pub struct MapData<C: Coord, D> {
    size: u8,
    data: Vec<D>,
    _c: PhantomData<C>,
}

impl<C: Coord, D> MapData<C, D> {
    /// Radius of the map: every coordinate with ring at most this is stored.
    pub closed spec fn radius(&self) -> int {
        self.size as int
    }

    /// The stored elements, in canonical order.
    pub closed spec fn contents(&self) -> Seq<D> {
        self.data@
    }

    /// Well-formed: the radius is within range and exactly one element is
    /// stored per coordinate of the disc.
    pub open spec fn wf(&self) -> bool {
        0 <= self.radius() <= 127 && self.contents().len() == C::area_spec(self.radius())
    }

    /// Whether `c` lies within this map's radius.
    pub open spec fn in_bounds(&self, c: C) -> bool {
        ring_of(c) <= self.radius()
    }

    /// The element stored for the in-bounds coordinate `c`.
    pub open spec fn at(&self, c: C) -> D {
        self.contents()[index_of::<C>(self.radius(), c)]
    }
}

impl<C: Coord, D: Clone> Clone for MapData<C, D> {
    /// Clone the map: the copy has the same radius and holds an independent
    /// clone of every cell, in the same canonical positions.
    fn clone(&self) -> (map: Self)
        ensures
            map.radius() == self.radius(),
            map.contents().len() == self.contents().len(),
            forall|i: int|
                0 <= i < self.contents().len() ==> cloned(
                    self.contents()[i],
                    #[trigger] map.contents()[i],
                ),
    {
        MapData { size: self.size, data: self.data.clone(), _c: PhantomData }
    }
}

impl<C: Coord, D: Clone> MapData<C, D> {
    /// Construct a map of the given radius with every cell initialized to an
    /// independent clone of `init`.
    pub fn new(size: u8, init: D) -> (map: Self)
        requires
            size <= 127,
        ensures
            map.wf(),
            map.radius() == size as int,
            map.contents().len() == C::area_spec(size as int),
            forall|i: int|
                0 <= i < map.contents().len() ==> cloned(init, #[trigger] map.contents()[i]),
    {
        let len = C::map_area(size);
        let mut data: Vec<D> = Vec::with_capacity(len);
        data.resize(len, init);
        MapData { size, data, _c: PhantomData }
    }

    /// All cells as `(coordinate, element)` pairs in canonical order, the
    /// elements cloned out of the map.
    pub fn iter(&self) -> (v: Vec<(C, D)>)
        requires
            self.wf(),
        ensures
            v@.len() == self.contents().len(),
            forall|i: int|
                0 <= i < v@.len() ==> (#[trigger] v@[i]).0 == canon_all::<C>(self.radius())[i]
                    && cloned(self.contents()[i], v@[i].1),
    {
        proof {
            lemma_canon_bijection::<C>(self.radius());
        }
        let coords = iter_coords_of::<C>(self.size);
        let len = self.data.len();
        let mut v: Vec<(C, D)> = Vec::with_capacity(len);
        let mut i: usize = 0;
        while i < len
            invariant
                self.wf(),
                coords@ == canon_all::<C>(self.radius()),
                coords@.len() == self.contents().len(),
                len == self.contents().len(),
                0 <= i <= len,
                v@.len() == i,
                forall|j: int|
                    0 <= j < i as int ==> (#[trigger] v@[j]).0 == canon_all::<C>(
                        self.radius())[j] && cloned(self.contents()[j], v@[j].1),
            decreases len - i,
        {
            let c = coords[i];
            v.push((c, self.data[i].clone()));
            i += 1;
        }
        v
    }
}

impl<C: Coord, D> MapData<C, D> {
    /// Construct a map of the given radius by calling `f` once per
    /// coordinate, in canonical order, collecting the results positionally.
    pub fn new_with<F: Fn(C) -> D>(size: u8, f: F) -> (map: Self)
        requires
            size <= 127,
            forall|c: C| ring_of(c) <= size as int ==> call_requires(f, (c,)),
        ensures
            map.wf(),
            map.radius() == size as int,
            forall|i: int|
                0 <= i < map.contents().len() ==> call_ensures(
                    f,
                    (canon_all::<C>(size as int)[i],),
                    #[trigger] map.contents()[i],
                ),
    {
        proof {
            lemma_canon_bijection::<C>(size as int);
            lemma_canon_complete::<C>(size as int);
        }
        let coords = iter_coords_of::<C>(size);
        let len = coords.len();
        let mut data: Vec<D> = Vec::with_capacity(len);
        let mut i: usize = 0;
        while i < len
            invariant
                size <= 127,
                forall|c: C| ring_of(c) <= size as int ==> call_requires(f, (c,)),
                coords@ == canon_all::<C>(size as int),
                forall|c: C| canon_all::<C>(size as int).contains(c) ==> ring_of(c) <= size as int,
                len == coords@.len(),
                0 <= i <= len,
                data@.len() == i,
                forall|j: int|
                    0 <= j < i as int ==> call_ensures(f, (coords@[j],), #[trigger] data@[j]),
            decreases len - i,
        {
            let c = coords[i];
            proof {
                assert(canon_all::<C>(size as int).contains(coords@[i as int]));
            }
            data.push(f(c));
            i += 1;
        }
        MapData { size, data, _c: PhantomData }
    }

    /// Radius of the map (number of rings).
    pub fn size(&self) -> (s: u8)
        ensures
            s as int == self.radius(),
    {
        self.size
    }

    /// Read the cell of an in-bounds coordinate.
    pub fn index(&self, c: C) -> (d: &D)
        requires
            self.wf(),
            self.in_bounds(c),
        ensures
            *d == self.at(c),
    {
        proof {
            lemma_index_of_range::<C>(self.radius(), c);
        }
        let i = C::index(self.size, c);
        &self.data[i]
    }

    /// Borrow the cell of an in-bounds coordinate mutably.
    pub fn index_mut(&mut self, c: C) -> (d: &mut D)
        requires
            old(self).wf(),
            old(self).in_bounds(c),
        ensures
            *d == old(self).at(c),
            final(self).radius() == old(self).radius(),
            final(self).contents() == old(self).contents().update(
                index_of::<C>(old(self).radius(), c),
                *final(d),
            ),
            final(self).at(c) == *final(d),
            forall|c2: C|
                old(self).in_bounds(c2) && c2 != c ==> final(self).at(c2) == old(self).at(c2),
            final(self).wf(),
    {
        proof {
            lemma_index_of_range::<C>(self.radius(), c);
            lemma_canon_bijection::<C>(self.radius());
        }
        let i = C::index(self.size, c);
        &mut self.data[i]
    }

    /// Read the cell of a coordinate of uncertain validity: the result is
    /// present exactly when the coordinate is within the map's radius, and
    /// then equals the unchecked read.
    pub fn get(&self, c: C) -> (res: Option<&D>)
        requires
            self.wf(),
        ensures
            match res {
                Option::Some(d) => self.in_bounds(c) && *d == self.at(c),
                Option::None => !self.in_bounds(c),
            },
    {
        if c.ring() > self.size as u16 {
            return None;
        }
        proof {
            lemma_index_of_range::<C>(self.radius(), c);
        }
        let i = C::index(self.size, c);
        Some(&self.data[i])
    }

    /// Borrow the cell of a coordinate of uncertain validity mutably: the
    /// result is present exactly when the coordinate is within the map's
    /// radius.
    pub fn get_mut(&mut self, c: C) -> (res: Option<&mut D>)
        requires
            old(self).wf(),
        ensures
            !old(self).in_bounds(c) ==> res is None && *final(self) == *old(self),
            old(self).in_bounds(c) ==> res is Some && *res.unwrap() == old(self).at(c)
                && final(self).radius() == old(self).radius()
                && final(self).contents() == old(self).contents().update(
                index_of::<C>(old(self).radius(), c),
                *final(res.unwrap()),
            ) && final(self).at(c) == *final(res.unwrap()) && final(self).wf(),
            old(self).in_bounds(c) ==> forall|c2: C|
                old(self).in_bounds(c2) && c2 != c ==> final(self).at(c2) == old(self).at(c2),
    {
        if c.ring() > self.size as u16 {
            return None;
        }
        proof {
            lemma_index_of_range::<C>(self.radius(), c);
            lemma_canon_bijection::<C>(self.radius());
        }
        let i = C::index(self.size, c);
        Some(&mut self.data[i])
    }

    /// The backing array, in canonical order.
    pub fn data(&self) -> (d: &[D])
        ensures
            d@ == self.contents(),
    {
        self.data.as_slice()
    }

    /// Borrow the backing array mutably, in canonical order.
    pub fn data_mut(&mut self) -> (d: &mut [D])
        ensures
            d@ == old(self).contents(),
            final(self).contents() == final(d)@,
            final(self).radius() == old(self).radius(),
    {
        self.data.as_mut_slice()
    }

    /// The radius enumerated by [`Self::iter_coords`]: the caller's limit,
    /// clamped to the map's own radius.
    pub open spec fn iter_radius(&self, max_r: Option<u8>) -> int {
        match max_r {
            Option::Some(m) => if m as int <= self.radius() {
                m as int
            } else {
                self.radius()
            },
            Option::None => self.radius(),
        }
    }

    /// Every coordinate of the map in canonical order, restricted to the
    /// given sub-radius if one is supplied (clamped to the map's radius).
    pub fn iter_coords(&self, max_r: Option<u8>) -> (v: Vec<C>)
        requires
            self.wf(),
        ensures
            v@ == canon_all::<C>(self.iter_radius(max_r)),
    {
        let r = match max_r {
            Option::Some(m) => if m < self.size {
                m
            } else {
                self.size
            },
            Option::None => self.size,
        };
        iter_coords_of::<C>(r)
    }

    /// Construct a new map of the same radius whose cell at each coordinate
    /// `c` is `f(c, &old_element)`, with `f` applied once per coordinate in
    /// canonical order.
    pub fn convert<T, F: Fn(C, &D) -> T>(&self, f: F) -> (map: MapData<C, T>)
        requires
            self.wf(),
            forall|i: int|
                0 <= i < self.contents().len() ==> call_requires(
                    f,
                    (canon_all::<C>(self.radius())[i], &self.contents()[i]),
                ),
        ensures
            map.wf(),
            map.radius() == self.radius(),
            map.contents().len() == self.contents().len(),
            forall|i: int|
                0 <= i < self.contents().len() ==> call_ensures(
                    f,
                    (canon_all::<C>(self.radius())[i], &self.contents()[i]),
                    #[trigger] map.contents()[i],
                ),
    {
        proof {
            lemma_canon_bijection::<C>(self.radius());
        }
        let coords = iter_coords_of::<C>(self.size);
        let len = self.data.len();
        let mut data: Vec<T> = Vec::with_capacity(len);
        let mut i: usize = 0;
        while i < len
            invariant
                self.wf(),
                forall|j: int|
                    0 <= j < self.contents().len() ==> call_requires(
                        f,
                        (canon_all::<C>(self.radius())[j], &self.contents()[j]),
                    ),
                coords@ == canon_all::<C>(self.radius()),
                coords@.len() == self.contents().len(),
                len == self.contents().len(),
                0 <= i <= len,
                data@.len() == i,
                forall|j: int|
                    0 <= j < i as int ==> call_ensures(
                        f,
                        (canon_all::<C>(self.radius())[j], &self.contents()[j]),
                        #[trigger] data@[j],
                    ),
            decreases len - i,
        {
            let c = coords[i];
            data.push(f(c, &self.data[i]));
            i += 1;
        }
        MapData { size: self.size, data, _c: PhantomData }
    }

    /// Transform every cell in place: the cell at each coordinate `c`
    /// becomes `f(c, &old_element)`, with `f` applied once per coordinate in
    /// canonical order.
    pub fn iter_mut<F: Fn(C, &D) -> D>(&mut self, f: F)
        requires
            old(self).wf(),
            forall|i: int|
                0 <= i < old(self).contents().len() ==> call_requires(
                    f,
                    (canon_all::<C>(old(self).radius())[i], &old(self).contents()[i]),
                ),
        ensures
            final(self).wf(),
            final(self).radius() == old(self).radius(),
            final(self).contents().len() == old(self).contents().len(),
            forall|i: int|
                0 <= i < old(self).contents().len() ==> call_ensures(
                    f,
                    (canon_all::<C>(old(self).radius())[i], &old(self).contents()[i]),
                    #[trigger] final(self).contents()[i],
                ),
    {
        proof {
            lemma_canon_bijection::<C>(self.radius());
        }
        let ghost orig = *self;
        let coords = iter_coords_of::<C>(self.size);
        let len = self.data.len();
        let mut i: usize = 0;
        while i < len
            invariant
                orig.wf(),
                self.size == orig.size,
                forall|j: int|
                    0 <= j < orig.contents().len() ==> call_requires(
                        f,
                        (canon_all::<C>(orig.radius())[j], &orig.contents()[j]),
                    ),
                coords@ == canon_all::<C>(orig.radius()),
                coords@.len() == orig.contents().len(),
                len == orig.contents().len(),
                0 <= i <= len,
                self.data@.len() == len,
                forall|j: int|
                    i as int <= j < len as int ==> #[trigger] self.data@[j] == orig.contents()[j],
                forall|j: int|
                    0 <= j < i as int ==> call_ensures(
                        f,
                        (canon_all::<C>(orig.radius())[j], &orig.contents()[j]),
                        #[trigger] self.data@[j],
                    ),
            decreases len - i,
        {
            let c = coords[i];
            let d = f(c, &self.data[i]);
            self.data[i] = d;
            i += 1;
        }
    }

    /// Construct a smaller map of radius `new_size` from a window of this
    /// map: the cell at each local coordinate `c` is
    /// `f(c, c + offset, &source_element_at(c + offset))`, with `f` applied
    /// once per local coordinate in canonical order. Fails, before any cell
    /// is touched, exactly when the window would reach outside this map:
    /// when the offset's ring plus the new radius exceeds this map's radius.
    pub fn convert_trim<T, F: Fn(C, C, &D) -> T>(
        &self,
        new_size: u8,
        offset: C,
        f: F,
    ) -> (res: Result<MapData<C, T>, OutOfBoundsError>)
        requires
            self.wf(),
            ring_of(offset) + new_size as int <= self.radius() ==> forall|i: int|
                0 <= i < C::area_spec(new_size as int) ==> call_requires(
                    f,
                    (
                        canon_all::<C>(new_size as int)[i],
                        translate(canon_all::<C>(new_size as int)[i], offset),
                        &self.at(translate(canon_all::<C>(new_size as int)[i], offset)),
                    ),
                ),
        ensures
            res is Err <==> ring_of(offset) + new_size as int > self.radius(),
            res is Ok ==> res.unwrap().wf(),
            res is Ok ==> res.unwrap().radius() == new_size as int,
            res is Ok ==> res.unwrap().contents().len() == C::area_spec(new_size as int),
            res is Ok ==> forall|i: int|
                0 <= i < C::area_spec(new_size as int) ==> call_ensures(
                    f,
                    (
                        canon_all::<C>(new_size as int)[i],
                        translate(canon_all::<C>(new_size as int)[i], offset),
                        &self.at(translate(canon_all::<C>(new_size as int)[i], offset)),
                    ),
                    #[trigger] res.unwrap().contents()[i],
                ),
    {
        let ring_off = offset.ring();
        if ring_off as u32 + new_size as u32 > self.size as u32 {
            return Err(OutOfBoundsError);
        }
        proof {
            C::lemma_metric(offset.xi(), offset.yi(), 0, 0);
            lemma_canon_bijection::<C>(new_size as int);
            lemma_canon_complete::<C>(new_size as int);
        }
        let coords = iter_coords_of::<C>(new_size);
        let len = coords.len();
        let mut data: Vec<T> = Vec::with_capacity(len);
        let mut i: usize = 0;
        while i < len
            invariant
                self.wf(),
                ring_of(offset) + new_size as int <= self.radius(),
                new_size <= 127,
                forall|j: int|
                    0 <= j < C::area_spec(new_size as int) ==> call_requires(
                        f,
                        (
                            canon_all::<C>(new_size as int)[j],
                            translate(canon_all::<C>(new_size as int)[j], offset),
                            &self.at(translate(canon_all::<C>(new_size as int)[j], offset)),
                        ),
                    ),
                coords@ == canon_all::<C>(new_size as int),
                forall|c: C|
                    canon_all::<C>(new_size as int).contains(c) ==> ring_of(c)
                        <= new_size as int,
                len == coords@.len(),
                len == C::area_spec(new_size as int),
                0 <= i <= len,
                data@.len() == i,
                forall|j: int|
                    0 <= j < i as int ==> call_ensures(
                        f,
                        (
                            canon_all::<C>(new_size as int)[j],
                            translate(canon_all::<C>(new_size as int)[j], offset),
                            &self.at(translate(canon_all::<C>(new_size as int)[j], offset)),
                        ),
                        #[trigger] data@[j],
                    ),
            decreases len - i,
        {
            let c = coords[i];
            proof {
                assert(canon_all::<C>(new_size as int).contains(coords@[i as int]));
                C::lemma_metric(c.xi(), c.yi(), offset.xi(), offset.yi());
                C::lemma_metric(c.xi() + offset.xi(), c.yi() + offset.yi(), 0, 0);
            }
            let c2 = c.add(offset);
            proof {
                C::lemma_make_roundtrip(c2, c.xi() + offset.xi(), c.yi() + offset.yi());
            }
            let d = f(c, c2, self.index(c2));
            data.push(d);
            i += 1;
        }
        Ok(MapData { size: new_size, data, _c: PhantomData })
    }

    /// Visit the fixed neighbor set of `c` in the family's rotational order
    /// and build a bitmask, shifting in one bit per neighbor from the right
    /// (so the neighbor at rotational position 0 lands in the
    /// most-significant occupied position): a neighbor's bit is set exactly
    /// when it lies within the map and its element satisfies `f`.
    pub fn get_ringmask<F: Fn(&D) -> bool>(&self, c: C, f: F) -> (mask: u8)
        requires
            self.wf(),
            -127 <= c.xi() <= 126,
            -127 <= c.yi() <= 126,
            forall|i: int|
                0 <= i < self.contents().len() ==> call_requires(f, (&self.contents()[i],)),
        ensures
            exists|bits: Seq<bool>|
                {
                    &&& bits.len() == C::n_dirs()
                    &&& mask as int == mask_fold(bits)
                    &&& forall|k: int|
                        0 <= k < C::n_dirs() ==> {
                            let nb = C::make(c.xi() + C::dir_dx(k), c.yi() + C::dir_dy(k));
                            &&& (!self.in_bounds(nb) ==> #[trigger] bits[k] == false)
                            &&& (self.in_bounds(nb) ==> call_ensures(f, (&self.at(nb),), bits[k]))
                        }
                },
    {
        proof {
            C::lemma_dirs();
        }
        let nbs = c.neighbors();
        let n = nbs.len();
        let mut mask: u8 = 0;
        let mut k: usize = 0;
        let ghost mut bits: Seq<bool> = Seq::empty();
        while k < n
            invariant
                self.wf(),
                -127 <= c.xi() <= 126,
                -127 <= c.yi() <= 126,
                forall|i: int|
                    0 <= i < self.contents().len() ==> call_requires(f, (&self.contents()[i],)),
                n == C::n_dirs(),
                n <= 8,
                nbs@.len() == n,
                forall|j: int|
                    0 <= j < n as int ==> nbs@[j] == C::make(
                        c.xi() + C::dir_dx(j),
                        c.yi() + C::dir_dy(j),
                    ),
                0 <= k <= n,
                bits.len() == k,
                mask as int == mask_fold(bits),
                mask_fold(bits) < mask_bound(k as int),
                forall|j: int|
                    0 <= j < k as int ==> {
                        let nb = C::make(c.xi() + C::dir_dx(j), c.yi() + C::dir_dy(j));
                        &&& (!self.in_bounds(nb) ==> #[trigger] bits[j] == false)
                        &&& (self.in_bounds(nb) ==> call_ensures(f, (&self.at(nb),), bits[j]))
                    },
            decreases n - k,
        {
            proof {
                lemma_mask_bound_mono(k as int, 7);
                assert(mask_bound(1) == 2 * mask_bound(0));
                assert(mask_bound(2) == 2 * mask_bound(1));
                assert(mask_bound(3) == 2 * mask_bound(2));
                assert(mask_bound(4) == 2 * mask_bound(3));
                assert(mask_bound(5) == 2 * mask_bound(4));
                assert(mask_bound(6) == 2 * mask_bound(5));
                assert(mask_bound(7) == 2 * mask_bound(6));
                assert(mask_bound(0) == 1);
            }
            let mut bit = false;
            match self.get(nbs[k]) {
                Option::Some(d) => {
                    proof {
                        lemma_index_of_range::<C>(self.radius(), nbs@[k as int]);
                    }
                    bit = f(d);
                },
                Option::None => {
                },
            }
            mask = mask * 2 + if bit {
                1
            } else {
                0
            };
            proof {
                let newbits = bits.push(bit);
                assert(newbits.drop_last() == bits);
                bits = newbits;
            }
            k += 1;
        }
        proof {
            assert(bits.len() == C::n_dirs() && mask as int == mask_fold(bits) && forall|j: int|
                0 <= j < C::n_dirs() ==> {
                    let nb = C::make(c.xi() + C::dir_dx(j), c.yi() + C::dir_dy(j));
                    &&& (!self.in_bounds(nb) ==> #[trigger] bits[j] == false)
                    &&& (self.in_bounds(nb) ==> call_ensures(f, (&self.at(nb),), bits[j]))
                });
        }
        mask
    }

    /// Render the map as human-readable rows of bytes: for each row in
    /// canonical decomposition order, the family's row indentation as
    /// spaces, then one drawn byte per cell (each preceded by a space
    /// delimiter), rows separated by newlines and the whole followed by a
    /// final newline. The byte for each cell is `f(coordinate, &element)`.
    #[verifier::loop_isolation(false)]
    pub fn ascii_art<F: Fn(C, &D) -> u8>(&self, f: F) -> (out: Vec<u8>)
        requires
            self.wf(),
            forall|i: int|
                0 <= i < self.contents().len() ==> call_requires(
                    f,
                    (canon_all::<C>(self.radius())[i], &self.contents()[i]),
                ),
        ensures
            exists|glyphs: Seq<u8>|
                {
                    &&& glyphs.len() == self.contents().len()
                    &&& forall|i: int|
                        0 <= i < glyphs.len() ==> call_ensures(
                            f,
                            (canon_all::<C>(self.radius())[i], &self.contents()[i]),
                            #[trigger] glyphs[i],
                        )
                    &&& out@ == render_spec::<C>(self.radius(), glyphs)
                },
    {
        proof {
            lemma_canon_bijection::<C>(self.radius());
        }
        let coords = iter_coords_of::<C>(self.size);
        let len = self.data.len();
        let mut glyphs: Vec<u8> = Vec::with_capacity(len);
        let mut i: usize = 0;
        while i < len
            invariant
                0 <= i <= len,
                glyphs@.len() == i,
                forall|j: int|
                    0 <= j < i as int ==> call_ensures(
                        f,
                        (canon_all::<C>(self.radius())[j], &self.contents()[j]),
                        #[trigger] glyphs@[j],
                    ),
            decreases len - i,
        {
            let c = coords[i];
            glyphs.push(f(c, &self.data[i]));
            i += 1;
        }
        let ri = self.size as i32;
        let mut out: Vec<u8> = Vec::new();
        let mut base: usize = 0;
        let mut y: i32 = -ri;
        while y <= ri
            invariant
                -ri <= y <= ri + 1,
                base as int == row_start::<C>(self.radius(), y as int),
                out@ == render_rows::<C>(self.radius(), glyphs@, y as int),
            decreases ri + 1 - y,
        {
            proof {
                lemma_row_start_mono::<C>(self.radius(), -(self.size as int), y as int);
                lemma_row_start_mono::<C>(self.radius(), y as int + 1, self.radius() + 1);
                C::lemma_area_is_sum(self.radius());
                C::lemma_row_shape(self.radius(), y as int);
            }
            if y > -ri {
                out.push(10);
            }
            let indent = C::aa_indent(y as i8);
            let mut s: usize = 0;
            while s < indent
                invariant
                    0 <= s <= indent,
                    out@ == render_rows::<C>(self.radius(), glyphs@, y as int) + (if y as int
                        > -self.radius() {
                        seq![10u8]
                    } else {
                        Seq::<u8>::empty()
                    }) + spaces(s as int),
                decreases indent - s,
            {
                proof {
                    assert(spaces(s as int + 1) =~= spaces(s as int) + seq![32u8]);
                }
                out.push(32);
                s += 1;
            }
            proof {
                assert(spaces(indent as int) == spaces(C::indent_spec(y as int)));
            }
            let rlen = C::row_len(self.size, y as i8);
            let mut j: usize = 0;
            while j < rlen
                invariant
                    0 <= j <= rlen,
                    out@ == render_rows::<C>(self.radius(), glyphs@, y as int) + (if y as int
                        > -self.radius() {
                        seq![10u8]
                    } else {
                        Seq::<u8>::empty()
                    }) + spaces(C::indent_spec(y as int)) + row_glyph_bytes(
                        glyphs@.subrange(base as int, base as int + j as int),
                    ),
                decreases rlen - j,
            {
                proof {
                    let gl = glyphs@;
                    let lo = base as int;
                    assert(gl.subrange(lo, lo + j + 1).drop_last() =~= gl.subrange(lo, lo + j));
                    assert(gl.subrange(lo, lo + j + 1).last() == gl[lo + j]);
                }
                out.push(32);
                out.push(glyphs[base + j]);
                j += 1;
            }
            proof {
                assert(render_rows::<C>(self.radius(), glyphs@, y as int + 1) == out@);
            }
            base = base + rlen;
            y += 1;
        }
        out.push(10);
        proof {
            assert(out@ == render_spec::<C>(self.radius(), glyphs@));
        }
        out
    }
}

} // verus!

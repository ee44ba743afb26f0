use std::cell::RefCell;

use mw_grid::coord::{Coord, iter_coords_of};
use mw_grid::hex::Hex;
use mw_grid::map::{MapData, OutOfBoundsError};
use mw_grid::sq::Sq;

#[test]
fn canonical_index_bijection_hex() {
    for r in 0u8..=127 {
        let coords = iter_coords_of::<Hex>(r);
        assert_eq!(coords.len(), Hex::map_area(r));
        for (i, c) in coords.iter().enumerate() {
            assert!(c.ring() <= r as u16);
            assert_eq!(Hex::index(r, *c), i);
        }
    }
}

#[test]
fn canonical_index_bijection_sq() {
    for r in 0u8..=127 {
        let coords = iter_coords_of::<Sq>(r);
        assert_eq!(coords.len(), Sq::map_area(r));
        for (i, c) in coords.iter().enumerate() {
            assert!(c.ring() <= r as u16);
            assert_eq!(Sq::index(r, *c), i);
        }
    }
}

#[test]
fn ring_monotonicity() {
    assert_eq!(Hex(0, 0).ring(), 0);
    assert_eq!(Sq(0, 0).ring(), 0);
    let r = 3u8;
    let hexes = iter_coords_of::<Hex>(r);
    for c in &hexes {
        assert!(c.ring() <= r as u16);
    }
    // a coordinate is enumerated exactly when its ring is within the radius
    for x in -5i8..=5 {
        for y in -5i8..=5 {
            let c = Hex(x, y);
            let inside = hexes.contains(&c);
            assert_eq!(inside, c.ring() <= r as u16);
        }
    }
    let sqs = iter_coords_of::<Sq>(r);
    for x in -5i8..=5 {
        for y in -5i8..=5 {
            let c = Sq(x, y);
            assert_eq!(sqs.contains(&c), c.ring() <= r as u16);
        }
    }
}

#[test]
fn fixed_neighbor_count() {
    for &c in &[Hex(0, 0), Hex(5, -3), Hex(-100, 100), Hex(126, -126)] {
        assert_eq!(c.neighbors().len(), 6);
    }
    for &c in &[Sq(0, 0), Sq(-7, 2), Sq(126, 126)] {
        assert_eq!(c.neighbors().len(), 4);
    }
}

#[test]
fn construction_fidelity() {
    let visited: RefCell<Vec<Hex>> = RefCell::new(Vec::new());
    let map = MapData::<Hex, i32>::new_with(2, |c| {
        visited.borrow_mut().push(c);
        c.0 as i32 * 10 + c.1 as i32
    });
    let order = visited.into_inner();
    assert_eq!(order, map.iter_coords(None));
    for c in map.iter_coords(None) {
        assert_eq!(*map.index(c), c.0 as i32 * 10 + c.1 as i32);
    }
}

#[test]
fn crop_correctness() {
    let src = MapData::<Hex, u16>::new_with(3, |c| (c.0 as i32 * 257 + c.1 as i32 + 1000) as u16);
    let off = Hex(1, 0);
    let crop = src.convert_trim(2, off, |local, source, d| (local, source, *d)).unwrap();
    assert_eq!(crop.size(), 2);
    for local in crop.iter_coords(None) {
        let source = Hex(local.0 + off.0, local.1 + off.1);
        let (l, s, v) = *crop.index(local);
        assert_eq!(l, local);
        assert_eq!(s, source);
        assert_eq!(v, *src.index(source));
    }
    // the requested window exceeds the source radius: structured failure,
    // source untouched
    let before = src.data().to_vec();
    let res = src.convert_trim(2, Hex(2, 0), |_l, _s, d| *d);
    assert_eq!(res.err(), Some(OutOfBoundsError));
    assert_eq!(src.data(), &before[..]);
    // a diagonal offset counts along the third hex axis as well
    let res2 = src.convert_trim(2, Hex(1, 1), |_l, _s, d| *d);
    assert!(res2.is_err());
}

#[test]
fn checked_access_symmetry() {
    let mut map = MapData::<Sq, u8>::new(2, 0);
    *map.index_mut(Sq(1, -2)) = 77;
    for x in -4i8..=4 {
        for y in -4i8..=4 {
            let c = Sq(x, y);
            match map.get(c) {
                Some(d) => {
                    assert!(c.ring() <= 2);
                    assert_eq!(*d, *map.index(c));
                }
                None => assert!(c.ring() > 2),
            }
        }
    }
    assert_eq!(map.get(Sq(1, -2)), Some(&77));
    assert_eq!(map.get(Sq(3, 0)), None);
}

#[test]
fn ringmask_bit_order() {
    // rotational neighbor order for hex, around the origin:
    //   0: (1, 0)   1: (0, 1)   2: (-1, 1)   3: (-1, 0)   4: (0, -1)   5: (1, -1)
    let mut map = MapData::<Hex, u8>::new(1, 0);
    *map.index_mut(Hex(1, 0)) = 1;
    *map.index_mut(Hex(-1, 0)) = 1;
    let mask = map.get_ringmask(Hex(0, 0), |d| *d == 1);
    // exactly rotational positions 0 and 3, from the most-significant end
    assert_eq!(mask, 0b100100);
}

#[test]
fn ringmask_out_of_bounds_neighbors_clear() {
    let map = MapData::<Hex, u8>::new(1, 1);
    // the east rim cell: three neighbors fall outside the radius-1 map
    let mask = map.get_ringmask(Hex(1, 0), |d| *d == 1);
    assert_eq!(mask, 0b001110);
}

#[test]
fn round_trip_rendering() {
    let mut map = MapData::<Hex, u8>::new(1, 0);
    let coords = map.iter_coords(None);
    assert_eq!(coords.len(), 7);
    for (i, c) in coords.iter().enumerate() {
        *map.index_mut(*c) = i as u8 + 1;
    }
    let ascii = map.ascii_art(|_c, d| b'0' + *d);
    assert_eq!(ascii, b"  1 2\n 3 4 5\n  6 7\n");
    // row lengths match the row decomposition, row count spans the radius
    let lines: Vec<&[u8]> = ascii.split(|b| *b == b'\n').filter(|l| !l.is_empty()).collect();
    assert_eq!(lines.len(), 3);
    for (row, line) in lines.iter().enumerate() {
        let y = row as i8 - 1;
        let cells = line.iter().filter(|b| **b != b' ').count();
        assert_eq!(cells, Hex::row_len(1, y));
        let indent = line.len() - 2 * cells;
        assert_eq!(indent, Hex::aa_indent(y));
    }
}

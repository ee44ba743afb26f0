use mw_grid::coord::{Coord, iter_coords_of};
use mw_grid::hex::Hex;
use mw_grid::map::MapData;
use mw_grid::sq::Sq;

#[test]
fn area_formulas() {
    assert_eq!(Hex::map_area(0), 1);
    assert_eq!(Hex::map_area(1), 7);
    assert_eq!(Hex::map_area(2), 19);
    assert_eq!(Hex::map_area(3), 37);
    assert_eq!(Hex::map_area(127), 48769);
    assert_eq!(Sq::map_area(0), 1);
    assert_eq!(Sq::map_area(1), 9);
    assert_eq!(Sq::map_area(2), 25);
    assert_eq!(Sq::map_area(127), 65025);
}

#[test]
fn ring_formulas() {
    assert_eq!(Hex(2, 0).ring(), 2);
    assert_eq!(Hex(0, -3).ring(), 3);
    assert_eq!(Hex(2, 2).ring(), 4);
    assert_eq!(Hex(-2, 1).ring(), 2);
    assert_eq!(Hex(127, 127).ring(), 254);
    assert_eq!(Sq(2, 0).ring(), 2);
    assert_eq!(Sq(-3, 2).ring(), 3);
    assert_eq!(Sq(-128, 127).ring(), 128);
}

#[test]
fn sq_canonical_order_is_row_major() {
    let coords = iter_coords_of::<Sq>(1);
    assert_eq!(
        coords,
        vec![
            Sq(-1, -1),
            Sq(0, -1),
            Sq(1, -1),
            Sq(-1, 0),
            Sq(0, 0),
            Sq(1, 0),
            Sq(-1, 1),
            Sq(0, 1),
            Sq(1, 1),
        ]
    );
    assert_eq!(Sq::row_len(1, 0), 3);
    assert_eq!(Sq::xmin_row(1, -1), -1);
    assert_eq!(Sq::aa_indent(1), 0);
}

#[test]
fn hex_rows() {
    assert_eq!(Hex::row_len(3, -3), 4);
    assert_eq!(Hex::row_len(3, 0), 7);
    assert_eq!(Hex::row_len(3, 2), 5);
    assert_eq!(Hex::xmin_row(3, -2), -1);
    assert_eq!(Hex::xmin_row(3, 2), -3);
    assert_eq!(Hex::aa_indent(-3), 3);
    assert_eq!(Hex::aa_indent(2), 2);
}

#[test]
fn coordinate_arithmetic() {
    let c = Hex::from_xy(3, -2);
    assert_eq!(c, Hex(3, -2));
    assert_eq!(c.x(), 3);
    assert_eq!(c.y(), -2);
    assert_eq!(c.add(Hex(-5, 4)), Hex(-2, 2));
    assert_eq!(Sq(1, 2).add(Sq(3, -9)), Sq(4, -7));
}

#[test]
fn hex_neighbors_rotational_order() {
    let n = Hex(2, -1).neighbors();
    assert_eq!(
        n,
        vec![Hex(3, -1), Hex(2, 0), Hex(1, 0), Hex(1, -1), Hex(2, -2), Hex(3, -2)]
    );
    let m = Sq(0, 0).neighbors();
    assert_eq!(m, vec![Sq(1, 0), Sq(0, 1), Sq(-1, 0), Sq(0, -1)]);
}

#[test]
fn iter_ring_membership() {
    let center = Hex(0, 1);
    let ring = center.iter_ring(2);
    assert_eq!(ring.len(), 12);
    for w in &ring {
        let d = Hex(w.0 - center.0, w.1 - center.1).ring();
        assert_eq!(d, 2);
    }
    // distance-0 ring is the center alone
    assert_eq!(Hex(3, -3).iter_ring(0), vec![Hex(3, -3)]);
}

#[test]
fn uniform_fill_and_mutation() {
    let mut map = MapData::<Sq, u8>::new(1, 9);
    assert_eq!(map.data(), &[9; 9][..]);
    match map.get_mut(Sq(0, 1)) {
        Some(d) => *d = 4,
        None => unreachable!(),
    }
    assert!(map.get_mut(Sq(2, 2)).is_none());
    assert_eq!(*map.index(Sq(0, 1)), 4);
    map.data_mut()[0] = 1;
    assert_eq!(*map.index(Sq(-1, -1)), 1);
}

#[test]
fn convert_and_iter() {
    let map = MapData::<Hex, u8>::new_with(1, |c| (c.0 + 2) as u8);
    let doubled = map.convert(|_c, d| *d as u16 * 2);
    assert_eq!(doubled.size(), map.size());
    for (c, d) in map.iter() {
        assert_eq!(*doubled.index(c), d as u16 * 2);
    }
    let mut map2 = map.clone();
    map2.iter_mut(|c, d| d + c.1 as u8);
    for (c, d) in map.iter() {
        assert_eq!(*map2.index(c), d + c.1 as u8);
    }
    assert_eq!(map.iter().len(), 7);
}

#[test]
fn iter_coords_clamps_sub_radius() {
    let map = MapData::<Hex, u8>::new(3, 0);
    assert_eq!(map.iter_coords(Some(1)), iter_coords_of::<Hex>(1));
    assert_eq!(map.iter_coords(Some(9)), iter_coords_of::<Hex>(3));
    assert_eq!(map.iter_coords(None).len(), 37);
    assert_eq!(map.size(), 3);
}

#[test]
fn largest_radius_map() {
    let map = MapData::<Hex, u8>::new(127, 0);
    assert_eq!(map.data().len(), 48769);
    assert_eq!(*map.index(Hex(127, 0)), 0);
    assert_eq!(map.get(Hex(127, 1)), None);
}

use mw_grid::hex::Hex;
use mw_grid::map::MapData;

fn rings_hex() -> MapData<Hex, u8> {
    let mut map = MapData::new(3, 0);
    for c in Hex(0, 1).iter_ring(2) {
        *map.index_mut(c) = 1;
    }
    for c in Hex(-1, -1).iter_ring(1) {
        *map.index_mut(c) = 2;
    }
    for c in Hex(2, 0).iter_ring(1) {
        *map.index_mut(c) = 3;
    }
    *map.index_mut(Hex(-1, 2)) = 8;
    *map.index_mut(Hex(1, -2)) = 9;
    map
}

#[test]
fn rings_hex_check() {
    let out = &[
        0, 0, 0, 0, 2, 2, 9, 0, 0, 2, 0, 2, 1, 3, 3, 0, 2, 2, 0, 3, 1, 3, 0, 1, 0, 0, 3, 3, 0,
        1, 8, 0, 1, 0, 1, 1, 1,
    ];
    let map = rings_hex();
    assert_eq!(map.data(), out);
}

#[test]
fn rings_hex_trim() {
    let out = &[1, 3, 2, 2, 2, 0, 3, 0, 1, 0, 0, 3, 0, 1, 8, 0, 1, 2, 2];
    let map = rings_hex();
    let map2 = MapData::convert_trim(&map, 2, Hex(-1, 1), |new, old, d| {
        if old.1 < 0 || new.1 > 1 {
            *d + 1
        } else {
            *d
        }
    })
    .unwrap();
    assert_eq!(map2.data(), out);
}

#[test]
fn rings_hex_ascii() {
    let out = r#"
    o O o o
   Y y B o o
  y O y X z z
 o y Y o Z x z
  o x O o Z z
   o x A o X
    o x X x
"#;
    let map = rings_hex();
    let ascii = map.ascii_art(|c, d| {
        if c.0.abs() == 1 {
            match d {
                0 => b'O',
                1 => b'X',
                2 => b'Y',
                3 => b'Z',
                8 => b'A',
                9 => b'B',
                _ => b'?',
            }
        } else {
            match d {
                0 => b'o',
                1 => b'x',
                2 => b'y',
                3 => b'z',
                _ => b'?',
            }
        }
    });
    assert_eq!(ascii, &out.as_bytes()[1..]);
}

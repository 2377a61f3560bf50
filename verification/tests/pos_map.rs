use janlukas::pos::Pos;
use janlukas::pos_map::PosMap;

#[test]
fn new_map_is_not_set_anywhere() {
    let map = PosMap::new((3, 4), -1i64);
    for x in 0..3 {
        for y in 0..4 {
            let p = Pos::new(x, y);
            assert!(!map.is_set(&p));
            assert_eq!(map.get(&p), Some(&-1));
            assert_eq!(map.get_if_set(&p), None);
            assert_eq!(map.get_unchecked(&p), -1);
        }
    }
}

#[test]
fn set_changes_one_cell() {
    let mut map = PosMap::new((3, 4), 0u64);
    map.set(&Pos::new(2, 1), 17);
    for x in 0..3 {
        for y in 0..4 {
            let p = Pos::new(x, y);
            let here = x == 2 && y == 1;
            assert_eq!(map.is_set(&p), here);
            assert_eq!(map.get_unchecked(&p), if here { 17 } else { 0 });
            assert_eq!(map.get_if_set(&p), if here { Some(&17) } else { None });
        }
    }
}

#[test]
fn neighbouring_cells_do_not_share_a_slot() {
    let mut map = PosMap::new((3, 4), 0u64);
    let mut n = 0;
    for x in 0..3 {
        for y in 0..4 {
            n += 1;
            map.set(&Pos::new(x, y), n);
        }
    }
    let mut n = 0;
    for x in 0..3 {
        for y in 0..4 {
            n += 1;
            assert_eq!(map.get_unchecked(&Pos::new(x, y)), n);
        }
    }
}

#[test]
fn out_of_bounds_is_absent() {
    let map = PosMap::new((3, 4), 0u64);
    for p in [
        Pos::new(3, 0),
        Pos::new(0, 4),
        Pos::new(-1, 0),
        Pos::new(0, -1),
        Pos::new(i64::MAX, i64::MAX),
        Pos::new(i64::MIN, 0),
    ] {
        assert_eq!(map.get(&p), None);
        assert_eq!(map.get_if_set(&p), None);
        assert!(!map.is_set(&p));
        assert_eq!(map.get_or(&p, &99), 99);
    }
}

#[test]
fn get_or_prefers_the_cell() {
    let mut map = PosMap::new((3, 4), 0u64);
    map.set(&Pos::new(1, 1), 5);
    assert_eq!(map.get_or(&Pos::new(1, 1), &99), 5);
    assert_eq!(map.get_or(&Pos::new(1, 2), &99), 0);
}

#[test]
fn storing_the_sentinel_unsets_a_cell() {
    let mut map = PosMap::new((2, 2), Pos::new(-1, -1));
    let p = Pos::new(1, 0);
    map.set(&p, Pos::new(0, 0));
    assert!(map.is_set(&p));
    map.set(&p, Pos::new(-1, -1));
    assert!(!map.is_set(&p));
    assert_eq!(map.get_if_set(&p), None);
}

#[test]
fn clear_unsets_every_cell() {
    let mut map = PosMap::new((5, 7), Pos::new(-1, -1));
    for x in 0..5 {
        for y in 0..7 {
            map.set(&Pos::new(x, y), Pos::new(y, x));
        }
    }
    map.clear();
    for x in -1..6 {
        for y in -1..8 {
            let p = Pos::new(x, y);
            assert!(!map.is_set(&p));
            assert_eq!(map.get_if_set(&p), None);
        }
    }
    assert_eq!(map.get(&Pos::new(4, 6)), Some(&Pos::new(-1, -1)));
}

#[test]
fn clear_works_with_a_float_sentinel() {
    let mut map = PosMap::new((2, 3), f64::INFINITY);
    map.set(&Pos::new(1, 2), 0.5);
    assert!(map.is_set(&Pos::new(1, 2)));
    map.clear();
    assert!(!map.is_set(&Pos::new(1, 2)));
    assert_eq!(map.get_or(&Pos::new(1, 2), &0.0), f64::INFINITY);
}

#[test]
fn a_map_without_cells_is_never_set() {
    let mut map = PosMap::new((0, 9), 0u8);
    assert!(!map.is_set(&Pos::new(0, 0)));
    map.clear();
    assert_eq!(map.get(&Pos::new(0, 0)), None);
}

use wildmap::geom::{distance2, Point};
use wildmap::grid::{clamp, Grid};
use wildmap::masks::{circle_mask, new_mask, paint_disk, Mask};
use wildmap::rng::{Rng64, RngSeq};
use wildmap::units::bridge::{contains_bytes, object_for_name, object_kind_for};
use wildmap::units::motion::{isqrt, scale_to};
use wildmap::units::world::{TileObject, Vec2i};

#[test]
fn grid_new_set_get() {
    let mut g: Grid<u8> = Grid::new(4, 3);
    assert_eq!(g.w, 4);
    assert_eq!(g.h, 3);
    assert_eq!(*g.get(3, 2), 0);
    g.set(1, 2, 7);
    assert_eq!(*g.get(1, 2), 7);
    assert_eq!(*g.get(2, 1), 0);
    *g.get_mut(0, 0) = 5;
    assert_eq!(*g.get(0, 0), 5);
    assert!(g.in_bounds(Point::new(3, 2)));
    assert!(!g.in_bounds(Point::new(4, 0)));
    assert!(!g.in_bounds(Point::new(0, -1)));
}

#[test]
fn grid_filled_holds_value() {
    let g: Grid<i32> = Grid::filled(5, 2, -3);
    for y in 0..2 {
        for x in 0..5 {
            assert_eq!(*g.get(x, y), -3);
        }
    }
}

#[test]
fn clamp_moves_each_axis() {
    assert_eq!(clamp(Point::new(-4, 9), 5, 6), Point::new(0, 5));
    assert_eq!(clamp(Point::new(7, 2), 5, 6), Point::new(4, 2));
    assert_eq!(clamp(Point::new(3, 3), 5, 6), Point::new(3, 3));
}

#[test]
fn distance_is_squared_euclidean() {
    assert_eq!(distance2(Point::new(1, 2), Point::new(4, 6)), 25);
    assert_eq!(distance2(Point::new(i32::MIN, 0), Point::new(i32::MAX, 0)), 0xffff_ffffi128 * 0xffff_ffffi128);
}

#[test]
fn splitmix_stream_from_zero() {
    let mut r = Rng64::new(0);
    assert_eq!(r.next_u32(), 2065550767);
    assert_eq!(r.next_u32(), 2713282036);
    assert_eq!(r.next_u32(), 2148091215);
}

#[test]
fn rng_ranges() {
    let mut a = Rng64::new(42);
    assert_eq!(a.range_i32(3, 7), 4);
    let mut b = Rng64::new(42);
    assert_eq!(b.choose_idx(10), 1);
    let mut c = Rng64::new(42);
    assert_eq!(c.permille(), 266);
    let mut d = Rng64::new(42);
    assert_eq!(d.range_i32(5, 5), 5);
    assert_eq!(d.state, 42);
    assert_eq!(d.choose_idx(0), 0);
    assert_eq!(d.range_usize(0), 0);
    assert_eq!(d.state, 42);
}

#[test]
fn phase_seeds_mix_phase_index() {
    let s = RngSeq::new(7);
    assert_eq!(s.phase_seed(0), 7);
    assert_eq!(s.phase_seed(3), 15755400384260043832);
    assert_ne!(s.phase_seed(1), s.phase_seed(2));
    assert_eq!(s.stream(3).state, 15755400384260043832);
    let _pcg = s.for_phase(3);
}

#[test]
fn circle_mask_radius_one_is_a_plus() {
    let m = circle_mask(5, 5, Point::new(2, 2), 1);
    let set: Vec<usize> = (0..25).filter(|&i| m[i]).collect();
    assert_eq!(set, vec![7, 11, 12, 13, 17]);
    let edge = circle_mask(5, 5, Point::new(0, 0), 2);
    assert_eq!(edge.iter().filter(|&&b| b).count(), 6);
    let none = circle_mask(5, 5, Point::new(2, 2), -1);
    assert!(none.iter().all(|&b| !b));
}

#[test]
fn paint_disk_clears_only_the_disk() {
    let mut m = new_mask(4, 4, true);
    paint_disk(&mut m, 4, 4, Point::new(-1, -1), 2, false);
    // only (0,0) is within 2 of (-1,-1); (1,0) and (0,1) are at distance^2 5
    assert!(!m[0]);
    assert!(m[1] && m[4] && m[5] && m[15]);
}

#[test]
fn isqrt_and_scaling() {
    assert_eq!(isqrt(0), 0);
    assert_eq!(isqrt(15), 3);
    assert_eq!(isqrt(16), 4);
    assert_eq!(isqrt(u64::MAX), 0xffff_ffff);
    assert_eq!(scale_to(Vec2i { x: 3, y: 4 }, 10), Vec2i { x: 6, y: 8 });
    assert_eq!(scale_to(Vec2i { x: -3, y: 4 }, 1000), Vec2i { x: -600, y: 800 });
    assert_eq!(scale_to(Vec2i { x: 0, y: 0 }, 1000), Vec2i { x: 0, y: 0 });
}

#[test]
fn byte_substrings() {
    assert!(contains_bytes(&b"oak tree".to_vec(), &b"tree".to_vec()));
    assert!(!contains_bytes(&b"tre".to_vec(), &b"tree".to_vec()));
    assert!(contains_bytes(&b"abc".to_vec(), &Vec::new()));
    assert_eq!(object_kind_for(&b"berry bush".to_vec()), Some(TileObject::Bush));
    assert_eq!(object_kind_for(&b"rock".to_vec()), None);
}

#[test]
fn object_names_match_case_insensitively() {
    assert_eq!(object_for_name(&"Old Oak TREE".to_string()), Some(TileObject::Tree));
    assert_eq!(object_for_name(&"BUSH".to_string()), Some(TileObject::Bush));
    assert_eq!(object_for_name(&"Bear Cave".to_string()), Some(TileObject::Cave));
    assert_eq!(object_for_name(&"Boulder".to_string()), None);
}

#[test]
fn grid_lists_its_cells() {
    let g: Grid<u8> = Grid::filled(3, 2, 0);
    let cells = g.iter_xy();
    assert_eq!(cells.len(), 6);
    assert_eq!(cells[0], Point::new(0, 0));
    assert_eq!(cells[4], Point::new(1, 1));
}

#[test]
fn mask_and_and_not() {
    let mut a = Mask::new(4, 3);
    let mut b = Mask::new(4, 3);
    a.set(1, 1, true);
    a.set(2, 1, true);
    a.set(3, 2, true);
    b.set(2, 1, true);
    b.set(0, 0, true);
    assert!(a.get(1, 1) && !a.get(0, 0));
    let both = a.and(&b);
    assert_eq!(both.iter_true(), vec![Point::new(2, 1)]);
    let only_a = a.and_not(&b);
    assert_eq!(only_a.iter_true(), vec![Point::new(1, 1), Point::new(3, 2)]);
    // the operands are left as they were
    assert_eq!(a.iter_true(), vec![Point::new(1, 1), Point::new(2, 1), Point::new(3, 2)]);
    assert_eq!(b.iter_true(), vec![Point::new(0, 0), Point::new(2, 1)]);
    a.set(1, 1, false);
    assert!(!a.get(1, 1));
}

#[test]
fn scaled_steps_never_exceed_their_length() {
    // the rounded-up length of (1, 1) is 2, so a 6000 step stays within 6000
    let r = scale_to(Vec2i { x: 1, y: 1 }, 6000);
    assert_eq!(r, Vec2i { x: 3000, y: 3000 });
    for (x, y) in [(1, 1), (2, 3), (-7, 5), (999, -1), (500, 500)] {
        let r = scale_to(Vec2i { x, y }, 6000);
        assert!(r.x * r.x + r.y * r.y <= 6000 * 6000);
    }
}

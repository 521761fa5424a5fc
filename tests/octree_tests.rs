use scanner::geometry::{Plane, Point};
use scanner::octree::{Mark, Octree};
use scanner::svec::SVec;

fn mark(x: i64, y: i64, z: i64) -> Mark {
    Mark { pos: Point::new(x, y, z) }
}

fn open_frustum() -> [Plane; 6] {
    [Plane { nx: 0, ny: 0, nz: 0, d: -1 }; 6]
}

#[test]
fn new_tree_is_empty() {
    let t = Octree::new(4);
    assert_eq!(t.count(), 0);
    assert_eq!(t.octant_count(), 1);
    assert!(t.children(t.root()).is_none());
}

#[test]
fn count_follows_inserts() {
    let mut t = Octree::new(2);
    for i in 0..20 {
        t.insert(mark(i * 37 - 300, i * 11, -i * 5));
    }
    assert_eq!(t.count(), 20);
}

#[test]
fn overflowing_octant_splits_into_eight() {
    let mut t = Octree::new(1);
    let signs = [-100i64, 100];
    for &x in &signs {
        for &y in &signs {
            for &z in &signs {
                t.insert(mark(x, y, z));
            }
        }
    }
    let root_children = t.children(t.root()).expect("root split");
    // every octant of the root holds one mark
    for &c in &root_children {
        assert!(t.children(c).is_none());
    }
    t.insert(mark(200, 200, 200));
    assert_eq!(t.count(), 9);
    let overflowed = root_children[7];
    let grand = t.children(overflowed).expect("overflowed octant split");
    assert_eq!(grand.len(), 8);
    for k in 0..7 {
        assert!(t.children(root_children[k]).is_none());
    }
}

#[test]
fn inserted_point_is_visible() {
    let mut t = Octree::new(8);
    t.insert(mark(12, -40, 7));
    let mut out: SVec<Mark, 1> = SVec::new();
    t.get_visible(&mut out, Point::new(0, 0, 0), &open_frustum());
    assert_eq!(out.len(), 1);
    assert_eq!(*out.get(0), mark(12, -40, 7));
}

#[test]
fn query_never_exceeds_capacity() {
    let mut t = Octree::new(2);
    for i in 0..10 {
        t.insert(mark(i * 1000, 5, 5));
    }
    let mut out: SVec<Mark, 3> = SVec::new();
    t.get_visible(&mut out, Point::new(0, 0, 0), &open_frustum());
    assert_eq!(out.len(), 3);
    let mut big: SVec<Mark, 64> = SVec::new();
    t.get_visible(&mut big, Point::new(0, 0, 0), &open_frustum());
    assert_eq!(big.len(), 10);
}

#[test]
fn query_skips_octants_outside_frustum() {
    let mut t = Octree::new(1);
    t.insert(mark(-5000, 10, 10));
    t.insert(mark(5000, 10, 10));
    let mut f = open_frustum();
    // keep x >= 1000 only
    f[0] = Plane { nx: 1, ny: 0, nz: 0, d: 1000 };
    let mut out: SVec<Mark, 8> = SVec::new();
    t.get_visible(&mut out, Point::new(0, 0, 0), &f);
    assert_eq!(out.len(), 1);
    assert_eq!(*out.get(0), mark(5000, 10, 10));
}

#[test]
fn query_clears_buffer_first() {
    let mut t = Octree::new(4);
    t.insert(mark(1, 2, 3));
    let mut out: SVec<Mark, 4> = SVec::new();
    out.push(mark(9, 9, 9));
    t.get_visible(&mut out, Point::new(0, 0, 0), &open_frustum());
    assert_eq!(out.len(), 1);
    assert_eq!(*out.get(0), mark(1, 2, 3));
}

#[test]
fn farther_octants_come_first() {
    let mut t = Octree::new(1);
    t.insert(mark(-100, 5, 5));
    t.insert(mark(100, 5, 5));
    let mut out: SVec<Mark, 1> = SVec::new();
    // viewpoint on the positive side: the negative octant is farther
    t.get_visible(&mut out, Point::new(1_000_000, 0, 0), &open_frustum());
    assert_eq!(*out.get(0), mark(-100, 5, 5));
}

#[test]
fn svec_refuses_beyond_capacity() {
    let mut v: SVec<u8, 2> = SVec::new();
    assert!(v.push(1));
    assert!(v.push(2));
    assert!(!v.push(3));
    assert_eq!(v.len(), 2);
    assert_eq!(v.capacity(), 2);
    v.clear();
    assert_eq!(v.len(), 0);
}

#[test]
fn try_insert_drops_points_out_of_bounds() {
    let mut t = Octree::new(4);
    assert!(t.try_insert(Point::new(10, 20, 30)));
    assert!(!t.try_insert(Point::new(2_000_000_000, 0, 0)));
    assert!(!t.try_insert(Point::new(0, -1_073_741_825, 0)));
    assert!(t.try_insert(Point::new(1_073_741_824, 0, 0)));
    assert_eq!(t.count(), 2);
}

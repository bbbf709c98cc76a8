use voxels::math::iter::{Indexish, SpaceIter};
use voxels::math::{V2, V3i32, V3u8, V3};

fn walk(orig: V3i32, ends: V3i32) -> Vec<V3i32> {
    let mut it = SpaceIter::new(orig, ends);
    let mut out = Vec::new();
    while let Some(p) = it.next() {
        out.push(p);
    }
    assert!(it.next().is_none());
    out
}

#[test]
fn space_iter_walks_a_box_z_fastest() {
    let got = walk(V3::new(-1, 0, 5), V3::new(1, 2, 7));
    let expected = vec![
        V3::new(-1, 0, 5),
        V3::new(-1, 0, 6),
        V3::new(-1, 1, 5),
        V3::new(-1, 1, 6),
        V3::new(0, 0, 5),
        V3::new(0, 0, 6),
        V3::new(0, 1, 5),
        V3::new(0, 1, 6),
    ];
    assert_eq!(got, expected);
}

#[test]
fn space_iter_of_an_empty_box_gives_nothing() {
    assert!(walk(V3::new(0, 0, 0), V3::new(0, 2, 2)).is_empty());
    assert!(walk(V3::new(0, 0, 0), V3::new(2, 0, 2)).is_empty());
    assert!(walk(V3::new(0, 0, 0), V3::new(2, 2, 0)).is_empty());
    assert!(walk(V3::new(3, 0, 0), V3::new(1, 2, 2)).is_empty());
    assert!(walk(V3::new(0, 5, 0), V3::new(2, 2, 2)).is_empty());
    assert_eq!(walk(V3::new(7, 8, 9), V3::new(8, 9, 10)), vec![V3::new(7, 8, 9)]);
}

#[test]
fn space_iter_reaches_the_top_of_its_type() {
    let mut it = SpaceIter::new(V3u8::new(254, 254, 254), V3u8::new(255, 255, 255));
    assert_eq!(it.next(), Some(V3::new(254, 254, 254)));
    assert_eq!(it.next(), None);
}

#[test]
fn increment_adds_one() {
    let mut a: u8 = 41;
    a.increment();
    assert_eq!(a, 42);
    let mut b: i32 = -1;
    b.increment();
    assert_eq!(b, 0);
    let mut c: usize = 0;
    c.increment();
    assert_eq!(c, 1);
}

#[test]
fn vectors_add_and_subtract_by_component() {
    assert_eq!(V3::new(1, -2, 3) + V3::new(10, 20, 30), V3::new(11, 18, 33));
    assert_eq!(V3::new(1, -2, 3) - V3::new(10, 20, 30), V3::new(-9, -22, -27));
    assert_eq!(V3::new(5usize, 6, 7) - V3::new(1, 1, 1), V3::new(4, 5, 6));
    assert_eq!(V3::new(5u8, 6, 7) + V3::z(), V3::new(5, 6, 8));
    assert_eq!(V3::<i32>::zeros(), V3::new(0, 0, 0));
    assert_eq!(V3::<i32>::x(), V3::new(1, 0, 0));
    assert_eq!(V3::<usize>::y(), V3::new(0, 1, 0));
    assert_eq!(V3::repeat(4u8), V3::new(4, 4, 4));
    assert_eq!(V3::new(1, 2, 3).xy(), V2::new(1, 2));
    assert_eq!(V2::new(1, 2).push(3), V3::new(1, 2, 3));
}

use aries_planning::timelines::boxes::{enumerate, BBox, BoxUniverse, BoxWorld, Combination, Segment};

fn range(a: i32, b: i32) -> Vec<i32> {
    (a..b).collect()
}

fn count<T: Copy>(mut c: Combination<T>) -> usize {
    let mut n = 0;
    while c.next().is_some() {
        n += 1;
    }
    n
}

#[test]
fn test_segments_overlap() {
    assert!(Segment::new(1, 4).overlaps(&Segment::new(2, 5)));
    assert!(Segment::new(1, 4).overlaps(&Segment::new(2, 3)));
    assert!(Segment::new(1, 4).overlaps(&Segment::new(4, 100)));
    assert!(!Segment::new(1, 4).overlaps(&Segment::new(5, 7)));
    assert!(!Segment::new(1, 4).overlaps(&Segment::new(-1, 0)));
}

#[test]
fn generation() {
    let gens = vec![range(0, 2), range(1, 3)];

    let mut generated: Vec<Vec<i32>> = Vec::new();
    let mut iter = enumerate(gens.clone());
    while let Some(x) = iter.next() {
        generated.push(x.to_vec());
    }
    assert_eq!(generated, vec![vec![0, 1], vec![0, 2], vec![1, 1], vec![1, 2]]);

    let mut iter = enumerate(gens);
    while let Some(x) = iter.next() {
        println!("{x:?}");
    }

    let xs = ["x1", "x2"];
    let it = enumerate(vec![xs.to_vec()]);
    assert_eq!(count(it), 2);

    assert_eq!(count(enumerate(Vec::<Vec<i32>>::new())), 1);
    assert_eq!(count(enumerate(vec![range(1, 2), range(1, 2), range(1, 2), range(1, 2)])), 1);
    assert_eq!(count(enumerate(vec![range(1, 3), range(1, 2), range(1, 2), range(1, 2)])), 2);
    assert_eq!(count(enumerate(vec![range(1, 3), range(1, 3), range(1, 2), range(1, 2)])), 4);
    assert_eq!(count(enumerate(vec![range(1, 3), range(1, 3), range(1, 3), range(1, 2)])), 8);
    assert_eq!(count(enumerate(vec![range(1, 3), range(1, 3), range(1, 3), range(1, 3)])), 16);
    assert_eq!(count(enumerate(vec![range(1, 2), range(1, 3), range(1, 3), range(1, 3)])), 8);
    assert_eq!(count(enumerate(vec![range(1, 1), range(1, 3), range(1, 3), range(1, 3)])), 0);
    assert_eq!(count(enumerate(vec![range(1, 3), range(1, 1), range(1, 3), range(1, 3)])), 0);
    assert_eq!(count(enumerate(vec![range(1, 3), range(1, 3), range(1, 1), range(1, 3)])), 0);
    assert_eq!(count(enumerate(vec![range(1, 3), range(1, 3), range(1, 3), range(1, 1)])), 0);
}

#[test]
fn enumeration_after_the_end_stays_done() {
    let mut it = enumerate(vec![vec![7]]);
    assert_eq!(it.next().map(|x| x.to_vec()), Some(vec![7]));
    assert_eq!(it.next(), None);
    assert_eq!(it.next(), None);
}

#[test]
fn segments() {
    let mut s = Segment::new(3, 5);
    s.union(&Segment::new(-2, 4));
    assert_eq!(s, Segment::new(-2, 5));
    assert!(Segment::all().overlaps(&Segment::point(42)));
    assert!(!Segment::empty().overlaps(&Segment::point(0)));
    assert!(!Segment::empty().overlaps(&Segment::all()));
    assert!(!Segment::all().overlaps(&Segment::empty()));
    assert!(!Segment::empty().overlaps(&Segment::empty()));
    assert_eq!(Segment::new(1, 3).points().collect::<Vec<_>>(), vec![1, 2, 3]);
    assert_eq!(Segment::from((2, 9)), Segment::new(2, 9));
}

#[test]
fn boxes() {
    let a = BBox::new(vec![Segment::new(0, 2), Segment::new(0, 2)]);
    let b = BBox::new(vec![Segment::new(2, 3), Segment::new(1, 5)]);
    let c = BBox::new(vec![Segment::new(3, 4), Segment::new(0, 0)]);
    assert!(a.as_ref().overlaps(b.as_ref()));
    assert!(!a.as_ref().overlaps(c.as_ref()));
    let mut u = a.as_ref().to_owned();
    u.union(c.as_ref());
    assert_eq!(u.segments(), &[Segment::new(0, 4), Segment::new(0, 2)][..]);
    assert_eq!(b.as_ref().last(), Some(Segment::new(1, 5)));
    assert_eq!(b.as_ref().drop_head(1).to_owned().segments(), &[Segment::new(1, 5)][..]);
    assert_eq!(b.as_ref().drop_tail(1).to_owned().segments(), &[Segment::new(2, 3)][..]);
}

#[test]
fn box_worlds() {
    let mut w: BoxWorld<&str> = BoxWorld::new(1);
    w.add(&[Segment::new(0, 5)], "a");
    w.add(&[Segment::new(6, 8)], "b");
    w.add(&[Segment::new(4, 6)], "c");
    let pairs: Vec<(&str, &str)> = w.overlapping_boxes().into_iter().map(|(x, y)| (*x, *y)).collect();
    assert_eq!(pairs, vec![("a", "c"), ("b", "c")]);
    let q = [Segment::new(7, 7)];
    let found: Vec<&str> = w.find_overlapping_with(aries_planning::timelines::boxes::BoxRef::new(&q)).into_iter().map(|t| *t).collect();
    assert_eq!(found, vec!["b"]);
    assert_eq!(w.tags_from(1), &["b", "c"][..]);
    assert_eq!(w.boxes_from(2).len(), 1);

    let mut uni: BoxUniverse<u32> = BoxUniverse::new();
    uni.add_box(&2, &[Segment::new(0, 1)], 10);
    uni.add_box(&1, &[Segment::new(0, 1)], 20);
    uni.add_box(&2, &[Segment::new(1, 2)], 30);
    uni.add_box(&1, &[Segment::new(5, 6)], 40);
    assert!(uni.has_world(&1) && uni.has_world(&2) && !uni.has_world(&3));
    let pairs: Vec<(u32, u32)> = uni.overlapping_boxes().into_iter().map(|(x, y)| (*x, *y)).collect();
    assert_eq!(pairs, vec![(10, 30)]);
    let q = [Segment::new(0, 0)];
    let found: Vec<u32> = uni
        .find_overlapping_with(&1, aries_planning::timelines::boxes::BoxRef::new(&q))
        .into_iter()
        .map(|t| *t)
        .collect();
    assert_eq!(found, vec![20]);
    assert!(uni.find_overlapping_with(&9, aries_planning::timelines::boxes::BoxRef::new(&q)).is_empty());
}

#[test]
fn tagged_boxes_in_order() {
    let mut w: BoxWorld<&str> = BoxWorld::new(1);
    w.add(&[Segment::new(0, 5)], "a");
    w.add(&[Segment::new(6, 8)], "b");
    let tags: Vec<&str> = w.tagged_boxes().into_iter().map(|(t, _)| *t).collect();
    assert_eq!(tags, vec!["a", "b"]);
    assert_eq!(w.tagged_boxes_from(1).len(), 1);
}

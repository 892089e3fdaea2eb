use mx_codec::range::OrderRange;
use std::collections::VecDeque;
use std::ops::Range;

fn frag(v: Vec<Range<u64>>) -> OrderRange {
    OrderRange::Fragment(VecDeque::from(v))
}

fn ranges_of(r: &OrderRange) -> Vec<Range<u64>> {
    let mut it = r.iter();
    let mut out = Vec::new();
    while let Some(x) = it.next() {
        out.push(x);
    }
    out
}

#[test]
fn test_ranges_len_and_is_empty() {
    assert_eq!(OrderRange::Range(0..0).ranges_len(), 1);
    assert!(OrderRange::Range(0..0).is_empty());
    assert!(OrderRange::Range(5..3).is_empty());
    assert!(!OrderRange::Range(0..1).is_empty());
    assert_eq!(frag(vec![]).ranges_len(), 0);
    assert!(frag(vec![]).is_empty());
    assert_eq!(frag(vec![0..2, 4..6]).ranges_len(), 2);
    assert!(!frag(vec![3..3]).is_empty());
}

#[test]
fn test_contains() {
    let r = OrderRange::Range(2..5);
    assert!(!r.contains(1));
    assert!(r.contains(2));
    assert!(r.contains(4));
    assert!(!r.contains(5));
    let f = frag(vec![0..2, 10..12]);
    assert!(f.contains(0));
    assert!(f.contains(11));
    assert!(!f.contains(2));
    assert!(!f.contains(9));
}

#[test]
fn test_push_into_empty_range() {
    let mut r = OrderRange::default();
    r.push(5..8);
    assert_eq!(r, OrderRange::Range(5..8));
}

#[test]
fn test_push_continuous_merges() {
    let mut r = OrderRange::Range(0..5);
    r.push(5..10);
    assert_eq!(r, OrderRange::Range(0..10));
    r.push(3..4);
    assert_eq!(r, OrderRange::Range(0..10));
    let mut r = OrderRange::Range(10..20);
    r.push(2..11);
    assert_eq!(r, OrderRange::Range(2..20));
}

#[test]
fn test_push_disjoint_makes_fragment() {
    let mut r = OrderRange::Range(10..20);
    r.push(0..5);
    assert_eq!(r, frag(vec![0..5, 10..20]));
    r.push(30..40);
    assert_eq!(r, frag(vec![0..5, 10..20, 30..40]));
    r.push(22..25);
    assert_eq!(r, frag(vec![0..5, 10..20, 22..25, 30..40]));
}

#[test]
fn test_push_merges_every_overlapping_range() {
    let mut r = frag(vec![0..1, 2..3, 4..5, 6..7, 9..10]);
    r.push(0..7);
    assert_eq!(r, frag(vec![0..7, 9..10]));
    r.push(7..9);
    assert_eq!(r, OrderRange::Range(0..10));
}

#[test]
fn test_push_into_empty_fragment() {
    let mut r = frag(vec![]);
    r.push(3..4);
    assert_eq!(r, OrderRange::Range(3..4));
}

#[test]
fn test_pop() {
    let mut r = OrderRange::Range(3..7);
    assert_eq!(r.pop(), Some(3..7));
    assert_eq!(r, OrderRange::Range(0..0));
    assert_eq!(r.pop(), None);
    let mut f = frag(vec![0..1, 5..6]);
    assert_eq!(f.pop(), Some(0..1));
    assert_eq!(f, frag(vec![5..6]));
    assert_eq!(f.pop(), Some(5..6));
    assert_eq!(f.pop(), None);
    assert_eq!(f, frag(vec![]));
}

#[test]
fn test_merge() {
    let mut a = OrderRange::Range(0..5);
    a.merge(OrderRange::Range(10..15));
    assert_eq!(a, frag(vec![0..5, 10..15]));
    a.merge(frag(vec![5..10, 20..25]));
    assert_eq!(a, frag(vec![0..15, 20..25]));
    let mut b = OrderRange::default();
    b.merge(OrderRange::Range(1..2));
    assert_eq!(b, OrderRange::Range(1..2));
}

#[test]
fn test_squash() {
    let mut f = frag(vec![0..2, 2..4, 6..8, 7..10]);
    f.squash();
    assert_eq!(f, frag(vec![0..4, 6..10]));
    let mut g = frag(vec![0..2, 1..5]);
    g.squash();
    assert_eq!(g, OrderRange::Range(0..5));
    let mut e = frag(vec![]);
    e.squash();
    assert_eq!(e, OrderRange::Range(0..0));
    let mut n = frag(vec![0..1, 3..4]);
    n.squash();
    assert_eq!(n, frag(vec![0..1, 3..4]));
}

#[test]
fn test_diff_range() {
    let old = frag(vec![2..4, 6..8]);
    let new = OrderRange::Range(0..10);
    assert_eq!(old.diff_range(&new), vec![0..2, 4..6, 8..10]);
    let old = OrderRange::Range(0..5);
    let new = frag(vec![0..5, 7..9]);
    assert_eq!(old.diff_range(&new), vec![7..9]);
    let old = OrderRange::Range(0..10);
    let new = OrderRange::Range(0..10);
    assert_eq!(old.diff_range(&new), Vec::<Range<u64>>::new());
}

#[test]
fn test_diff_range_not_covered() {
    let old = OrderRange::Range(0..12);
    let new = OrderRange::Range(0..10);
    assert_eq!(old.diff_range(&new), Vec::<Range<u64>>::new());
    let old = frag(vec![0..2, 20..22]);
    let new = frag(vec![0..5, 6..10]);
    assert_eq!(old.diff_range(&new), Vec::<Range<u64>>::new());
}

#[test]
fn test_iter() {
    assert_eq!(ranges_of(&OrderRange::Range(1..3)), vec![1..3]);
    assert_eq!(ranges_of(&frag(vec![1..3, 5..6])), vec![1..3, 5..6]);
    assert_eq!(ranges_of(&frag(vec![])), Vec::<Range<u64>>::new());
}

#[test]
fn test_from_and_clone() {
    let r: OrderRange = (4..9).into();
    assert_eq!(r, OrderRange::Range(4..9));
    let f = frag(vec![0..1, 2..3]);
    assert_eq!(f.clone(), f);
    let g: OrderRange = VecDeque::from(vec![0..1, 2..3]).into();
    assert_eq!(g, f);
}

#[test]
fn test_from_vec() {
    let r: OrderRange = vec![0..1, 4..6].into();
    assert_eq!(r, frag(vec![0..1, 4..6]));
}

#[test]
fn test_push_into_long_fragment() {
    // ranges 0..1, 10..11, ..., 990..991
    let mut r = frag((0..100).map(|i| (i * 10)..(i * 10 + 1)).collect());
    // merges with 460..461
    r.push(455..462);
    assert_eq!(r.ranges_len(), 100);
    assert!(r.contains(455) && r.contains(461) && !r.contains(462));
    r.push(449..471);
    // 450..451, 455..462 and 470..471 merge with it
    assert_eq!(r.ranges_len(), 98);
    assert!(r.contains(449) && r.contains(470) && !r.contains(471) && !r.contains(448));
    r.push(995..1000);
    assert_eq!(r.ranges_len(), 99);
    r.push(0..2000);
    assert_eq!(r, OrderRange::Range(0..2000));
}

#[test]
fn test_diff_range_is_ordered() {
    let old = frag(vec![1..2, 5..6, 20..25]);
    let new = frag(vec![0..10, 20..30]);
    assert_eq!(old.diff_range(&new), vec![0..1, 2..5, 6..10, 25..30]);
}

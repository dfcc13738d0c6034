use fingers::measure::concat_all;
use fingers::measure::CountAbove;
use fingers::measure::Length;
use fingers::FingerTree;
use fingers::FingerTreeLike;

type Tree = FingerTree<u64, Length>;

fn from_slice(xs: &[u64]) -> Tree {
    let mut t = Tree::empty();
    for &x in xs {
        t = t.insert_right(x);
    }
    t
}

#[test]
fn it_works() {
}

#[test]
fn builds_in_order() {
    for n in 0..40u64 {
        let xs: Vec<u64> = (0..n).collect();
        let t = from_slice(&xs);
        assert_eq!(t.elements(), xs);
    }
}

#[test]
fn singleton_holds_one() {
    let t = Tree::singleton(7);
    assert_eq!(t.elements(), vec![7]);
}

#[test]
fn insert_left_then_remove_left() {
    for n in 0..20u64 {
        let xs: Vec<u64> = (10..10 + n).collect();
        let t = from_slice(&xs).insert_left(99);
        let (rest, x) = t.remove_left();
        assert_eq!(x, Some(99));
        assert_eq!(rest.elements(), xs);
    }
}

#[test]
fn insert_right_then_remove_right() {
    for n in 0..20u64 {
        let xs: Vec<u64> = (10..10 + n).collect();
        let t = from_slice(&xs).insert_right(99);
        let (rest, x) = t.remove_right();
        assert_eq!(x, Some(99));
        assert_eq!(rest.elements(), xs);
    }
}

#[test]
fn remove_from_empty() {
    let (t, x) = Tree::empty().remove_left();
    assert_eq!(x, None);
    assert!(t.elements().is_empty());
    let (t, x) = Tree::empty().remove_right();
    assert_eq!(x, None);
    assert!(t.elements().is_empty());
}

#[test]
fn append_concatenates() {
    for n in 0..12u64 {
        for m in 0..12u64 {
            let xs: Vec<u64> = (0..n).collect();
            let ys: Vec<u64> = (100..100 + m).collect();
            let t = from_slice(&xs).append(from_slice(&ys));
            let mut want = xs.clone();
            want.extend_from_slice(&ys);
            assert_eq!(t.elements(), want);
        }
    }
}

#[test]
fn append_is_associative() {
    let a: Vec<u64> = (0..9).collect();
    let b: Vec<u64> = (20..27).collect();
    let c: Vec<u64> = (40..52).collect();
    let left = from_slice(&a).append(from_slice(&b)).append(from_slice(&c));
    let right = from_slice(&a).append(from_slice(&b).append(from_slice(&c)));
    assert_eq!(left.elements(), right.elements());
}

#[test]
fn measure_of_empty_is_unit() {
    assert_eq!(Tree::empty().measure(), Length(0));
}

#[test]
fn measure_counts_elements() {
    for n in 0..60u64 {
        let xs: Vec<u64> = (0..n).collect();
        let t = from_slice(&xs);
        assert_eq!(t.measure().0 as u64, n);
    }
}

#[test]
fn split_at_every_index() {
    let n = 25u64;
    let xs: Vec<u64> = (0..n).map(|v| v * 3).collect();
    for i in 0..n as usize {
        let (l, x, r) = from_slice(&xs).split_at(i);
        assert_eq!(l.elements(), &xs[..i]);
        assert_eq!(x, Some(xs[i]));
        assert_eq!(r.elements(), &xs[i + 1..]);
    }
}

#[test]
fn split_past_the_end() {
    let xs: Vec<u64> = (0..5).collect();
    let (l, x, r) = from_slice(&xs).split_at(5);
    assert_eq!(x, None);
    assert_eq!(l.elements(), xs);
    assert!(r.elements().is_empty());
}

#[test]
fn split_on_empty() {
    let (l, x, r) = Tree::empty().split_at(0);
    assert_eq!(x, None);
    assert!(l.elements().is_empty());
    assert!(r.elements().is_empty());
}

#[test]
fn split_with_predicate() {
    let xs: Vec<u64> = (1..=5).collect();
    let (l, x, r) = from_slice(&xs).split(&CountAbove(2));
    assert_eq!(l.elements(), vec![1, 2]);
    assert_eq!(x, Some(3));
    assert_eq!(r.elements(), vec![4, 5]);
}

#[test]
fn split_predicate_never_true() {
    let xs: Vec<u64> = (1..=5).collect();
    let (l, x, r) = from_slice(&xs).split(&CountAbove(100));
    assert_eq!(x, None);
    assert_eq!(l.elements(), xs);
    assert!(r.elements().is_empty());
}

#[test]
fn scenario_one_to_five() {
    let mut t = Tree::empty();
    for x in 1..=5u64 {
        t = t.insert_right(x);
    }
    assert_eq!(t.elements(), vec![1, 2, 3, 4, 5]);
    let t = from_slice(&[1, 2, 3, 4, 5]);
    let (t2, first) = t.remove_left();
    assert_eq!(first, Some(1));
    assert_eq!(t2.elements(), vec![2, 3, 4, 5]);
    let t2 = from_slice(&[2, 3, 4, 5]);
    let (l, mid, r) = t2.split(&CountAbove(2));
    assert_eq!(l.elements(), vec![2, 3]);
    assert_eq!(mid, Some(4));
    assert_eq!(r.elements(), vec![5]);
}

#[test]
fn trait_push_pop() {
    let t = Tree::empty();
    assert!(t.is_empty());
    let t = t.push(1).push(2).push(3);
    assert!(!t.is_empty());
    let (t, x) = t.pop();
    assert_eq!(x, Some(3));
    assert_eq!(t.elements(), vec![1, 2]);
}

#[test]
fn trait_append_prepend() {
    let a = from_slice(&[1, 2]);
    let b = from_slice(&[3, 4]);
    assert_eq!(FingerTreeLike::append(a, b).elements(), vec![1, 2, 3, 4]);
    let a = from_slice(&[1, 2]);
    let b = from_slice(&[3, 4]);
    assert_eq!(a.prepend(b).elements(), vec![3, 4, 1, 2]);
}

#[test]
fn concat_all_folds() {
    let xs = vec![Length(1), Length(2), Length(3)];
    assert_eq!(concat_all(&xs), Length(6));
}

#[test]
fn deep_spine_both_ends() {
    let n = 200u64;
    let mut t = Tree::empty();
    for x in 0..n {
        if x % 2 == 0 {
            t = t.insert_right(x);
        } else {
            t = t.insert_left(x);
        }
    }
    let mut want: Vec<u64> = (0..n).filter(|x| x % 2 == 1).rev().collect();
    want.extend((0..n).filter(|x| x % 2 == 0));
    assert_eq!(t.measure().0 as u64, n);
    assert_eq!(t.elements(), want);
    let mut t = from_slice(&want);
    let mut drained = Vec::new();
    loop {
        let (rest, x) = t.remove_left();
        t = rest;
        match x {
            Some(v) => drained.push(v),
            None => break,
        }
    }
    assert_eq!(drained, want);
}

use algolib::{open, Endpoint, Segtree};
use rand::distributions::Alphanumeric;
use rand::rngs::StdRng;
use rand::{Rng, SeedableRng};
use std::iter;

fn strcat(s: String, t: String) -> String {
    s.chars().chain(t.chars()).collect::<String>()
}

fn sub_range(rng: &mut StdRng, n: usize) -> std::ops::Range<usize> {
    let mut l = rng.gen_range(0, n + 1);
    let mut r = rng.gen_range(0, n + 1);
    if l > r {
        std::mem::swap(&mut l, &mut r);
    }
    l..r
}

fn set_leaf<T: Clone, Op: Fn(T, T) -> T, Identity: Fn() -> T>(
    seg: &mut Segtree<T, Op, Identity>,
    index: usize,
    value: T,
) {
    let mut e = seg.entry(index);
    e.set(value);
    seg.commit(e);
}

#[test]
fn test_index() {
    let seg = Segtree::new(&[0, 1], |x, _y| x, || 0);
    assert_eq!(seg.as_slice()[0], 0);
    assert_eq!(seg.as_slice()[1], 1);
    assert_eq!(seg.as_slice(), &[0, 1]);
}

#[test]
fn test_as_slice() {
    let seg = Segtree::new(&[0, 1], |x, _y| x, || 0);
    assert_eq!(seg.as_slice(), &[0, 1]);
}

#[test]
fn test_entry() {
    let mut seg = Segtree::new(&[0, 1], |x, _y| x, || 0);
    set_leaf(&mut seg, 0, 10);
    set_leaf(&mut seg, 1, 11);
    assert_eq!(seg.as_slice(), &[10, 11]);
    set_leaf(&mut seg, 0, 20);
    set_leaf(&mut seg, 1, 21);
    assert_eq!(seg.as_slice(), &[20, 21]);
}

#[test]
fn test_strcat() {
    let mut rng = StdRng::seed_from_u64(42);
    for _ in 0..20 {
        let n = rng.gen_range(1, 40);
        let mut a = iter::repeat_with(|| iter::once(rng.sample(Alphanumeric)).collect())
            .take(n)
            .collect::<Vec<String>>();
        let mut seg = Segtree::new(&a, strcat, String::new);
        println!("a = {:?}", &a);
        println!("seg = {:?}", seg.as_slice());
        for _ in 0..200 {
            match rng.gen_range(0, 2) {
                0 => {
                    let i = rng.gen_range(0, n);
                    let s = iter::once(rng.sample(Alphanumeric)).collect::<String>();
                    a[i] = s.clone();
                    set_leaf(&mut seg, i, s);
                }
                1 => {
                    let range = sub_range(&mut rng, n);
                    let result = seg.fold(range.clone());
                    let expected = a[range].iter().cloned().fold(String::new(), strcat);
                    assert_eq!(result, expected);
                }
                _ => panic!(),
            }
        }
    }
}

#[test]
fn min_scenario() {
    let mut seg = Segtree::new(&[5u64, 3, 8, 1], |x: u64, y: u64| x.min(y), || u64::MAX);
    assert_eq!(seg.fold(0..4), 1);
    assert_eq!(seg.fold(1..3), 3);
    set_leaf(&mut seg, 2, 0);
    assert_eq!(seg.fold(0..4), 0);
    assert_eq!(seg.as_slice(), &[5, 3, 0, 1]);
}

#[test]
fn concat_scenario() {
    let leaves: Vec<String> = vec!["a".to_string(), "b".to_string(), "c".to_string()];
    let mut seg = Segtree::new(&leaves, strcat, String::new);
    assert_eq!(seg.fold(0..3), "abc");
    set_leaf(&mut seg, 1, "x".to_string());
    assert_eq!(seg.fold(0..3), "axc");
    assert_eq!(seg.fold(1..1), "");
}

#[test]
fn empty_range_gives_identity() {
    let seg = Segtree::new(&[7u64, 2, 9], |x: u64, y: u64| x + y, || 0);
    for k in 0..=3 {
        assert_eq!(seg.fold(k..k), 0);
    }
}

#[test]
fn empty_tree() {
    let seg = Segtree::new(&[], |x: u64, y: u64| x + y, || 0);
    assert_eq!(seg.as_slice(), &[] as &[u64]);
    assert_eq!(seg.fold(0..0), 0);
}

#[test]
fn single_leaf() {
    let mut seg = Segtree::new(&[4u64], |x: u64, y: u64| x + y, || 0);
    assert_eq!(seg.fold(0..1), 4);
    set_leaf(&mut seg, 0, 6);
    assert_eq!(seg.fold(0..1), 6);
    assert_eq!(seg.fold(0..0), 0);
}

#[test]
fn sums_over_every_range() {
    let values: Vec<u64> = vec![3, 1, 4, 1, 5, 9, 2, 6, 5, 3, 5];
    let seg = Segtree::new(&values, |x: u64, y: u64| x + y, || 0);
    for l in 0..=values.len() {
        for r in l..=values.len() {
            assert_eq!(seg.fold(l..r), values[l..r].iter().sum::<u64>());
        }
    }
}

#[test]
fn update_is_seen_by_covering_folds() {
    let leaves: Vec<String> = ["p", "q", "r", "s", "t"].iter().map(|s| s.to_string()).collect();
    let mut seg = Segtree::new(&leaves, strcat, String::new);
    set_leaf(&mut seg, 3, "Z".to_string());
    assert_eq!(seg.as_slice()[3], "Z");
    assert_eq!(seg.fold(0..5), "pqrZt");
    assert_eq!(seg.fold(2..4), "rZ");
    assert_eq!(seg.fold(3..4), "Z");
    assert_eq!(seg.fold(0..3), "pqr");
}

#[test]
fn entry_reads_current_leaf() {
    let mut seg = Segtree::new(&[10u64, 20, 30], |x: u64, y: u64| x + y, || 0);
    let e = seg.entry(1);
    assert_eq!(e.index(), 1);
    assert_eq!(*e.get(), 20);
    let mut e = seg.entry(2);
    e.set(31);
    e.set(32);
    assert_eq!(*e.get(), 32);
    seg.commit(e);
    assert_eq!(seg.fold(0..3), 62);
}

#[test]
fn repeated_reads_agree() {
    let seg = Segtree::new(&[1u64, 2, 3], |x: u64, y: u64| x + y, || 0);
    let first = seg.as_slice().to_vec();
    let second = seg.as_slice().to_vec();
    assert_eq!(first, second);
}

#[test]
fn differential_affine_composition() {
    // Composition of affine maps modulo a prime: associative and not commutative.
    const P: u64 = 1_000_003;
    let compose = |f: (u64, u64), g: (u64, u64)| ((f.0 * g.0) % P, (f.1 * g.0 + g.1) % P);
    let mut rng = StdRng::seed_from_u64(7);
    for _ in 0..30 {
        let n = rng.gen_range(1, 50);
        let mut plain: Vec<(u64, u64)> = (0..n).map(|_| (rng.gen_range(0, P), rng.gen_range(0, P))).collect();
        let mut seg = Segtree::new(&plain, compose, || (1u64, 0u64));
        for _ in 0..300 {
            if rng.gen_range(0, 2) == 0 {
                let i = rng.gen_range(0, n);
                let v = (rng.gen_range(0, P), rng.gen_range(0, P));
                plain[i] = v;
                set_leaf(&mut seg, i, v);
            } else {
                let range = sub_range(&mut rng, n);
                let expected = plain[range.clone()].iter().cloned().fold((1u64, 0u64), compose);
                assert_eq!(seg.fold(range), expected);
            }
        }
        assert_eq!(seg.as_slice(), &plain[..]);
    }
}

#[test]
fn open_normalises_endpoints() {
    assert_eq!(open(Endpoint::Unbounded, Endpoint::Unbounded, 7), 0..7);
    assert_eq!(open(Endpoint::Included(2), Endpoint::Excluded(5), 7), 2..5);
    assert_eq!(open(Endpoint::Excluded(2), Endpoint::Included(5), 7), 3..6);
    assert_eq!(open(Endpoint::Included(4), Endpoint::Unbounded, 7), 4..7);
    assert_eq!(open(Endpoint::Unbounded, Endpoint::Included(0), 7), 0..1);
}

#[test]
fn fold_between_endpoints() {
    let leaves: Vec<String> = ["a", "b", "c", "d"].iter().map(|s| s.to_string()).collect();
    let seg = Segtree::new(&leaves, strcat, String::new);
    assert_eq!(seg.fold_bounds(Endpoint::Unbounded, Endpoint::Unbounded), "abcd");
    assert_eq!(seg.fold_bounds(Endpoint::Excluded(0), Endpoint::Included(2)), "bc");
    assert_eq!(seg.fold_bounds(Endpoint::Included(1), Endpoint::Excluded(1)), "");
    assert_eq!(seg.fold_bounds(Endpoint::Included(3), Endpoint::Unbounded), "d");
}

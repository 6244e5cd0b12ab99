use id_set::IdSet;

fn mk_set(ids: &[usize]) -> IdSet {
    let mut set = IdSet::new();
    for &id in ids {
        set.insert(id);
    }
    set
}

fn elements(set: &IdSet) -> Vec<usize> {
    let mut iter = set.iter();
    let mut ids = Vec::new();
    while let Some(id) = iter.next() {
        ids.push(id);
    }
    ids
}

/// A small deterministic pseudo-random generator for building set pairs.
fn next_pseudo(state: &mut u64) -> u64 {
    *state = state.wrapping_mul(6364136223846793005).wrapping_add(1442695040888963407);
    *state >> 33
}

fn pseudo_set(state: &mut u64, max: usize, count: usize) -> IdSet {
    let mut set = IdSet::new();
    for _ in 0..count {
        set.insert((next_pseudo(state) as usize) % max);
    }
    set
}

#[test]
fn filled_collect_range() {
    for n in 0..=100 {
        let set = IdSet::new_filled(n);
        let expected: Vec<usize> = (0..n).collect();
        assert_eq!(elements(&set), expected);
        assert_eq!(set.len(), n);
    }
}

#[test]
fn insert_contains_roundtrip() {
    let mut set = IdSet::new();
    for x in [0, 1, 31, 32, 33, 195, 196, 4096] {
        assert!(set.insert(x));
        assert!(set.contains(x));
        let before = set.len();
        assert!(!set.insert(x));
        assert_eq!(set.len(), before);
        assert!(set.remove(x));
        assert!(!set.contains(x));
    }
    assert!(set.is_empty());
}

#[test]
fn algebra_fixed_cases() {
    let a = mk_set(&[1, 3, 5, 9, 11]);
    let b = mk_set(&[3, 9, 14, 220]);

    let sym: Vec<usize> = a.symmetric_difference(&b).collect();
    assert_eq!(sym, [1, 5, 11, 14, 220]);

    let uni: Vec<usize> = a.union(&b).collect();
    assert_eq!(uni, [1, 3, 5, 9, 11, 14, 220]);

    let int: Vec<usize> = a.intersection(&b).collect();
    assert_eq!(int, [3, 9]);

    let dif: Vec<usize> = a.difference(&b).collect();
    assert_eq!(dif, [1, 5, 11]);

    let composed: Vec<usize> = a.intersection(&b).union(&mk_set(&[0, 1])).collect();
    assert_eq!(composed, [0, 1, 3, 9]);
}

#[test]
fn consuming_algebra_matches_borrowing() {
    let a = mk_set(&[1, 3, 5, 9, 11]);
    let b = mk_set(&[3, 9, 14, 220]);

    let borrowed: Vec<usize> = a.union(&b).collect();
    let consumed: Vec<usize> = a.clone().into_union(&b).collect();
    assert_eq!(borrowed, consumed);

    let borrowed: Vec<usize> = a.intersection(&b).collect();
    let consumed: Vec<usize> = a.clone().into_intersection(&b).collect();
    assert_eq!(borrowed, consumed);

    let borrowed: Vec<usize> = a.difference(&b).collect();
    let consumed: Vec<usize> = a.clone().into_difference(&b).collect();
    assert_eq!(borrowed, consumed);

    let borrowed: Vec<usize> = a.symmetric_difference(&b).collect();
    let consumed: Vec<usize> = a.clone().into_symmetric_difference(&b).collect();
    assert_eq!(borrowed, consumed);
}

#[test]
fn relations_brute_force() {
    let mut state: u64 = 12345;
    let mut pairs: Vec<(IdSet, IdSet)> = Vec::new();
    for round in 0..12 {
        let a = pseudo_set(&mut state, 300, 5 + round * 7);
        let b = pseudo_set(&mut state, 300, 40 - round * 3);
        pairs.push((a, b));
    }
    // Edge cases: one empty side and a strict superset.
    pairs.push((IdSet::new(), pseudo_set(&mut state, 100, 10)));
    pairs.push((pseudo_set(&mut state, 100, 10), IdSet::new()));
    let small = mk_set(&[2, 40, 90]);
    let mut big = small.clone();
    big.insert(7);
    big.insert(300);
    pairs.push((small, big));

    for (a, b) in &pairs {
        let brute_subset = elements(a).iter().all(|&x| b.contains(x));
        let brute_superset = elements(b).iter().all(|&x| a.contains(x));
        let brute_disjoint = elements(a).iter().all(|&x| !b.contains(x));
        assert_eq!(a.is_subset(b), brute_subset);
        assert_eq!(a.is_superset(b), brute_superset);
        assert_eq!(a.is_disjoint(b), brute_disjoint);
        assert_eq!(b.is_disjoint(a), brute_disjoint);
    }
}

#[test]
fn retain_keeps_exactly_satisfying() {
    let mut set = mk_set(&[0, 1, 2, 3, 30, 31, 32, 33, 64, 100, 221]);
    let expected: Vec<usize> = elements(&set).into_iter().filter(|&x| x % 3 == 0).collect();
    set.retain(|id| id % 3 == 0);
    assert_eq!(elements(&set), expected);
    assert_eq!(set.len(), expected.len());
}

#[test]
fn clone_preserves_equality() {
    let a = mk_set(&[4, 77, 205, 4000]);
    let b = a.clone();
    assert!(a == b);
    assert_eq!(elements(&a), elements(&b));

    let mut c = b.clone();
    c.insert(5);
    assert!(a != c);
    assert!(!b.contains(5));
}

#[test]
fn inplace_matches_lazy_views() {
    let mut state: u64 = 99;
    for round in 0..10 {
        let a = pseudo_set(&mut state, 500, 10 + round * 9);
        let b = pseudo_set(&mut state, 500, 60 - round * 5);

        let mut u = a.clone();
        u.inplace_union(&b);
        assert_eq!(u, a.union(&b).into_set());

        let mut i = a.clone();
        i.inplace_intersection(&b);
        assert_eq!(i, a.intersection(&b).into_set());

        let mut d = a.clone();
        d.inplace_difference(&b);
        assert_eq!(d, a.difference(&b).into_set());

        let mut s = a.clone();
        s.inplace_symmetric_difference(&b);
        assert_eq!(s, a.symmetric_difference(&b).into_set());
    }
}

#[test]
fn complement_words() {
    let a = IdSet::from_bytes(&vec![0b1010, 0b1]);
    let mut c = a.complement();
    assert_eq!(c.next(), !0b1010u32);
    assert_eq!(c.next(), !0b1u32);
    // Once the source is exhausted, every further word is all ones.
    assert_eq!(c.next(), !0u32);
    assert_eq!(c.next(), !0u32);
}

#[test]
fn complement_bounded_by_partner() {
    // Bounding a complement externally: everything below 10 not in `a`.
    let a = mk_set(&[1, 3, 7]);
    let rest: Vec<usize> = IdSet::new_filled(10).difference(&a).collect();
    assert_eq!(rest, [0, 2, 4, 5, 6, 8, 9]);
}

#[test]
fn iter_reports_exact_count() {
    let set = mk_set(&[3, 64, 999]);
    let mut iter = set.iter();
    assert_eq!(iter.len(), 3);
    assert_eq!(iter.next(), Some(3));
    assert_eq!(iter.len(), 2);
    assert_eq!(iter.next(), Some(64));
    assert_eq!(iter.next(), Some(999));
    assert_eq!(iter.len(), 0);
    assert_eq!(iter.next(), None);
}

#[test]
fn bookkeeping_operations() {
    let mut set = IdSet::with_capacity(100);
    assert!(set.is_empty());
    assert!(set.capacity() >= 100);

    set.insert(42);
    set.reserve(2000);
    assert!(set.capacity() >= 2000);
    assert!(set.contains(42));

    set.clear();
    assert!(set.is_empty());
    assert!(!set.contains(42));

    set.insert(1000);
    set.remove(1000);
    set.insert(3);
    set.shrink_to_fit();
    assert!(set.contains(3));
    assert_eq!(set.len(), 1);
}

#[test]
fn as_blocks_exposes_words() {
    let set = IdSet::from_bytes(&vec![0b1001, 0, 0b10]);
    let blocks = set.as_blocks();
    assert_eq!(blocks[0], 0b1001);
    assert_eq!(blocks[1], 0);
    assert_eq!(blocks[2], 0b10);
    for &w in &blocks[3..] {
        assert_eq!(w, 0);
    }
}

#[test]
fn extend_and_from_iter() {
    let base: Vec<usize> = vec![9, 1, 9, 200, 3];
    let set = IdSet::from_iter(&base);
    assert_eq!(elements(&set), [1, 3, 9, 200]);

    let mut grown = set.clone();
    grown.extend(&vec![1, 2]);
    assert_eq!(elements(&grown), [1, 2, 3, 9, 200]);
}

#[test]
fn empty_and_zero_words_equal() {
    assert!(IdSet::from_bytes(&vec![0]) == IdSet::new());
    assert!(IdSet::from_bytes(&vec![0b10100010]) != IdSet::from_bytes(&vec![0b00000000]));
    assert!(IdSet::from_bytes(&vec![7]) == IdSet::from_bytes(&vec![7, 0, 0, 0, 0, 0, 0, 0]));
}

#[test]
fn blocks_decode_through_id_iter() {
    let set = mk_set(&[0, 33, 67]);
    let mut decoded = Vec::new();
    let mut iter = id_set::IdIter::new(set.blocks());
    while let Some(id) = iter.next() {
        decoded.push(id);
    }
    assert_eq!(decoded, [0, 33, 67]);
}

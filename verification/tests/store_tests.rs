use std::mem;

use id_set::store::BlockStore;
use id_set::stream::BlockStream;
use id_set::{Block, IdSet, SIZE};

#[test]
fn size() {
    assert_eq!(
        mem::size_of::<[Block; SIZE]>(),
        mem::size_of::<Vec<Block>>()
    );
    assert!(SIZE <= u8::MAX as usize);
}

#[test]
fn store_new_is_inline_zeros() {
    let s = BlockStore::new();
    assert_eq!(s.len(), SIZE);
    for i in 0..SIZE {
        assert_eq!(s.get(i), 0);
    }
    assert_eq!(s.capacity(), SIZE);
}

#[test]
fn store_with_capacity_branches() {
    let small = BlockStore::with_capacity(SIZE - 1);
    assert_eq!(small.capacity(), SIZE);

    let large = BlockStore::with_capacity(SIZE);
    assert!(large.capacity() >= SIZE);
    assert_eq!(large.len(), 0);
}

#[test]
fn store_resize_zero_extends_and_truncates() {
    let mut s = BlockStore::new();
    s.set_word(0, 7);
    s.set_word(3, 9);

    // Truncating within the inline threshold zeroes the removed slots only.
    s.resize(2);
    assert_eq!(s.len(), SIZE);
    assert_eq!(s.get(0), 7);
    assert_eq!(s.get(3), 0);

    // Growing past the threshold promotes to the heap, zero-extended.
    s.resize(10);
    assert_eq!(s.len(), 10);
    assert_eq!(s.get(0), 7);
    for i in 1..10 {
        assert_eq!(s.get(i), 0);
    }

    // Heap truncation shortens the word sequence itself.
    s.resize(1);
    assert_eq!(s.len(), 1);
    assert_eq!(s.get(0), 7);
}

#[test]
fn store_reserve_promotes_and_preserves() {
    let mut s = BlockStore::new();
    s.set_word(2, 5);
    s.reserve(SIZE + 4);
    assert!(s.capacity() >= SIZE);
    assert_eq!(s.len(), SIZE);
    assert_eq!(s.get(2), 5);
}

#[test]
fn store_drain_yields_tail_and_zeroes() {
    let mut s = BlockStore::from_blocks(&vec![1, 2, 3, 4, 5, 6, 7, 8]);
    let tail = s.drain(3);
    assert_eq!(tail, vec![4, 5, 6, 7, 8]);
    assert_eq!(s.len(), 3);
    assert_eq!(s.get(0), 1);
    assert_eq!(s.get(1), 2);
    assert_eq!(s.get(2), 3);

    let mut inline = BlockStore::from_blocks(&vec![1, 2, 3]);
    let tail = inline.drain(1);
    assert_eq!(tail, vec![2, 3, 0, 0, 0]);
    assert_eq!(inline.len(), SIZE);
    assert_eq!(inline.get(0), 1);
    for i in 1..SIZE {
        assert_eq!(inline.get(i), 0);
    }
}

#[test]
fn store_shrink_demotes_when_it_fits() {
    let mut s = BlockStore::from_blocks(&vec![1, 0, 0, 0, 0, 0, 0, 0]);
    assert_eq!(s.len(), 8);
    s.shrink_to_fit();
    assert_eq!(s.len(), SIZE);
    assert_eq!(s.get(0), 1);
    assert_eq!(s.capacity(), SIZE);
}

#[test]
fn store_iterators_agree_across_branches() {
    for words in [vec![9, 0, 5], vec![9, 0, 5, 0, 0, 0, 0, 1]] {
        let s = BlockStore::from_blocks(&words);
        let mut borrowed = Vec::new();
        let mut iter = s.iter();
        while let Some(w) = iter.next() {
            borrowed.push(w);
        }
        let mut owned = Vec::new();
        let mut iter = s.clone().into_iter();
        while let Some(w) = iter.next() {
            owned.push(w);
        }
        assert_eq!(borrowed, owned);
        for (i, &w) in words.iter().enumerate() {
            assert_eq!(borrowed[i], w);
        }
        for &w in &borrowed[words.len()..] {
            assert_eq!(w, 0);
        }
    }
}

#[test]
fn set_promotion_boundary() {
    // The inline buffer holds SIZE words of 32 bits each.
    let mut s = IdSet::new();
    assert_eq!(s.capacity(), SIZE * 32);
    s.insert(SIZE * 32 - 1);
    assert_eq!(s.capacity(), SIZE * 32);
    s.insert(SIZE * 32);
    assert!(s.capacity() >= (SIZE + 1) * 32);

    // Dropping the large element and compacting demotes back to inline.
    s.remove(SIZE * 32);
    s.shrink_to_fit();
    assert_eq!(s.capacity(), SIZE * 32);
    assert!(s.contains(SIZE * 32 - 1));
    assert_eq!(s.len(), 1);
}

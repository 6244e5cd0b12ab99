//! Hybrid storage for the words of a set. Small word sequences live in a
//! fixed inline buffer with no heap allocation; once the required word count
//! reaches the threshold the store is promoted to a growable heap buffer.
//! Every operation behaves identically on both branches: the representation
//! is a performance choice, observable only through allocation.

use vstd::prelude::*;

use crate::bits::word_at;
use crate::stream::BlockStream;

verus! {

broadcast use vstd::array::group_array_axioms;

/// The number of words kept inline: the words that fit into the 196-bit
/// footprint of a vector on a 64-bit machine.
pub const SIZE: usize = 6;

/// Hybrid inline/heap storage for a sequence of words.
#[derive(Debug)]
pub enum BlockStore {
    /// Fixed-capacity inline storage. All `SIZE` slots always belong to the
    /// logical word sequence; unused slots hold zero.
    Stack([u32; 6]),
    /// Growable heap storage.
    Heap(Vec<u32>),
}

impl View for BlockStore {
    type V = Seq<u32>;

    open spec fn view(&self) -> Seq<u32> {
        match self {
            BlockStore::Stack(arr) => arr@,
            BlockStore::Heap(v) => v@,
        }
    }
}

/// The length of a word sequence once trailing zero words are dropped.
pub open spec fn trimmed_len(blocks: Seq<u32>) -> nat
    decreases blocks.len(),
{
    if blocks.len() == 0 || blocks.last() != 0u32 {
        blocks.len()
    } else {
        trimmed_len(blocks.drop_last())
    }
}

/// Relies on `Vec::capacity`: the capacity of a vector is at least its
/// length.
#[verifier::external_body]
fn vec_capacity(v: &Vec<u32>) -> (c: usize)
    ensures
        c >= v@.len(),
{
    v.capacity()
}

/// Relies on `Vec::shrink_to_fit`: it may shed excess capacity but leaves
/// the contents of the vector unchanged.
#[verifier::external_body]
fn vec_shrink_to_fit(v: &mut Vec<u32>)
    ensures
        final(v)@ == old(v)@,
{
    v.shrink_to_fit()
}

impl BlockStore {
    /// True when the store currently uses the inline representation.
    pub open spec fn is_inline(&self) -> bool {
        self is Stack
    }

    /// Creates an empty inline store: `SIZE` zero words, no allocation.
    pub fn new() -> (r: Self)
        ensures
            r@.len() == SIZE,
            forall|i: nat| word_at(r@, i) == 0u32,
            r.is_inline(),
    {
        BlockStore::Stack([0u32; 6])
    }

    /// Creates an empty store able to hold `cap` words: inline below the
    /// threshold, heap-backed from the threshold on.
    pub fn with_capacity(cap: usize) -> (r: Self)
        ensures
            forall|i: nat| word_at(r@, i) == 0u32,
            r@.len() <= SIZE,
            r.is_inline() == (cap < SIZE),
    {
        if cap < SIZE {
            BlockStore::Stack([0u32; 6])
        } else {
            BlockStore::Heap(Vec::with_capacity(cap))
        }
    }

    /// The number of words currently stored.
    pub fn len(&self) -> (n: usize)
        ensures
            n == self@.len(),
    {
        match self {
            BlockStore::Stack(_) => SIZE,
            BlockStore::Heap(v) => v.len(),
        }
    }

    /// The word at index `i`.
    pub fn get(&self, i: usize) -> (w: u32)
        requires
            i < self@.len(),
        ensures
            w == self@[i as int],
    {
        match self {
            BlockStore::Stack(arr) => arr[i],
            BlockStore::Heap(v) => v[i],
        }
    }

    /// The word at index `i`, reading zero past the end.
    pub fn get_or_zero(&self, i: usize) -> (w: u32)
        ensures
            w == word_at(self@, i as nat),
    {
        if i < self.len() {
            self.get(i)
        } else {
            0
        }
    }

    /// Replaces the word at index `i`.
    pub fn set_word(&mut self, i: usize, w: u32)
        requires
            i < old(self)@.len(),
        ensures
            final(self)@ == old(self)@.update(i as int, w),
            final(self).is_inline() == old(self).is_inline(),
    {
        match self {
            BlockStore::Stack(arr) => {
                arr[i] = w;
            },
            BlockStore::Heap(v) => {
                v.set(i, w);
            },
        }
    }

    /// Resets the store to the empty inline state, dropping any heap buffer.
    pub fn clear(&mut self)
        ensures
            final(self)@.len() == SIZE,
            forall|i: nat| word_at(final(self)@, i) == 0u32,
            final(self).is_inline(),
    {
        *self = BlockStore::new();
    }

    /// The number of words the store can hold without reallocating.
    pub fn capacity(&self) -> (c: usize)
        ensures
            c >= self@.len(),
            self.is_inline() ==> c == SIZE,
    {
        match self {
            BlockStore::Stack(_) => SIZE,
            BlockStore::Heap(v) => vec_capacity(v),
        }
    }

    /// Makes room for `cap` words, promoting to the heap when `cap` reaches
    /// the threshold; the contents are preserved.
    pub fn reserve(&mut self, cap: usize)
        ensures
            final(self)@ == old(self)@,
            final(self).is_inline() == (old(self).is_inline() && cap < SIZE),
    {
        if cap < SIZE {
            return ;
        }
        let mut cur = BlockStore::new();
        core::mem::swap(self, &mut cur);
        match cur {
            BlockStore::Stack(arr) => {
                let mut v: Vec<u32> = Vec::with_capacity(cap);
                let mut i: usize = 0;
                while i < SIZE
                    invariant
                        i <= SIZE,
                        v@ == arr@.take(i as int),
                    decreases SIZE - i,
                {
                    v.push(arr[i]);
                    proof {
                        assert(v@ =~= arr@.take(i + 1));
                    }
                    i = i + 1;
                }
                proof {
                    assert(v@ =~= arr@);
                }
                *self = BlockStore::Heap(v);
            },
            BlockStore::Heap(mut v) => {
                v.reserve(cap);
                *self = BlockStore::Heap(v);
            },
        }
    }

    /// Zero-extends or truncates to `new_len` words. Truncation zeroes the
    /// removed slots; inline storage stays inline below the threshold, and
    /// growing to the threshold or beyond promotes to the heap.
    pub fn resize(&mut self, new_len: usize)
        ensures
            forall|i: nat|
                word_at(final(self)@, i) == if i < new_len as nat {
                    word_at(old(self)@, i)
                } else {
                    0u32
                },
            final(self)@.len() == if old(self).is_inline() && new_len < SIZE {
                SIZE as int
            } else {
                new_len as int
            },
            final(self).is_inline() == (old(self).is_inline() && new_len < SIZE),
    {
        let ghost orig: Seq<u32> = self@;
        let mut cur = BlockStore::new();
        core::mem::swap(self, &mut cur);
        match cur {
            BlockStore::Stack(mut arr) => {
                if new_len < SIZE {
                    let mut i: usize = new_len;
                    while i < SIZE
                        invariant
                            new_len <= i <= SIZE,
                            arr@.len() == SIZE,
                            orig.len() == SIZE,
                            forall|k: int| 0 <= k < new_len as int ==> arr@[k] == orig[k],
                            forall|k: int| new_len as int <= k < i as int ==> arr@[k] == 0u32,
                        decreases SIZE - i,
                    {
                        arr[i] = 0;
                        i = i + 1;
                    }
                    *self = BlockStore::Stack(arr);
                    proof {
                        assert forall|q: nat|
                            word_at(self@, q) == (if q < new_len as nat {
                                word_at(orig, q)
                            } else {
                                0u32
                            }) by {}
                    }
                } else {
                    let mut v: Vec<u32> = Vec::with_capacity(new_len);
                    let mut i: usize = 0;
                    while i < SIZE
                        invariant
                            i <= SIZE,
                            v@.len() == i,
                            arr@.len() == SIZE,
                            forall|k: int| 0 <= k < i as int ==> v@[k] == arr@[k],
                        decreases SIZE - i,
                    {
                        v.push(arr[i]);
                        i = i + 1;
                    }
                    while i < new_len
                        invariant
                            SIZE <= i <= new_len,
                            v@.len() == i,
                            arr@.len() == SIZE,
                            forall|k: int| 0 <= k < SIZE as int ==> v@[k] == arr@[k],
                            forall|k: int| SIZE as int <= k < i as int ==> v@[k] == 0u32,
                        decreases new_len - i,
                    {
                        v.push(0);
                        i = i + 1;
                    }
                    *self = BlockStore::Heap(v);
                    proof {
                        assert forall|q: nat|
                            word_at(self@, q) == (if q < new_len as nat {
                                word_at(orig, q)
                            } else {
                                0u32
                            }) by {}
                    }
                }
            },
            BlockStore::Heap(mut v) => {
                if new_len <= v.len() {
                    v.truncate(new_len);
                } else {
                    v.resize(new_len, 0u32);
                    proof {
                        assert forall|k: int| orig.len() <= k < new_len as int implies v@[k]
                            == 0u32 by {
                            assert(vstd::pervasive::cloned::<u32>(0u32, v@[k]));
                        }
                    }
                }
                *self = BlockStore::Heap(v);
                proof {
                    assert forall|q: nat|
                        word_at(self@, q) == (if q < new_len as nat {
                            word_at(orig, q)
                        } else {
                            0u32
                        }) by {}
                }
            },
        }
    }

    /// Drops trailing zero words, then demotes to inline storage if the rest
    /// fits; the represented word values are unchanged.
    pub fn shrink_to_fit(&mut self)
        ensures
            forall|i: nat| word_at(final(self)@, i) == word_at(old(self)@, i),
            final(self)@.len() == if old(self).is_inline() {
                SIZE as int
            } else if trimmed_len(old(self)@) < SIZE as nat {
                SIZE as int
            } else {
                trimmed_len(old(self)@) as int
            },
            final(self).is_inline() == (old(self).is_inline() || trimmed_len(old(self)@)
                < SIZE as nat),
    {
        let ghost orig: Seq<u32> = self@;
        let mut cur = BlockStore::new();
        core::mem::swap(self, &mut cur);
        match cur {
            BlockStore::Stack(arr) => {
                *self = BlockStore::Stack(arr);
            },
            BlockStore::Heap(mut v) => {
                proof {
                    lemma_trimmed_le(v@);
                }
                loop
                    invariant
                        trimmed_len(v@) == trimmed_len(orig),
                        v@.len() >= trimmed_len(orig),
                        forall|i: nat| word_at(v@, i) == word_at(orig, i),
                    ensures
                        v@.len() == trimmed_len(orig),
                        forall|i: nat| word_at(v@, i) == word_at(orig, i),
                    decreases v@.len(),
                {
                    let n = v.len();
                    if n == 0 {
                        proof {
                            lemma_trimmed_exact(v@);
                        }
                        break ;
                    }
                    if v[n - 1] != 0 {
                        proof {
                            lemma_trimmed_exact(v@);
                        }
                        break ;
                    }
                    proof {
                        assert(v@.drop_last() =~= v@.subrange(0, n - 1));
                        lemma_trimmed_le(v@.drop_last());
                        assert forall|i: nat| word_at(v@.drop_last(), i) == word_at(orig, i) by {
                            if i < (n - 1) as nat {
                                assert(word_at(v@.drop_last(), i) == v@[i as int]);
                                assert(word_at(v@, i) == v@[i as int]);
                            } else if i < n as nat {
                                assert(word_at(v@, i) == 0u32);
                            }
                        }
                    }
                    v.pop();
                }
                let n = v.len();
                if n < SIZE {
                    let mut arr = [0u32; 6];
                    let mut i: usize = 0;
                    while i < n
                        invariant
                            i <= n,
                            n == v@.len() < SIZE,
                            arr@.len() == SIZE,
                            forall|k: int| 0 <= k < i as int ==> arr@[k] == v@[k],
                            forall|k: int| i as int <= k < SIZE as int ==> arr@[k] == 0u32,
                        decreases n - i,
                    {
                        arr[i] = v[i];
                        i = i + 1;
                    }
                    *self = BlockStore::Stack(arr);
                    proof {
                        assert forall|k: nat| word_at(self@, k) == word_at(orig, k) by {
                            if k >= n as nat {
                                assert(word_at(v@, k) == 0u32);
                            }
                        }
                    }
                } else {
                    vec_shrink_to_fit(&mut v);
                    *self = BlockStore::Heap(v);
                }
            },
        }
    }

    /// Removes and returns the words from index `idx` on, zeroing the
    /// corresponding inline slots in place for the retained portion.
    pub fn drain(&mut self, idx: usize) -> (tail: Vec<u32>)
        requires
            idx <= old(self)@.len(),
        ensures
            tail@ == old(self)@.skip(idx as int),
            forall|i: nat|
                word_at(final(self)@, i) == if i < idx as nat {
                    word_at(old(self)@, i)
                } else {
                    0u32
                },
            final(self)@.len() == if old(self).is_inline() {
                SIZE as int
            } else {
                idx as int
            },
            final(self).is_inline() == old(self).is_inline(),
    {
        let ghost orig: Seq<u32> = self@;
        let mut cur = BlockStore::new();
        core::mem::swap(self, &mut cur);
        match cur {
            BlockStore::Stack(mut arr) => {
                let mut tail: Vec<u32> = Vec::new();
                let mut i: usize = idx;
                while i < SIZE
                    invariant
                        idx <= i <= SIZE,
                        arr@.len() == SIZE,
                        orig.len() == SIZE,
                        tail@ == orig.subrange(idx as int, i as int),
                        forall|k: int| 0 <= k < idx as int ==> arr@[k] == orig[k],
                        forall|k: int| idx as int <= k < i as int ==> arr@[k] == 0u32,
                        forall|k: int| i as int <= k < SIZE as int ==> arr@[k] == orig[k],
                    decreases SIZE - i,
                {
                    tail.push(arr[i]);
                    arr[i] = 0;
                    proof {
                        assert(tail@ =~= orig.subrange(idx as int, i + 1));
                    }
                    i = i + 1;
                }
                proof {
                    assert(tail@ =~= orig.skip(idx as int));
                }
                *self = BlockStore::Stack(arr);
                proof {
                    assert forall|q: nat|
                        word_at(self@, q) == (if q < idx as nat {
                            word_at(orig, q)
                        } else {
                            0u32
                        }) by {}
                }
                tail
            },
            BlockStore::Heap(mut v) => {
                let mut tail: Vec<u32> = Vec::new();
                let n = v.len();
                let mut i: usize = idx;
                while i < n
                    invariant
                        idx <= i <= n,
                        n == v@.len(),
                        v@ == orig,
                        tail@ == orig.subrange(idx as int, i as int),
                    decreases n - i,
                {
                    tail.push(v[i]);
                    proof {
                        assert(tail@ =~= orig.subrange(idx as int, i + 1));
                    }
                    i = i + 1;
                }
                v.truncate(idx);
                proof {
                    assert(tail@ =~= orig.skip(idx as int));
                }
                *self = BlockStore::Heap(v);
                proof {
                    assert forall|q: nat|
                        word_at(self@, q) == (if q < idx as nat {
                            word_at(orig, q)
                        } else {
                            0u32
                        }) by {}
                }
                tail
            },
        }
    }

    /// Builds a store from a vector of words: inline when they fit below the
    /// threshold, heap-backed otherwise.
    pub fn from_blocks(blocks: &Vec<u32>) -> (r: Self)
        ensures
            forall|i: nat| word_at(r@, i) == word_at(blocks@, i),
            r@.len() == if blocks@.len() < SIZE as nat {
                SIZE as int
            } else {
                blocks@.len() as int
            },
            r.is_inline() == (blocks@.len() < SIZE as nat),
    {
        let n = blocks.len();
        if n < SIZE {
            let mut arr = [0u32; 6];
            let mut i: usize = 0;
            while i < n
                invariant
                    i <= n,
                    n == blocks@.len() < SIZE,
                    arr@.len() == SIZE,
                    forall|k: int| 0 <= k < i as int ==> arr@[k] == blocks@[k],
                    forall|k: int| i as int <= k < SIZE as int ==> arr@[k] == 0u32,
                decreases n - i,
            {
                arr[i] = blocks[i];
                i = i + 1;
            }
            let r = BlockStore::Stack(arr);
            proof {
                assert forall|q: nat| word_at(r@, q) == word_at(blocks@, q) by {}
            }
            r
        } else {
            let mut v: Vec<u32> = Vec::with_capacity(n);
            let mut i: usize = 0;
            while i < n
                invariant
                    i <= n,
                    n == blocks@.len(),
                    v@ == blocks@.take(i as int),
                decreases n - i,
            {
                v.push(blocks[i]);
                proof {
                    assert(v@ =~= blocks@.take(i + 1));
                }
                i = i + 1;
            }
            proof {
                assert(v@ =~= blocks@);
            }
            BlockStore::Heap(v)
        }
    }
}

impl BlockStore {
    /// The stored words as a slice.
    pub fn as_slice(&self) -> (r: &[u32])
        ensures
            r@ == self@,
    {
        match self {
            BlockStore::Stack(arr) => arr.as_slice(),
            BlockStore::Heap(v) => v.as_slice(),
        }
    }

    /// A borrowing word stream over the stored words.
    pub fn iter(&self) -> (r: Iter<'_>)
        ensures
            r.words() == self@,
    {
        Iter { store: self, pos: 0 }
    }

    /// A consuming word stream over the stored words.
    pub fn into_iter(self) -> (r: IntoIter)
        ensures
            r.words() == self@,
    {
        proof {
            assert(self@.skip(0) =~= self@);
        }
        IntoIter { store: self, pos: 0 }
    }
}

/// A borrowing word stream over the words of a store.
#[derive(Clone)]
pub struct Iter<'a> {
    store: &'a BlockStore,
    pos: usize,
}

impl<'a> BlockStream for Iter<'a> {
    closed spec fn words(&self) -> Seq<u32> {
        if self.pos as nat <= self.store@.len() {
            self.store@.skip(self.pos as int)
        } else {
            Seq::empty()
        }
    }

    fn next(&mut self) -> (r: Option<u32>) {
        if self.pos < self.store.len() {
            let w = self.store.get(self.pos);
            proof {
                assert(self.store@.skip(self.pos + 1) =~= self.store@.skip(
                    self.pos as int,
                ).drop_first());
            }
            self.pos = self.pos + 1;
            Some(w)
        } else {
            None
        }
    }

    fn len(&self) -> (n: usize) {
        let total = self.store.len();
        if self.pos <= total {
            total - self.pos
        } else {
            0
        }
    }
}

/// A consuming word stream over the words of a store.
#[derive(Clone)]
pub struct IntoIter {
    store: BlockStore,
    pos: usize,
}

impl BlockStream for IntoIter {
    closed spec fn words(&self) -> Seq<u32> {
        if self.pos as nat <= self.store@.len() {
            self.store@.skip(self.pos as int)
        } else {
            Seq::empty()
        }
    }

    fn next(&mut self) -> (r: Option<u32>) {
        if self.pos < self.store.len() {
            let w = self.store.get(self.pos);
            proof {
                assert(self.store@.skip(self.pos + 1) =~= self.store@.skip(
                    self.pos as int,
                ).drop_first());
            }
            self.pos = self.pos + 1;
            Some(w)
        } else {
            None
        }
    }

    fn len(&self) -> (n: usize) {
        let total = self.store.len();
        if self.pos <= total {
            total - self.pos
        } else {
            0
        }
    }
}

impl Clone for BlockStore {
    /// A deep, independent copy holding the same words in the same
    /// representation.
    fn clone(&self) -> (r: Self)
        ensures
            r@ == self@,
            r.is_inline() == self.is_inline(),
    {
        match self {
            BlockStore::Stack(arr) => BlockStore::Stack(*arr),
            BlockStore::Heap(v) => {
                let n = v.len();
                let mut c: Vec<u32> = Vec::with_capacity(n);
                let mut i: usize = 0;
                while i < n
                    invariant
                        i <= n,
                        n == v@.len(),
                        c@ == v@.take(i as int),
                    decreases n - i,
                {
                    c.push(v[i]);
                    proof {
                        assert(c@ =~= v@.take(i + 1));
                    }
                    i = i + 1;
                }
                proof {
                    assert(c@ =~= v@);
                }
                BlockStore::Heap(c)
            },
        }
    }
}

/// The trimmed length never exceeds the length, and dropping a trailing zero
/// word preserves it.
pub proof fn lemma_trimmed_le(blocks: Seq<u32>)
    ensures
        trimmed_len(blocks) <= blocks.len(),
    decreases blocks.len(),
{
    if blocks.len() > 0 && blocks.last() == 0u32 {
        lemma_trimmed_le(blocks.drop_last());
    }
}

/// A word sequence that is empty or ends in a nonzero word is its own
/// trimmed form.
proof fn lemma_trimmed_exact(blocks: Seq<u32>)
    requires
        blocks.len() == 0 || blocks.last() != 0u32,
    ensures
        trimmed_len(blocks) == blocks.len(),
{
}

} // verus!


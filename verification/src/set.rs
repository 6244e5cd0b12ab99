//! The set type: a bit vector of words plus a cached cardinality. The cached
//! count always equals the exact number of set bits across all stored words;
//! every mutation updates it incrementally, and only construction from raw
//! words rescans the storage.

use vstd::prelude::*;

use crate::bits::bit_of;
use crate::bits::block_set;
use crate::bits::lemma_bit_of_agree;
use crate::bits::lemma_bit_test;
use crate::bits::lemma_block_set_card;
use crate::bits::lemma_id_split;
use crate::bits::lemma_nth_bit_zero;
use crate::bits::lemma_ones_agree;
use crate::bits::lemma_ones_update;
use crate::bits::lemma_ones_upto_agree;
use crate::bits::lemma_ones_upto_bound;
use crate::bits::lemma_ones_upto_zero;
use crate::bits::lemma_popcount_clear;
use crate::bits::lemma_popcount_set;
use crate::bits::nth_bit;
use crate::bits::ones;
use crate::bits::ones_upto;
use crate::bits::word_at;
use crate::bits::word_ones;
use crate::bits::all_ids;
use crate::bits::lemma_all_ids_len;
use crate::store::BlockStore;
use crate::stream::and_words;
use crate::stream::diff_words;
use crate::stream::or_words;
use crate::stream::word_cap;
use crate::stream::xor_words;
use crate::stream::BlockIter;
use crate::stream::BlockStream;
use crate::stream::Complement;
use crate::stream::Difference;
use crate::stream::IdIter;
use crate::stream::Intersection;
use crate::stream::IntoBlockIter;
use crate::stream::SymmetricDifference;
use crate::stream::Union;

verus! {

/// A set of `usize` elements represented by a bit vector: bit `id % 32` of
/// word `id / 32` is set exactly when `id` is a member. Storage is
/// proportional to the largest element; the element count is cached.
#[derive(Debug)]
pub struct IdSet {
    blocks: BlockStore,
    len: usize,
}

impl View for IdSet {
    type V = Set<nat>;

    /// A set is viewed as the mathematical set of its element ids.
    closed spec fn view(&self) -> Set<nat> {
        block_set(self.blocks@)
    }
}

impl IdSet {
    /// The words of the underlying representation.
    pub closed spec fn word_view(&self) -> Seq<u32> {
        self.blocks@
    }

    /// The elements of the set in ascending order.
    pub open spec fn id_seq(&self) -> Seq<nat> {
        all_ids(self.word_view())
    }

    /// The cached count equals the exact number of set bits, and the word
    /// count never outgrows the ids a `usize` can address.
    #[verifier::type_invariant]
    spec fn inv(self) -> bool {
        &&& self.len as nat == ones(self.blocks@)
        &&& self.blocks@.len() <= word_cap()
    }

    /// The view is the set of ids whose bit is set in the words.
    pub proof fn lemma_view_is_word_view(&self)
        ensures
            self@ == block_set(self.word_view()),
            self@.finite(),
            self@.len() == ones(self.word_view()),
    {
        lemma_block_set_card(self.blocks@);
    }

    /// Creates an empty `IdSet`.
    pub fn new() -> (r: Self)
        ensures
            r@ == Set::<nat>::empty(),
            r@.len() == 0,
    {
        let blocks = BlockStore::new();
        proof {
            lemma_empty_blocks(blocks@);
        }
        IdSet { blocks, len: 0 }
    }

    /// Creates an empty `IdSet` that can hold elements up to `n` before
    /// reallocating.
    pub fn with_capacity(n: usize) -> (r: Self)
        ensures
            r@ == Set::<nat>::empty(),
            r@.len() == 0,
    {
        let blocks = BlockStore::with_capacity(ceil_div(n, 32));
        proof {
            lemma_empty_blocks(blocks@);
        }
        IdSet { blocks, len: 0 }
    }

    /// Creates an `IdSet` filled with all elements from 0 to `n`, built from
    /// whole-word fills plus one masked partial word.
    pub fn new_filled(n: usize) -> (r: Self)
        ensures
            r@ == Set::new(|id: nat| id < n as nat),
            r@.len() == n as nat,
    {
        let nwords = n / 32;
        let nbits = n % 32;
        let mut v: Vec<u32> = Vec::new();
        let mut i: usize = 0;
        while i < nwords
            invariant
                i <= nwords,
                v@.len() == i,
                forall|k: int| 0 <= k < i as int ==> v@[k] == !0u32,
            decreases nwords - i,
        {
            v.push(!0u32);
            i = i + 1;
        }
        if nbits != 0 {
            proof {
                crate::bits::lemma_mask_pos(nbits as nat);
            }
            v.push((1u32 << (nbits as u32)) - 1);
        }
        let blocks = BlockStore::from_blocks(&v);
        proof {
            lemma_id_split(n as nat);
            lemma_filled_blocks(v@, n as nat);
            assert forall|k: nat| word_at(blocks@, k) == word_at(v@, k) by {}
            lemma_ones_agree(blocks@, v@);
            lemma_bit_of_agree(blocks@, v@);
            lemma_block_set_card(blocks@);
            assert(block_set(v@) =~= Set::new(|id: nat| id < n as nat));
            assert(v@.len() <= word_cap()) by {
                assert((n as nat) / 32 + 1 <= (usize::MAX as nat) / 32 + 1) by (nonlinear_arith)
                    requires
                        n as nat <= usize::MAX as nat,
                ;
            }
        }
        IdSet { blocks, len: n }
    }

    /// Imports raw words: bit `i` of word `w` denotes membership of element
    /// `w * 32 + i`. The one full scan computes the cardinality. The word
    /// count must leave every contained id representable as a `usize`.
    pub fn from_bytes(bytes: &Vec<u32>) -> (r: Self)
        requires
            bytes@.len() <= usize::MAX as nat / 32,
        ensures
            r@ == block_set(bytes@),
            r@.len() == ones(bytes@),
    {
        let blocks = BlockStore::from_blocks(bytes);
        let n = bytes.len();
        let mut len: usize = 0;
        let mut i: usize = 0;
        while i < n
            invariant
                i <= n,
                n == bytes@.len(),
                n <= usize::MAX / 32,
                len as nat == ones_upto(bytes@, i as nat),
                len <= 32 * i,
            decreases n - i,
        {
            proof {
                lemma_ones_upto_bound(bytes@, i as nat);
                crate::bits::lemma_count_bits_bound(bytes@[i as int], 32);
                assert(32 * (i + 1) <= 32 * ((usize::MAX as nat) / 32)) by (nonlinear_arith)
                    requires
                        i + 1 <= (usize::MAX as nat) / 32,
                ;
                assert(32 * ((usize::MAX as nat) / 32) <= usize::MAX as nat) by (nonlinear_arith);
                assert(word_at(bytes@, i as nat) == bytes@[i as int]);
            }
            let w = word_ones(bytes[i]);
            len = len + (w as usize);
            i = i + 1;
        }
        proof {
            assert forall|k: nat| word_at(blocks@, k) == word_at(bytes@, k) by {}
            lemma_ones_agree(blocks@, bytes@);
            lemma_bit_of_agree(blocks@, bytes@);
            lemma_block_set_card(blocks@);
            assert(bytes@.len() <= word_cap());
        }
        IdSet { blocks, len }
    }

    /// Returns the number of distinct elements in the set.
    pub fn len(&self) -> (n: usize)
        ensures
            n as nat == self@.len(),
    {
        proof {
            use_type_invariant(&*self);
            lemma_block_set_card(self.blocks@);
        }
        self.len
    }

    /// Returns true if the set is empty.
    pub fn is_empty(&self) -> (r: bool)
        ensures
            r == (self@.len() == 0),
            r == (self@ == Set::<nat>::empty()),
    {
        proof {
            use_type_invariant(&*self);
            lemma_block_set_card(self.blocks@);
            if self@.len() == 0 {
                self@.lemma_len0_is_empty();
            }
        }
        self.len == 0
    }

    /// Returns the capacity of the set: inserting elements below it will not
    /// cause reallocation. The product saturates at the largest
    /// representable size.
    pub fn capacity(&self) -> (c: usize)
        ensures
            c as nat >= 32 * self.word_view().len() || c == usize::MAX,
    {
        proof {
            use_type_invariant(&*self);
        }
        let words = self.blocks.capacity();
        match words.checked_mul(32) {
            Some(c) => c,
            None => usize::MAX,
        }
    }

    /// Resizes the set such that elements up to `cap` will not cause
    /// reallocation; the contents are unchanged.
    pub fn reserve(&mut self, cap: usize)
        ensures
            final(self)@ == old(self)@,
            final(self).word_view() == old(self).word_view(),
    {
        proof {
            use_type_invariant(&*self);
        }
        let mut tmp = IdSet::new();
        core::mem::swap(self, &mut tmp);
        let IdSet { mut blocks, len } = tmp;
        blocks.reserve(ceil_div(cap, 32));
        *self = IdSet { blocks, len };
    }

    /// Drops trailing all-zero words and demotes to inline storage when the
    /// rest fits, to minimise allocations; the set itself is unchanged.
    pub fn shrink_to_fit(&mut self)
        ensures
            final(self)@ == old(self)@,
    {
        proof {
            use_type_invariant(&*self);
        }
        let mut tmp = IdSet::new();
        core::mem::swap(self, &mut tmp);
        let IdSet { mut blocks, len } = tmp;
        let ghost before = blocks@;
        blocks.shrink_to_fit();
        proof {
            lemma_ones_agree(blocks@, before);
            lemma_bit_of_agree(blocks@, before);
            crate::store::lemma_trimmed_le(before);
            lemma_word_cap_min();
        }
        *self = IdSet { blocks, len };
    }

    /// Removes all elements from the set, resetting to unallocated inline
    /// storage.
    pub fn clear(&mut self)
        ensures
            final(self)@ == Set::<nat>::empty(),
            final(self)@.len() == 0,
    {
        *self = IdSet::new();
    }

    /// Returns a slice of the underlying words.
    pub fn as_blocks(&self) -> (r: &[u32])
        ensures
            r@ == self.word_view(),
    {
        self.blocks.as_slice()
    }

    /// Returns true if the given element is in the set.
    pub fn contains(&self, id: usize) -> (r: bool)
        ensures
            r == self@.contains(id as nat),
    {
        let word = id / 32;
        let bit = id % 32;
        if word < self.blocks.len() {
            let w = self.blocks.get(word);
            proof {
                lemma_bit_test(w, bit as nat);
            }
            (w & mask(bit)) != 0
        } else {
            false
        }
    }

    /// Inserts the given element into the set, returning true if it was not
    /// already in the set. Storage grows, zero-filling intermediate words,
    /// when the element lies beyond the current word range. The cached
    /// count is a `usize`, so the set must have room for one more element.
    pub fn insert(&mut self, id: usize) -> (r: bool)
        requires
            old(self)@.len() < usize::MAX as nat,
        ensures
            r == !old(self)@.contains(id as nat),
            final(self)@ == old(self)@.insert(id as nat),
            final(self)@.len() == old(self)@.len() + if r {
                1int
            } else {
                0int
            },
    {
        proof {
            use_type_invariant(&*self);
            lemma_block_set_card(self.blocks@);
        }
        let ghost orig = self.blocks@;
        let word = id / 32;
        let bit = id % 32;
        let m = mask(bit);
        let mut tmp = IdSet::new();
        core::mem::swap(self, &mut tmp);
        let IdSet { mut blocks, mut len } = tmp;
        let r: bool;
        if word < blocks.len() {
            let w = blocks.get(word);
            if (w & m) == 0 {
                proof {
                    lemma_bit_test(w, bit as nat);
                    lemma_popcount_set(w, bit as nat);
                    lemma_ones_update(orig, word as int, w | m);
                }
                blocks.set_word(word, w | m);
                len = len + 1;
                r = true;
                proof {
                    lemma_insert_view(orig, blocks@, id as nat);
                }
            } else {
                r = false;
                proof {
                    lemma_bit_test(w, bit as nat);
                    lemma_id_split(id as nat);
                    assert(bit_of(orig, id as nat));
                    assert(block_set(orig).insert(id as nat) =~= block_set(orig));
                }
            }
        } else {
            proof {
                lemma_nth_bit_zero(bit as nat);
                assert(!bit_of(orig, id as nat));
            }
            blocks.resize(word + 1);
            let ghost grown = blocks@;
            proof {
                assert forall|i: nat| word_at(grown, i) == word_at(orig, i) by {
                    if i >= (word + 1) as nat {
                        assert(word_at(orig, i) == 0u32);
                    }
                }
                lemma_ones_agree(grown, orig);
                lemma_bit_of_agree(grown, orig);
                lemma_popcount_set(0u32, bit as nat);
                crate::bits::lemma_count_bits_zero(32);
                crate::bits::lemma_word_zero_ops(m);
                lemma_ones_update(grown, word as int, m);
            }
            blocks.set_word(word, m);
            len = len + 1;
            r = true;
            proof {
                assert(word_at(grown, word as nat) == 0u32);
                assert(blocks@ == grown.update(word as int, 0u32 | m));
                lemma_insert_view(grown, blocks@, id as nat);
                assert(block_set(grown) == block_set(orig));
            }
        }
        proof {
            lemma_block_set_card(blocks@);
            if r {
                assert(block_set(blocks@) == block_set(orig).insert(id as nat));
            }
        }
        *self = IdSet { blocks, len };
        r
    }

    /// Removes the given element from the set, returning true if it was in
    /// the set. Elements beyond the current word range are reported absent;
    /// nothing faults.
    pub fn remove(&mut self, id: usize) -> (r: bool)
        ensures
            r == old(self)@.contains(id as nat),
            final(self)@ == old(self)@.remove(id as nat),
            final(self)@.len() == old(self)@.len() - if r {
                1int
            } else {
                0int
            },
    {
        proof {
            use_type_invariant(&*self);
            lemma_block_set_card(self.blocks@);
        }
        let ghost orig = self.blocks@;
        let word = id / 32;
        let bit = id % 32;
        let m = mask(bit);
        let mut tmp = IdSet::new();
        core::mem::swap(self, &mut tmp);
        let IdSet { mut blocks, mut len } = tmp;
        let r: bool;
        if word < blocks.len() {
            let w = blocks.get(word);
            if (w & m) != 0 {
                proof {
                    lemma_bit_test(w, bit as nat);
                    lemma_popcount_clear(w, bit as nat);
                    lemma_ones_update(orig, word as int, w & !m);
                    crate::bits::lemma_ones_at_least_word(orig, word as nat);
                }
                blocks.set_word(word, w & !m);
                len = len - 1;
                r = true;
                proof {
                    lemma_remove_view(orig, blocks@, id as nat);
                }
            } else {
                r = false;
                proof {
                    lemma_bit_test(w, bit as nat);
                    lemma_id_split(id as nat);
                    assert(!bit_of(orig, id as nat));
                    assert(block_set(orig).remove(id as nat) =~= block_set(orig));
                }
            }
        } else {
            r = false;
            proof {
                assert(!bit_of(orig, id as nat));
                assert(block_set(orig).remove(id as nat) =~= block_set(orig));
            }
        }
        proof {
            lemma_block_set_card(blocks@);
        }
        *self = IdSet { blocks, len };
        r
    }
}

impl IdSet {
    /// An iterator over all elements in increasing order, with the exact
    /// remaining count known up front.
    pub fn iter(&self) -> (r: Iter<'_>)
        ensures
            r.wf(),
            r.ids() == self.id_seq(),
            r.ids().len() == self@.len(),
    {
        proof {
            use_type_invariant(&*self);
            lemma_all_ids_len(self.blocks@);
            lemma_block_set_card(self.blocks@);
        }
        Iter { inner: IdIter::new(self.blocks.iter()), len: self.len }
    }

    /// A consuming iterator over all elements in increasing order, with the
    /// exact remaining count known up front.
    pub fn into_iter(self) -> (r: IntoIter)
        ensures
            r.wf(),
            r.ids() == self.id_seq(),
            r.ids().len() == self@.len(),
    {
        proof {
            use_type_invariant(&self);
            lemma_all_ids_len(self.blocks@);
            lemma_block_set_card(self.blocks@);
        }
        let IdSet { blocks, len } = self;
        IntoIter { inner: IdIter::new(blocks.into_iter()), len }
    }

    /// An iterator over the words of the underlying representation.
    pub fn blocks(&self) -> (r: crate::store::Iter<'_>)
        ensures
            r.words() == self.word_view(),
            self.word_view().len() <= word_cap(),
    {
        proof {
            use_type_invariant(&*self);
        }
        self.blocks.iter()
    }

    /// A consuming iterator over the words of the underlying representation.
    pub fn into_blocks(self) -> (r: crate::store::IntoIter)
        ensures
            r.words() == self.word_view(),
            self.word_view().len() <= word_cap(),
    {
        proof {
            use_type_invariant(&self);
        }
        let IdSet { blocks, len: _ } = self;
        blocks.into_iter()
    }

    /// Takes the union of the set with another: a lazy view whose words are
    /// the wordwise OR.
    pub fn union<'a, I: IntoBlockIter>(&'a self, other: I) -> (r: BlockIter<
        Union<crate::store::Iter<'a>, I::Blocks>,
    >)
        ensures
            r@ == or_words(self.word_view(), other.stream_view()),
    {
        self.blocks().into_block_iter().union(other)
    }

    /// Takes the intersection of the set with another: a lazy view whose
    /// words are the wordwise AND.
    pub fn intersection<'a, I: IntoBlockIter>(&'a self, other: I) -> (r: BlockIter<
        Intersection<crate::store::Iter<'a>, I::Blocks>,
    >)
        ensures
            r@ == and_words(self.word_view(), other.stream_view()),
    {
        self.blocks().into_block_iter().intersection(other)
    }

    /// Takes the difference of the set with another: a lazy view whose words
    /// are the wordwise AND-NOT.
    pub fn difference<'a, I: IntoBlockIter>(&'a self, other: I) -> (r: BlockIter<
        Difference<crate::store::Iter<'a>, I::Blocks>,
    >)
        ensures
            r@ == diff_words(self.word_view(), other.stream_view()),
    {
        self.blocks().into_block_iter().difference(other)
    }

    /// Takes the symmetric difference of the set with another: a lazy view
    /// whose words are the wordwise XOR.
    pub fn symmetric_difference<'a, I: IntoBlockIter>(&'a self, other: I) -> (r: BlockIter<
        SymmetricDifference<crate::store::Iter<'a>, I::Blocks>,
    >)
        ensures
            r@ == xor_words(self.word_view(), other.stream_view()),
    {
        self.blocks().into_block_iter().symmetric_difference(other)
    }

    /// Takes the complement of the set: an unbounded view that never ends on
    /// its own, so the caller must bound how many words it reads, for
    /// instance by intersecting with a filled set.
    pub fn complement(&self) -> (r: Complement<crate::store::Iter<'_>>)
        ensures
            r.source() == self.word_view(),
    {
        self.blocks().into_block_iter().complement()
    }

    /// Consumes the set and takes the union with another.
    pub fn into_union<I: IntoBlockIter>(self, other: I) -> (r: BlockIter<
        Union<crate::store::IntoIter, I::Blocks>,
    >)
        ensures
            r@ == or_words(self.word_view(), other.stream_view()),
    {
        self.into_blocks().into_block_iter().union(other)
    }

    /// Consumes the set and takes the intersection with another.
    pub fn into_intersection<I: IntoBlockIter>(self, other: I) -> (r: BlockIter<
        Intersection<crate::store::IntoIter, I::Blocks>,
    >)
        ensures
            r@ == and_words(self.word_view(), other.stream_view()),
    {
        self.into_blocks().into_block_iter().intersection(other)
    }

    /// Consumes the set and takes the difference with another.
    pub fn into_difference<I: IntoBlockIter>(self, other: I) -> (r: BlockIter<
        Difference<crate::store::IntoIter, I::Blocks>,
    >)
        ensures
            r@ == diff_words(self.word_view(), other.stream_view()),
    {
        self.into_blocks().into_block_iter().difference(other)
    }

    /// Consumes the set and takes the symmetric difference with another.
    pub fn into_symmetric_difference<I: IntoBlockIter>(self, other: I) -> (r: BlockIter<
        SymmetricDifference<crate::store::IntoIter, I::Blocks>,
    >)
        ensures
            r@ == xor_words(self.word_view(), other.stream_view()),
    {
        self.into_blocks().into_block_iter().symmetric_difference(other)
    }
}

impl<'a> IntoBlockIter for &'a IdSet {
    type Blocks = crate::store::Iter<'a>;

    open spec fn stream_view(&self) -> Seq<u32> {
        self.word_view()
    }

    fn into_block_iter(self) -> (r: BlockIter<crate::store::Iter<'a>>) {
        self.blocks().into_block_iter()
    }
}

impl IntoBlockIter for IdSet {
    type Blocks = crate::store::IntoIter;

    open spec fn stream_view(&self) -> Seq<u32> {
        self.word_view()
    }

    fn into_block_iter(self) -> (r: BlockIter<crate::store::IntoIter>) {
        self.into_blocks().into_block_iter()
    }
}

impl IdSet {
    /// Takes the union of the set in place with another set, growing storage
    /// as needed; the count is updated by the per-word change only. The
    /// cached count is a `usize`, so the union must stay representable.
    pub fn inplace_union(&mut self, other: &IdSet)
        requires
            old(self)@.union(other@).len() <= usize::MAX as nat,
        ensures
            final(self)@ == old(self)@.union(other@),
    {
        proof {
            use_type_invariant(&*self);
            use_type_invariant(&*other);
            lemma_block_set_card(self.blocks@);
            lemma_block_set_card(other.blocks@);
            vstd::set_lib::lemma_set_union_finite_iff(self@, other@);
        }
        let ghost a = self.blocks@;
        let ghost b = other.blocks@;
        let ghost goal = block_set(a).union(block_set(b));
        let mut tmp = IdSet::new();
        core::mem::swap(self, &mut tmp);
        let IdSet { mut blocks, mut len } = tmp;
        let on = other.blocks.len();
        if blocks.len() < on {
            blocks.resize(on);
            proof {
                assert forall|k: nat| word_at(blocks@, k) == word_at(a, k) by {
                    if k >= on as nat {
                        assert(word_at(a, k) == 0u32);
                    }
                }
                lemma_ones_agree(blocks@, a);
            }
        }
        let n = blocks.len();
        let mut i: usize = 0;
        while i < on
            invariant
                i <= on,
                on == b.len(),
                b == other.blocks@,
                n == blocks@.len(),
                on <= n,
                n <= word_cap(),
                len as nat == ones(blocks@),
                goal == block_set(a).union(block_set(b)),
                goal.finite(),
                goal.len() <= usize::MAX as nat,
                forall|k: int| 0 <= k < i as int ==> blocks@[k] == (word_at(a, k as nat) | word_at(
                    b,
                    k as nat,
                )),
                forall|k: int| i as int <= k < n as int ==> blocks@[k] == word_at(a, k as nat),
            decreases on - i,
        {
            let w = blocks.get(i);
            let r = other.blocks.get(i);
            let delta = word_ones(r & !w);
            let ghost updated = blocks@.update(i as int, w | r);
            proof {
                crate::bits::lemma_or_absorb(w, r);
                assert forall|j: nat| !(nth_bit(w, j) && nth_bit(r & !w, j)) by {
                    crate::bits::lemma_bit_andnot(r, w, j);
                }
                crate::bits::lemma_count_or_disjoint(w, r & !w, 32);
                lemma_ones_update(blocks@, i as int, w | r);
                lemma_block_set_card(updated);
                assert forall|q: nat| #[trigger] bit_of(updated, q) implies goal.contains(q) by {
                    lemma_id_split(q);
                    crate::bits::lemma_bit_or(w, r, q % 32);
                    lemma_nth_bit_zero(q % 32);
                    if q / 32 == i as nat {
                        assert(word_at(updated, q / 32) == (w | r));
                        if nth_bit(w, q % 32) {
                            assert(bit_of(a, q));
                        } else {
                            assert(nth_bit(r, q % 32));
                            assert(bit_of(b, q));
                        }
                    } else {
                        assert(word_at(updated, q / 32) == word_at(blocks@, q / 32));
                        assert(bit_of(blocks@, q));
                        if q / 32 < i as nat {
                            assert(word_at(blocks@, q / 32) == (word_at(a, q / 32) | word_at(
                                b,
                                q / 32,
                            )));
                            crate::bits::lemma_bit_or(
                                word_at(a, q / 32),
                                word_at(b, q / 32),
                                q % 32,
                            );
                            if nth_bit(word_at(a, q / 32), q % 32) {
                                assert(bit_of(a, q));
                            } else {
                                assert(bit_of(b, q));
                            }
                        } else {
                            assert(word_at(blocks@, q / 32) == word_at(a, q / 32));
                            assert(bit_of(a, q));
                        }
                    }
                }
                vstd::set_lib::lemma_len_subset(block_set(updated), goal);
            }
            blocks.set_word(i, w | r);
            len = len + (delta as usize);
            i = i + 1;
        }
        proof {
            assert forall|q: nat| #[trigger] bit_of(blocks@, q) == (bit_of(a, q) || bit_of(
                b,
                q,
            )) by {
                lemma_id_split(q);
                lemma_nth_bit_zero(q % 32);
                crate::bits::lemma_bit_or(word_at(a, q / 32), word_at(b, q / 32), q % 32);
                if q / 32 < on as nat {
                    assert(word_at(blocks@, q / 32) == (word_at(a, q / 32) | word_at(b, q / 32)));
                } else {
                    assert(word_at(b, q / 32) == 0u32);
                    if q / 32 < n as nat {
                        assert(word_at(blocks@, q / 32) == word_at(a, q / 32));
                    } else {
                        assert(word_at(blocks@, q / 32) == 0u32);
                        assert(word_at(a, q / 32) == 0u32);
                    }
                }
            }
            assert(block_set(blocks@) =~= goal);
            lemma_block_set_card(blocks@);
        }
        *self = IdSet { blocks, len };
    }
}

impl IdSet {
    /// Takes the intersection of the set in place with another set,
    /// truncating storage to the shorter word range; the count is updated by
    /// the per-word change only.
    pub fn inplace_intersection(&mut self, other: &IdSet)
        ensures
            final(self)@ == old(self)@.intersect(other@),
    {
        proof {
            use_type_invariant(&*self);
            use_type_invariant(&*other);
        }
        let ghost a = self.blocks@;
        let ghost b = other.blocks@;
        let mut tmp = IdSet::new();
        core::mem::swap(self, &mut tmp);
        let IdSet { mut blocks, mut len } = tmp;
        let on = other.blocks.len();
        if on < blocks.len() {
            proof {
                crate::bits::lemma_ones_split(a, on as nat);
            }
            let tail = blocks.drain(on);
            let tn = tail.len();
            let mut j: usize = 0;
            while j < tn
                invariant
                    j <= tn,
                    tn == tail@.len(),
                    tail@ == a.skip(on as int),
                    on as nat <= a.len(),
                    ones(a) == ones_upto(a, on as nat) + ones(tail@),
                    len as nat == ones(a) - ones_upto(tail@, j as nat),
                decreases tn - j,
            {
                proof {
                    crate::bits::lemma_ones_upto_mono(tail@, (j + 1) as nat, tail@.len());
                    assert(word_at(tail@, j as nat) == tail@[j as int]);
                }
                let d = word_ones(tail[j]);
                len = len - (d as usize);
                j = j + 1;
            }
            proof {
                assert(ones(blocks@) == ones_upto(a, on as nat)) by {
                    assert forall|k: nat| word_at(blocks@, k) == word_at(a.take(on as int), k) by {}
                    lemma_ones_agree(blocks@, a.take(on as int));
                    lemma_ones_upto_agree(a.take(on as int), a, on as nat);
                }
            }
        }
        let n = blocks.len();
        let ghost a2 = blocks@;
        proof {
            assert forall|k: nat|
                word_at(a2, k) == (if k < on as nat {
                    word_at(a, k)
                } else {
                    0u32
                }) by {
                if k >= on as nat && on as nat >= a.len() {
                    assert(word_at(a, k) == 0u32);
                }
            }
        }
        let m = if n <= on {
            n
        } else {
            on
        };
        let mut i: usize = 0;
        while i < m
            invariant
                i <= m,
                m <= n,
                m <= on,
                on == b.len(),
                b == other.blocks@,
                n == blocks@.len(),
                n <= word_cap(),
                len as nat == ones(blocks@),
                m as int == if n <= on {
                    n as int
                } else {
                    on as int
                },
                forall|k: nat|
                    word_at(a2, k) == (if k < on as nat {
                        word_at(a, k)
                    } else {
                        0u32
                    }),
                forall|k: int| 0 <= k < i as int ==> blocks@[k] == (word_at(a2, k as nat) & word_at(
                    b,
                    k as nat,
                )),
                forall|k: int| i as int <= k < n as int ==> blocks@[k] == word_at(a2, k as nat),
            decreases m - i,
        {
            let w = blocks.get(i);
            let r = other.blocks.get(i);
            let delta = word_ones(w & !r);
            proof {
                crate::bits::lemma_popcount_split(w, r);
                lemma_ones_update(blocks@, i as int, w & r);
                crate::bits::lemma_ones_at_least_word(blocks@, i as nat);
            }
            blocks.set_word(i, w & r);
            len = len - (delta as usize);
            i = i + 1;
        }
        proof {
            assert forall|q: nat| #[trigger] bit_of(blocks@, q) == (bit_of(a, q) && bit_of(
                b,
                q,
            )) by {
                lemma_id_split(q);
                lemma_nth_bit_zero(q % 32);
                crate::bits::lemma_bit_and(word_at(a2, q / 32), word_at(b, q / 32), q % 32);
                if q / 32 < m as nat {
                    assert(word_at(blocks@, q / 32) == (word_at(a2, q / 32) & word_at(
                        b,
                        q / 32,
                    )));
                } else if q / 32 < n as nat {
                    assert(word_at(blocks@, q / 32) == word_at(a2, q / 32));
                    assert(word_at(a2, q / 32) == 0u32 || word_at(b, q / 32) == 0u32);
                } else {
                    assert(word_at(blocks@, q / 32) == 0u32);
                    assert(word_at(a2, q / 32) == 0u32 || word_at(b, q / 32) == 0u32);
                }
            }
            assert(block_set(blocks@) =~= block_set(a).intersect(block_set(b)));
        }
        *self = IdSet { blocks, len };
    }

    /// Takes the difference of the set in place with another set; storage
    /// keeps its word range, and the count is updated by the per-word change
    /// only.
    pub fn inplace_difference(&mut self, other: &IdSet)
        ensures
            final(self)@ == old(self)@.difference(other@),
    {
        proof {
            use_type_invariant(&*self);
            use_type_invariant(&*other);
        }
        let ghost a = self.blocks@;
        let ghost b = other.blocks@;
        let mut tmp = IdSet::new();
        core::mem::swap(self, &mut tmp);
        let IdSet { mut blocks, mut len } = tmp;
        let n = blocks.len();
        let on = other.blocks.len();
        let m = if n <= on {
            n
        } else {
            on
        };
        let mut i: usize = 0;
        while i < m
            invariant
                i <= m,
                m <= n,
                m <= on,
                on == b.len(),
                b == other.blocks@,
                n == blocks@.len(),
                n <= word_cap(),
                len as nat == ones(blocks@),
                m as int == if n <= on {
                    n as int
                } else {
                    on as int
                },
                forall|k: int| 0 <= k < i as int ==> blocks@[k] == (word_at(a, k as nat)
                    & !word_at(b, k as nat)),
                forall|k: int| i as int <= k < n as int ==> blocks@[k] == word_at(a, k as nat),
            decreases m - i,
        {
            let w = blocks.get(i);
            let r = other.blocks.get(i);
            let delta = word_ones(w & r);
            proof {
                crate::bits::lemma_popcount_split(w, r);
                lemma_ones_update(blocks@, i as int, w & !r);
                crate::bits::lemma_ones_at_least_word(blocks@, i as nat);
            }
            blocks.set_word(i, w & !r);
            len = len - (delta as usize);
            i = i + 1;
        }
        proof {
            assert forall|q: nat| #[trigger] bit_of(blocks@, q) == (bit_of(a, q) && !bit_of(
                b,
                q,
            )) by {
                lemma_id_split(q);
                lemma_nth_bit_zero(q % 32);
                crate::bits::lemma_bit_andnot(word_at(a, q / 32), word_at(b, q / 32), q % 32);
                if q / 32 < m as nat {
                    assert(word_at(blocks@, q / 32) == (word_at(a, q / 32) & !word_at(
                        b,
                        q / 32,
                    )));
                } else if q / 32 < n as nat {
                    assert(word_at(blocks@, q / 32) == word_at(a, q / 32));
                    assert(word_at(b, q / 32) == 0u32);
                } else {
                    assert(word_at(blocks@, q / 32) == 0u32);
                    assert(word_at(a, q / 32) == 0u32);
                }
            }
            assert(block_set(blocks@) =~= block_set(a).difference(block_set(b)));
        }
        *self = IdSet { blocks, len };
    }

    /// Takes the symmetric difference of the set in place with another set,
    /// growing storage as needed; the count is updated by the per-word change
    /// only. The cached count is a `usize`, so the union of the two sets must
    /// stay representable.
    pub fn inplace_symmetric_difference(&mut self, other: &IdSet)
        requires
            old(self)@.union(other@).len() <= usize::MAX as nat,
        ensures
            final(self)@ == old(self)@.difference(other@).union(other@.difference(old(self)@)),
    {
        proof {
            use_type_invariant(&*self);
            use_type_invariant(&*other);
            lemma_block_set_card(self.blocks@);
            lemma_block_set_card(other.blocks@);
            vstd::set_lib::lemma_set_union_finite_iff(self@, other@);
        }
        let ghost a = self.blocks@;
        let ghost b = other.blocks@;
        let ghost bound = block_set(a).union(block_set(b));
        let mut tmp = IdSet::new();
        core::mem::swap(self, &mut tmp);
        let IdSet { mut blocks, mut len } = tmp;
        let on = other.blocks.len();
        if blocks.len() < on {
            blocks.resize(on);
            proof {
                assert forall|k: nat| word_at(blocks@, k) == word_at(a, k) by {
                    if k >= on as nat {
                        assert(word_at(a, k) == 0u32);
                    }
                }
                lemma_ones_agree(blocks@, a);
            }
        }
        let n = blocks.len();
        let mut i: usize = 0;
        while i < on
            invariant
                i <= on,
                on == b.len(),
                b == other.blocks@,
                n == blocks@.len(),
                on <= n,
                n <= word_cap(),
                len as nat == ones(blocks@),
                bound == block_set(a).union(block_set(b)),
                bound.finite(),
                bound.len() <= usize::MAX as nat,
                forall|k: int| 0 <= k < i as int ==> blocks@[k] == (word_at(a, k as nat) ^ word_at(
                    b,
                    k as nat,
                )),
                forall|k: int| i as int <= k < n as int ==> blocks@[k] == word_at(a, k as nat),
            decreases on - i,
        {
            let w = blocks.get(i);
            let r = other.blocks.get(i);
            let nw = w ^ r;
            let sub = word_ones(w);
            let add = word_ones(nw);
            let ghost updated = blocks@.update(i as int, nw);
            proof {
                lemma_ones_update(blocks@, i as int, nw);
                crate::bits::lemma_ones_at_least_word(blocks@, i as nat);
                lemma_block_set_card(updated);
                assert forall|q: nat| #[trigger] bit_of(updated, q) implies bound.contains(q) by {
                    lemma_id_split(q);
                    crate::bits::lemma_bit_xor(w, r, q % 32);
                    crate::bits::lemma_bit_or(word_at(a, q / 32), word_at(b, q / 32), q % 32);
                    lemma_nth_bit_zero(q % 32);
                    if q / 32 == i as nat {
                        assert(word_at(updated, q / 32) == nw);
                        if nth_bit(w, q % 32) {
                            assert(bit_of(a, q));
                        } else {
                            assert(nth_bit(r, q % 32));
                            assert(bit_of(b, q));
                        }
                    } else {
                        assert(word_at(updated, q / 32) == word_at(blocks@, q / 32));
                        assert(bit_of(blocks@, q));
                        if q / 32 < i as nat {
                            assert(word_at(blocks@, q / 32) == (word_at(a, q / 32) ^ word_at(
                                b,
                                q / 32,
                            )));
                            crate::bits::lemma_bit_xor(
                                word_at(a, q / 32),
                                word_at(b, q / 32),
                                q % 32,
                            );
                            if nth_bit(word_at(a, q / 32), q % 32) {
                                assert(bit_of(a, q));
                            } else {
                                assert(bit_of(b, q));
                            }
                        } else {
                            assert(word_at(blocks@, q / 32) == word_at(a, q / 32));
                            assert(bit_of(a, q));
                        }
                    }
                }
                vstd::set_lib::lemma_len_subset(block_set(updated), bound);
            }
            blocks.set_word(i, nw);
            len = len - (sub as usize) + (add as usize);
            i = i + 1;
        }
        proof {
            assert forall|q: nat| #[trigger] bit_of(blocks@, q) == (bit_of(a, q) != bit_of(
                b,
                q,
            )) by {
                lemma_id_split(q);
                lemma_nth_bit_zero(q % 32);
                crate::bits::lemma_bit_xor(word_at(a, q / 32), word_at(b, q / 32), q % 32);
                if q / 32 < on as nat {
                    assert(word_at(blocks@, q / 32) == (word_at(a, q / 32) ^ word_at(b, q / 32)));
                } else {
                    assert(word_at(b, q / 32) == 0u32);
                    if q / 32 < n as nat {
                        assert(word_at(blocks@, q / 32) == word_at(a, q / 32));
                    } else {
                        assert(word_at(blocks@, q / 32) == 0u32);
                        assert(word_at(a, q / 32) == 0u32);
                    }
                }
            }
            assert(block_set(blocks@) =~= block_set(a).difference(block_set(b)).union(
                block_set(b).difference(block_set(a)),
            ));
        }
        *self = IdSet { blocks, len };
    }
}

impl IdSet {
    /// Removes all elements that do not satisfy the predicate. The predicate
    /// is evaluated once per present element, in ascending order; all-zero
    /// words are skipped without calling it.
    pub fn retain<F: Fn(usize) -> bool>(&mut self, pred: F)
        requires
            forall|id: usize|
                old(self)@.contains(id as nat) ==> #[trigger] pred.requires((id,)),
        ensures
            forall|q: nat| #[trigger] final(self)@.contains(q) ==> old(self)@.contains(q),
            forall|q: nat|
                #[trigger] final(self)@.contains(q) ==> pred.ensures(((q as usize),), true),
            forall|q: nat|
                #[trigger] old(self)@.contains(q) && !final(self)@.contains(q) ==> pred.ensures(
                    ((q as usize),),
                    false,
                ),
    {
        proof {
            use_type_invariant(&*self);
        }
        let ghost a = self.blocks@;
        let mut tmp = IdSet::new();
        core::mem::swap(self, &mut tmp);
        let IdSet { mut blocks, mut len } = tmp;
        let n = blocks.len();
        let mut i: usize = 0;
        while i < n
            invariant
                i <= n,
                n == blocks@.len(),
                n == a.len(),
                n <= word_cap(),
                len as nat == ones(blocks@),
                forall|id: usize|
                    block_set(a).contains(id as nat) ==> #[trigger] pred.requires((id,)),
                forall|q: nat|
                    q >= 32 * (i as nat) ==> #[trigger] bit_of(blocks@, q) == bit_of(a, q),
                forall|q: nat|
                    q < 32 * (i as nat) && #[trigger] bit_of(blocks@, q) ==> bit_of(a, q)
                        && pred.ensures(((q as usize),), true),
                forall|q: nat|
                    q < 32 * (i as nat) && #[trigger] bit_of(a, q) && !bit_of(blocks@, q)
                        ==> pred.ensures(((q as usize),), false),
            decreases n - i,
        {
            let w = blocks.get(i);
            proof {
                assert(32 * (i as nat) + 32 <= 32 * (word_cap())) by (nonlinear_arith)
                    requires
                        (i as nat) + 1 <= word_cap(),
                ;
                assert(32 * word_cap() <= usize::MAX as nat + 32) by (nonlinear_arith)
                    requires
                        word_cap() == usize::MAX as nat / 32 + 1,
                ;
            }
            if w != 0 {
                let mut b: usize = 0;
                while b < 32
                    invariant
                        b <= 32,
                        i < n,
                        n == blocks@.len(),
                        n == a.len(),
                        32 * (i as nat) + 32 <= usize::MAX as nat + 32,
                        len as nat == ones(blocks@),
                        forall|id: usize|
                            block_set(a).contains(id as nat) ==> #[trigger] pred.requires((id,)),
                        forall|q: nat|
                            q >= 32 * (i as nat) + b as nat ==> #[trigger] bit_of(blocks@, q)
                                == bit_of(a, q),
                        forall|q: nat|
                            q < 32 * (i as nat) + b as nat && #[trigger] bit_of(blocks@, q)
                                ==> bit_of(a, q) && pred.ensures(((q as usize),), true),
                        forall|q: nat|
                            q < 32 * (i as nat) + b as nat && #[trigger] bit_of(a, q) && !bit_of(
                                blocks@,
                                q,
                            ) ==> pred.ensures(((q as usize),), false),
                    decreases 32 - b,
                {
                    let cur = blocks.get(i);
                    let m = mask(b);
                    let ghost q0 = 32 * (i as nat) + b as nat;
                    proof {
                        crate::bits::lemma_div_mod_32(i as nat, b as nat);
                        lemma_bit_test(cur, b as nat);
                        assert(bit_of(blocks@, q0) == nth_bit(cur, b as nat));
                    }
                    if (cur & m) != 0 {
                        let id = i * 32 + b;
                        proof {
                            assert(id as nat == q0);
                            assert(bit_of(a, q0));
                            assert(block_set(a).contains(id as nat));
                        }
                        if !pred(id) {
                            proof {
                                lemma_popcount_clear(cur, b as nat);
                                lemma_ones_update(blocks@, i as int, cur & !m);
                                crate::bits::lemma_ones_at_least_word(blocks@, i as nat);
                                lemma_remove_view(blocks@, blocks@.update(i as int, cur & !m), q0);
                            }
                            let ghost before = blocks@;
                            blocks.set_word(i, cur & !m);
                            len = len - 1;
                            proof {
                                assert forall|q: nat| #[trigger] bit_of(blocks@, q) == (bit_of(
                                    before,
                                    q,
                                ) && q != q0) by {
                                    assert(block_set(blocks@) == block_set(before).remove(q0));
                                    assert(block_set(blocks@).contains(q) == (block_set(
                                        before,
                                    ).contains(q) && q != q0));
                                }
                            }
                        }
                    }
                    b = b + 1;
                }
            } else {
                proof {
                    assert forall|q: nat|
                        q < 32 * ((i + 1) as nat) && q >= 32 * (i as nat) implies !bit_of(
                        blocks@,
                        q,
                    ) && !bit_of(a, q) by {
                        lemma_id_split(q);
                        assert(q / 32 == i as nat) by (nonlinear_arith)
                            requires
                                32 * (i as nat) <= q < 32 * (i as nat) + 32,
                        ;
                        lemma_nth_bit_zero(q % 32);
                        assert(word_at(blocks@, q / 32) == 0u32);
                        assert(!bit_of(blocks@, q));
                        assert(bit_of(blocks@, q) == bit_of(a, q));
                    }
                }
            }
            i = i + 1;
        }
        proof {
            assert forall|q: nat| q >= 32 * (n as nat) implies !bit_of(blocks@, q) && !bit_of(
                a,
                q,
            ) by {
                crate::bits::lemma_bit_of_bound(blocks@, q);
                crate::bits::lemma_bit_of_bound(a, q);
            }
        }
        *self = IdSet { blocks, len };
    }
}

/// The set of ids named by a sequence, duplicates and order forgotten.
pub open spec fn seq_id_set(ids: Seq<usize>) -> Set<nat> {
    Set::new(|q: nat| exists|k: int| 0 <= k < ids.len() && (#[trigger] ids[k]) as nat == q)
}

impl IdSet {
    /// Returns true if self is a subset of other.
    pub fn is_subset(&self, other: &IdSet) -> (r: bool)
        ensures
            r == self@.subset_of(other@),
    {
        proof {
            use_type_invariant(&*self);
            use_type_invariant(&*other);
        }
        let ghost a = self.blocks@;
        let ghost b = other.blocks@;
        let n = self.blocks.len();
        let mut i: usize = 0;
        while i < n
            invariant
                i <= n,
                n == a.len(),
                a == self.blocks@,
                b == other.blocks@,
                forall|q: nat|
                    q / 32 < i as nat && #[trigger] bit_of(a, q) ==> bit_of(b, q),
            decreases n - i,
        {
            let w = self.blocks.get(i);
            let r = other.blocks.get_or_zero(i);
            if (w & !r) != 0 {
                proof {
                    crate::bits::lemma_exists_bit(w & !r);
                    let j = choose|j: nat| nth_bit(w & !r, j);
                    crate::bits::lemma_bit_andnot(w, r, j);
                    crate::bits::lemma_div_mod_32(i as nat, j);
                    let q = 32 * (i as nat) + j;
                    assert(bit_of(a, q));
                    assert(!bit_of(b, q));
                    assert(self@.contains(q) && !other@.contains(q));
                }
                return false;
            }
            proof {
                crate::bits::lemma_word_zero_ops(w);
                assert forall|q: nat|
                    q / 32 < (i + 1) as nat && #[trigger] bit_of(a, q) implies bit_of(b, q) by {
                    if q / 32 == i as nat {
                        lemma_nth_bit_zero(q % 32);
                        crate::bits::lemma_bit_andnot(w, r, q % 32);
                        assert(nth_bit(r, q % 32));
                    }
                }
            }
            i = i + 1;
        }
        proof {
            assert forall|q: nat| #[trigger] self@.contains(q) implies other@.contains(q) by {
                assert(bit_of(a, q));
            }
        }
        true
    }

    /// Returns true if self is a superset of other.
    pub fn is_superset(&self, other: &IdSet) -> (r: bool)
        ensures
            r == other@.subset_of(self@),
    {
        other.is_subset(self)
    }

    /// Returns true if the sets share no element, confirmed by an exact scan
    /// of the overlapping words.
    pub fn is_disjoint(&self, other: &IdSet) -> (r: bool)
        ensures
            r == self@.disjoint(other@),
    {
        proof {
            use_type_invariant(&*self);
            use_type_invariant(&*other);
        }
        let ghost a = self.blocks@;
        let ghost b = other.blocks@;
        let an = self.blocks.len();
        let bn = other.blocks.len();
        let n = if an <= bn {
            an
        } else {
            bn
        };
        let mut i: usize = 0;
        while i < n
            invariant
                i <= n,
                n <= a.len(),
                n <= b.len(),
                a == self.blocks@,
                b == other.blocks@,
                n as int == if a.len() <= b.len() {
                    a.len() as int
                } else {
                    b.len() as int
                },
                forall|q: nat|
                    q / 32 < i as nat ==> !(#[trigger] bit_of(a, q) && bit_of(b, q)),
            decreases n - i,
        {
            let w = self.blocks.get(i);
            let r = other.blocks.get(i);
            if (w & r) != 0 {
                proof {
                    crate::bits::lemma_exists_bit(w & r);
                    let j = choose|j: nat| nth_bit(w & r, j);
                    crate::bits::lemma_bit_and(w, r, j);
                    crate::bits::lemma_div_mod_32(i as nat, j);
                    let q = 32 * (i as nat) + j;
                    assert(bit_of(a, q) && bit_of(b, q));
                    assert(self@.contains(q) && other@.contains(q));
                }
                return false;
            }
            proof {
                assert forall|q: nat|
                    q / 32 < (i + 1) as nat implies !(#[trigger] bit_of(a, q) && bit_of(b, q)) by {
                    if q / 32 == i as nat {
                        lemma_nth_bit_zero(q % 32);
                        crate::bits::lemma_bit_and(w, r, q % 32);
                    }
                }
            }
            i = i + 1;
        }
        proof {
            assert forall|q: nat| !(#[trigger] self@.contains(q) && other@.contains(q)) by {
                if bit_of(a, q) && bit_of(b, q) {
                    assert(q / 32 < n as nat);
                }
            }
        }
        true
    }

    /// Adds every id of the given elements to the set. The cached count is a
    /// `usize`, so the combined size must stay representable.
    pub fn extend(&mut self, ids: &Vec<usize>)
        requires
            old(self)@.len() + ids@.len() <= usize::MAX as nat,
        ensures
            final(self)@ == old(self)@.union(seq_id_set(ids@)),
    {
        let ghost orig = self@;
        let n = ids.len();
        let mut i: usize = 0;
        proof {
            assert(self@ =~= orig.union(seq_id_set(ids@.take(0))));
        }
        while i < n
            invariant
                i <= n,
                n == ids@.len(),
                orig.len() + n <= usize::MAX as nat,
                self@ == orig.union(seq_id_set(ids@.take(i as int))),
                self@.len() <= orig.len() + i,
            decreases n - i,
        {
            let ghost before = self@;
            let id = ids[i];
            self.insert(id);
            proof {
                assert forall|q: nat|
                    before.insert(id as nat).contains(q) == orig.union(
                        seq_id_set(ids@.take(i + 1)),
                    ).contains(q) by {
                    if seq_id_set(ids@.take(i as int)).contains(q) {
                        let k = choose|k: int|
                            0 <= k < ids@.take(i as int).len() && (#[trigger] ids@.take(
                                i as int,
                            )[k]) as nat == q;
                        assert(ids@.take(i + 1)[k] as nat == q);
                    }
                    if seq_id_set(ids@.take(i + 1)).contains(q) {
                        let k = choose|k: int|
                            0 <= k < ids@.take(i + 1).len() && (#[trigger] ids@.take(i + 1)[k])
                                as nat == q;
                        if k < i {
                            assert(ids@.take(i as int)[k] as nat == q);
                        }
                    }
                    if q == id as nat {
                        assert(ids@.take(i + 1)[i as int] as nat == q);
                    }
                }
                assert(before.insert(id as nat) =~= orig.union(seq_id_set(ids@.take(i + 1))));
            }
            i = i + 1;
        }
        proof {
            assert(ids@.take(n as int) =~= ids@);
        }
    }

    /// Builds a set holding exactly the ids of the given elements.
    pub fn from_iter(ids: &Vec<usize>) -> (r: Self)
        ensures
            r@ == seq_id_set(ids@),
    {
        let n = ids.len();
        let mut s = IdSet::new();
        s.extend(ids);
        proof {
            assert(s@ =~= seq_id_set(ids@));
        }
        s
    }
}

impl Clone for IdSet {
    /// A deep, independent copy: mutating either set never affects the
    /// other, and the copy holds the same elements.
    fn clone(&self) -> (r: Self)
        ensures
            r@ == self@,
            r.word_view() == self.word_view(),
    {
        proof {
            use_type_invariant(&*self);
        }
        IdSet { blocks: self.blocks.clone(), len: self.len }
    }
}

impl Default for IdSet {
    /// The empty set.
    fn default() -> (r: Self)
        ensures
            r@ == Set::<nat>::empty(),
    {
        IdSet::new()
    }
}

impl PartialEq for IdSet {
    /// Semantic equality: same cardinality and the same words once trailing
    /// zero words on the longer side are ignored.
    fn eq(&self, other: &Self) -> (r: bool) {
        proof {
            use_type_invariant(&*self);
            use_type_invariant(&*other);
            lemma_block_set_card(self.blocks@);
            lemma_block_set_card(other.blocks@);
        }
        let ghost a = self.blocks@;
        let ghost b = other.blocks@;
        if self.len != other.len {
            proof {
                assert(self@ != other@);
            }
            return false;
        }
        let an = self.blocks.len();
        let bn = other.blocks.len();
        let n = if an >= bn {
            an
        } else {
            bn
        };
        let mut i: usize = 0;
        while i < n
            invariant
                i <= n,
                a == self.blocks@,
                b == other.blocks@,
                n >= a.len(),
                n >= b.len(),
                forall|k: nat| k < i as nat ==> #[trigger] word_at(a, k) == word_at(b, k),
            decreases n - i,
        {
            let w = self.blocks.get_or_zero(i);
            let r = other.blocks.get_or_zero(i);
            if w != r {
                proof {
                    if forall|j: nat| nth_bit(w, j) == nth_bit(r, j) {
                        crate::bits::lemma_same_bits_equal(w, r);
                    }
                    let j = choose|j: nat| nth_bit(w, j) != nth_bit(r, j);
                    crate::bits::lemma_div_mod_32(i as nat, j);
                    let q = 32 * (i as nat) + j;
                    assert(bit_of(a, q) != bit_of(b, q)) by {
                        lemma_nth_bit_zero(j);
                    }
                    assert(self@.contains(q) != other@.contains(q));
                }
                return false;
            }
            i = i + 1;
        }
        proof {
            assert forall|k: nat| #[trigger] word_at(a, k) == word_at(b, k) by {
                if k >= n as nat {
                }
            }
            lemma_bit_of_agree(a, b);
            assert(self@ =~= other@);
        }
        true
    }
}

impl vstd::std_specs::cmp::PartialEqSpecImpl for IdSet {
    open spec fn obeys_eq_spec() -> bool {
        true
    }

    open spec fn eq_spec(&self, other: &Self) -> bool {
        self@ == other@
    }
}

impl Eq for IdSet {

}

/// An iterator over all elements of a set in increasing order.
pub struct Iter<'a> {
    inner: IdIter<crate::store::Iter<'a>>,
    len: usize,
}

impl<'a> Iter<'a> {
    /// The ids still to come, in ascending order.
    pub closed spec fn ids(&self) -> Seq<nat> {
        self.inner.ids()
    }

    /// The cached remaining count matches the ids still to come.
    pub closed spec fn wf(&self) -> bool {
        self.inner.wf() && self.len as nat == self.inner.ids().len()
    }

    /// The next element in ascending order.
    pub fn next(&mut self) -> (r: Option<usize>)
        requires
            old(self).wf(),
        ensures
            final(self).wf(),
            old(self).ids().len() > 0 ==> r == Some(old(self).ids()[0] as usize)
                && final(self).ids() == old(self).ids().drop_first(),
            old(self).ids().len() == 0 ==> r is None && final(self).ids() == old(self).ids(),
    {
        let r = self.inner.next();
        if r.is_some() {
            self.len = self.len - 1;
        }
        r
    }

    /// The exact number of elements left.
    pub fn len(&self) -> (n: usize)
        requires
            self.wf(),
        ensures
            n == self.ids().len(),
    {
        self.len
    }
}

/// A consuming iterator over all elements of a set in increasing order.
pub struct IntoIter {
    inner: IdIter<crate::store::IntoIter>,
    len: usize,
}

impl IntoIter {
    /// The ids still to come, in ascending order.
    pub closed spec fn ids(&self) -> Seq<nat> {
        self.inner.ids()
    }

    /// The cached remaining count matches the ids still to come.
    pub closed spec fn wf(&self) -> bool {
        self.inner.wf() && self.len as nat == self.inner.ids().len()
    }

    /// The next element in ascending order.
    pub fn next(&mut self) -> (r: Option<usize>)
        requires
            old(self).wf(),
        ensures
            final(self).wf(),
            old(self).ids().len() > 0 ==> r == Some(old(self).ids()[0] as usize)
                && final(self).ids() == old(self).ids().drop_first(),
            old(self).ids().len() == 0 ==> r is None && final(self).ids() == old(self).ids(),
    {
        let r = self.inner.next();
        if r.is_some() {
            self.len = self.len - 1;
        }
        r
    }

    /// The exact number of elements left.
    pub fn len(&self) -> (n: usize)
        requires
            self.wf(),
        ensures
            n == self.ids().len(),
    {
        self.len
    }
}

impl<B: BlockStream> BlockIter<B> {
    /// Materializes the words into a new set.
    pub fn into_set(self) -> (r: IdSet)
        requires
            self@.len() <= usize::MAX as nat / 32,
        ensures
            r@ == block_set(self@),
            r@.len() == ones(self@),
    {
        let ghost target = self@;
        let mut b = self.into_inner();
        let mut words: Vec<u32> = Vec::new();
        proof {
            assert(target.skip(0) =~= target);
        }
        loop
            invariant
                words@.len() <= target.len(),
                b.words() == target.skip(words@.len() as int),
                words@ == target.take(words@.len() as int),
            ensures
                words@ == target,
            decreases b.words().len(),
        {
            let ghost done = words@.len() as int;
            match b.next() {
                Some(w) => {
                    proof {
                        assert(target.skip(done)[0] == target[done]);
                        assert(target.skip(done).drop_first() =~= target.skip(done + 1));
                        assert(words@.push(w) =~= target.take(done + 1));
                    }
                    words.push(w);
                },
                None => {
                    proof {
                        assert(words@ =~= target);
                    }
                    break ;
                },
            }
        }
        IdSet::from_bytes(&words)
    }
}

/// The dedup-and-sort law: iterating any set yields a strictly ascending
/// sequence without duplicates that contains exactly the set's elements and
/// has exactly the set's cardinality. Together with `from_iter`, collecting
/// any finite id sequence into a set and iterating yields the sorted
/// sequence of its distinct ids.
pub proof fn lemma_id_seq_shape(s: IdSet)
    ensures
        crate::bits::strictly_sorted(s.id_seq()),
        s.id_seq().no_duplicates(),
        forall|q: nat| #[trigger] s.id_seq().contains(q) == s@.contains(q),
        s.id_seq().len() == s@.len(),
{
    let wv = s.word_view();
    crate::bits::lemma_bit_ids_props(wv, 32 * wv.len());
    lemma_all_ids_len(wv);
    s.lemma_view_is_word_view();
    assert forall|q: nat| #[trigger] s.id_seq().contains(q) == s@.contains(q) by {
        crate::bits::lemma_bit_of_bound(wv, q);
        if s.id_seq().contains(q) {
            let k = choose|k: int| 0 <= k < s.id_seq().len() && s.id_seq()[k] == q;
            assert(bit_of(wv, s.id_seq()[k]));
        }
    }
}

/// The collect law: a set holding exactly the ids of a finite id sequence,
/// iterated, yields a strictly ascending, duplicate-free sequence with
/// exactly the distinct collected ids: collecting then iterating sorts and
/// deduplicates.
pub proof fn lemma_collect_then_iterate(ids: Seq<usize>, s: IdSet)
    requires
        s@ == seq_id_set(ids),
    ensures
        crate::bits::strictly_sorted(s.id_seq()),
        s.id_seq().no_duplicates(),
        forall|q: nat| #[trigger] s.id_seq().contains(q) == seq_id_set(ids).contains(q),
{
    lemma_id_seq_shape(s);
}

/// The insert-and-remove law: inserting an element makes `contains` answer
/// true; removing it makes `contains` answer false; and inserting an element
/// already present leaves the set, and so its cardinality, unchanged.
pub proof fn lemma_insert_remove_contains(s: Set<nat>, x: nat)
    ensures
        s.insert(x).contains(x),
        !s.remove(x).contains(x),
        s.contains(x) ==> s.insert(x) == s,
        s.finite() && s.contains(x) ==> s.insert(x).len() == s.len(),
{
    if s.contains(x) {
        assert(s.insert(x) =~= s);
    }
}

/// The brute-force law: the subset and disjointness relations that
/// `is_subset`, `is_superset` and `is_disjoint` decide agree with
/// element-by-element membership checks.
pub proof fn lemma_relations_membership(a: Set<nat>, b: Set<nat>)
    ensures
        a.subset_of(b) == (forall|q: nat| #[trigger] a.contains(q) ==> b.contains(q)),
        a.disjoint(b) == (forall|q: nat| !(#[trigger] a.contains(q) && b.contains(q))),
{
}

/// The retain law: the conditions `retain` guarantees pin its result down to
/// a filter. When the predicate's behaviour is the function `p`, the set
/// after `retain` holds exactly the elements satisfying `p`, and its
/// cardinality is the count of satisfying elements.
pub proof fn lemma_retain_filter<F: Fn(usize) -> bool>(
    pred: F,
    before: Set<nat>,
    after: Set<nat>,
    p: spec_fn(nat) -> bool,
)
    requires
        forall|q: nat| #[trigger] after.contains(q) ==> before.contains(q),
        forall|q: nat| #[trigger] after.contains(q) ==> pred.ensures(((q as usize),), true),
        forall|q: nat|
            #[trigger] before.contains(q) && !after.contains(q) ==> pred.ensures(
                ((q as usize),),
                false,
            ),
        forall|id: usize, r: bool| #[trigger] pred.ensures((id,), r) ==> r == p(id as nat),
        forall|q: nat| #[trigger] before.contains(q) ==> q <= usize::MAX as nat,
        before.finite(),
    ensures
        after == before.filter(p),
        after.len() == before.filter(p).len(),
        after.len() <= before.len(),
{
    assert forall|q: nat| #[trigger] after.contains(q) == (before.contains(q) && p(q)) by {
        if after.contains(q) {
            assert(pred.ensures(((q as usize),), true));
            assert((q as usize) as nat == q);
        } else if before.contains(q) {
            assert(pred.ensures(((q as usize),), false));
            assert((q as usize) as nat == q);
        }
    }
    assert(after =~= before.filter(p));
    before.lemma_len_filter(p);
}

/// The agreement law: the in-place operations and the lazy algebra views
/// produce the same sets. Each in-place operation ensures its result is the
/// corresponding set operation on the views, and the word stream of each
/// combinator, materialized or decoded, represents exactly that same set.
pub proof fn lemma_inplace_matches_views(a: Seq<u32>, b: Seq<u32>)
    ensures
        block_set(or_words(a, b)) == block_set(a).union(block_set(b)),
        block_set(and_words(a, b)) == block_set(a).intersect(block_set(b)),
        block_set(diff_words(a, b)) == block_set(a).difference(block_set(b)),
        block_set(xor_words(a, b)) == block_set(a).difference(block_set(b)).union(
            block_set(b).difference(block_set(a)),
        ),
{
    crate::stream::lemma_or_words_set(a, b);
    crate::stream::lemma_and_words_set(a, b);
    crate::stream::lemma_diff_words_set(a, b);
    crate::stream::lemma_xor_words_set(a, b);
}

/// A word with only bit `bit` set.
fn mask(bit: usize) -> (m: u32)
    requires
        bit < 32,
    ensures
        m == 1u32 << (bit as u32),
{
    1u32 << (bit as u32)
}

/// The largest integer at least `n / k`.
fn ceil_div(n: usize, k: usize) -> (r: usize)
    requires
        k > 0,
    ensures
        r as nat == if n as nat % k as nat == 0 {
            n as nat / k as nat
        } else {
            n as nat / k as nat + 1
        },
{
    if n % k == 0 {
        n / k
    } else {
        proof {
            assert((n as nat) / (k as nat) < (usize::MAX as nat)) by (nonlinear_arith)
                requires
                    k as nat >= 1 && (n as nat) % (k as nat) != 0 && n as nat <= usize::MAX as nat,
            ;
        }
        n / k + 1
    }
}

/// A store never holds fewer than six inline words' worth of ids.
proof fn lemma_word_cap_min()
    ensures
        word_cap() >= 6,
{
    assert(usize::MAX as nat >= 0xffff_ffff);
    assert((usize::MAX as nat) / 32 >= 6) by (nonlinear_arith)
        requires
            usize::MAX as nat >= 0xffff_ffff,
    ;
}

/// All-zero word sequences represent the empty set and count zero.
proof fn lemma_empty_blocks(blocks: Seq<u32>)
    requires
        forall|i: nat| word_at(blocks, i) == 0u32,
        blocks.len() <= 6,
    ensures
        block_set(blocks) == Set::<nat>::empty(),
        ones(blocks) == 0,
        blocks.len() <= word_cap(),
{
    lemma_ones_upto_zero(blocks, blocks.len());
    assert forall|id: nat| !bit_of(blocks, id) by {
        lemma_nth_bit_zero(id % 32);
    }
    assert(block_set(blocks) =~= Set::<nat>::empty());
    lemma_block_set_card(blocks);
    lemma_word_cap_min();
}

/// The count over the first `k` words of a filled word sequence.
proof fn lemma_filled_ones(v: Seq<u32>, n: nat, k: nat)
    requires
        v.len() == if n % 32 == 0 {
            n / 32
        } else {
            n / 32 + 1
        },
        forall|j: int| 0 <= j < n as int / 32 ==> v[j] == !0u32,
        n % 32 != 0 ==> v[n as int / 32] == crate::bits::low_mask(n % 32),
        k <= v.len(),
    ensures
        ones_upto(v, k) == if 32 * k <= n {
            32 * k
        } else {
            n
        },
    decreases k,
{
    if k > 0 {
        lemma_filled_ones(v, n, (k - 1) as nat);
        lemma_id_split(n);
        if k - 1 < n as int / 32 {
            crate::bits::lemma_count_bits_full(32);
            assert(32 * k <= 32 * (n / 32)) by (nonlinear_arith)
                requires
                    k <= n / 32,
            ;
        } else {
            assert(k - 1 == n as int / 32 && n % 32 != 0);
            crate::bits::lemma_count_bits_low_mask(n % 32, 32);
            assert(32 * (k - 1) == 32 * (n / 32));
        }
    }
}

/// A filled word sequence represents exactly the ids below `n` and counts
/// `n` bits.
proof fn lemma_filled_blocks(v: Seq<u32>, n: nat)
    requires
        v.len() == if n % 32 == 0 {
            n / 32
        } else {
            n / 32 + 1
        },
        forall|j: int| 0 <= j < n as int / 32 ==> v[j] == !0u32,
        n % 32 != 0 ==> v[n as int / 32] == crate::bits::low_mask(n % 32),
    ensures
        ones(v) == n,
        forall|id: nat| #[trigger] bit_of(v, id) == (id < n),
{
    lemma_filled_ones(v, n, v.len());
    lemma_id_split(n);
    if n % 32 == 0 {
        assert(32 * v.len() == n);
    } else {
        assert(32 * v.len() == 32 * (n / 32) + 32);
        assert(ones_upto(v, v.len()) == n);
    }
    assert forall|id: nat| #[trigger] bit_of(v, id) == (id < n) by {
        lemma_id_split(id);
        let j = id / 32;
        if j < n / 32 {
            crate::bits::lemma_bit_full(id % 32);
            assert(32 * j + 32 <= 32 * (n / 32)) by (nonlinear_arith)
                requires
                    j + 1 <= n / 32,
            ;
            assert(id < n);
            assert(j < v.len());
        } else if j == n / 32 && n % 32 != 0 {
            crate::bits::lemma_bit_low_mask(n % 32, id % 32);
            assert(bit_of(v, id) == (id % 32 < n % 32));
        } else {
            assert(j >= v.len());
            assert(32 * j >= 32 * v.len()) by (nonlinear_arith)
                requires
                    j >= v.len(),
            ;
            assert(id >= n);
        }
    }
}

/// Setting one bit inserts exactly that id.
proof fn lemma_insert_view(before: Seq<u32>, after: Seq<u32>, id: nat)
    requires
        id / 32 < before.len(),
        after == before.update(id as int / 32, before[id as int / 32] | (1u32 << ((id % 32) as u32))),
    ensures
        block_set(after) == block_set(before).insert(id),
{
    let w = before[id as int / 32];
    let m = 1u32 << ((id % 32) as u32);
    lemma_id_split(id);
    assert forall|q: nat| bit_of(after, q) == (bit_of(before, q) || q == id) by {
        lemma_id_split(q);
        crate::bits::lemma_bit_or(w, m, q % 32);
        crate::bits::lemma_bit_mask(id % 32, q % 32);
        if q / 32 == id / 32 {
            assert(word_at(after, q / 32) == (w | m));
        } else {
            assert(word_at(after, q / 32) == word_at(before, q / 32));
        }
    }
    assert(block_set(after) =~= block_set(before).insert(id));
}

/// Clearing one bit removes exactly that id.
proof fn lemma_remove_view(before: Seq<u32>, after: Seq<u32>, id: nat)
    requires
        id / 32 < before.len(),
        after == before.update(
            id as int / 32,
            before[id as int / 32] & !(1u32 << ((id % 32) as u32)),
        ),
    ensures
        block_set(after) == block_set(before).remove(id),
{
    let w = before[id as int / 32];
    let m = 1u32 << ((id % 32) as u32);
    lemma_id_split(id);
    assert forall|q: nat| bit_of(after, q) == (bit_of(before, q) && q != id) by {
        lemma_id_split(q);
        crate::bits::lemma_bit_andnot(w, m, q % 32);
        crate::bits::lemma_bit_mask(id % 32, q % 32);
        if q / 32 == id / 32 {
            assert(word_at(after, q / 32) == (w & !m));
        } else {
            assert(word_at(after, q / 32) == word_at(before, q / 32));
        }
    }
    assert(block_set(after) =~= block_set(before).remove(id));
}

} // verus!


//! Composable word streams: the set-algebra combinators. Each combinator
//! wraps one or two word streams and combines their next words with a fixed
//! boolean operation, treating an exhausted side as all-zero words where the
//! length rule calls for it. A combinator is itself a word stream, so
//! combinators compose without materializing intermediate sets, and any
//! stream can be decoded into ascending element ids.

use vstd::prelude::*;

use crate::bits::all_ids;
use crate::bits::bit_of;
use crate::bits::block_set;
use crate::bits::lemma_bit_and;
use crate::bits::lemma_bit_andnot;
use crate::bits::lemma_bit_or;
use crate::bits::lemma_bit_xor;
use crate::bits::lemma_nth_bit_zero;
use crate::bits::lemma_all_ids_cons;
use crate::bits::lemma_all_ids_empty;
use crate::bits::lemma_count_bits_zero;
use crate::bits::lemma_drop_first_contains;
use crate::bits::lemma_no_bits_zero;
use crate::bits::lemma_popcount_clear;
use crate::bits::lemma_sorted_unique;
use crate::bits::lemma_word_ids_props;
use crate::bits::lemma_word_zero_ops;
use crate::bits::nth_bit;
use crate::bits::shift_ids;
use crate::bits::strictly_sorted;
use crate::bits::word_at;
use crate::bits::word_ids;

verus! {

/// The largest number of words a stream may hold for every contained id to
/// fit in `usize`.
pub open spec fn word_cap() -> nat {
    usize::MAX as nat / 32 + 1
}

/// A finite stream of words, consumed once, front to back, with an exactly
/// known length.
pub trait BlockStream: Sized {
    /// The words the stream will still yield, in order.
    spec fn words(&self) -> Seq<u32>;

    /// Yields the next word, or nothing once the stream is exhausted.
    fn next(&mut self) -> (r: Option<u32>)
        ensures
            old(self).words().len() > 0 ==> r == Some(old(self).words()[0]) && final(self).words()
                == old(self).words().drop_first(),
            old(self).words().len() == 0 ==> r is None && final(self).words() == old(
                self,
            ).words(),
    ;

    /// The exact number of words left.
    fn len(&self) -> (n: usize)
        ensures
            n == self.words().len(),
    ;
}

/// The wordwise OR of two word sequences, the shorter padded with zeros.
pub open spec fn or_words(a: Seq<u32>, b: Seq<u32>) -> Seq<u32> {
    Seq::new(
        if a.len() >= b.len() {
            a.len()
        } else {
            b.len()
        },
        |i: int| word_at(a, i as nat) | word_at(b, i as nat),
    )
}

/// The wordwise AND of two word sequences, cut to the shorter one.
pub open spec fn and_words(a: Seq<u32>, b: Seq<u32>) -> Seq<u32> {
    Seq::new(
        if a.len() <= b.len() {
            a.len()
        } else {
            b.len()
        },
        |i: int| word_at(a, i as nat) & word_at(b, i as nat),
    )
}

/// The wordwise AND-NOT of two word sequences, as long as the left one.
pub open spec fn diff_words(a: Seq<u32>, b: Seq<u32>) -> Seq<u32> {
    Seq::new(a.len(), |i: int| word_at(a, i as nat) & !word_at(b, i as nat))
}

/// The wordwise XOR of two word sequences, the shorter padded with zeros.
pub open spec fn xor_words(a: Seq<u32>, b: Seq<u32>) -> Seq<u32> {
    Seq::new(
        if a.len() >= b.len() {
            a.len()
        } else {
            b.len()
        },
        |i: int| word_at(a, i as nat) ^ word_at(b, i as nat),
    )
}

/// The union law: the wordwise OR of two word sequences represents exactly
/// the union of the sets they represent.
pub proof fn lemma_or_words_set(a: Seq<u32>, b: Seq<u32>)
    ensures
        forall|id: nat| #[trigger] bit_of(or_words(a, b), id) == (bit_of(a, id) || bit_of(b, id)),
        block_set(or_words(a, b)) == block_set(a).union(block_set(b)),
{
    assert forall|id: nat| #[trigger] bit_of(or_words(a, b), id) == (bit_of(a, id) || bit_of(
        b,
        id,
    )) by {
        let j = id / 32;
        let t = id % 32;
        lemma_nth_bit_zero(t);
        lemma_bit_or(word_at(a, j), word_at(b, j), t);
        lemma_word_zero_ops(0u32);
        assert(word_at(or_words(a, b), j) == (word_at(a, j) | word_at(b, j)));
    }
    assert(block_set(or_words(a, b)) =~= block_set(a).union(block_set(b)));
}

/// The intersection law: the wordwise AND of two word sequences represents
/// exactly the intersection of the sets they represent.
pub proof fn lemma_and_words_set(a: Seq<u32>, b: Seq<u32>)
    ensures
        forall|id: nat| #[trigger] bit_of(and_words(a, b), id) == (bit_of(a, id) && bit_of(b, id)),
        block_set(and_words(a, b)) == block_set(a).intersect(block_set(b)),
{
    assert forall|id: nat| #[trigger] bit_of(and_words(a, b), id) == (bit_of(a, id) && bit_of(
        b,
        id,
    )) by {
        let j = id / 32;
        let t = id % 32;
        lemma_nth_bit_zero(t);
        lemma_bit_and(word_at(a, j), word_at(b, j), t);
        lemma_word_zero_ops(word_at(a, j));
        lemma_word_zero_ops(word_at(b, j));
        assert((0u32 & 0u32) == 0u32) by (bit_vector);
        assert((word_at(a, j) & 0u32) == 0u32) by (bit_vector);
        assert((0u32 & word_at(b, j)) == 0u32) by (bit_vector);
        assert(word_at(and_words(a, b), j) == (word_at(a, j) & word_at(b, j)));
    }
    assert(block_set(and_words(a, b)) =~= block_set(a).intersect(block_set(b)));
}

/// The difference law: the wordwise AND-NOT of two word sequences represents
/// exactly the difference of the sets they represent.
pub proof fn lemma_diff_words_set(a: Seq<u32>, b: Seq<u32>)
    ensures
        forall|id: nat| #[trigger] bit_of(diff_words(a, b), id) == (bit_of(a, id) && !bit_of(
            b,
            id,
        )),
        block_set(diff_words(a, b)) == block_set(a).difference(block_set(b)),
{
    assert forall|id: nat| #[trigger] bit_of(diff_words(a, b), id) == (bit_of(a, id) && !bit_of(
        b,
        id,
    )) by {
        let j = id / 32;
        let t = id % 32;
        lemma_nth_bit_zero(t);
        lemma_bit_andnot(word_at(a, j), word_at(b, j), t);
        assert((0u32 & !word_at(b, j)) == 0u32) by (bit_vector);
        assert(word_at(diff_words(a, b), j) == (word_at(a, j) & !word_at(b, j)));
    }
    assert(block_set(diff_words(a, b)) =~= block_set(a).difference(block_set(b)));
}

/// The symmetric-difference law: the wordwise XOR of two word sequences
/// represents exactly the ids lying in one represented set but not the
/// other.
pub proof fn lemma_xor_words_set(a: Seq<u32>, b: Seq<u32>)
    ensures
        forall|id: nat| #[trigger] bit_of(xor_words(a, b), id) == (bit_of(a, id) != bit_of(b, id)),
        block_set(xor_words(a, b)) == block_set(a).difference(block_set(b)).union(
            block_set(b).difference(block_set(a)),
        ),
{
    assert forall|id: nat| #[trigger] bit_of(xor_words(a, b), id) == (bit_of(a, id) != bit_of(
        b,
        id,
    )) by {
        let j = id / 32;
        let t = id % 32;
        lemma_nth_bit_zero(t);
        lemma_bit_xor(word_at(a, j), word_at(b, j), t);
        lemma_word_zero_ops(word_at(a, j));
        lemma_word_zero_ops(word_at(b, j));
        assert(word_at(xor_words(a, b), j) == (word_at(a, j) ^ word_at(b, j)));
    }
    assert(block_set(xor_words(a, b)) =~= block_set(a).difference(block_set(b)).union(
        block_set(b).difference(block_set(a)),
    ));
}

/// Takes the union of two word streams: OR per word, zero-padding the
/// exhausted side.
#[derive(Clone)]
pub struct Union<L, R> {
    left: L,
    right: R,
}

impl<L: BlockStream, R: BlockStream> BlockStream for Union<L, R> {
    closed spec fn words(&self) -> Seq<u32> {
        or_words(self.left.words(), self.right.words())
    }

    fn next(&mut self) -> (r: Option<u32>) {
        let ghost la = self.left.words();
        let ghost rb = self.right.words();
        let x = self.left.next();
        let y = self.right.next();
        match (x, y) {
            (Some(a), Some(b)) => {
                proof {
                    assert(or_words(la.drop_first(), rb.drop_first()) =~= or_words(
                        la,
                        rb,
                    ).drop_first());
                }
                Some(a | b)
            },
            (Some(a), None) => {
                proof {
                    lemma_word_zero_ops(a);
                    assert(or_words(la.drop_first(), rb) =~= or_words(la, rb).drop_first());
                }
                Some(a)
            },
            (None, Some(b)) => {
                proof {
                    lemma_word_zero_ops(b);
                    assert(or_words(la, rb.drop_first()) =~= or_words(la, rb).drop_first());
                }
                Some(b)
            },
            (None, None) => {
                proof {
                    assert(or_words(la, rb) =~= Seq::<u32>::empty());
                }
                None
            },
        }
    }

    fn len(&self) -> (n: usize) {
        let a = self.left.len();
        let b = self.right.len();
        if a >= b {
            a
        } else {
            b
        }
    }
}

/// Takes the intersection of two word streams: AND per word, ending when
/// either side ends.
#[derive(Clone)]
pub struct Intersection<L, R> {
    left: L,
    right: R,
}

impl<L: BlockStream, R: BlockStream> BlockStream for Intersection<L, R> {
    closed spec fn words(&self) -> Seq<u32> {
        and_words(self.left.words(), self.right.words())
    }

    fn next(&mut self) -> (r: Option<u32>) {
        let ghost la = self.left.words();
        let ghost rb = self.right.words();
        let x = self.left.next();
        let y = self.right.next();
        if let (Some(a), Some(b)) = (x, y) {
            proof {
                assert(and_words(la.drop_first(), rb.drop_first()) =~= and_words(
                    la,
                    rb,
                ).drop_first());
            }
            Some(a & b)
        } else {
            proof {
                assert(self.words() =~= Seq::<u32>::empty());
                assert(and_words(la, rb) =~= Seq::<u32>::empty());
            }
            None
        }
    }

    fn len(&self) -> (n: usize) {
        let a = self.left.len();
        let b = self.right.len();
        if a <= b {
            a
        } else {
            b
        }
    }
}

/// Takes the difference of two word streams: AND-NOT per word, as long as
/// the left side, the exhausted right side read as zero.
#[derive(Clone)]
pub struct Difference<L, R> {
    left: L,
    right: R,
}

impl<L: BlockStream, R: BlockStream> BlockStream for Difference<L, R> {
    closed spec fn words(&self) -> Seq<u32> {
        diff_words(self.left.words(), self.right.words())
    }

    fn next(&mut self) -> (r: Option<u32>) {
        let ghost la = self.left.words();
        let ghost rb = self.right.words();
        match self.left.next() {
            None => {
                proof {
                    assert(diff_words(la, rb) =~= Seq::<u32>::empty());
                }
                None
            },
            Some(a) => {
                let y = self.right.next();
                match y {
                    Some(b) => {
                        proof {
                            assert(diff_words(la.drop_first(), rb.drop_first()) =~= diff_words(
                                la,
                                rb,
                            ).drop_first());
                        }
                        Some(a & !b)
                    },
                    None => {
                        proof {
                            lemma_word_zero_ops(a);
                            assert(diff_words(la.drop_first(), rb) =~= diff_words(
                                la,
                                rb,
                            ).drop_first());
                        }
                        Some(a & !0u32)
                    },
                }
            },
        }
    }

    fn len(&self) -> (n: usize) {
        self.left.len()
    }
}

/// Takes the symmetric difference of two word streams: XOR per word,
/// zero-padding the exhausted side.
#[derive(Clone)]
pub struct SymmetricDifference<L, R> {
    left: L,
    right: R,
}

impl<L: BlockStream, R: BlockStream> BlockStream for SymmetricDifference<L, R> {
    closed spec fn words(&self) -> Seq<u32> {
        xor_words(self.left.words(), self.right.words())
    }

    fn next(&mut self) -> (r: Option<u32>) {
        let ghost la = self.left.words();
        let ghost rb = self.right.words();
        let x = self.left.next();
        let y = self.right.next();
        match (x, y) {
            (Some(a), Some(b)) => {
                proof {
                    assert(xor_words(la.drop_first(), rb.drop_first()) =~= xor_words(
                        la,
                        rb,
                    ).drop_first());
                }
                Some(a ^ b)
            },
            (Some(a), None) => {
                proof {
                    lemma_word_zero_ops(a);
                    assert(xor_words(la.drop_first(), rb) =~= xor_words(la, rb).drop_first());
                }
                Some(a)
            },
            (None, Some(b)) => {
                proof {
                    lemma_word_zero_ops(b);
                    assert(xor_words(la, rb.drop_first()) =~= xor_words(la, rb).drop_first());
                }
                Some(b)
            },
            (None, None) => {
                proof {
                    assert(xor_words(la, rb) =~= Seq::<u32>::empty());
                }
                None
            },
        }
    }

    fn len(&self) -> (n: usize) {
        let a = self.left.len();
        let b = self.right.len();
        if a >= b {
            a
        } else {
            b
        }
    }
}

/// Takes the complement of a word stream: NOT per word, yielding all-one
/// words forever once the source is exhausted. The stream never ends on its
/// own, so a consumer must bound how many words it reads.
#[derive(Clone)]
pub struct Complement<S> {
    inner: S,
}

impl<S: BlockStream> Complement<S> {
    /// The words the finite source will still yield.
    pub closed spec fn source(&self) -> Seq<u32> {
        self.inner.words()
    }

    /// Wraps a word stream.
    pub fn new(inner: S) -> (r: Self)
        ensures
            r.source() == inner.words(),
    {
        Complement { inner }
    }

    /// The complement of the source's next word, or all ones once the source
    /// is exhausted.
    pub fn next(&mut self) -> (w: u32)
        ensures
            old(self).source().len() > 0 ==> w == !old(self).source()[0] && final(self).source()
                == old(self).source().drop_first(),
            old(self).source().len() == 0 ==> w == !0u32 && final(self).source() == old(
                self,
            ).source(),
    {
        match self.inner.next() {
            Some(a) => !a,
            None => !0u32,
        }
    }
}

/// Conversion into a composable iterator over words.
pub trait IntoBlockIter: Sized {
    /// The word stream produced.
    type Blocks: BlockStream;

    /// The words the resulting iterator yields.
    spec fn stream_view(&self) -> Seq<u32>;

    /// Wraps the value as a composable block iterator.
    fn into_block_iter(self) -> (r: BlockIter<Self::Blocks>)
        ensures
            r@ == self.stream_view(),
    ;
}

/// A view into the words of a set or a combination of sets: a word stream
/// that composes with further set algebra and decodes into element ids.
#[derive(Clone)]
pub struct BlockIter<B> {
    inner: B,
}

impl<B: BlockStream> View for BlockIter<B> {
    type V = Seq<u32>;

    closed spec fn view(&self) -> Seq<u32> {
        self.inner.words()
    }
}

impl<B: BlockStream> IntoBlockIter for BlockIter<B> {
    type Blocks = B;

    open spec fn stream_view(&self) -> Seq<u32> {
        self@
    }

    fn into_block_iter(self) -> (r: BlockIter<B>) {
        self
    }
}

impl<'a> IntoBlockIter for crate::store::Iter<'a> {
    type Blocks = crate::store::Iter<'a>;

    open spec fn stream_view(&self) -> Seq<u32> {
        self.words()
    }

    fn into_block_iter(self) -> (r: BlockIter<crate::store::Iter<'a>>) {
        BlockIter { inner: self }
    }
}

impl IntoBlockIter for crate::store::IntoIter {
    type Blocks = crate::store::IntoIter;

    open spec fn stream_view(&self) -> Seq<u32> {
        self.words()
    }

    fn into_block_iter(self) -> (r: BlockIter<crate::store::IntoIter>) {
        BlockIter { inner: self }
    }
}

impl<B: BlockStream> BlockIter<B> {
    /// The raw word stream.
    pub fn into_inner(self) -> (r: B)
        ensures
            r.words() == self@,
    {
        self.inner
    }

    /// Takes the union of the words with another block iterator.
    pub fn union<I: IntoBlockIter>(self, other: I) -> (r: BlockIter<Union<B, I::Blocks>>)
        ensures
            r@ == or_words(self@, other.stream_view()),
    {
        let o = other.into_block_iter();
        BlockIter { inner: Union { left: self.inner, right: o.inner } }
    }

    /// Takes the intersection of the words with another block iterator.
    pub fn intersection<I: IntoBlockIter>(self, other: I) -> (r: BlockIter<
        Intersection<B, I::Blocks>,
    >)
        ensures
            r@ == and_words(self@, other.stream_view()),
    {
        let o = other.into_block_iter();
        BlockIter { inner: Intersection { left: self.inner, right: o.inner } }
    }

    /// Takes the difference of the words with another block iterator.
    pub fn difference<I: IntoBlockIter>(self, other: I) -> (r: BlockIter<Difference<B, I::Blocks>>)
        ensures
            r@ == diff_words(self@, other.stream_view()),
    {
        let o = other.into_block_iter();
        BlockIter { inner: Difference { left: self.inner, right: o.inner } }
    }

    /// Takes the symmetric difference of the words with another block
    /// iterator.
    pub fn symmetric_difference<I: IntoBlockIter>(self, other: I) -> (r: BlockIter<
        SymmetricDifference<B, I::Blocks>,
    >)
        ensures
            r@ == xor_words(self@, other.stream_view()),
    {
        let o = other.into_block_iter();
        BlockIter { inner: SymmetricDifference { left: self.inner, right: o.inner } }
    }

    /// Takes the complement of the words: an unbounded stream that a
    /// consumer must cut off on its own.
    pub fn complement(self) -> (r: Complement<B>)
        ensures
            r.source() == self@,
    {
        Complement { inner: self.inner }
    }

    /// Decodes the words into an iterator over element ids in ascending
    /// order.
    pub fn into_iter(self) -> (r: IdIter<B>)
        requires
            self@.len() <= word_cap(),
        ensures
            r.ids() == all_ids(self@),
            r.wf(),
    {
        IdIter::new(self)
    }

    /// Collects the element ids into a vector, in ascending order.
    pub fn collect(self) -> (r: Vec<usize>)
        requires
            self@.len() <= word_cap(),
        ensures
            r@.len() == all_ids(self@).len(),
            forall|k: int| 0 <= k < r@.len() ==> #[trigger] r@[k] as nat == all_ids(self@)[k],
    {
        let ghost target = all_ids(self@);
        let mut it = IdIter::new(self);
        let mut out: Vec<usize> = Vec::new();
        proof {
            assert(target.skip(0) =~= target);
        }
        loop
            invariant
                it.wf(),
                out@.len() <= target.len(),
                it.ids() == target.skip(out@.len() as int),
                forall|k: int| 0 <= k < out@.len() ==> #[trigger] out@[k] as nat == target[k],
            ensures
                out@.len() == target.len(),
                forall|k: int| 0 <= k < out@.len() ==> #[trigger] out@[k] as nat == target[k],
            decreases it.ids().len(),
        {
            let ghost done = out@.len() as int;
            match it.next() {
                Some(id) => {
                    proof {
                        assert(target.skip(done)[0] == target[done]);
                        assert(target.skip(done).drop_first() =~= target.skip(done + 1));
                    }
                    out.push(id);
                },
                None => {
                    proof {
                        assert(target.skip(done).len() == 0);
                    }
                    break ;
                },
            }
        }
        out
    }
}

/// Transforms a word stream into the ascending sequence of its element ids,
/// one id per step: the lowest set bit of the current word is peeled off and
/// emitted, and exhausted words advance the stream, each word covering 32
/// ids.
#[derive(Clone)]
pub struct IdIter<B> {
    blocks: B,
    word: u32,
    idx: usize,
}

impl<B: BlockStream> IdIter<B> {
    /// The ids the iterator will still yield, in ascending order.
    pub closed spec fn ids(&self) -> Seq<nat> {
        shift_ids(word_ids(self.word), self.idx as nat) + shift_ids(
            all_ids(self.blocks.words()),
            self.idx as nat + 32,
        )
    }

    /// Every id still to come fits in `usize`.
    pub closed spec fn wf(&self) -> bool {
        self.idx as nat + 32 * self.blocks.words().len() <= usize::MAX as nat - 31
    }

    /// Starts decoding a block iterator into ascending element ids.
    pub fn new<I: IntoBlockIter<Blocks = B>>(iter: I) -> (r: Self)
        requires
            iter.stream_view().len() <= word_cap(),
        ensures
            r.ids() == all_ids(iter.stream_view()),
            r.wf(),
    {
        let b = iter.into_block_iter();
        let mut blocks = b.into_inner();
        let ghost all = blocks.words();
        proof {
            assert(32 * (usize::MAX as nat / 32) <= usize::MAX as nat - 31) by (nonlinear_arith)
                requires
                    usize::MAX as nat % 32 == 31,
            ;
            assert(usize::MAX as nat % 32 == 31);
        }
        let word = match blocks.next() {
            Some(w) => w,
            None => 0,
        };
        let r = IdIter { blocks, word, idx: 0usize };
        proof {
            lemma_word_ids_props(0u32);
            lemma_count_bits_zero(32);
            if all.len() > 0 {
                lemma_all_ids_cons(all);
                assert(r.ids() =~= all_ids(all)) by {
                    assert(shift_ids(word_ids(word), 0) =~= word_ids(word));
                    assert(shift_ids(all_ids(all.drop_first()), 0 + 32) =~= shift_ids(
                        all_ids(all.drop_first()),
                        32,
                    ));
                }
            } else {
                assert(all =~= Seq::<u32>::empty());
                lemma_all_ids_empty();
                assert(word_ids(0u32) =~= Seq::<nat>::empty());
                assert(r.ids() =~= Seq::<nat>::empty());
            }
        }
        r
    }

    /// The next element id, or nothing once no set bit is left.
    pub fn next(&mut self) -> (r: Option<usize>)
        requires
            old(self).wf(),
        ensures
            final(self).wf(),
            old(self).ids().len() > 0 ==> r == Some(old(self).ids()[0] as usize) && old(
                self,
            ).ids()[0] <= usize::MAX as nat && final(self).ids() == old(self).ids().drop_first(),
            old(self).ids().len() == 0 ==> r is None && final(self).ids() == old(self).ids(),
    {
        proof {
            lemma_word_ids_props(0u32);
            lemma_count_bits_zero(32);
            assert(word_ids(0u32) =~= Seq::<nat>::empty());
        }
        while self.word == 0
            invariant
                self.wf(),
                self.ids() == old(self).ids(),
                word_ids(0u32) == Seq::<nat>::empty(),
            decreases self.blocks.words().len(),
        {
            let ghost pre = self.blocks.words();
            let ghost preids = self.ids();
            let ghost idx0 = self.idx as nat;
            match self.blocks.next() {
                Some(w) => {
                    proof {
                        lemma_all_ids_cons(pre);
                    }
                    self.word = w;
                    self.idx = self.idx + 32;
                    proof {
                        assert(self.ids() =~= preids) by {
                            assert(preids =~= shift_ids(all_ids(pre), idx0 + 32));
                            assert forall|k: int| 0 <= k < self.ids().len() implies self.ids()[k]
                                == shift_ids(all_ids(pre), idx0 + 32)[k] by {
                                if k < word_ids(w).len() {
                                    assert(all_ids(pre)[k] == word_ids(w)[k]);
                                } else {
                                    let j = k - word_ids(w).len();
                                    assert(all_ids(pre)[k] == shift_ids(
                                        all_ids(pre.drop_first()),
                                        32,
                                    )[j]);
                                }
                            }
                        }
                    }
                },
                None => {
                    proof {
                        assert(pre =~= Seq::<u32>::empty());
                        lemma_all_ids_empty();
                        assert(self.ids() =~= Seq::<nat>::empty());
                        assert(old(self).ids().len() == 0);
                    }
                    return None;
                },
            }
        }
        let w = self.word;
        let mut b: u32 = 0;
        while (w >> b) & 1 != 1
            invariant
                b < 32,
                w == self.word,
                w != 0,
                forall|j: nat| j < b as nat ==> !nth_bit(w, j),
            decreases 32 - b,
        {
            proof {
                assert(!nth_bit(w, b as nat));
                if b == 31 {
                    assert forall|j: nat| !nth_bit(w, j) by {
                        if j < 31 {
                            assert(!nth_bit(w, j));
                        }
                    }
                    lemma_no_bits_zero(w);
                    assert(false);
                }
            }
            b = b + 1;
        }
        let ghost s = word_ids(w);
        proof {
            lemma_word_ids_props(w);
            assert(nth_bit(w, b as nat));
            assert(s.contains(b as nat));
            let k = choose|k: int| 0 <= k < s.len() && s[k] == b as nat;
            if s[0] != b as nat {
                assert(s[0] < s[k]);
                assert(nth_bit(w, s[0]));
                assert(false);
            }
            assert(self.ids()[0] == s[0] + self.idx as nat);
        }
        let id = self.idx + (b as usize);
        let ghost prev = *self;
        self.word = w & !(1u32 << b);
        proof {
            lemma_popcount_clear(w, b as nat);
            let t = word_ids(self.word);
            lemma_word_ids_props(self.word);
            assert forall|y: nat| t.contains(y) == s.drop_first().contains(y) by {
                lemma_drop_first_contains(s, y);
                if t.contains(y) {
                    let i = choose|i: int| 0 <= i < t.len() && t[i] == y;
                    assert(nth_bit(self.word, t[i]));
                }
                if s.contains(y) && y != b as nat {
                    let i = choose|i: int| 0 <= i < s.len() && s[i] == y;
                    assert(nth_bit(w, s[i]));
                    assert(nth_bit(self.word, y));
                }
            }
            assert(strictly_sorted(s.drop_first())) by {
                assert forall|p: int, q: int|
                    0 <= p < q < s.drop_first().len() implies s.drop_first()[p]
                    < s.drop_first()[q] by {
                    assert(s[p + 1] < s[q + 1]);
                }
            }
            lemma_sorted_unique(t, s.drop_first());
            assert(self.ids() =~= prev.ids().drop_first()) by {
                assert forall|k: int| 0 <= k < self.ids().len() implies self.ids()[k]
                    == prev.ids()[k + 1] by {
                    if k < t.len() {
                        assert(t[k] == s[k + 1]);
                    }
                }
            }
            assert(prev.ids() == old(self).ids());
        }
        Some(id)
    }
}

} // verus!

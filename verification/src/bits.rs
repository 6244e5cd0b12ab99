//! The mathematical model of word-backed bit sets: which element ids a word
//! sequence represents, how many bits are set, and the ascending sequence of
//! ids, together with the lemmas relating these notions to the word-level
//! operations used by the executable code.

use vstd::prelude::*;

verus! {

/// True when bit `i` of word `w` is set; false for positions at or above 32.
pub open spec fn nth_bit(w: u32, i: nat) -> bool {
    i < 32 && (w >> (i as u32)) & 1u32 == 1u32
}

/// The word at index `i`, with every index past the end reading as zero.
pub open spec fn word_at(blocks: Seq<u32>, i: nat) -> u32 {
    if i < blocks.len() {
        blocks[i as int]
    } else {
        0u32
    }
}

/// True when element `id` is present in the word sequence `blocks`:
/// bit `id % 32` of word `id / 32` is set.
pub open spec fn bit_of(blocks: Seq<u32>, id: nat) -> bool {
    id / 32 < blocks.len() && nth_bit(word_at(blocks, id / 32), id % 32)
}

/// The set of element ids represented by a word sequence.
pub open spec fn block_set(blocks: Seq<u32>) -> Set<nat> {
    Set::new(|id: nat| bit_of(blocks, id))
}

/// Number of set bits among the low `n` bit positions of `w`.
pub open spec fn count_bits(w: u32, n: nat) -> nat
    decreases n,
{
    if n == 0 {
        0
    } else {
        count_bits(w, (n - 1) as nat) + if nth_bit(w, (n - 1) as nat) {
            1nat
        } else {
            0nat
        }
    }
}

/// Number of set bits of a word.
pub open spec fn popcount(w: u32) -> nat {
    count_bits(w, 32)
}

/// Total number of set bits among the first `k` words.
pub open spec fn ones_upto(blocks: Seq<u32>, k: nat) -> nat
    decreases k,
{
    if k == 0 {
        0
    } else {
        ones_upto(blocks, (k - 1) as nat) + popcount(word_at(blocks, (k - 1) as nat))
    }
}

/// Total number of set bits of a word sequence: the cardinality of the
/// represented set.
pub open spec fn ones(blocks: Seq<u32>) -> nat {
    ones_upto(blocks, blocks.len())
}

/// The ascending sequence of the element ids below `n` present in `blocks`.
pub open spec fn bit_ids(blocks: Seq<u32>, n: nat) -> Seq<nat>
    decreases n,
{
    if n == 0 {
        Seq::empty()
    } else {
        bit_ids(blocks, (n - 1) as nat) + if bit_of(blocks, (n - 1) as nat) {
            seq![(n - 1) as nat]
        } else {
            Seq::empty()
        }
    }
}

/// The ascending sequence of all element ids present in `blocks`.
pub open spec fn all_ids(blocks: Seq<u32>) -> Seq<nat> {
    bit_ids(blocks, 32 * blocks.len())
}

/// A sequence of ids is strictly ascending.
pub open spec fn strictly_sorted(s: Seq<nat>) -> bool {
    forall|p: int, q: int| 0 <= p < q < s.len() ==> s[p] < s[q]
}

/// Bit `i` of the zero word is clear.
pub proof fn lemma_nth_bit_zero(i: nat)
    ensures
        !nth_bit(0u32, i),
{
    if i < 32 {
        let j = i as u32;
        assert((0u32 >> j) & 1u32 != 1u32) by (bit_vector);
    }
}

/// The zero word has no set bits.
pub proof fn lemma_count_bits_zero(n: nat)
    ensures
        count_bits(0u32, n) == 0,
    decreases n,
{
    if n > 0 {
        lemma_count_bits_zero((n - 1) as nat);
        lemma_nth_bit_zero((n - 1) as nat);
    }
}

/// Words that agree on their low `n` bits have the same count there.
pub proof fn lemma_count_bits_agree(x: u32, y: u32, n: nat)
    requires
        forall|i: nat| i < n ==> nth_bit(x, i) == nth_bit(y, i),
    ensures
        count_bits(x, n) == count_bits(y, n),
    decreases n,
{
    if n > 0 {
        lemma_count_bits_agree(x, y, (n - 1) as nat);
    }
}

/// Bitwise OR sets a bit exactly when either operand does.
pub proof fn lemma_bit_or(a: u32, b: u32, i: nat)
    ensures
        nth_bit(a | b, i) == (nth_bit(a, i) || nth_bit(b, i)),
{
    if i < 32 {
        let j = i as u32;
        assert(((a | b) >> j) & 1u32 == 1u32 <==> ((a >> j) & 1u32 == 1u32 || (b >> j) & 1u32
            == 1u32)) by (bit_vector);
    }
}

/// Bitwise AND sets a bit exactly when both operands do.
pub proof fn lemma_bit_and(a: u32, b: u32, i: nat)
    ensures
        nth_bit(a & b, i) == (nth_bit(a, i) && nth_bit(b, i)),
{
    if i < 32 {
        let j = i as u32;
        assert(((a & b) >> j) & 1u32 == 1u32 <==> ((a >> j) & 1u32 == 1u32 && (b >> j) & 1u32
            == 1u32)) by (bit_vector);
    }
}

/// Bitwise XOR sets a bit exactly when the operands disagree.
pub proof fn lemma_bit_xor(a: u32, b: u32, i: nat)
    ensures
        nth_bit(a ^ b, i) == (nth_bit(a, i) != nth_bit(b, i)),
{
    if i < 32 {
        let j = i as u32;
        assert(((a ^ b) >> j) & 1u32 == 1u32 <==> (((a >> j) & 1u32 == 1u32) != ((b >> j) & 1u32
            == 1u32))) by (bit_vector);
    }
}

/// AND-NOT sets a bit exactly when the left operand does and the right does not.
pub proof fn lemma_bit_andnot(a: u32, b: u32, i: nat)
    ensures
        nth_bit(a & !b, i) == (nth_bit(a, i) && !nth_bit(b, i)),
{
    if i < 32 {
        let j = i as u32;
        assert(((a & !b) >> j) & 1u32 == 1u32 <==> ((a >> j) & 1u32 == 1u32 && !((b >> j) & 1u32
            == 1u32))) by (bit_vector);
    }
}

/// Bitwise NOT sets a bit below 32 exactly when the operand does not.
pub proof fn lemma_bit_not(a: u32, i: nat)
    ensures
        nth_bit(!a, i) == (i < 32 && !nth_bit(a, i)),
{
    if i < 32 {
        let j = i as u32;
        assert(((!a) >> j) & 1u32 == 1u32 <==> !((a >> j) & 1u32 == 1u32)) by (bit_vector)
            requires
                j < 32,
        ;
    }
}

/// The single-bit mask `1 << b` has exactly bit `b` set.
pub proof fn lemma_bit_mask(b: nat, i: nat)
    requires
        b < 32,
    ensures
        nth_bit(1u32 << (b as u32), i) == (i == b),
{
    let k = b as u32;
    if i < 32 {
        let j = i as u32;
        assert(((1u32 << k) >> j) & 1u32 == 1u32 <==> j == k) by (bit_vector)
            requires
                k < 32 && j < 32,
        ;
    }
}

/// The mask with exactly the bits below `k` set.
pub open spec fn low_mask(k: nat) -> u32 {
    ((1u32 << (k as u32)) - 1) as u32
}

/// The low mask `(1 << k) - 1` has exactly the bits below `k` set.
pub proof fn lemma_bit_low_mask(k: nat, i: nat)
    requires
        k < 32,
    ensures
        nth_bit(low_mask(k), i) == (i < k),
{
    let kk = k as u32;
    if i < 32 {
        let j = i as u32;
        assert(((((1u32 << kk) - 1) as u32) >> j) & 1u32 == 1u32 <==> j < kk) by (bit_vector)
            requires
                kk < 32 && j < 32,
        ;
    }
}

/// The all-ones word has every bit below 32 set.
pub proof fn lemma_bit_full(i: nat)
    ensures
        nth_bit(!0u32, i) == (i < 32),
{
    if i < 32 {
        let j = i as u32;
        assert(((!0u32) >> j) & 1u32 == 1u32) by (bit_vector)
            requires
                j < 32,
        ;
    }
}

/// A word with all 32 bits clear is zero.
pub proof fn lemma_no_bits_zero(w: u32)
    requires
        forall|i: nat| !nth_bit(w, i),
    ensures
        w == 0,
    decreases w,
{
    if w != 0 {
        let h = w >> 1u32;
        assert forall|i: nat| !nth_bit(h, i) by {
            if i < 31 {
                let j = i as u32;
                assert(((w >> 1u32) >> j) & 1u32 == (w >> ((j + 1) as u32)) & 1u32) by (bit_vector)
                    requires
                        j < 31,
                ;
                assert(!nth_bit(w, (i + 1) as nat));
            } else if i == 31 {
                assert(((w >> 1u32) >> 31u32) & 1u32 != 1u32) by (bit_vector);
            }
        }
        assert((w >> 1u32) < w) by (bit_vector)
            requires
                w != 0,
        ;
        lemma_no_bits_zero(h);
        assert(!nth_bit(w, 0));
        assert(w >> 1u32 == 0 && (w >> 0u32) & 1u32 != 1u32 ==> w == 0) by (bit_vector);
    }
}

/// Words with the same bits are equal.
pub proof fn lemma_same_bits_equal(x: u32, y: u32)
    requires
        forall|i: nat| nth_bit(x, i) == nth_bit(y, i),
    ensures
        x == y,
{
    assert forall|i: nat| !nth_bit(x ^ y, i) by {
        lemma_bit_xor(x, y, i);
    }
    lemma_no_bits_zero(x ^ y);
    assert(x ^ y == 0 ==> x == y) by (bit_vector);
}

/// Combining a word with the zero or the all-ones word.
pub proof fn lemma_word_zero_ops(x: u32)
    ensures
        x | 0u32 == x,
        0u32 | x == x,
        x ^ 0u32 == x,
        0u32 ^ x == x,
        x & !0u32 == x,
{
    assert(x | 0u32 == x && 0u32 | x == x && x ^ 0u32 == x && 0u32 ^ x == x && x & !0u32 == x)
        by (bit_vector);
}

/// Counts add across an OR of words with no common set bit.
pub proof fn lemma_count_or_disjoint(x: u32, y: u32, n: nat)
    requires
        forall|i: nat| !(nth_bit(x, i) && nth_bit(y, i)),
    ensures
        count_bits(x | y, n) == count_bits(x, n) + count_bits(y, n),
    decreases n,
{
    if n > 0 {
        lemma_count_or_disjoint(x, y, (n - 1) as nat);
        lemma_bit_or(x, y, (n - 1) as nat);
    }
}

/// The single-bit mask has population count one.
pub proof fn lemma_count_mask(b: nat, n: nat)
    requires
        b < 32,
    ensures
        count_bits(1u32 << (b as u32), n) == if b < n {
            1nat
        } else {
            0nat
        },
    decreases n,
{
    if n > 0 {
        lemma_count_mask(b, (n - 1) as nat);
        lemma_bit_mask(b, (n - 1) as nat);
    }
}

/// Setting a clear bit raises the population count by one.
pub proof fn lemma_popcount_set(w: u32, b: nat)
    requires
        b < 32,
        !nth_bit(w, b),
    ensures
        popcount(w | (1u32 << (b as u32))) == popcount(w) + 1,
        nth_bit(w | (1u32 << (b as u32)), b),
        forall|i: nat| i != b ==> nth_bit(w | (1u32 << (b as u32)), i) == nth_bit(w, i),
{
    let m = 1u32 << (b as u32);
    assert forall|i: nat| !(nth_bit(w, i) && nth_bit(m, i)) by {
        lemma_bit_mask(b, i);
    }
    lemma_count_or_disjoint(w, m, 32);
    lemma_count_mask(b, 32);
    assert forall|i: nat| #[trigger] nth_bit(w | m, i) == (nth_bit(w, i) || i == b) by {
        lemma_bit_or(w, m, i);
        lemma_bit_mask(b, i);
    }
}

/// Clearing a set bit lowers the population count by one.
pub proof fn lemma_popcount_clear(w: u32, b: nat)
    requires
        b < 32,
        nth_bit(w, b),
    ensures
        popcount(w & !(1u32 << (b as u32))) + 1 == popcount(w),
        !nth_bit(w & !(1u32 << (b as u32)), b),
        forall|i: nat| i != b ==> nth_bit(w & !(1u32 << (b as u32)), i) == nth_bit(w, i),
{
    let m = 1u32 << (b as u32);
    let w2 = w & !m;
    assert forall|i: nat| #[trigger] nth_bit(w2, i) == (nth_bit(w, i) && i != b) by {
        lemma_bit_andnot(w, m, i);
        lemma_bit_mask(b, i);
    }
    lemma_popcount_set(w2, b);
    assert forall|i: nat| nth_bit(w2 | m, i) == nth_bit(w, i) by {
        lemma_bit_or(w2, m, i);
        lemma_bit_mask(b, i);
    }
    lemma_count_bits_agree(w2 | m, w, 32);
}

/// A word splits into its part inside and its part outside another word.
pub proof fn lemma_popcount_split(l: u32, r: u32)
    ensures
        popcount(l) == popcount(l & r) + popcount(l & !r),
{
    assert forall|i: nat| !(nth_bit(l & r, i) && nth_bit(l & !r, i)) by {
        lemma_bit_and(l, r, i);
        lemma_bit_andnot(l, r, i);
    }
    lemma_count_or_disjoint(l & r, l & !r, 32);
    assert forall|i: nat| nth_bit((l & r) | (l & !r), i) == nth_bit(l, i) by {
        lemma_bit_or(l & r, l & !r, i);
        lemma_bit_and(l, r, i);
        lemma_bit_andnot(l, r, i);
    }
    lemma_count_bits_agree((l & r) | (l & !r), l, 32);
}

/// Splitting an id into its word and bit index and back.
pub proof fn lemma_div_mod_32(j: nat, t: nat)
    requires
        t < 32,
    ensures
        (32 * j + t) / 32 == j,
        (32 * j + t) % 32 == t,
{
    assert((32 * j + t) / 32 == j && (32 * j + t) % 32 == t) by (nonlinear_arith)
        requires
            t < 32,
    ;
}

/// A present id lies below the bit width of the word sequence.
pub proof fn lemma_bit_of_bound(blocks: Seq<u32>, id: nat)
    ensures
        bit_of(blocks, id) ==> id < 32 * blocks.len(),
{
    assert(id / 32 < blocks.len() ==> id < 32 * blocks.len()) by (nonlinear_arith);
}

/// `ones_upto` only reads the words below `k`.
pub proof fn lemma_ones_upto_agree(a: Seq<u32>, b: Seq<u32>, k: nat)
    requires
        forall|i: nat| i < k ==> word_at(a, i) == word_at(b, i),
    ensures
        ones_upto(a, k) == ones_upto(b, k),
    decreases k,
{
    if k > 0 {
        lemma_ones_upto_agree(a, b, (k - 1) as nat);
    }
}

/// Replacing one word changes the total count by that word's own change.
pub proof fn lemma_ones_upto_update(blocks: Seq<u32>, j: int, w: u32, k: nat)
    requires
        0 <= j < blocks.len(),
    ensures
        k <= j ==> ones_upto(blocks.update(j, w), k) == ones_upto(blocks, k),
        k > j ==> ones_upto(blocks.update(j, w), k) + popcount(blocks[j]) == ones_upto(blocks, k)
            + popcount(w),
    decreases k,
{
    if k > 0 {
        lemma_ones_upto_update(blocks, j, w, (k - 1) as nat);
    }
}

/// Replacing one word changes the total count by that word's own change.
pub proof fn lemma_ones_update(blocks: Seq<u32>, j: int, w: u32)
    requires
        0 <= j < blocks.len(),
    ensures
        ones(blocks.update(j, w)) + popcount(blocks[j]) == ones(blocks) + popcount(w),
{
    lemma_ones_upto_update(blocks, j, w, blocks.len());
}

/// Appending a word adds its count.
pub proof fn lemma_ones_push(blocks: Seq<u32>, w: u32)
    ensures
        ones(blocks.push(w)) == ones(blocks) + popcount(w),
{
    lemma_ones_upto_agree(blocks.push(w), blocks, blocks.len());
    assert(word_at(blocks.push(w), blocks.len()) == w);
}

/// Shape of the id sequence below `n`: strictly ascending, bounded by `n`,
/// containing exactly the ids present in the word sequence.
pub proof fn lemma_bit_ids_props(blocks: Seq<u32>, n: nat)
    ensures
        strictly_sorted(bit_ids(blocks, n)),
        forall|k: int|
            0 <= k < bit_ids(blocks, n).len() ==> #[trigger] bit_ids(blocks, n)[k] < n && bit_of(
                blocks,
                bit_ids(blocks, n)[k],
            ),
        forall|id: nat| id < n && bit_of(blocks, id) ==> #[trigger] bit_ids(blocks, n).contains(id),
    decreases n,
{
    if n > 0 {
        let m = (n - 1) as nat;
        lemma_bit_ids_props(blocks, m);
        let prev = bit_ids(blocks, m);
        let cur = bit_ids(blocks, n);
        assert forall|id: nat| id < n && bit_of(blocks, id) implies #[trigger] cur.contains(id) by {
            if id < m {
                assert(prev.contains(id));
                let k = choose|k: int| 0 <= k < prev.len() && prev[k] == id;
                assert(cur[k] == id);
            } else {
                assert(bit_of(blocks, m));
                assert(cur[prev.len() as int] == id);
            }
        }
    }
}

/// The id sequence below `32 * j + t` has as many entries as there are set
/// bits in the first `j` words plus the low `t` bits of word `j`.
pub proof fn lemma_bit_ids_len(blocks: Seq<u32>, j: nat, t: nat)
    requires
        t <= 32,
    ensures
        bit_ids(blocks, 32 * j + t).len() == ones_upto(blocks, j) + count_bits(
            word_at(blocks, j),
            t,
        ),
    decreases j, t,
{
    if t == 0 {
        if j > 0 {
            lemma_bit_ids_len(blocks, (j - 1) as nat, 32);
            assert(32 * j + 0 == 32 * ((j - 1) as nat) + 32);
        }
    } else {
        lemma_bit_ids_len(blocks, j, (t - 1) as nat);
        let m = (32 * j + t - 1) as nat;
        lemma_div_mod_32(j, (t - 1) as nat);
        lemma_nth_bit_zero((t - 1) as nat);
        assert(bit_of(blocks, m) == nth_bit(word_at(blocks, j), (t - 1) as nat));
    }
}

/// The full id sequence has exactly as many entries as there are set bits.
pub proof fn lemma_all_ids_len(blocks: Seq<u32>)
    ensures
        all_ids(blocks).len() == ones(blocks),
{
    lemma_bit_ids_len(blocks, blocks.len(), 0);
}

/// The represented set is finite and its cardinality is the number of set
/// bits in the word sequence.
pub proof fn lemma_block_set_card(blocks: Seq<u32>)
    ensures
        block_set(blocks).finite(),
        block_set(blocks).len() == ones(blocks),
{
    let s = all_ids(blocks);
    let n = 32 * blocks.len();
    lemma_bit_ids_props(blocks, n);
    lemma_all_ids_len(blocks);
    assert(s.no_duplicates());
    s.unique_seq_to_set();
    assert forall|id: nat| block_set(blocks).contains(id) == s.to_set().contains(id) by {
        lemma_bit_of_bound(blocks, id);
        if s.contains(id) {
            let k = choose|k: int| 0 <= k < s.len() && s[k] == id;
            assert(bit_of(blocks, s[k]));
        }
    }
    assert(block_set(blocks) =~= s.to_set());
}

/// Two strictly ascending id sequences with the same members are equal.
pub proof fn lemma_sorted_unique(s: Seq<nat>, t: Seq<nat>)
    requires
        strictly_sorted(s),
        strictly_sorted(t),
        forall|id: nat| s.contains(id) == t.contains(id),
    ensures
        s == t,
    decreases s.len(),
{
    if s.len() == 0 {
        if t.len() > 0 {
            assert(t.contains(t[0]));
        }
        assert(s =~= t);
    } else {
        assert(s.contains(s[0]));
        assert(t.len() > 0) by {
            assert(t.contains(s[0]));
        }
        assert(s[0] == t[0]) by {
            let ks = choose|k: int| 0 <= k < t.len() && t[k] == s[0];
            assert(t.contains(t[0]));
            let kt = choose|k: int| 0 <= k < s.len() && s[k] == t[0];
            assert(t[0] <= t[ks]);
            assert(s[0] <= s[kt]);
        }
        let s1 = s.drop_first();
        let t1 = t.drop_first();
        assert forall|id: nat| s1.contains(id) == (s.contains(id) && id != s[0]) by {
            lemma_drop_first_contains(s, id);
        }
        assert forall|id: nat| t1.contains(id) == (t.contains(id) && id != t[0]) by {
            lemma_drop_first_contains(t, id);
        }
        lemma_sorted_unique(s1, t1);
        assert forall|i: int| 0 <= i < s.len() implies s[i] == t[i] by {
            if i > 0 {
                assert(s1[i - 1] == t1[i - 1]);
            }
        }
        assert(s =~= t);
    }
}

/// Dropping the head of a strictly ascending sequence removes exactly the
/// head from its members.
pub proof fn lemma_drop_first_contains(s: Seq<nat>, id: nat)
    requires
        strictly_sorted(s),
        s.len() > 0,
    ensures
        s.drop_first().contains(id) == (s.contains(id) && id != s[0]),
{
    let s1 = s.drop_first();
    if s1.contains(id) {
        let k = choose|k: int| 0 <= k < s1.len() && s1[k] == id;
        assert(s[k + 1] == id);
        assert(s.contains(id));
        assert(s[0] < s[k + 1]);
    }
    if s.contains(id) && id != s[0] {
        let k = choose|k: int| 0 <= k < s.len() && s[k] == id;
        assert(k > 0);
        assert(s1[k - 1] == id);
        assert(s1.contains(id));
    }
}

/// The ascending sequence of set bit positions of one word.
pub open spec fn word_ids(w: u32) -> Seq<nat> {
    bit_ids(seq![w], 32)
}

/// Every id of a sequence raised by `k`, order kept.
pub open spec fn shift_ids(s: Seq<nat>, k: nat) -> Seq<nat> {
    Seq::new(s.len(), |i: int| (s[i] + k) as nat)
}

/// Membership in a shifted id sequence.
pub proof fn lemma_shift_contains(s: Seq<nat>, k: nat, y: nat)
    ensures
        shift_ids(s, k).contains(y) == (y >= k && s.contains((y - k) as nat)),
{
    if shift_ids(s, k).contains(y) {
        let i = choose|i: int| 0 <= i < s.len() && shift_ids(s, k)[i] == y;
        assert(s[i] == (y - k) as nat);
    }
    if y >= k && s.contains((y - k) as nat) {
        let i = choose|i: int| 0 <= i < s.len() && s[i] == (y - k) as nat;
        assert(shift_ids(s, k)[i] == y);
    }
}

/// Membership in a concatenation of id sequences.
pub proof fn lemma_concat_contains(a: Seq<nat>, b: Seq<nat>, y: nat)
    ensures
        (a + b).contains(y) == (a.contains(y) || b.contains(y)),
{
    if (a + b).contains(y) {
        let i = choose|i: int| 0 <= i < (a + b).len() && (a + b)[i] == y;
        if i < a.len() {
            assert(a[i] == y);
        } else {
            assert(b[i - a.len()] == y);
        }
    }
    if a.contains(y) {
        let i = choose|i: int| 0 <= i < a.len() && a[i] == y;
        assert((a + b)[i] == y);
    }
    if b.contains(y) {
        let i = choose|i: int| 0 <= i < b.len() && b[i] == y;
        assert((a + b)[a.len() + i] == y);
    }
}

/// Shape of the set bit positions of one word: strictly ascending, below 32,
/// exactly the set bits, and as many as the population count.
pub proof fn lemma_word_ids_props(w: u32)
    ensures
        strictly_sorted(word_ids(w)),
        word_ids(w).len() == popcount(w),
        forall|k: int|
            0 <= k < word_ids(w).len() ==> #[trigger] word_ids(w)[k] < 32 && nth_bit(
                w,
                word_ids(w)[k],
            ),
        forall|b: nat| nth_bit(w, b) ==> #[trigger] word_ids(w).contains(b),
{
    let s = seq![w];
    lemma_bit_ids_props(s, 32);
    lemma_bit_ids_len(s, 0, 32);
    assert(word_at(s, 0) == w);
    assert forall|b: nat| #[trigger] bit_of(s, b) == nth_bit(w, b) by {
        if b < 32 {
            lemma_div_mod_32(0, b);
        }
    }
}

/// The id sequence of an empty word sequence is empty.
pub proof fn lemma_all_ids_empty()
    ensures
        all_ids(Seq::<u32>::empty()) == Seq::<nat>::empty(),
{
    assert(all_ids(Seq::<u32>::empty()) =~= Seq::<nat>::empty());
}

/// Splitting an id at or past 32 into the first word's width and the rest.
pub proof fn lemma_div_mod_past_32(id: nat)
    requires
        id >= 32,
    ensures
        id / 32 == 1 + (id - 32) as nat / 32,
        id % 32 == (id - 32) as nat % 32,
{
    assert(id / 32 == 1 + (id - 32) / 32 && id % 32 == (id - 32) % 32) by (nonlinear_arith)
        requires
            id >= 32,
    ;
}

/// The id sequence of a word sequence is the bits of its first word followed
/// by the id sequence of the rest, raised by one word width.
pub proof fn lemma_all_ids_cons(blocks: Seq<u32>)
    requires
        blocks.len() > 0,
    ensures
        all_ids(blocks) == word_ids(blocks[0]) + shift_ids(all_ids(blocks.drop_first()), 32),
{
    let rest = blocks.drop_first();
    let left = all_ids(blocks);
    let a = word_ids(blocks[0]);
    let b = shift_ids(all_ids(rest), 32);
    let right = a + b;
    lemma_bit_ids_props(blocks, 32 * blocks.len());
    lemma_bit_ids_props(rest, 32 * rest.len());
    lemma_word_ids_props(blocks[0]);
    assert(strictly_sorted(right)) by {
        assert forall|p: int, q: int| 0 <= p < q < right.len() implies right[p] < right[q] by {
            if p >= a.len() {
                assert(b[p - a.len()] < b[q - a.len()]) by {
                    assert(all_ids(rest)[p - a.len()] < all_ids(rest)[q - a.len()]);
                }
            } else if q >= a.len() {
                assert(right[p] == a[p] && a[p] < 32);
                assert(right[q] == b[q - a.len()] && b[q - a.len()] >= 32);
            }
        }
    }
    assert forall|y: nat| left.contains(y) == right.contains(y) by {
        lemma_concat_contains(a, b, y);
        lemma_shift_contains(all_ids(rest), 32, y);
        lemma_bit_of_bound(blocks, y);
        lemma_bit_of_bound(rest, (y - 32) as nat);
        if y < 32 {
            lemma_div_mod_32(0, y);
            assert(bit_of(blocks, y) == nth_bit(blocks[0], y));
        } else {
            lemma_div_mod_past_32(y);
            assert(bit_of(blocks, y) == bit_of(rest, (y - 32) as nat)) by {
                assert(word_at(blocks, y / 32) == word_at(rest, (y - 32) as nat / 32));
            }
        }
        if left.contains(y) {
            let i = choose|i: int| 0 <= i < left.len() && left[i] == y;
            assert(bit_of(blocks, left[i]));
        }
        if a.contains(y) {
            let i = choose|i: int| 0 <= i < a.len() && a[i] == y;
            assert(nth_bit(blocks[0], a[i]));
        }
        if all_ids(rest).contains((y - 32) as nat) {
            let i = choose|i: int|
                0 <= i < all_ids(rest).len() && all_ids(rest)[i] == (y - 32) as nat;
            assert(bit_of(rest, all_ids(rest)[i]));
        }
        if bit_of(blocks, y) {
            assert(left.contains(y));
            if y < 32 {
                assert(a.contains(y));
            } else {
                assert(bit_of(rest, (y - 32) as nat));
            }
        }
    }
    lemma_sorted_unique(left, right);
}

/// The bit count is bounded by the number of positions counted.
pub proof fn lemma_count_bits_bound(w: u32, n: nat)
    ensures
        count_bits(w, n) <= n,
    decreases n,
{
    if n > 0 {
        lemma_count_bits_bound(w, (n - 1) as nat);
    }
}

/// The count over a prefix of words is bounded by its bit width.
pub proof fn lemma_ones_upto_bound(blocks: Seq<u32>, k: nat)
    ensures
        ones_upto(blocks, k) <= 32 * k,
    decreases k,
{
    if k > 0 {
        lemma_ones_upto_bound(blocks, (k - 1) as nat);
        lemma_count_bits_bound(word_at(blocks, (k - 1) as nat), 32);
    }
}

/// A sequence of zero words has no set bits.
pub proof fn lemma_ones_upto_zero(blocks: Seq<u32>, k: nat)
    requires
        forall|i: nat| word_at(blocks, i) == 0u32,
    ensures
        ones_upto(blocks, k) == 0,
    decreases k,
{
    if k > 0 {
        lemma_ones_upto_zero(blocks, (k - 1) as nat);
        lemma_count_bits_zero(32);
    }
}

/// Counting past the end of the words adds nothing.
pub proof fn lemma_ones_beyond(blocks: Seq<u32>, k: nat)
    requires
        k >= blocks.len(),
    ensures
        ones_upto(blocks, k) == ones(blocks),
    decreases k,
{
    if k > blocks.len() {
        lemma_ones_beyond(blocks, (k - 1) as nat);
        lemma_count_bits_zero(32);
    }
}

/// Word sequences that read the same everywhere have the same count.
pub proof fn lemma_ones_agree(a: Seq<u32>, b: Seq<u32>)
    requires
        forall|i: nat| word_at(a, i) == word_at(b, i),
    ensures
        ones(a) == ones(b),
{
    let m = if a.len() >= b.len() {
        a.len()
    } else {
        b.len()
    };
    lemma_ones_beyond(a, m);
    lemma_ones_beyond(b, m);
    lemma_ones_upto_agree(a, b, m);
}

/// Word sequences that read the same everywhere hold the same ids.
pub proof fn lemma_bit_of_agree(a: Seq<u32>, b: Seq<u32>)
    requires
        forall|i: nat| word_at(a, i) == word_at(b, i),
    ensures
        forall|id: nat| #[trigger] bit_of(a, id) == bit_of(b, id),
        block_set(a) == block_set(b),
{
    assert forall|id: nat| #[trigger] bit_of(a, id) == bit_of(b, id) by {
        lemma_nth_bit_zero(id % 32);
        assert(word_at(a, id / 32) == word_at(b, id / 32));
    }
    assert(block_set(a) =~= block_set(b));
}

/// The total count splits at any word boundary.
pub proof fn lemma_ones_split(blocks: Seq<u32>, k: nat)
    requires
        k <= blocks.len(),
    ensures
        ones(blocks) == ones_upto(blocks, k) + ones(blocks.skip(k as int)),
{
    let rest = blocks.skip(k as int);
    lemma_ones_split_helper(blocks, k, rest.len());
}

/// Counting `j` words past the boundary `k` matches counting `j` words of
/// the tail.
proof fn lemma_ones_split_helper(blocks: Seq<u32>, k: nat, j: nat)
    requires
        k <= blocks.len(),
    ensures
        ones_upto(blocks, k + j) == ones_upto(blocks, k) + ones_upto(blocks.skip(k as int), j),
    decreases j,
{
    if j > 0 {
        lemma_ones_split_helper(blocks, k, (j - 1) as nat);
        assert(word_at(blocks, (k + j - 1) as nat) == word_at(
            blocks.skip(k as int),
            (j - 1) as nat,
        ));
    }
}

/// The total count is at least any single word's count.
pub proof fn lemma_ones_at_least_word(blocks: Seq<u32>, i: nat)
    requires
        i < blocks.len(),
    ensures
        ones(blocks) >= popcount(blocks[i as int]),
{
    lemma_ones_split(blocks, i);
    let s = blocks.skip(i as int);
    assert(word_at(s, 0) == blocks[i as int]);
    assert(ones_upto(s, 0) == 0);
    assert(ones_upto(s, 1) == popcount(word_at(s, 0)));
    lemma_ones_upto_mono(s, 1, s.len());
}

/// Counting more positions never counts less.
pub proof fn lemma_ones_upto_mono(blocks: Seq<u32>, j: nat, k: nat)
    requires
        j <= k,
    ensures
        ones_upto(blocks, j) <= ones_upto(blocks, k),
    decreases k,
{
    if j < k {
        lemma_ones_upto_mono(blocks, j, (k - 1) as nat);
    }
}

/// The all-ones word has `n` bits among its low `n` positions.
pub proof fn lemma_count_bits_full(n: nat)
    requires
        n <= 32,
    ensures
        count_bits(!0u32, n) == n,
    decreases n,
{
    if n > 0 {
        lemma_count_bits_full((n - 1) as nat);
        lemma_bit_full((n - 1) as nat);
    }
}

/// The low mask with `k` bits has `min(n, k)` bits among its low `n`
/// positions.
pub proof fn lemma_count_bits_low_mask(k: nat, n: nat)
    requires
        k < 32,
        n <= 32,
    ensures
        count_bits(low_mask(k), n) == if n <= k {
            n
        } else {
            k
        },
    decreases n,
{
    if n > 0 {
        lemma_count_bits_low_mask(k, (n - 1) as nat);
        lemma_bit_low_mask(k, (n - 1) as nat);
    }
}

/// A single-bit mask is at least one.
pub proof fn lemma_mask_pos(b: nat)
    requires
        b < 32,
    ensures
        1u32 << (b as u32) >= 1,
        low_mask(b) == (1u32 << (b as u32)) - 1,
{
    let k = b as u32;
    assert(1u32 << k >= 1) by (bit_vector)
        requires
            k < 32,
    ;
}

/// Testing a bit with a mask agrees with reading the bit.
pub proof fn lemma_bit_test(w: u32, b: nat)
    requires
        b < 32,
    ensures
        (w & (1u32 << (b as u32)) != 0) == nth_bit(w, b),
{
    let k = b as u32;
    assert((w & (1u32 << k) != 0) == ((w >> k) & 1u32 == 1u32)) by (bit_vector)
        requires
            k < 32,
    ;
}

/// Adding the part of one word outside another gives their OR.
pub proof fn lemma_or_absorb(l: u32, r: u32)
    ensures
        l | (r & !l) == (l | r),
{
    assert(l | (r & !l) == (l | r)) by (bit_vector);
}

/// Splitting an id into word and bit index.
pub proof fn lemma_id_split(id: nat)
    ensures
        id == 32 * (id / 32) + id % 32,
        id % 32 < 32,
{
    assert(id == 32 * (id / 32) + id % 32 && id % 32 < 32) by (nonlinear_arith);
}

/// A nonzero word has a set bit.
pub proof fn lemma_exists_bit(w: u32)
    requires
        w != 0,
    ensures
        exists|j: nat| nth_bit(w, j),
{
    if forall|j: nat| !nth_bit(w, j) {
        lemma_no_bits_zero(w);
    }
}

/// Executable population count of one word, proved against `popcount`.
pub fn word_ones(w: u32) -> (c: u32)
    ensures
        c as nat == popcount(w),
        c <= 32,
{
    let mut c: u32 = 0;
    let mut i: u32 = 0;
    while i < 32
        invariant
            i <= 32,
            c <= i,
            c as nat == count_bits(w, i as nat),
        decreases 32 - i,
    {
        if (w >> i) & 1 == 1 {
            c = c + 1;
        }
        i = i + 1;
    }
    c
}

} // verus!

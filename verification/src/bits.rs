//! Sets of small numbers packed into 64-bit words, and the facts about word
//! operations that the solvers rely on.

use vstd::prelude::*;

verus! {

/// Word `j` of the run of words of `s` that starts at `base`.
pub open spec fn at(s: Seq<u64>, base: int, j: int) -> u64 {
    s[base + j]
}

/// Whether bit `i` of `w` is set.
pub open spec fn bit(w: u64, i: int) -> bool {
    0 <= i < 64 && (w >> (i as u64)) & 1u64 == 1u64
}

/// The positions of the set bits of `w`.
pub open spec fn word_set(w: u64) -> Set<int> {
    Set::new(|i: int| bit(w, i))
}

/// The numbers held by the run of `words` words of `s` that starts at `base`:
/// number `p` is held when bit `p % 64` of word `base + p / 64` is set.
pub open spec fn region(s: Seq<u64>, base: int, words: int) -> Set<int> {
    Set::new(|p: int| 0 <= p < 64 * words && bit(s[base + p / 64], p % 64))
}

/// The numbers below `n` held by the run of words of `s` that starts at `base`.
pub open spec fn region_below(s: Seq<u64>, base: int, n: int) -> Set<int> {
    Set::new(|p: int| 0 <= p < n && bit(s[base + p / 64], p % 64))
}

/// How many of the first `n` bits of `w` are set.
pub open spec fn pop(w: u64, n: int) -> nat
    decreases n,
{
    if n <= 0 {
        0
    } else {
        pop(w, n - 1) + if bit(w, n - 1) {
            1nat
        } else {
            0nat
        }
    }
}

/// How many of the numbers below `n` the run of words of `s` at `base` holds.
pub open spec fn bits_count(s: Seq<u64>, base: int, n: int) -> nat
    decreases n,
{
    if n <= 0 {
        0
    } else {
        bits_count(s, base, n - 1) + if bit(s[base + (n - 1) / 64], (n - 1) % 64) {
            1nat
        } else {
            0nat
        }
    }
}

proof fn lemma_bit_or(a: u64, b: u64, i: u64)
    by (bit_vector)
    requires
        i < 64,
    ensures
        ((a | b) >> i) & 1u64 == 1u64 <==> ((a >> i) & 1u64 == 1u64 || (b >> i) & 1u64 == 1u64),
{
}

proof fn lemma_bit_and(a: u64, b: u64, i: u64)
    by (bit_vector)
    requires
        i < 64,
    ensures
        ((a & b) >> i) & 1u64 == 1u64 <==> ((a >> i) & 1u64 == 1u64 && (b >> i) & 1u64 == 1u64),
{
}

proof fn lemma_bit_not(a: u64, i: u64)
    by (bit_vector)
    requires
        i < 64,
    ensures
        ((!a) >> i) & 1u64 == 1u64 <==> !((a >> i) & 1u64 == 1u64),
{
}

proof fn lemma_bit_xor(a: u64, b: u64, i: u64)
    by (bit_vector)
    requires
        i < 64,
    ensures
        ((a ^ b) >> i) & 1u64 == 1u64 <==> ((a >> i) & 1u64 == 1u64) != ((b >> i) & 1u64 == 1u64),
{
}

proof fn lemma_bit_single(k: u64, i: u64)
    by (bit_vector)
    requires
        i < 64,
        k < 64,
    ensures
        ((1u64 << k) >> i) & 1u64 == 1u64 <==> i == k,
{
}

proof fn lemma_bit_zero_max(i: u64)
    by (bit_vector)
    requires
        i < 64,
    ensures
        !((0u64 >> i) & 1u64 == 1u64),
        (0xffff_ffff_ffff_ffffu64 >> i) & 1u64 == 1u64,
{
}

/// How the word operations act on single bits.
pub proof fn lemma_bit_ops()
    ensures
        forall|a: u64, b: u64, i: int| #[trigger] bit(a | b, i) == (bit(a, i) || bit(b, i)),
        forall|a: u64, b: u64, i: int| #[trigger] bit(a & b, i) == (bit(a, i) && bit(b, i)),
        forall|a: u64, b: u64, i: int|
            0 <= i < 64 ==> #[trigger] bit(a ^ b, i) == (bit(a, i) != bit(b, i)),
        forall|a: u64, i: int| 0 <= i < 64 ==> #[trigger] bit(!a, i) == !bit(a, i),
        forall|k: u64, i: int| k < 64 ==> #[trigger] bit(1u64 << k, i) == (i == k),
        forall|i: int| !#[trigger] bit(0u64, i),
        forall|i: int| 0 <= i < 64 ==> #[trigger] bit(0xffff_ffff_ffff_ffffu64, i),
{
    assert forall|a: u64, b: u64, i: int| #[trigger] bit(a | b, i) == (bit(a, i) || bit(b, i)) by {
        if 0 <= i < 64 {
            lemma_bit_or(a, b, i as u64);
        }
    }
    assert forall|a: u64, b: u64, i: int| #[trigger] bit(a & b, i) == (bit(a, i) && bit(b, i)) by {
        if 0 <= i < 64 {
            lemma_bit_and(a, b, i as u64);
        }
    }
    assert forall|a: u64, b: u64, i: int|
        0 <= i < 64 implies #[trigger] bit(a ^ b, i) == (bit(a, i) != bit(b, i)) by {
        lemma_bit_xor(a, b, i as u64);
    }
    assert forall|a: u64, i: int| 0 <= i < 64 implies #[trigger] bit(!a, i) == !bit(a, i) by {
        lemma_bit_not(a, i as u64);
    }
    assert forall|k: u64, i: int| k < 64 implies #[trigger] bit(1u64 << k, i) == (i == k) by {
        if 0 <= i < 64 {
            lemma_bit_single(k, i as u64);
        }
    }
    assert forall|i: int| !#[trigger] bit(0u64, i) by {
        if 0 <= i < 64 {
            lemma_bit_zero_max(i as u64);
        }
    }
    assert forall|i: int| 0 <= i < 64 implies #[trigger] bit(0xffff_ffff_ffff_ffffu64, i) by {
        lemma_bit_zero_max(i as u64);
    }
}

proof fn lemma_shift_and_one(w: u64, i: u64)
    by (bit_vector)
    requires
        i < 64,
    ensures
        (w >> i) & 1u64 == 0u64 || (w >> i) & 1u64 == 1u64,
{
}

proof fn lemma_clear_lower(t: u64, k: u64)
    by (bit_vector)
    requires
        k < 64,
        (t >> k) & 1u64 == 1u64,
    ensures
        t & !(1u64 << k) < t,
{
}

/// Clearing a set bit makes a word smaller.
pub proof fn lemma_clear_bit_smaller(t: u64, k: u64)
    requires
        k < 64,
        bit(t, k as int),
    ensures
        t & !(1u64 << k) < t,
{
    lemma_clear_lower(t, k);
}

/// The lowest set bit of a non-zero word is the count of its trailing zeros.
pub proof fn lemma_trailing_zeros(t: u64)
    requires
        t != 0,
    ensures
        t.trailing_zeros() < 64,
        bit(t, t.trailing_zeros() as int),
        forall|j: int| 0 <= j < t.trailing_zeros() ==> !bit(t, j),
{
    vstd::std_specs::bits::axiom_u64_trailing_zeros(t);
    let tz = t.trailing_zeros();
    assert forall|j: int| 0 <= j < tz implies !bit(t, j) by {
        let jj = j as u64;
        assert((t >> jj) & 1u64 == 0u64);
    }
}

/// A word with no set bit is zero, and a non-zero word has a set bit.
pub proof fn lemma_zero_iff_no_bits(t: u64)
    ensures
        t == 0 <==> forall|j: int| !#[trigger] bit(t, j),
{
    lemma_bit_ops();
    if t != 0 {
        lemma_trailing_zeros(t);
    }
}

/// The first `n` bits of `w` are counted by `pop`.
pub proof fn lemma_pop_card(w: u64, n: int)
    requires
        0 <= n <= 64,
    ensures
        pop(w, n) == Set::new(|i: int| 0 <= i < n && bit(w, i)).len(),
        Set::new(|i: int| 0 <= i < n && bit(w, i)).finite(),
    decreases n,
{
    let s = Set::new(|i: int| 0 <= i < n && bit(w, i));
    if n == 0 {
        assert(s =~= Set::empty());
    } else {
        lemma_pop_card(w, n - 1);
        let s0 = Set::new(|i: int| 0 <= i < n - 1 && bit(w, i));
        if bit(w, n - 1) {
            assert(s =~= s0.insert(n - 1));
        } else {
            assert(s =~= s0);
        }
    }
}

/// Counting bits across a word boundary: the bits below `64 * b + i` are those
/// below `64 * b` plus the first `i` bits of word `b`.
pub proof fn lemma_bits_count_word(s: Seq<u64>, base: int, b: int, i: int)
    requires
        0 <= b,
        0 <= i <= 64,
    ensures
        bits_count(s, base, 64 * b + i) == bits_count(s, base, 64 * b) + pop(s[base + b], i),
    decreases i,
{
    if i > 0 {
        lemma_bits_count_word(s, base, b, i - 1);
        assert((64 * b + i - 1) / 64 == b);
        assert((64 * b + i - 1) % 64 == i - 1);
    }
}

/// `bits_count` counts the numbers below `n` that the region holds.
pub proof fn lemma_bits_count_card(s: Seq<u64>, base: int, n: int)
    requires
        0 <= n,
    ensures
        bits_count(s, base, n) == region_below(s, base, n).len(),
        region_below(s, base, n).finite(),
    decreases n,
{
    let r = region_below(s, base, n);
    if n == 0 {
        assert(r =~= Set::empty());
    } else {
        lemma_bits_count_card(s, base, n - 1);
        let r0 = region_below(s, base, n - 1);
        if bit(s[base + (n - 1) / 64], (n - 1) % 64) {
            assert(r =~= r0.insert(n - 1));
        } else {
            assert(r =~= r0);
        }
    }
}

/// Counts the set bits of `w`.
pub fn count_ones(w: u64) -> (r: u32)
    ensures
        r == pop(w, 64),
        r <= 64,
{
    let mut c: u32 = 0;
    let mut i: u64 = 0;
    while i < 64
        invariant
            i <= 64,
            c == pop(w, i as int),
            c <= i,
        decreases 64 - i,
    {
        proof {
            lemma_shift_and_one(w, i);
        }
        if (w >> i) & 1 == 1 {
            c = c + 1;
        }
        i = i + 1;
    }
    c
}


/// A region depends only on its own words.
pub proof fn lemma_region_frame(s1: Seq<u64>, s2: Seq<u64>, base: int, words: int)
    requires
        forall|b: int| 0 <= b < words ==> #[trigger] at(s1, base, b) == at(s2, base, b),
    ensures
        region(s1, base, words) == region(s2, base, words),
{
    assert forall|p: int| region(s1, base, words).contains(p) <==> region(s2, base, words).contains(p) by {
        if 0 <= p < 64 * words {
            assert(0 <= p / 64 < words);
            assert(at(s1, base, p / 64) == at(s2, base, p / 64));
        }
    }
    assert(region(s1, base, words) =~= region(s2, base, words));
}

/// Setting the bit of `p` in its word adds `p` to the region.
pub proof fn lemma_region_set_bit(s: Seq<u64>, base: int, words: int, p: int)
    requires
        0 <= p < 64 * words,
        0 <= base,
        base + words <= s.len(),
    ensures
        ({
            let k = base + p / 64;
            region(s.update(k, s[k] | (1u64 << ((p % 64) as u64))), base, words) == region(
                s,
                base,
                words,
            ).insert(p)
        }),
{
    lemma_bit_ops();
    let k = base + p / 64;
    let s2 = s.update(k, s[k] | (1u64 << ((p % 64) as u64)));
    assert forall|q: int| region(s2, base, words).contains(q) <==> region(s, base, words).insert(p).contains(q) by {
        if 0 <= q < 64 * words {
            if q / 64 == p / 64 {
                assert(bit(s2[base + q / 64], q % 64) == (bit(s[base + q / 64], q % 64) || q % 64 == p % 64));
            } else {
                assert(s2[base + q / 64] == s[base + q / 64]);
            }
        }
    }
    assert(region(s2, base, words) =~= region(s, base, words).insert(p));
}

/// Clearing the bit of `p` in its word removes `p` from the region.
pub proof fn lemma_region_clear_bit(s: Seq<u64>, base: int, words: int, p: int)
    requires
        0 <= p < 64 * words,
        0 <= base,
        base + words <= s.len(),
    ensures
        ({
            let k = base + p / 64;
            region(s.update(k, s[k] & !(1u64 << ((p % 64) as u64))), base, words) == region(
                s,
                base,
                words,
            ).remove(p)
        }),
{
    lemma_bit_ops();
    let k = base + p / 64;
    let s2 = s.update(k, s[k] & !(1u64 << ((p % 64) as u64)));
    assert forall|q: int| region(s2, base, words).contains(q) <==> region(s, base, words).remove(p).contains(q) by {
        if 0 <= q < 64 * words {
            if q / 64 == p / 64 {
                assert(bit(s2[base + q / 64], q % 64) == (bit(s[base + q / 64], q % 64) && q % 64 != p % 64));
            } else {
                assert(s2[base + q / 64] == s[base + q / 64]);
            }
        }
    }
    assert(region(s2, base, words) =~= region(s, base, words).remove(p));
}

/// Word by word `and not` of two regions is set difference.
pub proof fn lemma_region_and_not(
    out: Seq<u64>,
    dst: int,
    a: Seq<u64>,
    abase: int,
    b: Seq<u64>,
    bbase: int,
    words: int,
)
    requires
        forall|j: int| 0 <= j < words ==> #[trigger] at(out, dst, j) == at(a, abase, j) & !at(b, bbase, j),
    ensures
        region(out, dst, words) == region(a, abase, words).difference(region(b, bbase, words)),
{
    lemma_bit_ops();
    assert forall|q: int| region(out, dst, words).contains(q) <==> region(a, abase, words).difference(region(b, bbase, words)).contains(q) by {
        if 0 <= q < 64 * words {
            assert(0 <= q / 64 < words);
            assert(at(out, dst, q / 64) == at(a, abase, q / 64) & !at(b, bbase, q / 64));
        }
    }
    assert(region(out, dst, words) =~= region(a, abase, words).difference(region(b, bbase, words)));
}

/// Word by word `or` of two regions is union.
pub proof fn lemma_region_or(
    out: Seq<u64>,
    dst: int,
    a: Seq<u64>,
    abase: int,
    b: Seq<u64>,
    bbase: int,
    words: int,
)
    requires
        forall|j: int| 0 <= j < words ==> #[trigger] at(out, dst, j) == at(a, abase, j) | at(b, bbase, j),
    ensures
        region(out, dst, words) == region(a, abase, words).union(region(b, bbase, words)),
{
    lemma_bit_ops();
    assert forall|q: int| region(out, dst, words).contains(q) <==> region(a, abase, words).union(region(b, bbase, words)).contains(q) by {
        if 0 <= q < 64 * words {
            assert(0 <= q / 64 < words);
            assert(at(out, dst, q / 64) == at(a, abase, q / 64) | at(b, bbase, q / 64));
        }
    }
    assert(region(out, dst, words) =~= region(a, abase, words).union(region(b, bbase, words)));
}

/// A region holds exactly the numbers below its bit count.
pub proof fn lemma_region_is_below(s: Seq<u64>, base: int, words: int)
    requires
        0 <= words,
    ensures
        region(s, base, words) == region_below(s, base, 64 * words),
        region(s, base, words).finite(),
        region(s, base, words).len() == bits_count(s, base, 64 * words),
{
    assert(region(s, base, words) =~= region_below(s, base, 64 * words));
    lemma_bits_count_card(s, base, 64 * words);
}

/// Words with the same bits are equal.
pub proof fn lemma_bits_equal(x: u64, y: u64)
    requires
        forall|i: int| 0 <= i < 64 ==> bit(x, i) == bit(y, i),
    ensures
        x == y,
{
    lemma_bit_ops();
    assert forall|i: int| !#[trigger] bit(x ^ y, i) by {
        if 0 <= i < 64 {
            assert(bit(x ^ y, i) == (bit(x, i) != bit(y, i)));
        }
    }
    lemma_zero_iff_no_bits(x ^ y);
    assert(x == y) by (bit_vector)
        requires x ^ y == 0u64;
}

/// Runs of words that hold the same numbers are equal word by word.
pub proof fn lemma_region_words(s1: Seq<u64>, s2: Seq<u64>, base: int, words: int, j: int)
    requires
        region(s1, base, words) == region(s2, base, words),
        0 <= j < words,
    ensures
        s1[base + j] == s2[base + j],
{
    assert forall|i: int| 0 <= i < 64 implies #[trigger] bit(s1[base + j], i) == bit(s2[base + j], i) by {
        lemma_region_word(s1, base, words, j, i);
        lemma_region_word(s2, base, words, j, i);
    }
    lemma_bits_equal(s1[base + j], s2[base + j]);
}

/// The numbers of word `j` of a region are those of the word, shifted.
pub proof fn lemma_region_word(s: Seq<u64>, base: int, words: int, j: int, i: int)
    requires
        0 <= j < words,
        0 <= i < 64,
    ensures
        region(s, base, words).contains(64 * j + i) == bit(s[base + j], i),
{
    assert((64 * j + i) / 64 == j);
    assert((64 * j + i) % 64 == i);
}


proof fn lemma_low_mask_bv(k: u64, i: u64)
    by (bit_vector)
    requires
        k < 64,
        i < 64,
    ensures
        ((((1u64 << k) - 1u64) as u64 >> i) & 1u64) == 1u64 <==> i < k,
{
}

/// The word `(1 << k) - 1` holds the numbers below `k`.
pub proof fn lemma_low_mask(k: u64)
    requires
        k < 64,
    ensures
        forall|i: int| #[trigger] bit(((1u64 << k) - 1u64) as u64, i) == (0 <= i < k),
{
    assert forall|i: int| #[trigger] bit(((1u64 << k) - 1u64) as u64, i) == (0 <= i < k) by {
        if 0 <= i < 64 {
            lemma_low_mask_bv(k, i as u64);
        }
    }
}


/// Clearing a set bit lowers the count of set bits by one.
pub proof fn lemma_pop_clear(x: u64, k: u64)
    requires
        k < 64,
        bit(x, k as int),
    ensures
        pop(x & !(1u64 << k), 64) + 1 == pop(x, 64),
{
    lemma_bit_ops();
    let y = x & !(1u64 << k);
    lemma_pop_card(x, 64);
    lemma_pop_card(y, 64);
    let sx = Set::new(|i: int| 0 <= i < 64 && bit(x, i));
    let sy = Set::new(|i: int| 0 <= i < 64 && bit(y, i));
    assert(sy =~= sx.remove(k as int));
}

/// At most all 64 bits of a word are set.
pub proof fn lemma_pop_le(x: u64, n: int)
    requires
        0 <= n,
    ensures
        pop(x, n) <= n,
    decreases n,
{
    if n > 0 {
        lemma_pop_le(x, n - 1);
    }
}


/// A run of `words` words holds at most `64 * words` numbers.
pub proof fn lemma_region_len(s: Seq<u64>, base: int, words: int)
    requires
        0 <= words,
    ensures
        region(s, base, words).finite(),
        region(s, base, words).len() <= 64 * words,
{
    lemma_region_is_below(s, base, words);
    lemma_bits_count_le(s, base, 64 * words);
}

proof fn lemma_bits_count_le(s: Seq<u64>, base: int, n: int)
    requires
        0 <= n,
    ensures
        bits_count(s, base, n) <= n,
    decreases n,
{
    if n > 0 {
        lemma_bits_count_le(s, base, n - 1);
    }
}

} // verus!

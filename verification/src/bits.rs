use vstd::prelude::*;

verus! {

/// Bit `j` of the word `w`.
pub open spec fn bit(w: u64, j: int) -> bool {
    (w >> (j as u64)) & 1u64 == 1u64
}

/// The bits of a sequence of words, 64 per word, lowest bit first.
pub open spec fn word_bits(ws: Seq<u64>) -> Seq<bool> {
    Seq::new(64 * ws.len(), |i: int| bit(ws[i / 64], i % 64))
}

/// The bits of one word, lowest first.
pub open spec fn bits_of(w: u64) -> Seq<bool> {
    Seq::new(64, |j: int| bit(w, j))
}

/// The number of `true` entries of `s`.
pub open spec fn true_count(s: Seq<bool>) -> nat
    decreases s.len(),
{
    if s.len() == 0 {
        0
    } else {
        true_count(s.drop_last()) + if s.last() {
            1nat
        } else {
            0nat
        }
    }
}

/// The number of set bits of `w`.
pub open spec fn popcount(w: u64) -> nat {
    true_count(bits_of(w))
}

/// The positions of the `true` entries of `s`, in increasing order.
pub open spec fn ones_of(s: Seq<bool>) -> Seq<usize>
    decreases s.len(),
{
    if s.len() == 0 {
        Seq::empty()
    } else if s.last() {
        ones_of(s.drop_last()).push((s.len() - 1) as usize)
    } else {
        ones_of(s.drop_last())
    }
}

/// Calls `u64::count_ones`, which returns the number of ones in the binary representation.
#[verifier::external_body]
pub(crate) fn u64_count_ones(x: u64) -> (r: u32)
    ensures
        r == popcount(x),
{
    x.count_ones()
}

// ---------------------------------------------------------------------------------------------
// Single-bit facts

pub proof fn lemma_bit_and(a: u64, b: u64, j: u64)
    by (bit_vector)
    requires
        j < 64,
    ensures
        ((a & b) >> j) & 1u64 == 1u64 <==> ((a >> j) & 1u64 == 1u64 && (b >> j) & 1u64 == 1u64),
{
}

pub proof fn lemma_bit_or(a: u64, b: u64, j: u64)
    by (bit_vector)
    requires
        j < 64,
    ensures
        ((a | b) >> j) & 1u64 == 1u64 <==> ((a >> j) & 1u64 == 1u64 || (b >> j) & 1u64 == 1u64),
{
}

pub proof fn lemma_bit_xor(a: u64, b: u64, j: u64)
    by (bit_vector)
    requires
        j < 64,
    ensures
        ((a ^ b) >> j) & 1u64 == 1u64 <==> ((a >> j) & 1u64 == 1u64) != ((b >> j) & 1u64 == 1u64),
{
}

pub proof fn lemma_bit_and_not(a: u64, b: u64, j: u64)
    by (bit_vector)
    requires
        j < 64,
    ensures
        ((a & !b) >> j) & 1u64 == 1u64 <==> ((a >> j) & 1u64 == 1u64 && !((b >> j) & 1u64
            == 1u64)),
{
}

pub proof fn lemma_bit_not(a: u64, j: u64)
    by (bit_vector)
    requires
        j < 64,
    ensures
        ((!a) >> j) & 1u64 == 1u64 <==> !((a >> j) & 1u64 == 1u64),
{
}

pub proof fn lemma_bit_single(k: u64, j: u64)
    by (bit_vector)
    requires
        j < 64,
        k < 64,
    ensures
        (((1u64 << k) >> j) & 1u64 == 1u64) <==> j == k,
{
}

pub proof fn lemma_bit_low_mask(k: u64, j: u64)
    by (bit_vector)
    requires
        j < 64,
        k < 64,
    ensures
        ((((1u64 << k) - 1u64) as u64 >> j) & 1u64 == 1u64) <==> j < k,
{
}

pub proof fn lemma_shift_pos(b: u64)
    by (bit_vector)
    requires
        b < 64,
    ensures
        (1u64 << b) >= 1u64,
{
}

pub proof fn lemma_bit_zero_max(j: u64)
    by (bit_vector)
    requires
        j < 64,
    ensures
        !(((0u64 >> j) & 1u64) == 1u64),
        ((0xffff_ffff_ffff_ffffu64 >> j) & 1u64) == 1u64,
{
}

/// A nonzero word has a set bit.
pub proof fn lemma_nonzero_has_bit(x: u64)
    requires
        x != 0,
    ensures
        exists|j: int| 0 <= j < 64 && #[trigger] bit(x, j),
{
    vstd::std_specs::bits::axiom_u64_trailing_zeros(x);
    let t = vstd::std_specs::bits::u64_trailing_zeros(x);
    assert(bit(x, t as int));
}

proof fn lemma_xor_zero(a: u64, b: u64)
    by (bit_vector)
    ensures
        (a ^ b == 0u64) <==> a == b,
{
}

/// Two words whose bits all agree are equal.
pub proof fn lemma_word_ext(a: u64, b: u64)
    requires
        forall|j: int| 0 <= j < 64 ==> bit(a, j) == bit(b, j),
    ensures
        a == b,
{
    lemma_xor_zero(a, b);
    if a ^ b != 0 {
        lemma_nonzero_has_bit(a ^ b);
        let j = choose|j: int| 0 <= j < 64 && #[trigger] bit(a ^ b, j);
        lemma_bit_xor(a, b, j as u64);
        assert(bit(a, j) == bit(b, j));
    }
}

// ---------------------------------------------------------------------------------------------
// Counting facts

pub proof fn lemma_true_count_append(a: Seq<bool>, b: Seq<bool>)
    ensures
        true_count(a + b) == true_count(a) + true_count(b),
    decreases b.len(),
{
    if b.len() > 0 {
        assert((a + b).drop_last() == a + b.drop_last());
        lemma_true_count_append(a, b.drop_last());
    } else {
        assert(a + b == a);
    }
}

pub proof fn lemma_true_count_le(s: Seq<bool>)
    ensures
        true_count(s) <= s.len(),
    decreases s.len(),
{
    if s.len() > 0 {
        lemma_true_count_le(s.drop_last());
    }
}

pub proof fn lemma_true_count_zero(s: Seq<bool>)
    ensures
        true_count(s) == 0 <==> forall|i: int| 0 <= i < s.len() ==> !s[i],
    decreases s.len(),
{
    if s.len() > 0 {
        lemma_true_count_zero(s.drop_last());
        if true_count(s) == 0 {
            assert forall|i: int| 0 <= i < s.len() implies !s[i] by {
                if i < s.len() - 1 {
                    assert(s[i] == s.drop_last()[i]);
                }
            }
        }
        if forall|i: int| 0 <= i < s.len() ==> !s[i] {
            assert forall|i: int| 0 <= i < s.drop_last().len() implies !s.drop_last()[i] by {
                assert(s[i] == s.drop_last()[i]);
            }
        }
    }
}

pub proof fn lemma_word_bits_push(ws: Seq<u64>, w: u64)
    ensures
        word_bits(ws.push(w)) == word_bits(ws) + bits_of(w),
{
    assert forall|i: int| 0 <= i < 64 * (ws.len() + 1) implies #[trigger] word_bits(ws.push(w))[i] == (
    word_bits(ws) + bits_of(w))[i] by {
        if i < 64 * ws.len() {
            assert(i / 64 < ws.len()) by (nonlinear_arith)
                requires
                    0 <= i < 64 * ws.len(),
            ;
        } else {
            assert(i / 64 == ws.len() && i % 64 == i - 64 * ws.len()) by (nonlinear_arith)
                requires
                    64 * ws.len() <= i < 64 * (ws.len() + 1),
            ;
        }
    }
    assert(word_bits(ws.push(w)) =~= word_bits(ws) + bits_of(w));
}

/// The number of set bits of a sequence of words is the sum of their popcounts.
pub open spec fn popcount_sum(ws: Seq<u64>) -> nat
    decreases ws.len(),
{
    if ws.len() == 0 {
        0
    } else {
        popcount_sum(ws.drop_last()) + popcount(ws.last())
    }
}

pub proof fn lemma_popcount_sum(ws: Seq<u64>)
    ensures
        true_count(word_bits(ws)) == popcount_sum(ws),
    decreases ws.len(),
{
    if ws.len() == 0 {
        assert(word_bits(ws) =~= Seq::<bool>::empty());
    } else {
        lemma_popcount_sum(ws.drop_last());
        assert(ws == ws.drop_last().push(ws.last()));
        lemma_word_bits_push(ws.drop_last(), ws.last());
        lemma_true_count_append(word_bits(ws.drop_last()), bits_of(ws.last()));
    }
}

pub proof fn lemma_popcount_le(w: u64)
    ensures
        popcount(w) <= 64,
{
    lemma_true_count_le(bits_of(w));
}

pub proof fn lemma_ones_of_append(a: Seq<bool>, b: Seq<bool>)
    ensures
        ones_of(a + b) == ones_of(a) + ones_of_shifted(b, a.len()),
    decreases b.len(),
{
    if b.len() > 0 {
        assert((a + b).drop_last() == a + b.drop_last());
        lemma_ones_of_append(a, b.drop_last());
    } else {
        assert(a + b == a);
    }
}

/// The positions of the `true` entries of `s`, each increased by `off`.
pub open spec fn ones_of_shifted(s: Seq<bool>, off: nat) -> Seq<usize>
    decreases s.len(),
{
    if s.len() == 0 {
        Seq::empty()
    } else if s.last() {
        ones_of_shifted(s.drop_last(), off).push((s.len() - 1 + off) as usize)
    } else {
        ones_of_shifted(s.drop_last(), off)
    }
}

/// `ones_of(s)` lists exactly the positions of the `true` entries, increasing.
pub proof fn lemma_ones_of(s: Seq<bool>)
    requires
        s.len() <= usize::MAX + 1,
    ensures
        forall|k: int| 0 <= k < ones_of(s).len() ==> #[trigger] ones_of(s)[k] < s.len() && s[ones_of(s)[k] as int],
        forall|i: int| 0 <= i < s.len() && s[i] ==> ones_of(s).contains(i as usize),
        forall|a: int, b: int| 0 <= a < b < ones_of(s).len() ==> ones_of(s)[a] < ones_of(s)[b],
        ones_of(s).len() == true_count(s),
    decreases s.len(),
{
    if s.len() > 0 {
        let p = s.drop_last();
        lemma_ones_of(p);
        assert forall|i: int| 0 <= i < p.len() implies p[i] == s[i] by {}
        if s.last() {
            let o = ones_of(p).push((s.len() - 1) as usize);
            assert(ones_of(s) == o);
            assert forall|i: int| 0 <= i < s.len() && s[i] implies o.contains(i as usize) by {
                if i < s.len() - 1 {
                    assert(p[i]);
                    let k = choose|k: int| 0 <= k < ones_of(p).len() && ones_of(p)[k] == i as usize;
                    assert(o[k] == i as usize);
                } else {
                    assert(o[o.len() - 1] == i as usize);
                }
            }
        } else {
            assert forall|i: int| 0 <= i < s.len() && s[i] implies ones_of(s).contains(i as usize) by {
                assert(p[i]);
            }
        }
    }
}

pub proof fn lemma_ones_shifted_gap(s: Seq<bool>, p: int, q: int, off: nat)
    requires
        0 <= p <= q <= s.len(),
        forall|j: int| p <= j < q ==> !s[j],
    ensures
        ones_of_shifted(s.take(q), off) == ones_of_shifted(s.take(p), off),
    decreases q - p,
{
    if q > p {
        assert(s.take(q).drop_last() == s.take(q - 1));
        lemma_ones_shifted_gap(s, p, q - 1, off);
    }
}

pub proof fn lemma_ones_shifted_all_false(s: Seq<bool>, off: nat)
    requires
        forall|j: int| 0 <= j < s.len() ==> !s[j],
    ensures
        ones_of_shifted(s, off) == Seq::<usize>::empty(),
{
    lemma_ones_shifted_gap(s, 0, s.len() as int, off);
    assert(s.take(s.len() as int) == s);
    assert(s.take(0).len() == 0);
}

/// Appends to `out` the positions of the set bits of `w`, each plus `base`, lowest first.
pub(crate) fn push_word_ones(out: &mut Vec<usize>, w: u64, base: usize)
    requires
        base + 64 <= usize::MAX,
    ensures
        final(out)@ == old(out)@ + ones_of_shifted(bits_of(w), base as nat),
{
    let ghost out0 = out@;
    let mut x = w;
    let ghost mut p: int = 0;
    assert(out@ == out0 + ones_of_shifted(bits_of(w).take(p), base as nat));
    while x != 0
        invariant
            0 <= p <= 64,
            base + 64 <= usize::MAX,
            forall|j: int| 0 <= j < 64 ==> #[trigger] bit(x, j) == (bit(w, j) && j >= p),
            out@ == out0 + ones_of_shifted(bits_of(w).take(p), base as nat),
        decreases 64 - p,
    {
        proof {
            vstd::std_specs::bits::axiom_u64_trailing_zeros(x);
        }
        let t = x.trailing_zeros();
        proof {
            assert(bit(x, t as int));
            assert forall|j: int| p <= j < t implies !bits_of(w)[j] by {
                assert(!bit(x, j)) by {
                    assert((x >> (j as u64)) & 1u64 == 0u64);
                }
            }
            assert(t >= p) by {
                if t < p {
                    assert(bit(x, t as int) == (bit(w, t as int) && t >= p));
                }
            }
            lemma_ones_shifted_gap(bits_of(w), p, t as int, base as nat);
            assert(bits_of(w).take(t + 1).drop_last() == bits_of(w).take(t as int));
            assert(bits_of(w)[t as int]);
        }
        out.push(base + t as usize);
        let ghost old_x = x;
        x = x ^ (1u64 << t);
        proof {
            assert forall|j: int| 0 <= j < 64 implies #[trigger] bit(x, j) == (bit(w, j) && j >= t + 1) by {
                lemma_bit_xor(old_x, 1u64 << t, j as u64);
                lemma_bit_single(t as u64, j as u64);
                assert(bit(old_x, j) == (bit(w, j) && j >= p));
            }
            p = t + 1;
        }
    }
    proof {
        assert forall|j: int| p <= j < 64 implies !bits_of(w)[j] by {
            assert(bit(x, j) == (bit(w, j) && j >= p));
            lemma_bit_zero_max(j as u64);
        }
        lemma_ones_shifted_gap(bits_of(w), p, 64, base as nat);
        assert(bits_of(w).take(64) == bits_of(w));
    }
}

/// A word equals the mask of its lowest `b` bits exactly when its bits are set below `b`
/// and clear from `b` on; `b == 64` is the all-ones word.
pub proof fn lemma_word_is_low_mask(w: u64, b: u64)
    requires
        b < 64,
    ensures
        (w == ((1u64 << b) - 1) as u64) <==> (forall|j: int| 0 <= j < 64 ==> #[trigger] bit(w, j) == (j < b)),
        (w == 0xffff_ffff_ffff_ffffu64) <==> (forall|j: int| 0 <= j < 64 ==> #[trigger] bit(w, j)),
{
    lemma_shift_pos(b);
    let m = ((1u64 << b) - 1) as u64;
    if forall|j: int| 0 <= j < 64 ==> #[trigger] bit(w, j) == (j < b) {
        assert forall|j: int| 0 <= j < 64 implies bit(w, j) == bit(m, j) by {
            lemma_bit_low_mask(b, j as u64);
        }
        lemma_word_ext(w, m);
    }
    if w == m {
        assert forall|j: int| 0 <= j < 64 implies #[trigger] bit(w, j) == (j < b) by {
            lemma_bit_low_mask(b, j as u64);
        }
    }
    if forall|j: int| 0 <= j < 64 ==> #[trigger] bit(w, j) {
        assert forall|j: int| 0 <= j < 64 implies bit(w, j) == bit(0xffff_ffff_ffff_ffffu64, j) by {
            lemma_bit_zero_max(j as u64);
        }
        lemma_word_ext(w, 0xffff_ffff_ffff_ffffu64);
    }
    if w == 0xffff_ffff_ffff_ffffu64 {
        assert forall|j: int| 0 <= j < 64 implies #[trigger] bit(w, j) by {
            lemma_bit_zero_max(j as u64);
        }
    }
}

pub proof fn lemma_true_count_subset(a: Seq<bool>, b: Seq<bool>)
    requires
        a.len() == b.len(),
        forall|i: int| 0 <= i < a.len() && #[trigger] a[i] ==> b[i],
    ensures
        true_count(a) <= true_count(b),
    decreases a.len(),
{
    if a.len() > 0 {
        lemma_true_count_subset(a.drop_last(), b.drop_last());
    }
}

/// The positions of `s` that hold `true` in a sequence of booleans of length `n` marking
/// exactly the entries of `s`.
pub open spec fn indicator(s: Seq<usize>, n: nat) -> Seq<bool> {
    Seq::new(n, |i: int| s.contains(i as usize))
}

pub proof fn lemma_indicator_count(s: Seq<usize>, n: nat)
    requires
        s.no_duplicates(),
        n <= usize::MAX,
        forall|k: int| 0 <= k < s.len() ==> #[trigger] s[k] < n,
    ensures
        true_count(indicator(s, n)) == s.len(),
    decreases s.len(),
{
    if s.len() == 0 {
        lemma_true_count_zero(indicator(s, n));
    } else {
        let p = s.drop_last();
        let x = s.last();
        lemma_indicator_count(p, n);
        assert(!p.contains(x)) by {
            if p.contains(x) {
                let k = choose|k: int| 0 <= k < p.len() && p[k] == x;
                assert(s[k] == s[s.len() - 1]);
            }
        }
        assert forall|i: int| 0 <= i < n && i != x implies indicator(s, n)[i] == indicator(p, n)[i] by {
            if s.contains(i as usize) {
                let k = choose|k: int| 0 <= k < s.len() && s[k] == i as usize;
                assert(p[k] == i as usize);
            }
            if p.contains(i as usize) {
                let k = choose|k: int| 0 <= k < p.len() && p[k] == i as usize;
                assert(s[k] == i as usize);
            }
        }
        assert(indicator(s, n)[x as int]) by {
            assert(s[s.len() - 1] == x);
        }
        assert(!indicator(p, n)[x as int]);
        lemma_true_count_one_change(indicator(p, n), indicator(s, n), x as int);
    }
}

/// Two sequences that differ only at `x`, where the second has `true` and the first `false`.
pub proof fn lemma_true_count_one_change(a: Seq<bool>, b: Seq<bool>, x: int)
    requires
        a.len() == b.len(),
        0 <= x < a.len(),
        !a[x],
        b[x],
        forall|i: int| 0 <= i < a.len() && i != x ==> a[i] == b[i],
    ensures
        true_count(b) == true_count(a) + 1,
    decreases a.len(),
{
    if x == a.len() - 1 {
        assert(a.drop_last() == b.drop_last());
    } else {
        lemma_true_count_one_change(a.drop_last(), b.drop_last(), x);
    }
}

/// Walks the set bits of a word, lowest first: each call of `next` gives the position of the
/// lowest set bit and clears it.
#[derive(Clone, Copy, Debug)]
pub struct LocIter(pub usize);

impl LocIter {
    /// The position of the lowest set bit, which is then cleared; `None` once no bit is set.
    pub fn next(&mut self) -> (r: Option<usize>)
        ensures
            old(self).0 == 0 ==> r is None && final(self).0 == 0,
            old(self).0 != 0 ==> {
                &&& r is Some
                &&& r->0 < 64
                &&& (old(self).0 >> r->0) & 1 == 1
                &&& forall|j: usize| j < r->0 ==> #[trigger] ((old(self).0 >> j) & 1) == 0
                &&& final(self).0 == old(self).0 & ((old(self).0 - 1) as usize)
            },
    {
        if self.0 == 0 {
            return None;
        }
        let x = self.0;
        let w = x as u64;
        proof {
            vstd::std_specs::bits::axiom_u64_trailing_zeros(w);
        }
        let t = w.trailing_zeros();
        proof {
            assert(w != 0) by (bit_vector)
                requires
                    x != 0,
                    w == x as u64,
            ;
            let tt = t as u64;
            assert((w >> tt) & 1u64 == 1u64);
            assert((x >> (t as usize)) & 1 == 1) by (bit_vector)
                requires
                    w == x as u64,
                    (w >> tt) & 1u64 == 1u64,
                    tt < 64,
                    tt == t as usize,
            ;
            assert forall|j: usize| j < t as usize implies #[trigger] ((x >> j) & 1) == 0 by {
                let jj = j as u64;
                assert((w >> jj) & 1u64 == 0u64);
                assert((x >> j) & 1 == 0) by (bit_vector)
                    requires
                        w == x as u64,
                        (w >> jj) & 1u64 == 0u64,
                        jj == j,
                        j < 64,
                ;
            }
        }
        self.0 = x & (x - 1);
        Some(t as usize)
    }
}

} // verus!

use vstd::prelude::*;
use crate::bits::{
    bit, word_bits, lemma_bit_or, lemma_bit_single, lemma_bit_and_not, lemma_bit_zero_max, lemma_bit_and,
    lemma_bit_xor, lemma_word_ext, lemma_nonzero_has_bit, true_count, popcount, popcount_sum,
    lemma_popcount_sum, lemma_popcount_le, u64_count_ones, lemma_true_count_append, lemma_true_count_zero,
    ones_of, ones_of_shifted, bits_of, push_word_ones, lemma_word_bits_push, lemma_ones_of_append,
    lemma_ones_shifted_all_false, lemma_bit_not, lemma_bit_low_mask, lemma_ones_of, lemma_shift_pos,
    lemma_word_is_low_mask,
};
use crate::inline_vec::{
    WordVec, words_of, words_from_elem, words_get, words_set, words_as_slice, words_len, words_new,
    words_push, words_clone,
};

verus! {

/// The number of 64-bit words that hold a set of `len` bits: whole blocks of 512 bits.
pub open spec fn num_words(len: nat) -> nat {
    8 * ((len + 511) / 512)
}

/// A length for which every bit position of the storage can be addressed by a `usize`.
pub open spec fn len_fits(len: nat) -> bool {
    len + 512 <= usize::MAX
}

/// A set of tile indices `0..len`, stored as bits in blocks of 512.
pub struct BitSet {
    bits: WordVec,
    len: usize,
}

impl View for BitSet {
    type V = Seq<bool>;

    /// Entry `i` tells whether `i` is in the set.
    closed spec fn view(&self) -> Seq<bool> {
        word_bits(words_of(self.bits)).take(self.len as int)
    }
}

proof fn lemma_num_words(len: nat)
    ensures
        len <= 64 * num_words(len),
        64 * num_words(len) < len + 512,
        num_words(len) % 8 == 0,
        (len % 512 != 0) <==> len / 64 < num_words(len),
        len / 64 <= num_words(len),
        (len + 63) / 64 <= num_words(len),
{
    let q = (len + 511) / 512;
    assert(512 * q <= len + 511 < 512 * q + 512) by (nonlinear_arith)
        requires
            q == (len + 511) / 512,
    ;
    assert(len / 64 * 64 <= len < len / 64 * 64 + 64) by (nonlinear_arith);
    assert((len + 63) / 64 * 64 <= len + 63 < (len + 63) / 64 * 64 + 64) by (nonlinear_arith);
    assert(len % 512 == len - len / 512 * 512 && len / 512 * 512 <= len < len / 512 * 512 + 512)
        by (nonlinear_arith);
}

impl BitSet {
    spec fn words(&self) -> Seq<u64> {
        words_of(self.bits)
    }

    spec fn shape_ok(&self) -> bool {
        &&& self.words().len() == num_words(self.len as nat)
        &&& len_fits(self.len as nat)
    }

    /// The storage has exactly the words for the length, and no bit past the length is set.
    pub closed spec fn wf(&self) -> bool {
        &&& self.shape_ok()
        &&& forall|j: int|
            self.len <= j < word_bits(self.words()).len() ==> !#[trigger] word_bits(self.words())[j]
    }

    proof fn lemma_view(&self)
        requires
            self.shape_ok(),
        ensures
            self@.len() == self.len,
            forall|j: int| 0 <= j < self.len ==> #[trigger] self@[j] == bit(self.words()[j / 64], j % 64),
            word_bits(self.words()).len() == 64 * self.words().len(),
            64 * self.words().len() < self.len + 512,
    {
        lemma_num_words(self.len as nat);
    }

    /// The storage bits of position `j`, for a position inside the storage.
    proof fn lemma_storage_bit(&self, j: int)
        requires
            self.shape_ok(),
            0 <= j < 64 * self.words().len(),
        ensures
            j / 64 < self.words().len(),
            word_bits(self.words())[j] == bit(self.words()[j / 64], j % 64),
            j < self.len ==> self@[j] == word_bits(self.words())[j],
            self.wf() && j >= self.len ==> !bit(self.words()[j / 64], j % 64),
    {
        assert(j / 64 < self.words().len()) by (nonlinear_arith)
            requires
                0 <= j < 64 * self.words().len(),
        ;
        assert(word_bits(self.words())[j] == bit(self.words()[j / 64], j % 64));
    }

    /// A set of length `len` with no element.
    pub fn zeros(len: usize) -> (r: Self)
        requires
            len_fits(len as nat),
        ensures
            r.wf(),
            r@ == Seq::new(len as nat, |i: int| false),
    {
        let num_vecs: usize = len / 512 + if len % 512 == 0 {
            0
        } else {
            1
        };
        proof {
            lemma_num_words(len as nat);
            assert(num_vecs * 8 == num_words(len as nat)) by (nonlinear_arith)
                requires
                    num_vecs == len / 512 + if len % 512 == 0 {
                        0int
                    } else {
                        1int
                    },
            ;
        }
        let bits = words_from_elem(0, num_vecs * 8);
        let r = BitSet { bits, len };
        proof {
            r.lemma_view();
            assert forall|j: int| 0 <= j < word_bits(r.words()).len() implies !#[trigger] word_bits(
                r.words(),
            )[j] by {
                r.lemma_storage_bit(j);
                lemma_bit_zero_max((j % 64) as u64);
            }
            assert(r@ =~= Seq::new(len as nat, |i: int| false));
        }
        r
    }

    /// The number of positions, `0..len`.
    pub fn len(&self) -> (r: usize)
        requires
            self.wf(),
        ensures
            r == self@.len(),
    {
        proof {
            self.lemma_view();
        }
        self.len
    }

    /// Adds `idx` to the set.
    pub fn set_to_one(&mut self, idx: usize)
        requires
            old(self).wf(),
            idx < old(self)@.len(),
        ensures
            final(self).wf(),
            final(self)@ == old(self)@.update(idx as int, true),
    {
        proof {
            self.lemma_view();
        }
        let ghost old_self = *self;
        let k = idx / 64;
        let w = words_get(&self.bits, k);
        let b: u64 = (idx % 64) as u64;
        words_set(&mut self.bits, k, w | (1u64 << b));
        proof {
            self.lemma_view();
            assert forall|j: int| 0 <= j < word_bits(self.words()).len() implies word_bits(self.words())[j]
                == (word_bits(old_self.words())[j] || j == idx) by {
                self.lemma_storage_bit(j);
                old_self.lemma_storage_bit(j);
                if j / 64 == k {
                    lemma_bit_or(w, 1u64 << b, (j % 64) as u64);
                    lemma_bit_single(b, (j % 64) as u64);
                    assert((j % 64 == b) == (j == idx)) by (nonlinear_arith)
                        requires
                            j / 64 == k,
                            k == idx / 64,
                            b == idx % 64,
                    ;
                } else {
                    assert(j != idx);
                }
            }
            old_self.lemma_view();
            assert forall|j: int| 0 <= j < self.len implies #[trigger] self@[j] == old_self@.update(idx as int, true)[j] by {
                self.lemma_storage_bit(j);
                old_self.lemma_storage_bit(j);
            }
            assert forall|j: int| self.len <= j < word_bits(self.words()).len() implies !#[trigger] word_bits(self.words())[j] by {
                old_self.lemma_storage_bit(j);
            }
            assert(self@ =~= old_self@.update(idx as int, true));
        }
    }

    /// Removes `idx` from the set.
    pub fn set_to_zero(&mut self, idx: usize)
        requires
            old(self).wf(),
            idx < old(self)@.len(),
        ensures
            final(self).wf(),
            final(self)@ == old(self)@.update(idx as int, false),
    {
        proof {
            self.lemma_view();
        }
        let ghost old_self = *self;
        let k = idx / 64;
        let w = words_get(&self.bits, k);
        let b: u64 = (idx % 64) as u64;
        words_set(&mut self.bits, k, w & !(1u64 << b));
        proof {
            self.lemma_view();
            assert forall|j: int| 0 <= j < word_bits(self.words()).len() implies word_bits(self.words())[j]
                == (word_bits(old_self.words())[j] && j != idx) by {
                self.lemma_storage_bit(j);
                old_self.lemma_storage_bit(j);
                if j / 64 == k {
                    lemma_bit_and_not(w, 1u64 << b, (j % 64) as u64);
                    lemma_bit_single(b, (j % 64) as u64);
                    assert((j % 64 == b) == (j == idx)) by (nonlinear_arith)
                        requires
                            j / 64 == k,
                            k == idx / 64,
                            b == idx % 64,
                    ;
                } else {
                    assert(j != idx);
                }
            }
            old_self.lemma_view();
            assert forall|j: int| 0 <= j < self.len implies #[trigger] self@[j] == old_self@.update(idx as int, false)[j] by {
                self.lemma_storage_bit(j);
                old_self.lemma_storage_bit(j);
            }
            assert forall|j: int| self.len <= j < word_bits(self.words()).len() implies !#[trigger] word_bits(self.words())[j] by {
                old_self.lemma_storage_bit(j);
            }
            assert(self@ =~= old_self@.update(idx as int, false));
        }
    }

    /// Adds or removes `idx`.
    pub fn set_to(&mut self, idx: usize, value: bool)
        requires
            old(self).wf(),
            idx < old(self)@.len(),
        ensures
            final(self).wf(),
            final(self)@ == old(self)@.update(idx as int, value),
    {
        if value {
            self.set_to_one(idx)
        } else {
            self.set_to_zero(idx)
        }
    }

    /// Whether `idx` is in the set; a position past the length but inside the storage
    /// (which holds whole blocks of 512) reads as absent.
    pub fn get(&self, idx: usize) -> (r: bool)
        requires
            self.wf(),
            idx < 64 * num_words(self@.len()),
        ensures
            r == (idx < self@.len() && self@[idx as int]),
    {
        proof {
            self.lemma_view();
            self.lemma_storage_bit(idx as int);
        }
        let w = words_get(&self.bits, idx / 64);
        (w >> ((idx % 64) as u64)) & 1 == 1
    }

    /// The storage words: bit `i % 64` of word `i / 64` is position `i`.
    pub fn slice_view(&self) -> (r: &[u64])
        requires
            self.wf(),
        ensures
            r@.len() == num_words(self@.len()),
            word_bits(r@).take(self@.len() as int) == self@,
            forall|j: int| self@.len() <= j < 64 * r@.len() ==> !#[trigger] word_bits(r@)[j],
    {
        proof {
            self.lemma_view();
        }
        words_as_slice(&self.bits)
    }
}

/// A bitwise operation applied position by position.
#[derive(Clone, Copy, Debug, PartialEq, Eq, Structural)]
pub enum BitOp {
    And,
    Or,
    Xor,
    AndNot,
}

pub open spec fn op_bool(op: BitOp, a: bool, b: bool) -> bool {
    match op {
        BitOp::And => a && b,
        BitOp::Or => a || b,
        BitOp::Xor => a != b,
        BitOp::AndNot => a && !b,
    }
}

pub open spec fn op_word(op: BitOp, a: u64, b: u64) -> u64 {
    match op {
        BitOp::And => a & b,
        BitOp::Or => a | b,
        BitOp::Xor => a ^ b,
        BitOp::AndNot => a & !b,
    }
}

proof fn lemma_op_bit(op: BitOp, a: u64, b: u64, j: int)
    requires
        0 <= j < 64,
    ensures
        bit(op_word(op, a, b), j) == op_bool(op, bit(a, j), bit(b, j)),
{
    match op {
        BitOp::And => lemma_bit_and(a, b, j as u64),
        BitOp::Or => lemma_bit_or(a, b, j as u64),
        BitOp::Xor => lemma_bit_xor(a, b, j as u64),
        BitOp::AndNot => lemma_bit_and_not(a, b, j as u64),
    }
}

fn apply_op(op: BitOp, a: u64, b: u64) -> (r: u64)
    ensures
        r == op_word(op, a, b),
{
    match op {
        BitOp::And => a & b,
        BitOp::Or => a | b,
        BitOp::Xor => a ^ b,
        BitOp::AndNot => a & !b,
    }
}

/// The number of set bits in each of eight words.
pub fn count_vec_ones(vec: [u64; 8]) -> (r: [u64; 8])
    ensures
        forall|i: int| 0 <= i < 8 ==> #[trigger] r@[i] == popcount(vec@[i]),
{
    let r = [
        u64_count_ones(vec[0]) as u64,
        u64_count_ones(vec[1]) as u64,
        u64_count_ones(vec[2]) as u64,
        u64_count_ones(vec[3]) as u64,
        u64_count_ones(vec[4]) as u64,
        u64_count_ones(vec[5]) as u64,
        u64_count_ones(vec[6]) as u64,
        u64_count_ones(vec[7]) as u64,
    ];
    assert(forall|i: int| 0 <= i < 8 ==> #[trigger] r@[i] == popcount(vec@[i]));
    r
}

proof fn lemma_popcount_block(ws: Seq<u64>, i: int)
    requires
        0 <= i,
        i + 8 <= ws.len(),
    ensures
        popcount_sum(ws.take(i + 8)) == popcount_sum(ws.take(i)) + popcount(ws[i]) + popcount(ws[i + 1])
            + popcount(ws[i + 2]) + popcount(ws[i + 3]) + popcount(ws[i + 4]) + popcount(ws[i + 5])
            + popcount(ws[i + 6]) + popcount(ws[i + 7]),
        popcount_sum(ws.take(i + 8)) <= 64 * (i + 8),
        popcount(ws[i]) <= 64,
        popcount(ws[i + 1]) <= 64,
        popcount(ws[i + 2]) <= 64,
        popcount(ws[i + 3]) <= 64,
        popcount(ws[i + 4]) <= 64,
        popcount(ws[i + 5]) <= 64,
        popcount(ws[i + 6]) <= 64,
        popcount(ws[i + 7]) <= 64,
{
    lemma_popcount_sum_step(ws, i);
    lemma_popcount_sum_step(ws, i + 1);
    lemma_popcount_sum_step(ws, i + 2);
    lemma_popcount_sum_step(ws, i + 3);
    lemma_popcount_sum_step(ws, i + 4);
    lemma_popcount_sum_step(ws, i + 5);
    lemma_popcount_sum_step(ws, i + 6);
    lemma_popcount_sum_step(ws, i + 7);
    lemma_popcount_le(ws[i]);
    lemma_popcount_le(ws[i + 1]);
    lemma_popcount_le(ws[i + 2]);
    lemma_popcount_le(ws[i + 3]);
    lemma_popcount_le(ws[i + 4]);
    lemma_popcount_le(ws[i + 5]);
    lemma_popcount_le(ws[i + 6]);
    lemma_popcount_le(ws[i + 7]);
}

proof fn lemma_popcount_sum_step(ws: Seq<u64>, k: int)
    requires
        0 <= k < ws.len(),
    ensures
        popcount_sum(ws.take(k + 1)) == popcount_sum(ws.take(k)) + popcount(ws[k]),
        popcount_sum(ws.take(k)) <= 64 * k,
    decreases k,
{
    assert(ws.take(k + 1).drop_last() == ws.take(k));
    if k > 0 {
        lemma_popcount_sum_step(ws, k - 1);
        lemma_popcount_le(ws[k - 1]);
    }
}

impl BitSet {
    /// The set built position by position from `self` and `other` by `op`.
    fn combine(&self, other: &Self, op: BitOp) -> (r: Self)
        requires
            self.wf(),
            other.wf(),
            self@.len() == other@.len(),
        ensures
            r.wf(),
            r@ == Seq::new(self@.len(), |i: int| op_bool(op, self@[i], other@[i])),
    {
        proof {
            self.lemma_view();
            other.lemma_view();
        }
        let n = words_len(&self.bits);
        let mut bits = words_new();
        let mut i: usize = 0;
        while i < n
            invariant
                self.wf(),
                other.wf(),
                self.len == other.len,
                n == self.words().len(),
                n == other.words().len(),
                i <= n,
                words_of(bits) == Seq::new(i as nat, |k: int| op_word(op, self.words()[k], other.words()[k])),
            decreases n - i,
        {
            let w = apply_op(op, words_get(&self.bits, i), words_get(&other.bits, i));
            words_push(&mut bits, w);
            i = i + 1;
            assert(words_of(bits) =~= Seq::new(i as nat, |k: int| op_word(op, self.words()[k], other.words()[k])));
        }
        let r = BitSet { bits, len: self.len };
        proof {
            r.lemma_view();
            assert forall|j: int| 0 <= j < word_bits(r.words()).len() implies #[trigger] word_bits(r.words())[j]
                == op_bool(op, word_bits(self.words())[j], word_bits(other.words())[j]) by {
                r.lemma_storage_bit(j);
                self.lemma_storage_bit(j);
                other.lemma_storage_bit(j);
                lemma_op_bit(op, self.words()[j / 64], other.words()[j / 64], j % 64);
            }
            assert forall|j: int| r.len <= j < word_bits(r.words()).len() implies !#[trigger] word_bits(r.words())[j] by {
                self.lemma_storage_bit(j);
                other.lemma_storage_bit(j);
            }
            assert(r@ =~= Seq::new(self@.len(), |i: int| op_bool(op, self@[i], other@[i])));
        }
        r
    }

    /// Replaces `self` by the set built position by position from it and `other` by `op`.
    fn combine_assign(&mut self, other: &Self, op: BitOp)
        requires
            old(self).wf(),
            other.wf(),
            old(self)@.len() == other@.len(),
        ensures
            final(self).wf(),
            final(self)@ == Seq::new(old(self)@.len(), |i: int| op_bool(op, old(self)@[i], other@[i])),
    {
        let ghost old_self = *self;
        proof {
            self.lemma_view();
            other.lemma_view();
        }
        let n = words_len(&self.bits);
        let mut i: usize = 0;
        while i < n
            invariant
                old_self.wf(),
                other.wf(),
                self.len == old_self.len,
                self.len == other.len,
                n == old_self.words().len(),
                n == other.words().len(),
                i <= n,
                self.words() == Seq::new(n as nat, |k: int| if k < i {
                    op_word(op, old_self.words()[k], other.words()[k])
                } else {
                    old_self.words()[k]
                }),
            decreases n - i,
        {
            let w = apply_op(op, words_get(&self.bits, i), words_get(&other.bits, i));
            words_set(&mut self.bits, i, w);
            i = i + 1;
            assert(self.words() =~= Seq::new(n as nat, |k: int| if k < i {
                op_word(op, old_self.words()[k], other.words()[k])
            } else {
                old_self.words()[k]
            }));
        }
        proof {
            self.lemma_view();
            assert forall|j: int| 0 <= j < word_bits(self.words()).len() implies #[trigger] word_bits(self.words())[j]
                == op_bool(op, word_bits(old_self.words())[j], word_bits(other.words())[j]) by {
                self.lemma_storage_bit(j);
                old_self.lemma_storage_bit(j);
                other.lemma_storage_bit(j);
                lemma_op_bit(op, old_self.words()[j / 64], other.words()[j / 64], j % 64);
            }
            assert forall|j: int| self.len <= j < word_bits(self.words()).len() implies !#[trigger] word_bits(self.words())[j] by {
                old_self.lemma_storage_bit(j);
                other.lemma_storage_bit(j);
            }
            assert(self@ =~= Seq::new(old_self@.len(), |i: int| op_bool(op, old_self@[i], other@[i])));
        }
    }

    /// Positions in both sets (the `&` operator).
    pub fn bitand(&self, other: &Self) -> (r: Self)
        requires
            self.wf(),
            other.wf(),
            self@.len() == other@.len(),
        ensures
            r.wf(),
            r@ == Seq::new(self@.len(), |i: int| self@[i] && other@[i]),
    {
        self.combine(other, BitOp::And)
    }

    /// Positions in either set (the `|` operator).
    pub fn bitor(&self, other: &Self) -> (r: Self)
        requires
            self.wf(),
            other.wf(),
            self@.len() == other@.len(),
        ensures
            r.wf(),
            r@ == Seq::new(self@.len(), |i: int| self@[i] || other@[i]),
    {
        self.combine(other, BitOp::Or)
    }

    /// Positions in exactly one of the sets (the `^` operator).
    pub fn bitxor(&self, other: &Self) -> (r: Self)
        requires
            self.wf(),
            other.wf(),
            self@.len() == other@.len(),
        ensures
            r.wf(),
            r@ == Seq::new(self@.len(), |i: int| self@[i] != other@[i]),
    {
        self.combine(other, BitOp::Xor)
    }

    /// The union (the `+` operator).
    pub fn add(&self, other: &Self) -> (r: Self)
        requires
            self.wf(),
            other.wf(),
            self@.len() == other@.len(),
        ensures
            r.wf(),
            r@ == Seq::new(self@.len(), |i: int| self@[i] || other@[i]),
    {
        self.combine(other, BitOp::Or)
    }

    /// The positions of `self` not in `other` (the `-` operator).
    pub fn sub(&self, other: &Self) -> (r: Self)
        requires
            self.wf(),
            other.wf(),
            self@.len() == other@.len(),
        ensures
            r.wf(),
            r@ == Seq::new(self@.len(), |i: int| self@[i] && !other@[i]),
    {
        self.combine(other, BitOp::AndNot)
    }

    /// `&=`
    pub fn bitand_assign(&mut self, other: &Self)
        requires
            old(self).wf(),
            other.wf(),
            old(self)@.len() == other@.len(),
        ensures
            final(self).wf(),
            final(self)@ == Seq::new(old(self)@.len(), |i: int| old(self)@[i] && other@[i]),
    {
        self.combine_assign(other, BitOp::And)
    }

    /// `|=`
    pub fn bitor_assign(&mut self, other: &Self)
        requires
            old(self).wf(),
            other.wf(),
            old(self)@.len() == other@.len(),
        ensures
            final(self).wf(),
            final(self)@ == Seq::new(old(self)@.len(), |i: int| old(self)@[i] || other@[i]),
    {
        self.combine_assign(other, BitOp::Or)
    }

    /// `^=`
    pub fn bitxor_assign(&mut self, other: &Self)
        requires
            old(self).wf(),
            other.wf(),
            old(self)@.len() == other@.len(),
        ensures
            final(self).wf(),
            final(self)@ == Seq::new(old(self)@.len(), |i: int| old(self)@[i] != other@[i]),
    {
        self.combine_assign(other, BitOp::Xor)
    }

    /// `+=`: adds the positions of `other`.
    pub fn add_assign(&mut self, other: &Self)
        requires
            old(self).wf(),
            other.wf(),
            old(self)@.len() == other@.len(),
        ensures
            final(self).wf(),
            final(self)@ == Seq::new(old(self)@.len(), |i: int| old(self)@[i] || other@[i]),
    {
        self.combine_assign(other, BitOp::Or)
    }

    /// `-=`: removes the positions of `other`.
    pub fn sub_assign(&mut self, other: &Self)
        requires
            old(self).wf(),
            other.wf(),
            old(self)@.len() == other@.len(),
        ensures
            final(self).wf(),
            final(self)@ == Seq::new(old(self)@.len(), |i: int| old(self)@[i] && !other@[i]),
    {
        self.combine_assign(other, BitOp::AndNot)
    }

    /// A copy of the set.
    pub fn clone(&self) -> (r: Self)
        requires
            self.wf(),
        ensures
            r.wf(),
            r@ == self@,
    {
        let r = BitSet { bits: words_clone(&self.bits), len: self.len };
        proof {
            assert(r.words() == self.words());
        }
        r
    }

    /// The number of elements.
    pub fn count_ones(&self) -> (r: usize)
        requires
            self.wf(),
        ensures
            r == true_count(self@),
    {
        proof {
            self.lemma_view();
            lemma_num_words(self.len as nat);
        }
        let n = words_len(&self.bits);
        let mut total: usize = 0;
        let mut i: usize = 0;
        while i < n
            invariant
                self.wf(),
                n == self.words().len(),
                n % 8 == 0,
                i % 8 == 0,
                i <= n,
                64 * n < self.len + 512,
                total == popcount_sum(self.words().take(i as int)),
            decreases n - i,
        {
            let block: [u64; 8] = [
                words_get(&self.bits, i),
                words_get(&self.bits, i + 1),
                words_get(&self.bits, i + 2),
                words_get(&self.bits, i + 3),
                words_get(&self.bits, i + 4),
                words_get(&self.bits, i + 5),
                words_get(&self.bits, i + 6),
                words_get(&self.bits, i + 7),
            ];
            let c = count_vec_ones(block);
            proof {
                lemma_popcount_block(self.words(), i as int);
                assert(block@[0] == self.words()[i as int]);
                assert(block@[1] == self.words()[i + 1]);
                assert(block@[2] == self.words()[i + 2]);
                assert(block@[3] == self.words()[i + 3]);
                assert(block@[4] == self.words()[i + 4]);
                assert(block@[5] == self.words()[i + 5]);
                assert(block@[6] == self.words()[i + 6]);
                assert(block@[7] == self.words()[i + 7]);
                assert(c@[0] == popcount(block@[0]));
                assert(c@[1] == popcount(block@[1]));
                assert(c@[2] == popcount(block@[2]));
                assert(c@[3] == popcount(block@[3]));
                assert(c@[4] == popcount(block@[4]));
                assert(c@[5] == popcount(block@[5]));
                assert(c@[6] == popcount(block@[6]));
                assert(c@[7] == popcount(block@[7]));
            }
            total = total + (c[0] + c[1] + c[2] + c[3] + c[4] + c[5] + c[6] + c[7]) as usize;
            i = i + 8;
        }
        proof {
            let ws = self.words();
            assert(ws.take(n as int) == ws);
            lemma_popcount_sum(ws);
            let all = word_bits(ws);
            assert(all == all.take(self.len as int) + all.skip(self.len as int));
            lemma_true_count_append(all.take(self.len as int), all.skip(self.len as int));
            assert forall|k: int| 0 <= k < all.skip(self.len as int).len() implies !all.skip(self.len as int)[k] by {
                assert(all.skip(self.len as int)[k] == all[k + self.len]);
            }
            lemma_true_count_zero(all.skip(self.len as int));
        }
        total
    }

    /// The number of positions in both sets.
    pub fn count_overlap_ones(&self, other: &Self) -> (r: usize)
        requires
            self.wf(),
            other.wf(),
            self@.len() == other@.len(),
        ensures
            r == true_count(Seq::new(self@.len(), |i: int| self@[i] && other@[i])),
    {
        let both = self.combine(other, BitOp::And);
        assert(both@ =~= Seq::new(self@.len(), |i: int| self@[i] && other@[i]));
        both.count_ones()
    }
}

impl BitSet {
    /// Whether the set has an element.
    pub fn any(&self) -> (r: bool)
        requires
            self.wf(),
        ensures
            r == self@.contains(true),
    {
        proof {
            self.lemma_view();
        }
        let n = words_len(&self.bits);
        let mut i: usize = 0;
        while i < n
            invariant
                self.wf(),
                n == self.words().len(),
                i <= n,
                forall|k: int| 0 <= k < i ==> self.words()[k] == 0,
            decreases n - i,
        {
            let w = words_get(&self.bits, i);
            if w != 0 {
                proof {
                    lemma_nonzero_has_bit(w);
                    let j = choose|j: int| 0 <= j < 64 && #[trigger] bit(w, j);
                    let p = 64 * i + j;
                    assert(p / 64 == i && p % 64 == j) by (nonlinear_arith)
                        requires
                            p == 64 * i + j,
                            0 <= j < 64,
                    ;
                    assert(p < 64 * n) by (nonlinear_arith)
                        requires
                            p == 64 * i + j,
                            0 <= j < 64,
                            i < n,
                    ;
                    self.lemma_storage_bit(p);
                    assert(self@[p]);
                }
                return true;
            }
            i = i + 1;
        }
        proof {
            assert forall|j: int| 0 <= j < self@.len() implies !self@[j] by {
                self.lemma_storage_bit(j);
                lemma_bit_zero_max((j % 64) as u64);
            }
        }
        false
    }

    /// Whether `self` and `other` agree on every position of `mask`.
    pub fn equal_on_mask(&self, other: &Self, mask: &Self) -> (r: bool)
        requires
            self.wf(),
            other.wf(),
            mask.wf(),
            self@.len() == other@.len(),
            self@.len() == mask@.len(),
        ensures
            r == forall|i: int| 0 <= i < self@.len() && #[trigger] mask@[i] ==> self@[i] == other@[i],
    {
        proof {
            self.lemma_view();
            other.lemma_view();
            mask.lemma_view();
        }
        let n = words_len(&self.bits);
        let mut i: usize = 0;
        while i < n
            invariant
                self.wf(),
                other.wf(),
                mask.wf(),
                self.len == other.len,
                self.len == mask.len,
                n == self.words().len(),
                i <= n,
                forall|k: int|
                    0 <= k < i ==> (self.words()[k] & mask.words()[k]) == (other.words()[k]
                        & mask.words()[k]),
            decreases n - i,
        {
            let a = words_get(&self.bits, i);
            let b = words_get(&other.bits, i);
            let m = words_get(&mask.bits, i);
            if (a & m) != (b & m) {
                proof {
                    if forall|j: int| 0 <= j < 64 ==> bit(a & m, j) == bit(b & m, j) {
                        lemma_word_ext(a & m, b & m);
                    }
                    let j = choose|j: int| 0 <= j < 64 && bit(a & m, j) != bit(b & m, j);
                    lemma_bit_and(a, m, j as u64);
                    lemma_bit_and(b, m, j as u64);
                    let p = 64 * i + j;
                    assert(p / 64 == i && p % 64 == j) by (nonlinear_arith)
                        requires
                            p == 64 * i + j,
                            0 <= j < 64,
                    ;
                    assert(p < 64 * n) by (nonlinear_arith)
                        requires
                            p == 64 * i + j,
                            0 <= j < 64,
                            i < n,
                    ;
                    self.lemma_storage_bit(p);
                    other.lemma_storage_bit(p);
                    mask.lemma_storage_bit(p);
                    assert(mask@[p] && self@[p] != other@[p]);
                }
                return false;
            }
            i = i + 1;
        }
        proof {
            assert forall|j: int| 0 <= j < self@.len() && #[trigger] mask@[j] implies self@[j] == other@[j] by {
                self.lemma_storage_bit(j);
                other.lemma_storage_bit(j);
                mask.lemma_storage_bit(j);
                let k = j / 64;
                assert((self.words()[k] & mask.words()[k]) == (other.words()[k] & mask.words()[k]));
                lemma_bit_and(self.words()[k], mask.words()[k], (j % 64) as u64);
                lemma_bit_and(other.words()[k], mask.words()[k], (j % 64) as u64);
            }
        }
        true
    }

    /// Whether some position is in both sets (compared over the storage both share).
    pub fn overlaps_with(&self, other: &Self) -> (r: bool)
        requires
            self.wf(),
            other.wf(),
        ensures
            r == exists|i: int| 0 <= i < self@.len() && i < other@.len() && #[trigger] self@[i] && other@[i],
    {
        proof {
            self.lemma_view();
            other.lemma_view();
        }
        let na = words_len(&self.bits);
        let nb = words_len(&other.bits);
        let n = if na < nb {
            na
        } else {
            nb
        };
        let mut i: usize = 0;
        while i < n
            invariant
                self.wf(),
                other.wf(),
                na == self.words().len(),
                nb == other.words().len(),
                n <= na,
                n <= nb,
                n == na || n == nb,
                i <= n,
                forall|k: int| 0 <= k < i ==> (self.words()[k] & other.words()[k]) == 0,
            decreases n - i,
        {
            let w = words_get(&self.bits, i) & words_get(&other.bits, i);
            if w != 0 {
                proof {
                    lemma_nonzero_has_bit(w);
                    let j = choose|j: int| 0 <= j < 64 && #[trigger] bit(w, j);
                    lemma_bit_and(self.words()[i as int], other.words()[i as int], j as u64);
                    let p = 64 * i + j;
                    assert(p / 64 == i && p % 64 == j) by (nonlinear_arith)
                        requires
                            p == 64 * i + j,
                            0 <= j < 64,
                    ;
                    assert(p < 64 * na && p < 64 * nb) by (nonlinear_arith)
                        requires
                            p == 64 * i + j,
                            0 <= j < 64,
                            i < na,
                            i < nb,
                    ;
                    self.lemma_storage_bit(p);
                    other.lemma_storage_bit(p);
                    assert(self@[p] && other@[p]);
                }
                return true;
            }
            i = i + 1;
        }
        proof {
            assert forall|j: int| 0 <= j < self@.len() && j < other@.len() implies !(#[trigger] self@[j] && other@[j]) by {
                self.lemma_storage_bit(j);
                other.lemma_storage_bit(j);
                let k = j / 64;
                assert(k < n) by {
                    assert(j / 64 < na);
                    assert(j / 64 < nb);
                }
                lemma_bit_and(self.words()[k], other.words()[k], (j % 64) as u64);
                lemma_bit_zero_max((j % 64) as u64);
            }
        }
        false
    }

    /// Whether every position of `self` is in `other` (compared over the storage both share).
    pub fn is_subset_of(&self, other: &Self) -> (r: bool)
        requires
            self.wf(),
            other.wf(),
        ensures
            r == forall|i: int|
                0 <= i < self@.len() && i < 64 * num_words(other@.len()) && #[trigger] self@[i] ==> i
                    < other@.len() && other@[i],
    {
        proof {
            self.lemma_view();
            other.lemma_view();
        }
        let na = words_len(&self.bits);
        let nb = words_len(&other.bits);
        let n = if na < nb {
            na
        } else {
            nb
        };
        let mut i: usize = 0;
        while i < n
            invariant
                self.wf(),
                other.wf(),
                na == self.words().len(),
                nb == other.words().len(),
                n <= na,
                n <= nb,
                n == na || n == nb,
                i <= n,
                forall|k: int| 0 <= k < i ==> (self.words()[k] & other.words()[k]) == self.words()[k],
            decreases n - i,
        {
            let a = words_get(&self.bits, i);
            let b = words_get(&other.bits, i);
            if (a & b) != a {
                proof {
                    if forall|j: int| 0 <= j < 64 ==> bit(a & b, j) == bit(a, j) {
                        lemma_word_ext(a & b, a);
                    }
                    let j = choose|j: int| 0 <= j < 64 && bit(a & b, j) != bit(a, j);
                    lemma_bit_and(a, b, j as u64);
                    let p = 64 * i + j;
                    assert(p / 64 == i && p % 64 == j) by (nonlinear_arith)
                        requires
                            p == 64 * i + j,
                            0 <= j < 64,
                    ;
                    assert(p < 64 * na && p < 64 * nb) by (nonlinear_arith)
                        requires
                            p == 64 * i + j,
                            0 <= j < 64,
                            i < na,
                            i < nb,
                    ;
                    self.lemma_storage_bit(p);
                    other.lemma_storage_bit(p);
                    assert(self@[p]);
                    assert(!(p < other@.len() && other@[p]));
                }
                return false;
            }
            i = i + 1;
        }
        proof {
            assert forall|j: int|
                0 <= j < self@.len() && j < 64 * num_words(other@.len()) && #[trigger] self@[j] implies j
                < other@.len() && other@[j] by {
                self.lemma_storage_bit(j);
                other.lemma_storage_bit(j);
                let k = j / 64;
                assert(k < n) by {
                    assert(j / 64 < na);
                    assert(j / 64 < nb) by (nonlinear_arith)
                        requires
                            0 <= j < 64 * nb,
                    ;
                }
                assert((self.words()[k] & other.words()[k]) == self.words()[k]);
                lemma_bit_and(self.words()[k], other.words()[k], (j % 64) as u64);
            }
        }
        true
    }

    proof fn lemma_ones_of_storage(&self)
        requires
            self.wf(),
        ensures
            ones_of(word_bits(self.words())) == ones_of(self@),
    {
        self.lemma_view();
        let all = word_bits(self.words());
        let tail = all.skip(self.len as int);
        assert(all == self@ + tail);
        lemma_ones_of_append(self@, tail);
        assert forall|k: int| 0 <= k < tail.len() implies !tail[k] by {
            assert(tail[k] == all[k + self.len]);
        }
        lemma_ones_shifted_all_false(tail, self@.len());
        assert(ones_of(all) == ones_of(self@) + Seq::<usize>::empty());
        assert(ones_of(self@) + Seq::<usize>::empty() == ones_of(self@));
    }

    /// The elements, in increasing order.
    pub fn iter_ones(&self) -> (r: Vec<usize>)
        requires
            self.wf(),
        ensures
            r@ == ones_of(self@),
    {
        proof {
            self.lemma_view();
        }
        let n = words_len(&self.bits);
        let mut out: Vec<usize> = Vec::new();
        let mut i: usize = 0;
        assert(word_bits(self.words().take(0)) =~= Seq::<bool>::empty());
        while i < n
            invariant
                self.wf(),
                n == self.words().len(),
                64 * n < self.len + 512,
                i <= n,
                out@ == ones_of(word_bits(self.words().take(i as int))),
            decreases n - i,
        {
            let w = words_get(&self.bits, i);
            proof {
                let ws = self.words();
                assert(ws.take(i + 1) == ws.take(i as int).push(w));
                lemma_word_bits_push(ws.take(i as int), w);
                lemma_ones_of_append(word_bits(ws.take(i as int)), bits_of(w));
                assert(word_bits(ws.take(i as int)).len() == 64 * i);
            }
            push_word_ones(&mut out, w, i * 64);
            i = i + 1;
        }
        proof {
            assert(self.words().take(n as int) == self.words());
            self.lemma_ones_of_storage();
        }
        out
    }

    /// The elements, in increasing order, consuming the set.
    pub fn into_iter_ones(self) -> (r: Vec<usize>)
        requires
            self.wf(),
        ensures
            r@ == ones_of(self@),
    {
        self.iter_ones()
    }
}

impl BitSet {
    /// Zeroes every storage word past the length's last word, and sets that word to ones
    /// below the length exactly (whatever it held).
    fn clear_extra_bits(&mut self)
        requires
            old(self).shape_ok(),
            old(self).len % 512 != 0,
        ensures
            final(self).wf(),
            final(self).len == old(self).len,
            final(self)@ == Seq::new(
                old(self).len as nat,
                |j: int| if j < 64 * (old(self).len / 64) {
                    old(self)@[j]
                } else {
                    true
                },
            ),
    {
        let ghost old_self = *self;
        proof {
            self.lemma_view();
            lemma_num_words(self.len as nat);
        }
        let len = self.len;
        let n = words_len(&self.bits);
        let start: usize = len / 64 + if len % 64 == 0 {
            0
        } else {
            1
        };
        let mut k: usize = start;
        while k < n
            invariant
                self.shape_ok(),
                self.len == len,
                n == self.words().len(),
                len / 64 < n,
                start == len / 64 + if len % 64 == 0 {
                    0int
                } else {
                    1int
                },
                start <= k <= n,
                forall|m: int| 0 <= m < n ==> #[trigger] self.words()[m] == if m >= len / 64 + if len % 64 == 0 {
                    0int
                } else {
                    1int
                } && m < k {
                    0u64
                } else {
                    old_self.words()[m]
                },
            decreases n - k,
        {
            words_set(&mut self.bits, k, 0);
            k = k + 1;
        }
        let b: u64 = (len % 64) as u64;
        proof {
            lemma_shift_pos(b);
        }
        words_set(&mut self.bits, len / 64, (1u64 << b) - 1);
        proof {
            self.lemma_view();
            assert forall|j: int| 0 <= j < word_bits(self.words()).len() implies #[trigger] word_bits(self.words())[j]
                == if j < 64 * (len / 64) {
                word_bits(old_self.words())[j]
            } else {
                j < len
            } by {
                self.lemma_storage_bit(j);
                old_self.lemma_storage_bit(j);
                let m = j / 64;
                assert(j < 64 * (len / 64) <==> m < len / 64) by (nonlinear_arith)
                    requires
                        m == j / 64,
                        0 <= j,
                ;
                if m == len / 64 {
                    lemma_bit_low_mask(b, (j % 64) as u64);
                    assert((j % 64 < b) == (j < len)) by (nonlinear_arith)
                        requires
                            m == j / 64,
                            m == len / 64,
                            b == len % 64,
                            0 <= j,
                    ;
                } else if m > len / 64 {
                    lemma_bit_zero_max((j % 64) as u64);
                    assert(j >= len) by (nonlinear_arith)
                        requires
                            m == j / 64,
                            m > len / 64,
                            0 <= j,
                    ;
                    assert(m >= len / 64 + if len % 64 == 0 { 0int } else { 1int });
                }
            }
            assert(self@ =~= Seq::new(
                old_self.len as nat,
                |j: int| if j < 64 * (old_self.len / 64) {
                    old_self@[j]
                } else {
                    true
                },
            ));
        }
    }

    /// A set of length `len` holding every position. The storage of a length that is a
    /// multiple of 512 has no word past its last full one to mark the end in, so such a
    /// length is not accepted.
    pub fn ones(len: usize) -> (r: Self)
        requires
            len_fits(len as nat),
            len % 512 != 0,
        ensures
            r.wf(),
            r@ == Seq::new(len as nat, |i: int| true),
    {
        let num_vecs: usize = len / 512 + 1;
        proof {
            lemma_num_words(len as nat);
            assert(num_vecs * 8 == num_words(len as nat)) by (nonlinear_arith)
                requires
                    num_vecs == len / 512 + 1,
                    len % 512 != 0,
            ;
        }
        let bits = words_from_elem(0xffff_ffff_ffff_ffffu64, num_vecs * 8);
        let mut out = BitSet { bits, len };
        let ghost full = out;
        out.clear_extra_bits();
        proof {
            full.lemma_view();
            assert forall|j: int| 0 <= j < len implies full@[j] by {
                full.lemma_storage_bit(j);
                lemma_bit_zero_max((j % 64) as u64);
            }
            assert(out@ =~= Seq::new(len as nat, |i: int| true));
        }
        out
    }

    /// Flips every position below the last multiple of 64 not past the length, and sets the
    /// positions from there up to the length.
    pub fn invert(&mut self)
        requires
            old(self).wf(),
            old(self)@.len() % 512 != 0,
        ensures
            final(self).wf(),
            final(self)@ == Seq::new(
                old(self)@.len(),
                |j: int| if j < 64 * (old(self)@.len() / 64) {
                    !old(self)@[j]
                } else {
                    true
                },
            ),
    {
        let ghost old_self = *self;
        proof {
            self.lemma_view();
        }
        let n = words_len(&self.bits);
        let mut i: usize = 0;
        while i < n
            invariant
                self.shape_ok(),
                self.len == old_self.len,
                n == old_self.words().len(),
                i <= n,
                self.words() == Seq::new(n as nat, |k: int| if k < i {
                    !old_self.words()[k]
                } else {
                    old_self.words()[k]
                }),
            decreases n - i,
        {
            let w = words_get(&self.bits, i);
            words_set(&mut self.bits, i, !w);
            i = i + 1;
            assert(self.words() =~= Seq::new(n as nat, |k: int| if k < i {
                !old_self.words()[k]
            } else {
                old_self.words()[k]
            }));
        }
        let ghost flipped = *self;
        proof {
            flipped.lemma_view();
            old_self.lemma_view();
            assert forall|j: int| 0 <= j < old_self.len implies flipped@[j] == !old_self@[j] by {
                flipped.lemma_storage_bit(j);
                old_self.lemma_storage_bit(j);
                lemma_bit_not(old_self.words()[j / 64], (j % 64) as u64);
            }
        }
        self.clear_extra_bits();
        proof {
            assert(self@ =~= Seq::new(
                old_self@.len(),
                |j: int| if j < 64 * (old_self@.len() / 64) {
                    !old_self@[j]
                } else {
                    true
                },
            ));
        }
    }

    /// `invert` applied to a copy (also the `!` operator).
    pub fn inverted(&self) -> (r: Self)
        requires
            self.wf(),
            self@.len() % 512 != 0,
        ensures
            r.wf(),
            r@ == Seq::new(
                self@.len(),
                |j: int| if j < 64 * (self@.len() / 64) {
                    !self@[j]
                } else {
                    true
                },
            ),
    {
        let mut out = self.clone();
        out.invert();
        out
    }

    /// Removes every element.
    pub fn clear(&mut self)
        requires
            old(self).wf(),
        ensures
            final(self).wf(),
            final(self)@ == Seq::new(old(self)@.len(), |i: int| false),
    {
        proof {
            self.lemma_view();
        }
        *self = BitSet::zeros(self.len);
    }

    /// A set of length `len` holding exactly the given positions.
    pub fn from_iter(iter: &[usize], len: usize) -> (r: Self)
        requires
            len_fits(len as nat),
            forall|k: int| 0 <= k < iter@.len() ==> #[trigger] iter@[k] < len,
        ensures
            r.wf(),
            r@ == Seq::new(len as nat, |i: int| iter@.contains(i as usize)),
    {
        let mut out = BitSet::zeros(len);
        out.extend(iter);
        assert(out@ =~= Seq::new(len as nat, |i: int| iter@.contains(i as usize)));
        out
    }

    /// Adds the given positions.
    pub fn extend(&mut self, iter: &[usize])
        requires
            old(self).wf(),
            forall|k: int| 0 <= k < iter@.len() ==> #[trigger] iter@[k] < old(self)@.len(),
        ensures
            final(self).wf(),
            final(self)@ == Seq::new(old(self)@.len(), |i: int| old(self)@[i] || iter@.contains(i as usize)),
    {
        let ghost start = self@;
        let mut k: usize = 0;
        while k < iter.len()
            invariant
                self.wf(),
                self@.len() == start.len(),
                k <= iter@.len(),
                forall|m: int| 0 <= m < iter@.len() ==> #[trigger] iter@[m] < start.len(),
                self@ == Seq::new(start.len(), |i: int| start[i] || iter@.take(k as int).contains(i as usize)),
            decreases iter.len() - k,
        {
            self.set_to_one(iter[k]);
            proof {
                assert forall|i: int| 0 <= i < start.len() implies self@[i] == (start[i] || iter@.take(k + 1).contains(i as usize)) by {
                    if iter@.take(k + 1).contains(i as usize) && i != iter@[k as int] {
                        let m = choose|m: int| 0 <= m < k + 1 && #[trigger] iter@.take(k + 1)[m] == i as usize;
                        assert(iter@.take(k as int)[m] == i as usize);
                    }
                    if iter@.take(k as int).contains(i as usize) {
                        let m = choose|m: int| 0 <= m < k && #[trigger] iter@.take(k as int)[m] == i as usize;
                        assert(iter@.take(k + 1)[m] == i as usize);
                    }
                    if i == iter@[k as int] {
                        assert(iter@.take(k + 1)[k as int] == i as usize);
                    }
                }
                assert(self@ =~= Seq::new(start.len(), |i: int| start[i] || iter@.take(k + 1).contains(i as usize)));
            }
            k = k + 1;
        }
        assert(iter@.take(iter@.len() as int) == iter@);
    }

    /// The set of the first `n` elements of `self` (all of them if there are fewer).
    pub fn first_n_ones(&self, n: usize) -> (r: Self)
        requires
            self.wf(),
        ensures
            r.wf(),
            r@ == Seq::new(self@.len(), |i: int| ones_of(self@).take(
                if n < ones_of(self@).len() { n as int } else { ones_of(self@).len() as int },
            ).contains(i as usize)),
    {
        proof {
            self.lemma_view();
            lemma_ones_of(self@);
        }
        let ones = self.iter_ones();
        let count = if n < ones.len() {
            n
        } else {
            ones.len()
        };
        let mut out = BitSet::zeros(self.len);
        let mut k: usize = 0;
        while k < count
            invariant
                out.wf(),
                self.wf(),
                out@.len() == self.len,
                self@.len() == self.len,
                ones@ == ones_of(self@),
                count <= ones@.len(),
                k <= count,
                forall|m: int| 0 <= m < ones@.len() ==> #[trigger] ones@[m] < self@.len(),
                out@ == Seq::new(self.len as nat, |i: int| ones@.take(k as int).contains(i as usize)),
            decreases count - k,
        {
            out.set_to_one(ones[k]);
            proof {
                assert forall|i: int| 0 <= i < self.len implies out@[i] == ones@.take(k + 1).contains(i as usize) by {
                    if ones@.take(k + 1).contains(i as usize) && i != ones@[k as int] {
                        let m = choose|m: int| 0 <= m < k + 1 && #[trigger] ones@.take(k + 1)[m] == i as usize;
                        assert(ones@.take(k as int)[m] == i as usize);
                    }
                    if ones@.take(k as int).contains(i as usize) {
                        let m = choose|m: int| 0 <= m < k && #[trigger] ones@.take(k as int)[m] == i as usize;
                        assert(ones@.take(k + 1)[m] == i as usize);
                    }
                    if i == ones@[k as int] {
                        assert(ones@.take(k + 1)[k as int] == i as usize);
                    }
                }
                assert(out@ =~= Seq::new(self.len as nat, |i: int| ones@.take(k + 1).contains(i as usize)));
            }
            k = k + 1;
        }
        out
    }
}

impl BitSet {
    /// Whether every position is in the set. It looks at the storage block by block:
    /// every word before the last block must be full, and in the last block the words below
    /// the length's remainder must be full and the next word must hold exactly the bits below
    /// the length. When the length is a multiple of 512 that remainder is 0, so the answer is
    /// whether the positions before the last block are all present and the first 64 positions
    /// of the last block all absent.
    pub fn all(&self) -> (r: bool)
        requires
            self.wf(),
            self@.len() > 0,
        ensures
            self@.len() % 512 != 0 ==> (r == forall|i: int| 0 <= i < self@.len() ==> #[trigger] self@[i]),
            self@.len() % 512 == 0 ==> (r == ((forall|i: int| 0 <= i < self@.len() - 512 ==> #[trigger] self@[i])
                && forall|i: int| self@.len() - 512 <= i < self@.len() - 448 ==> !#[trigger] self@[i])),
    {
        proof {
            self.lemma_view();
            lemma_num_words(self.len as nat);
        }
        let len = self.len;
        let n = words_len(&self.bits);
        let base = n - 8;
        let idx = len % 512;
        let full = idx / 64;
        let b: u64 = (idx % 64) as u64;
        proof {
            assert(64 * base + idx == len || (idx == 0 && 64 * base + 512 == len)) by (nonlinear_arith)
                requires
                    n == 8 * ((len + 511) / 512),
                    base == n - 8,
                    idx == len % 512,
                    len > 0,
            ;
            assert(64 * (base + full) + b == 64 * base + idx) by (nonlinear_arith)
                requires
                    full == idx / 64,
                    b == idx % 64,
            ;
        }
        let mut i: usize = 0;
        while i < base
            invariant
                self.wf(),
                n == self.words().len(),
                base == n - 8,
                self.len == len,
                64 * base <= len,
                i <= base,
                forall|k: int| 0 <= k < i ==> self.words()[k] == 0xffff_ffff_ffff_ffffu64,
            decreases base - i,
        {
            if words_get(&self.bits, i) != 0xffff_ffff_ffff_ffffu64 {
                proof {
                    let w = self.words()[i as int];
                    lemma_word_is_low_mask(w, 0);
                    let j = choose|j: int| 0 <= j < 64 && !#[trigger] bit(w, j);
                    let p = 64 * i + j;
                    assert(p / 64 == i && p % 64 == j && p < 64 * base) by (nonlinear_arith)
                        requires
                            p == 64 * i + j,
                            0 <= j < 64,
                            i < base,
                    ;
                    self.lemma_storage_bit(p);
                    assert(!self@[p]);
                }
                return false;
            }
            i = i + 1;
        }
        let mut l: usize = 0;
        while l < full
            invariant
                self.wf(),
                n == self.words().len(),
                base == n - 8,
                full == idx / 64,
                idx < 512,
                idx == len % 512,
                self.len == len,
                64 * base + idx <= len,
                l <= full,
                forall|k: int| 0 <= k < base ==> self.words()[k] == 0xffff_ffff_ffff_ffffu64,
                forall|k: int| base <= k < base + l ==> self.words()[k] == 0xffff_ffff_ffff_ffffu64,
            decreases full - l,
        {
            if words_get(&self.bits, base + l) != 0xffff_ffff_ffff_ffffu64 {
                proof {
                    let w = self.words()[base + l];
                    lemma_word_is_low_mask(w, 0);
                    let j = choose|j: int| 0 <= j < 64 && !#[trigger] bit(w, j);
                    let p = 64 * (base + l) + j;
                    assert(p / 64 == base + l && p % 64 == j && p < 64 * base + idx) by (nonlinear_arith)
                        requires
                            p == 64 * (base + l) + j,
                            0 <= j < 64,
                            l < full,
                            full == idx / 64,
                    ;
                    self.lemma_storage_bit(p);
                    assert(!self@[p]);
                }
                return false;
            }
            l = l + 1;
        }
        proof {
            lemma_shift_pos(b);
        }
        let last = words_get(&self.bits, base + full);
        let r = last == (1u64 << b) - 1;
        proof {
            lemma_word_is_low_mask(last, b);
            // positions of full words before the last partial word
            assert forall|p: int| 0 <= p < 64 * (base + full) implies self@[p] by {
                assert(p / 64 < base + full && p < len) by (nonlinear_arith)
                    requires
                        0 <= p < 64 * (base + full),
                        64 * (base + full) <= len,
                ;
                self.lemma_storage_bit(p);
                let k = p / 64;
                if k < base {
                    assert(self.words()[k] == 0xffff_ffff_ffff_ffffu64);
                } else {
                    assert(self.words()[k] == 0xffff_ffff_ffff_ffffu64);
                }
                lemma_bit_zero_max((p % 64) as u64);
            }
            let q0 = 64 * (base + full);
            assert forall|j: int| 0 <= j < 64 implies #[trigger] bit(last, j) == self.word_pos(q0 + j) by {
                let p = q0 + j;
                assert(p / 64 == base + full && p % 64 == j) by (nonlinear_arith)
                    requires
                        p == 64 * (base + full) + j,
                        0 <= j < 64,
                ;
                self.lemma_storage_bit(p);
            }
            if idx != 0 {
                if r {
                    assert forall|p: int| 0 <= p < len implies #[trigger] self@[p] by {
                        if p >= q0 {
                            assert(bit(last, p - q0) == (p - q0 < b));
                            assert(self.word_pos(q0 + (p - q0)) == self@[p]);
                        }
                    }
                } else {
                    let j = choose|j: int| 0 <= j < 64 && #[trigger] bit(last, j) != (j < b);
                    if j >= b {
                        assert(self.word_pos(q0 + j) == false) by {
                            self.lemma_storage_bit(q0 + j);
                        }
                    }
                    assert(!self@[q0 + j]);
                }
            } else {
                if r {
                    assert forall|p: int| len - 512 <= p < len - 448 implies !#[trigger] self@[p] by {
                        assert(bit(last, p - q0) == (p - q0 < b));
                        assert(self.word_pos(q0 + (p - q0)) == self@[p]);
                    }
                } else {
                    let j = choose|j: int| 0 <= j < 64 && #[trigger] bit(last, j) != (j < b);
                    assert(self@[q0 + j]);
                }
            }
        }
        r
    }

    /// Whether the storage position `p` is set (inside or past the length).
    spec fn word_pos(&self, p: int) -> bool {
        word_bits(self.words())[p]
    }
}

/// The storage of a well-formed set covers its length.
pub proof fn lemma_storage_covers(s: &BitSet)
    requires
        s.wf(),
    ensures
        s@.len() <= 64 * num_words(s@.len()),
        len_fits(s@.len()),
{
    s.lemma_view();
    lemma_num_words(s@.len());
}

} // verus!

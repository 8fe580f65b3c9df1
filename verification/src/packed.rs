//! The bit-sliced (packed) representation: the trit sequence stored as
//! two parallel bitmaps of 64-bit words, one bit per element per bitmap.
//! `pos` holds a set bit exactly where the element is +1 and `neg` where
//! it is -1; both clear means zero, and both set is unreachable by
//! construction. Bind and dot product run word-at-a-time over the
//! bitmaps and are proved equal to the elementwise model.

use vstd::prelude::*;

use crate::model::bind_seq;
use crate::model::dot_prefix;
use crate::model::dot_seq;
use crate::model::lemma_dot_prefix_bound;
use crate::model::sign_seq;
use crate::model::wf_seq;
use crate::model::zero_seq;
use crate::trit::Trit;
use crate::vector::TritVector;
use vstd::arithmetic::div_mod::lemma_div_is_ordered;
use vstd::arithmetic::div_mod::lemma_div_multiples_vanish;
use vstd::arithmetic::div_mod::lemma_fundamental_div_mod;
use vstd::arithmetic::div_mod::lemma_fundamental_div_mod_converse;
use vstd::arithmetic::div_mod::lemma_hoist_over_denominator;
use vstd::arithmetic::div_mod::lemma_mod_bound;
use vstd::arithmetic::div_mod::lemma_multiply_divide_lt;
use vstd::math::min;

verus! {

/// Whether bit `j` of a 64-bit word is set.
pub open spec fn bit64(w: u64, j: u64) -> bool {
    (w >> j) & 1u64 == 1u64
}

/// The trit one bitmap position of each plane encodes.
pub open spec fn trit_of_bits(p: bool, n: bool) -> i8 {
    if p {
        1i8
    } else if n {
        -1i8
    } else {
        0i8
    }
}

/// Words needed for `n` bits at 64 bits per word.
pub open spec fn words_for(n: int) -> int {
    (n + 63) / 64
}

/// `words_for` is the round-up: the words cover every position, and the
/// final word holds fewer than 64 spare bits.
proof fn lemma_words_for(n: int)
    requires
        n >= 0,
    ensures
        words_for(n) == n / 64 + if n % 64 == 0 {
            0int
        } else {
            1int
        },
        n <= 64 * words_for(n) < n + 64,
        words_for(n) >= 0,
{
    let q = n / 64;
    let r = n % 64;
    lemma_fundamental_div_mod(n, 64);
    lemma_mod_bound(n, 64);
    lemma_hoist_over_denominator(r + 63, q, 64);
    if r == 0 {
        lemma_fundamental_div_mod_converse(r + 63, 64, 0, 63);
    } else {
        lemma_fundamental_div_mod_converse(r + 63, 64, 1, r - 1);
    }
    assert(64 * (q + (r + 63) / 64) == 64 * q + 64 * ((r + 63) / 64)) by (nonlinear_arith);
}

/// Packed trit vector: two bitmaps of `ceil(len / 64)` 64-bit words.
///
/// Invariant (`wf`): within the declared length no position has both
/// bits set, and every bit beyond the declared length is clear in both
/// bitmaps, so popcount-based reductions never see stray bits.
#[derive(Debug, Clone, PartialEq, Eq)]
pub struct PackedTritVec {
    /// Bit set exactly where the element is +1.
    pos: Vec<u64>,
    /// Bit set exactly where the element is -1.
    neg: Vec<u64>,
    /// Number of trits.
    len: usize,
}

impl View for PackedTritVec {
    type V = Seq<i8>;

    closed spec fn view(&self) -> Seq<i8> {
        Seq::new(self.len as nat, |i: int| trit_of_bits(self.pbit(i), self.nbit(i)))
    }
}

impl PackedTritVec {
    /// The `pos` bit at position `i`.
    closed spec fn pbit(&self, i: int) -> bool {
        bit64(self.pos@[i / 64], (i % 64) as u64)
    }

    /// The `neg` bit at position `i`.
    closed spec fn nbit(&self, i: int) -> bool {
        bit64(self.neg@[i / 64], (i % 64) as u64)
    }

    /// Structural invariant of the two bitmaps.
    pub closed spec fn wf(&self) -> bool {
        &&& self.pos@.len() == words_for(self.len as int)
        &&& self.neg@.len() == self.pos@.len()
        &&& forall|i: int| 0 <= i < self.len ==> !(#[trigger] self.pbit(i) && self.nbit(i))
        &&& forall|i: int|
            self.len <= i < 64 * self.pos@.len() ==> !(#[trigger] self.pbit(i)) && !self.nbit(i)
    }

    /// The view always holds trit scalars.
    pub proof fn lemma_view_wf(&self)
        ensures
            wf_seq(self@),
    {
    }

    /// The all-zero packed vector of the given length.
    pub fn zeros(len: usize) -> (v: PackedTritVec)
        ensures
            v@ =~= zero_seq(len as nat),
            v@.len() == len,
            v.wf(),
    {
        let num_words = len / 64 + if len % 64 == 0 {
            0
        } else {
            1
        };
        proof {
            lemma_words_for(len as int);
        }
        let mut pos: Vec<u64> = Vec::new();
        let mut i: usize = 0;
        while i < num_words
            invariant
                i <= num_words,
                pos@.len() == i,
                forall|w: int| 0 <= w < i ==> pos@[w] == 0u64,
            decreases num_words - i,
        {
            pos.push(0);
            i = i + 1;
        }
        let neg = pos.clone();
        proof {
            assert(neg@ =~= pos@);
        }
        let v = PackedTritVec { pos, neg, len };
        proof {
            assert forall|i: int| 0 <= i < 64 * v.pos@.len() implies !v.pbit(i) && !v.nbit(i) by {
                lemma_mod_bound(i, 64);
                lemma_multiply_divide_lt(i, v.pos@.len() as int, 64);
                let j = (i % 64) as u64;
                assert(!bit64(0u64, j)) by (bit_vector);
            }
        }
        v
    }

    /// Number of trits.
    pub fn len(&self) -> (n: usize)
        ensures
            n == self@.len(),
    {
        self.len
    }

    /// Whether the vector has no positions.
    pub fn is_empty(&self) -> (r: bool)
        ensures
            r == (self@.len() == 0),
    {
        self.len == 0
    }

    /// The trit at `idx`, read from the two bitmaps.
    pub fn get(&self, idx: usize) -> (t: Trit)
        requires
            self.wf(),
            idx < self@.len(),
        ensures
            t == Trit::of_int(self@[idx as int] as int),
    {
        let word_idx = idx / 64;
        let bit_idx = (idx % 64) as u64;
        proof {
            lemma_mod_bound(idx as int, 64);
            lemma_multiply_divide_lt(idx as int, self.pos@.len() as int, 64);
            lemma_words_for(self.len as int);
        }
        let mask = 1u64 << bit_idx;
        let pw = self.pos[word_idx];
        let nw = self.neg[word_idx];
        proof {
            lemma_mask_test(pw, bit_idx);
            lemma_mask_test(nw, bit_idx);
        }
        if pw & mask != 0 {
            Trit::Pos
        } else if nw & mask != 0 {
            Trit::Neg
        } else {
            Trit::Zero
        }
    }

    /// Store a trit at `idx`: clear the position in both bitmaps, then
    /// set the bit of the plane the trit belongs to, keeping the two
    /// planes disjoint.
    pub fn set(&mut self, idx: usize, trit: Trit)
        requires
            old(self).wf(),
            idx < old(self)@.len(),
        ensures
            final(self)@ =~= old(self)@.update(idx as int, trit.as_i8()),
            final(self).wf(),
    {
        let word_idx = idx / 64;
        let bit_idx = (idx % 64) as u64;
        proof {
            lemma_mod_bound(idx as int, 64);
            lemma_multiply_divide_lt(idx as int, self.pos@.len() as int, 64);
        }
        let mask = 1u64 << bit_idx;
        let cleared_p = self.pos[word_idx] & !mask;
        let cleared_n = self.neg[word_idx] & !mask;
        let new_p: u64;
        let new_n: u64;
        match trit {
            Trit::Pos => {
                new_p = cleared_p | mask;
                new_n = cleared_n;
            },
            Trit::Neg => {
                new_p = cleared_p;
                new_n = cleared_n | mask;
            },
            Trit::Zero => {
                new_p = cleared_p;
                new_n = cleared_n;
            },
        }
        let ghost old_self = *old(self);
        self.pos[word_idx] = new_p;
        self.neg[word_idx] = new_n;
        proof {
            let li = idx as int;
            let w = li / 64;
            lemma_fundamental_div_mod(li, 64);
            assert forall|p: int|
                0 <= p < 64 * self.pos@.len() && p != li implies #[trigger] self.pbit(p)
                == old_self.pbit(p) && self.nbit(p) == old_self.nbit(p) by {
                lemma_mod_bound(p, 64);
                lemma_fundamental_div_mod(p, 64);
                if p / 64 == w {
                    let k = (p % 64) as u64;
                    lemma_bit_clear(old_self.pos@[w], bit_idx, k);
                    lemma_bit_clear(old_self.neg@[w], bit_idx, k);
                    lemma_bit_set(cleared_p, bit_idx, k);
                    lemma_bit_set(cleared_n, bit_idx, k);
                }
            }
            lemma_bit_clear(old_self.pos@[w], bit_idx, bit_idx);
            lemma_bit_clear(old_self.neg@[w], bit_idx, bit_idx);
            lemma_bit_set(cleared_p, bit_idx, bit_idx);
            lemma_bit_set(cleared_n, bit_idx, bit_idx);
            assert(self.pbit(li) == (trit == Trit::Pos));
            assert(self.nbit(li) == (trit == Trit::Neg));
            assert(self@ =~= old_self@.update(li, trit.as_i8()));
            assert forall|p: int| 0 <= p < self.len implies !(#[trigger] self.pbit(p)
                && self.nbit(p)) by {
                if p != li {
                    assert(self.pbit(p) == old_self.pbit(p));
                    assert(self.nbit(p) == old_self.nbit(p));
                }
            }
            assert forall|p: int|
                self.len <= p < 64 * self.pos@.len() implies !(#[trigger] self.pbit(p))
                && !self.nbit(p) by {
                assert(self.pbit(p) == old_self.pbit(p));
                assert(self.nbit(p) == old_self.nbit(p));
            }
            assert(self.wf());
        }
    }

    /// Pack a dense vector: every +1 sets a `pos` bit, every -1 a `neg`
    /// bit, zero leaves both clear. The abstract contents are unchanged.
    pub fn from_trit_vector(v: &TritVector) -> (r: PackedTritVec)
        requires
            v.wf(),
        ensures
            r@ =~= v@,
            r.wf(),
    {
        let len = v.len();
        let mut r = PackedTritVec::zeros(len);
        let mut i: usize = 0;
        while i < len
            invariant
                i <= len,
                len == v@.len(),
                wf_seq(v@),
                r.wf(),
                r@.len() == len,
                forall|j: int| 0 <= j < i ==> r@[j] == v@[j],
                forall|j: int| i <= j < len ==> r@[j] == 0i8,
            decreases len - i,
        {
            let t = v.get(i);
            r.set(i, t);
            i = i + 1;
        }
        r
    }

    /// Unpack into a dense vector holding the same abstract contents:
    /// the round trip through the packed form is the identity.
    pub fn to_trit_vector(&self) -> (r: TritVector)
        requires
            self.wf(),
        ensures
            r@ =~= self@,
            r.wf(),
    {
        proof {
            self.lemma_view_wf();
        }
        let len = self.len;
        let mut data: Vec<i8> = Vec::new();
        let mut i: usize = 0;
        while i < len
            invariant
                i <= len,
                self.wf(),
                len == self@.len(),
                wf_seq(self@),
                data@.len() == i,
                forall|j: int| 0 <= j < i ==> data@[j] == self@[j],
            decreases len - i,
        {
            let t = self.get(i);
            data.push(t.to_i8());
            i = i + 1;
        }
        let r = TritVector::from_slice(data.as_slice());
        proof {
            assert(sign_seq(data@) =~= self@);
        }
        r
    }

    /// Bind, word-at-a-time: the sign-multiplication table turns into
    /// two bitwise formulas — the result is +1 where both operands agree
    /// on a nonzero sign, -1 where they disagree. Equals the elementwise
    /// model on the dense views.
    pub fn bind(&self, other: &PackedTritVec) -> (r: PackedTritVec)
        requires
            self.wf(),
            other.wf(),
            self@.len() == other@.len(),
        ensures
            r@ =~= bind_seq(self@, other@),
            r.wf(),
    {
        let num_words = self.pos.len();
        let mut rpos: Vec<u64> = Vec::new();
        let mut rneg: Vec<u64> = Vec::new();
        let mut i: usize = 0;
        while i < num_words
            invariant
                i <= num_words,
                num_words == self.pos@.len(),
                other.pos@.len() == num_words,
                self.wf(),
                other.wf(),
                rpos@.len() == i,
                rneg@.len() == i,
                forall|w: int, k: u64|
                    0 <= w < i && k < 64 ==> #[trigger] bit64(rpos@[w], k) == ((bit64(
                        self.pos@[w],
                        k,
                    ) && bit64(other.pos@[w], k)) || (bit64(self.neg@[w], k) && bit64(
                        other.neg@[w],
                        k,
                    ))),
                forall|w: int, k: u64|
                    0 <= w < i && k < 64 ==> #[trigger] bit64(rneg@[w], k) == ((bit64(
                        self.pos@[w],
                        k,
                    ) && bit64(other.neg@[w], k)) || (bit64(self.neg@[w], k) && bit64(
                        other.pos@[w],
                        k,
                    ))),
            decreases num_words - i,
        {
            let sp = self.pos[i];
            let sn = self.neg[i];
            let op = other.pos[i];
            let on = other.neg[i];
            let rp = (sp & op) | (sn & on);
            let rn = (sp & on) | (sn & op);
            proof {
                assert forall|k: u64| k < 64 implies bit64(rp, k) == ((bit64(sp, k) && bit64(
                    op,
                    k,
                )) || (bit64(sn, k) && bit64(on, k))) && bit64(rn, k) == ((bit64(sp, k) && bit64(
                    on,
                    k,
                )) || (bit64(sn, k) && bit64(op, k))) by {
                    lemma_bit_and(sp, op, k);
                    lemma_bit_and(sn, on, k);
                    lemma_bit_or(sp & op, sn & on, k);
                    lemma_bit_and(sp, on, k);
                    lemma_bit_and(sn, op, k);
                    lemma_bit_or(sp & on, sn & op, k);
                }
            }
            rpos.push(rp);
            rneg.push(rn);
            i = i + 1;
        }
        let r = PackedTritVec { pos: rpos, neg: rneg, len: self.len };
        proof {
            assert forall|p: int| 0 <= p < 64 * num_words implies #[trigger] r.pbit(p) == ((
            self.pbit(p) && other.pbit(p)) || (self.nbit(p) && other.nbit(p))) && r.nbit(p) == ((
            self.pbit(p) && other.nbit(p)) || (self.nbit(p) && other.pbit(p))) by {
                lemma_mod_bound(p, 64);
                lemma_multiply_divide_lt(p, num_words as int, 64);
            }
            assert forall|p: int| 0 <= p < r.len implies r@[p] == bind_seq(self@, other@)[p] by {
                crate::model::lemma_mul_cases(self@[p], other@[p]);
            }
            assert(r.wf());
            assert(r@ =~= bind_seq(self@, other@));
        }
        r
    }

    /// Dot product, word-at-a-time by population count: bits where the
    /// signs agree deltaute +1, bits where they disagree deltaute
    /// -1, and the word counts accumulate into one signed sum that
    /// equals the integer dot product of the dense views. Trailing bits
    /// never deltaute: the invariant keeps them clear in both planes.
    pub fn dot(&self, other: &PackedTritVec) -> (d: i64)
        requires
            self.wf(),
            other.wf(),
            self@.len() == other@.len(),
            self@.len() <= i64::MAX,
        ensures
            d == dot_seq(self@, other@),
    {
        proof {
            self.lemma_view_wf();
            other.lemma_view_wf();
            lemma_words_for(self.len as int);
        }
        let num_words = self.pos.len();
        let len = self.len;
        let mut sum: i64 = 0;
        let mut i: usize = 0;
        while i < num_words
            invariant
                i <= num_words,
                num_words == self.pos@.len(),
                other.pos@.len() == num_words,
                len == self.len,
                self.wf(),
                other.wf(),
                self@.len() == other@.len(),
                self@.len() <= i64::MAX,
                wf_seq(self@),
                wf_seq(other@),
                sum == dot_prefix(self@, other@, min(64 * (i as int), len as int)),
                -(len as int) <= sum <= len as int,
            decreases num_words - i,
        {
            let sp = self.pos[i];
            let sn = self.neg[i];
            let op = other.pos[i];
            let on = other.neg[i];
            let pp = popcount64(sp & op);
            let nn = popcount64(sn & on);
            let pn = popcount64(sp & on);
            let np = popcount64(sn & op);
            let delta: i64 = (pp as i64 + nn as i64) - (pn as i64 + np as i64);
            proof {
                let w = i as int;
                let li = len as int;
                lemma_words_for(li);
                assert(64 * w <= 64 * (num_words - 1)) by (nonlinear_arith)
                    requires
                        w <= num_words - 1,
                ;
                assert(64 * w <= li);
                assert forall|k: u64| k < 64 implies !(bit64(sp, k) && bit64(sn, k)) && !(bit64(
                    op,
                    k,
                ) && bit64(on, k)) by {
                    let p = 64 * w + k;
                    lemma_fundamental_div_mod_converse(p, 64, w, k as int);
                    assert(self.pbit(p) == bit64(sp, k));
                    assert(self.nbit(p) == bit64(sn, k));
                    assert(other.pbit(p) == bit64(op, k));
                    assert(other.nbit(p) == bit64(on, k));
                    assert(64 * w < 64 * num_words && p < 64 * num_words) by (nonlinear_arith)
                        requires
                            w < num_words,
                            p < 64 * w + 64,
                            p >= 64 * w,
                    ;
                }
                lemma_word_dot_counts(sp, sn, op, on, 64);
                lemma_dot_word(self, other, w, 64);
                lemma_dot_prefix_bound(self@, other@, min(64 * (w + 1), li));
                assert(delta == word_dot(sp, sn, op, on, 64));
                assert(sum == dot_prefix(self@, other@, 64 * w));
            }
            sum = sum + delta;
            i = i + 1;
        }
        proof {
            lemma_words_for(self.len as int);
            assert(min(64 * (num_words as int), len as int) == len as int);
        }
        sum
    }

    /// Memory held by the two bitmaps, in bytes: two 64-bit words per
    /// 64 positions.
    pub fn memory_bytes(&self) -> (b: usize)
        requires
            self.wf(),
        ensures
            b == 16 * words_for(self@.len() as int),
    {
        proof {
            let n = self.len as int;
            let q = n / 64;
            lemma_words_for(n);
            lemma_fundamental_div_mod(n, 64);
            lemma_mod_bound(n, 64);
            // 16 * (n / 64) == (64 * (n / 64)) / 4 <= n / 4
            lemma_div_multiples_vanish(16 * q, 4);
            lemma_div_is_ordered(64 * q, n, 4);
            lemma_div_is_ordered(n, usize::MAX as int, 4);
            assert(16 * words_for(n) <= usize::MAX as int / 4 + 16);
        }
        self.pos.len() * 8 * 2
    }
}

/// Number of set bits among the low `n` bits of a word.
pub open spec fn count_bits(w: u64, n: int) -> int
    decreases n,
{
    if n <= 0 {
        0
    } else {
        count_bits(w, n - 1) + if bit64(w, (n - 1) as u64) {
            1int
        } else {
            0int
        }
    }
}

/// Sum over the low `n` bit positions of the products of the trits the
/// two word pairs encode there.
pub open spec fn word_dot(ap: u64, an: u64, bp: u64, bn: u64, n: int) -> int
    decreases n,
{
    if n <= 0 {
        0
    } else {
        word_dot(ap, an, bp, bn, n - 1) + trit_of_bits(
            bit64(ap, (n - 1) as u64),
            bit64(an, (n - 1) as u64),
        ) * trit_of_bits(bit64(bp, (n - 1) as u64), bit64(bn, (n - 1) as u64))
    }
}

/// Population count of a 64-bit word.
fn popcount64(w: u64) -> (c: u32)
    ensures
        c == count_bits(w, 64),
        c <= 64,
{
    let mut c: u32 = 0;
    let mut j: u64 = 0;
    while j < 64
        invariant
            j <= 64,
            c == count_bits(w, j as int),
            c <= j,
        decreases 64 - j,
    {
        let b = (w >> j) & 1u64;
        proof {
            assert((w >> j) & 1u64 == 0 || (w >> j) & 1u64 == 1) by (bit_vector);
        }
        c = c + (b as u32);
        j = j + 1;
    }
    c
}

/// On words whose two planes are disjoint, the per-word trit dot product
/// is the number of bits where the signs agree minus the number where
/// they disagree, each a population count of one AND.
proof fn lemma_word_dot_counts(ap: u64, an: u64, bp: u64, bn: u64, n: int)
    requires
        0 <= n <= 64,
        forall|k: u64| k < 64 ==> !(#[trigger] bit64(ap, k) && bit64(an, k)),
        forall|k: u64| k < 64 ==> !(#[trigger] bit64(bp, k) && bit64(bn, k)),
    ensures
        word_dot(ap, an, bp, bn, n) == count_bits(ap & bp, n) + count_bits(an & bn, n)
            - count_bits(ap & bn, n) - count_bits(an & bp, n),
    decreases n,
{
    if n > 0 {
        lemma_word_dot_counts(ap, an, bp, bn, n - 1);
        let k = (n - 1) as u64;
        lemma_bit_and(ap, bp, k);
        lemma_bit_and(an, bn, k);
        lemma_bit_and(ap, bn, k);
        lemma_bit_and(an, bp, k);
        crate::model::lemma_mul_cases(
            trit_of_bits(bit64(ap, k), bit64(an, k)),
            trit_of_bits(bit64(bp, k), bit64(bn, k)),
        );
    }
}

/// Walking one word extends the dot product of the dense views by that
/// word's deltaution; positions past the declared length hold clear
/// bits in every plane and add nothing.
proof fn lemma_dot_word(a: &PackedTritVec, b: &PackedTritVec, w: int, k: int)
    requires
        a.wf(),
        b.wf(),
        a.len == b.len,
        0 <= w < a.pos@.len(),
        0 <= k <= 64,
        64 * w <= a.len,
    ensures
        dot_prefix(a@, b@, min(64 * w + k, a.len as int)) == dot_prefix(a@, b@, 64 * w)
            + word_dot(a.pos@[w], a.neg@[w], b.pos@[w], b.neg@[w], k),
    decreases k,
{
    if k > 0 {
        lemma_dot_word(a, b, w, k - 1);
        let p = 64 * w + k - 1;
        lemma_fundamental_div_mod_converse(p, 64, w, k - 1);
        assert(a.pbit(p) == bit64(a.pos@[w], (k - 1) as u64));
        assert(a.nbit(p) == bit64(a.neg@[w], (k - 1) as u64));
        assert(b.pbit(p) == bit64(b.pos@[w], (k - 1) as u64));
        assert(b.nbit(p) == bit64(b.neg@[w], (k - 1) as u64));
        if p < a.len {
            assert(a@[p] == trit_of_bits(a.pbit(p), a.nbit(p)));
            assert(b@[p] == trit_of_bits(b.pbit(p), b.nbit(p)));
        } else {
            assert(p < 64 * a.pos@.len()) by (nonlinear_arith)
                requires
                    w < a.pos@.len(),
                    p < 64 * w + 64,
            ;
            assert(!a.pbit(p) && !a.nbit(p));
            assert(!b.pbit(p) && !b.nbit(p));
        }
    }
}

/// Bitwise AND is elementwise conjunction of the bits.
proof fn lemma_bit_and(x: u64, y: u64, k: u64)
    requires
        k < 64,
    ensures
        bit64(x & y, k) == (bit64(x, k) && bit64(y, k)),
{
    assert((((x & y) >> k) & 1u64 == 1u64) == ((x >> k) & 1u64 == 1u64 && (y >> k) & 1u64 == 1u64))
        by (bit_vector)
        requires
            k < 64,
    ;
}

/// Bitwise OR is elementwise disjunction of the bits.
proof fn lemma_bit_or(x: u64, y: u64, k: u64)
    requires
        k < 64,
    ensures
        bit64(x | y, k) == (bit64(x, k) || bit64(y, k)),
{
    assert((((x | y) >> k) & 1u64 == 1u64) == ((x >> k) & 1u64 == 1u64 || (y >> k) & 1u64 == 1u64))
        by (bit_vector)
        requires
            k < 64,
    ;
}

/// Clearing bit `j` clears it and leaves every other bit unchanged.
proof fn lemma_bit_clear(w: u64, j: u64, k: u64)
    requires
        j < 64,
        k < 64,
    ensures
        bit64(w & !(1u64 << j), k) == (k != j && bit64(w, k)),
{
    assert((((w & !(1u64 << j)) >> k) & 1u64 == 1u64) == (k != j && (w >> k) & 1u64 == 1u64))
        by (bit_vector)
        requires
            j < 64,
            k < 64,
    ;
}

/// Setting bit `j` sets it and leaves every other bit unchanged.
proof fn lemma_bit_set(w: u64, j: u64, k: u64)
    requires
        j < 64,
        k < 64,
    ensures
        bit64(w | (1u64 << j), k) == (k == j || bit64(w, k)),
{
    assert((((w | (1u64 << j)) >> k) & 1u64 == 1u64) == (k == j || (w >> k) & 1u64 == 1u64))
        by (bit_vector)
        requires
            j < 64,
            k < 64,
    ;
}

/// `w & (1 << j)` is nonzero exactly when bit `j` of `w` is set.
proof fn lemma_mask_test(w: u64, j: u64)
    requires
        j < 64,
    ensures
        (w & (1u64 << j) != 0) == bit64(w, j),
{
    assert((w & (1u64 << j) != 0) == ((w >> j) & 1u64 == 1u64)) by (bit_vector)
        requires
            j < 64,
    ;
}

} // verus!

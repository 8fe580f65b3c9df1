//! The mathematical model shared by every representation: a trit vector
//! is a finite sequence of scalars in {-1, 0, +1}, and each operation is
//! a spec function over such sequences. Dense, packed and sparse vectors
//! all state their contracts against these functions.

use vstd::prelude::*;

use crate::trit::sign_of;

verus! {

/// Every element of the sequence is a trit scalar.
pub open spec fn wf_seq(s: Seq<i8>) -> bool {
    forall|i: int| 0 <= i < s.len() ==> -1 <= #[trigger] s[i] <= 1
}

/// The all-zero sequence of a given length.
pub open spec fn zero_seq(n: nat) -> Seq<i8> {
    Seq::new(n, |i: int| 0i8)
}

/// Elementwise sign multiplication: the canonical bind. On well-formed
/// sequences the sign of the product is the product itself.
pub open spec fn bind_seq(a: Seq<i8>, b: Seq<i8>) -> Seq<i8> {
    Seq::new(a.len(), |i: int| sign_of(a[i] * b[i]))
}

/// Sum of elementwise products over the first `n` positions.
pub open spec fn dot_prefix(a: Seq<i8>, b: Seq<i8>, n: int) -> int
    decreases n,
{
    if n <= 0 {
        0
    } else {
        dot_prefix(a, b, n - 1) + a[n - 1] * b[n - 1]
    }
}

/// The integer dot product of two equal-length sequences.
pub open spec fn dot_seq(a: Seq<i8>, b: Seq<i8>) -> int {
    dot_prefix(a, b, a.len() as int)
}

/// Number of positions among the first `n` where the two sequences differ.
pub open spec fn hamming_prefix(a: Seq<i8>, b: Seq<i8>, n: int) -> nat
    decreases n,
{
    if n <= 0 {
        0
    } else {
        hamming_prefix(a, b, n - 1) + if a[n - 1] == b[n - 1] {
            0nat
        } else {
            1nat
        }
    }
}

/// Count of positions where the two sequences hold different values
/// (exact value inequality, so +1 against 0 counts as different).
pub open spec fn hamming_seq(a: Seq<i8>, b: Seq<i8>) -> nat {
    hamming_prefix(a, b, a.len() as int)
}

/// Number of nonzero elements among the first `n` positions.
pub open spec fn nnz_prefix(s: Seq<i8>, n: int) -> nat
    decreases n,
{
    if n <= 0 {
        0
    } else {
        nnz_prefix(s, n - 1) + if s[n - 1] == 0 {
            0nat
        } else {
            1nat
        }
    }
}

/// Number of nonzero elements of the sequence.
pub open spec fn nnz_seq(s: Seq<i8>) -> nat {
    nnz_prefix(s, s.len() as int)
}

/// Circular shift toward higher indices: position `i` of the input lands
/// at position `(i + shift) mod len`, so position `j` of the result reads
/// the input at `(j - shift) mod len` (Euclidean modulo, well-defined for
/// negative shifts).
pub open spec fn permute_seq(s: Seq<i8>, shift: int) -> Seq<i8> {
    Seq::new(s.len(), |j: int| s[(j - shift) % (s.len() as int)])
}

/// Signed sum at position `i` of the first `k` sequences of `vs`.
pub open spec fn bundle_sum(vs: Seq<Seq<i8>>, i: int, k: int) -> int
    decreases k,
{
    if k <= 0 {
        0
    } else {
        bundle_sum(vs, i, k - 1) + vs[k - 1][i]
    }
}

/// Elementwise majority vote across `vs`, each of length `dim`: the sign
/// of the signed sum at every position, with an exact tie giving zero.
pub open spec fn bundle_seq(vs: Seq<Seq<i8>>, dim: nat) -> Seq<i8> {
    Seq::new(dim, |i: int| sign_of(bundle_sum(vs, i, vs.len() as int)))
}

/// Elementwise sign normalization: every element replaced by its sign.
pub open spec fn sign_seq(s: Seq<i8>) -> Seq<i8> {
    Seq::new(s.len(), |i: int| sign_of(s[i] as int))
}

/// Elementwise negation of a well-formed sequence.
pub open spec fn neg_seq(s: Seq<i8>) -> Seq<i8> {
    Seq::new(s.len(), |i: int| sign_of(-s[i]))
}

/// Case table of multiplication over the trit domain. Every fact is a
/// linear consequence once a factor is fixed, so the rest of the crate
/// can reason about products without nonlinear arithmetic.
pub proof fn lemma_mul_cases(x: i8, y: i8)
    by (nonlinear_arith)
    requires
        -1 <= x <= 1,
        -1 <= y <= 1,
    ensures
        x == 0 ==> x * y == 0,
        y == 0 ==> x * y == 0,
        x == 1 ==> x * y == y,
        x == -1 ==> x * y == -y,
        y == 1 ==> x * y == x,
        y == -1 ==> x * y == -x,
        -1 <= x * y <= 1,
        x * y == y * x,
{
}

/// The dot product is commutative.
pub proof fn lemma_dot_commutative(a: Seq<i8>, b: Seq<i8>)
    requires
        a.len() == b.len(),
    ensures
        dot_seq(a, b) == dot_seq(b, a),
{
    lemma_dot_prefix_commutative(a, b, a.len() as int);
}

proof fn lemma_dot_prefix_commutative(a: Seq<i8>, b: Seq<i8>, n: int)
    ensures
        dot_prefix(a, b, n) == dot_prefix(b, a, n),
    decreases n,
{
    if n > 0 {
        lemma_dot_prefix_commutative(a, b, n - 1);
        let x = a[n - 1];
        let y = b[n - 1];
        assert(x * y == y * x) by (nonlinear_arith);
    }
}

/// The dot product of a well-formed vector with itself is its nonzero
/// count: the squared Euclidean norm, the integer core of the fact that
/// a nonzero vector has cosine similarity 1 with itself.
pub proof fn lemma_dot_self_nnz(v: Seq<i8>)
    requires
        wf_seq(v),
    ensures
        dot_seq(v, v) == nnz_seq(v),
{
    lemma_dot_self_prefix(v, v.len() as int);
}

proof fn lemma_dot_self_prefix(v: Seq<i8>, n: int)
    requires
        wf_seq(v),
        n <= v.len(),
    ensures
        dot_prefix(v, v, n) == nnz_prefix(v, n),
    decreases n,
{
    if n > 0 {
        lemma_dot_self_prefix(v, n - 1);
        lemma_mul_cases(v[n - 1], v[n - 1]);
    }
}

/// The dot product of a well-formed vector with its negation is minus
/// its nonzero count: the integer core of the fact that a nonzero vector
/// has cosine similarity -1 with its negation.
pub proof fn lemma_dot_negated_nnz(v: Seq<i8>)
    requires
        wf_seq(v),
    ensures
        dot_seq(v, neg_seq(v)) == -(nnz_seq(v) as int),
{
    lemma_dot_negated_prefix(v, v.len() as int);
}

proof fn lemma_dot_negated_prefix(v: Seq<i8>, n: int)
    requires
        wf_seq(v),
        n <= v.len(),
    ensures
        dot_prefix(v, neg_seq(v), n) == -(nnz_prefix(v, n) as int),
    decreases n,
{
    if n > 0 {
        lemma_dot_negated_prefix(v, n - 1);
        let x = v[n - 1];
        lemma_mul_cases(x, sign_of(-x));
    }
}

/// The dot product of any vector with the all-zero vector is zero: the
/// degenerate similarity case where one norm vanishes.
pub proof fn lemma_dot_zero(v: Seq<i8>)
    ensures
        dot_seq(v, zero_seq(v.len())) == 0,
{
    lemma_dot_zero_prefix(v, v.len() as int);
}

proof fn lemma_dot_zero_prefix(v: Seq<i8>, n: int)
    requires
        n <= v.len(),
    ensures
        dot_prefix(v, zero_seq(v.len()), n) == 0,
    decreases n,
{
    if n > 0 {
        lemma_dot_zero_prefix(v, n - 1);
        let x = v[n - 1];
        assert(x * 0 == 0) by (nonlinear_arith);
    }
}

/// Positions where the first operand is zero add nothing to the dot
/// product.
pub proof fn lemma_dot_prefix_zero_range(a: Seq<i8>, b: Seq<i8>, l: int, m: int)
    requires
        0 <= l <= m,
        forall|i: int| l <= i < m ==> a[i] == 0i8,
    ensures
        dot_prefix(a, b, m) == dot_prefix(a, b, l),
    decreases m - l,
{
    if m > l {
        lemma_dot_prefix_zero_range(a, b, l, m - 1);
        let y = b[m - 1];
        assert(a[m - 1] * y == 0) by (nonlinear_arith)
            requires
                a[m - 1] == 0i8,
        ;
    }
}

/// A sequence that is zero at every position has no nonzero elements.
pub proof fn lemma_nnz_zero(s: Seq<i8>, n: int)
    requires
        forall|i: int| 0 <= i < n ==> s[i] == 0i8,
    ensures
        nnz_prefix(s, n) == 0,
    decreases n,
{
    if n > 0 {
        lemma_nnz_zero(s, n - 1);
    }
}

/// Turning one zero position nonzero raises the nonzero count by one.
pub proof fn lemma_nnz_update(a: Seq<i8>, b: Seq<i8>, p: int, n: int)
    requires
        forall|i: int| 0 <= i < n && i != p ==> a[i] == b[i],
        0 <= p < n,
        b[p] == 0i8,
        a[p] != 0i8,
    ensures
        nnz_prefix(a, n) == nnz_prefix(b, n) + 1,
    decreases n,
{
    if p == n - 1 {
        lemma_nnz_prefix_agree(a, b, n - 1);
    } else {
        lemma_nnz_update(a, b, p, n - 1);
    }
}

/// Sequences that agree on a prefix have the same count there.
proof fn lemma_nnz_prefix_agree(a: Seq<i8>, b: Seq<i8>, n: int)
    requires
        forall|i: int| 0 <= i < n ==> a[i] == b[i],
    ensures
        nnz_prefix(a, n) == nnz_prefix(b, n),
    decreases n,
{
    if n > 0 {
        lemma_nnz_prefix_agree(a, b, n - 1);
    }
}

/// The dot product over a prefix is bounded by the prefix length when
/// both sequences are well-formed.
pub proof fn lemma_dot_prefix_bound(a: Seq<i8>, b: Seq<i8>, n: int)
    requires
        wf_seq(a),
        wf_seq(b),
        0 <= n,
        n <= a.len(),
        n <= b.len(),
    ensures
        -n <= dot_prefix(a, b, n) <= n,
    decreases n,
{
    if n > 0 {
        lemma_dot_prefix_bound(a, b, n - 1);
        let x = a[n - 1];
        let y = b[n - 1];
        assert(-1 <= x * y <= 1) by (nonlinear_arith)
            requires
                -1 <= x <= 1,
                -1 <= y <= 1,
        ;
    }
}

} // verus!

//! The canonical algebra over dense vectors: bind/unbind, bundle,
//! permute and hamming distance, each stated against the sequence model,
//! together with the algebraic laws the operations obey.

use vstd::prelude::*;

use crate::model::bind_seq;
use crate::model::bundle_seq;
use crate::model::bundle_sum;
use crate::model::hamming_prefix;
use crate::model::hamming_seq;
use crate::model::lemma_mul_cases;
use crate::model::permute_seq;
use crate::model::wf_seq;
use crate::trit::sign_of;
use crate::vector::TritVector;

verus! {

/// Bind: elementwise sign multiplication of two equal-length vectors.
/// Creates an association between two concepts; mismatched dimensions
/// are a caller error excluded by precondition.
pub fn bind(a: &TritVector, b: &TritVector) -> (r: TritVector)
    requires
        a@.len() == b@.len(),
        a.wf(),
        b.wf(),
    ensures
        r@ =~= bind_seq(a@, b@),
        r.wf(),
{
    let av = a.as_slice();
    let bv = b.as_slice();
    let len = av.len();
    let mut out: Vec<i8> = Vec::new();
    let mut i: usize = 0;
    while i < len
        invariant
            i <= len,
            len == a@.len(),
            a@.len() == b@.len(),
            av@ == a@,
            bv@ == b@,
            wf_seq(a@),
            wf_seq(b@),
            out@.len() == i,
            forall|j: int| 0 <= j < i ==> out@[j] == sign_of(a@[j] * b@[j]),
        decreases len - i,
    {
        let x = av[i];
        let y = bv[i];
        proof {
            lemma_mul_cases(x, y);
        }
        out.push(x * y);
        i = i + 1;
    }
    let r = TritVector::from_slice(out.as_slice());
    proof {
        assert forall|j: int| 0 <= j < len implies r@[j] == bind_seq(a@, b@)[j] by {
            lemma_mul_cases(a@[j], b@[j]);
        }
    }
    r
}

/// Unbind: retrieves one operand of a bound pair. Sign multiplication is
/// its own inverse on nonzero trits, so unbinding is the same operation
/// as binding.
pub fn unbind(bound: &TritVector, key: &TritVector) -> (r: TritVector)
    requires
        bound@.len() == key@.len(),
        bound.wf(),
        key.wf(),
    ensures
        r@ =~= bind_seq(bound@, key@),
        r.wf(),
{
    bind(bound, key)
}

/// Binding then unbinding with the same key recovers the other operand
/// at every position where the key is nonzero; where the key is zero the
/// result is necessarily zero, an inherent loss of the ternary scheme.
pub proof fn lemma_bind_unbind(a: Seq<i8>, b: Seq<i8>)
    requires
        wf_seq(a),
        wf_seq(b),
        a.len() == b.len(),
    ensures
        forall|i: int|
            0 <= i < a.len() && a[i] != 0 ==> bind_seq(bind_seq(a, b), a)[i] == b[i],
        forall|i: int|
            0 <= i < a.len() && a[i] == 0 ==> bind_seq(bind_seq(a, b), a)[i] == 0,
{
    assert forall|i: int| 0 <= i < a.len() implies bind_seq(bind_seq(a, b), a)[i] == (if a[i]
        == 0 {
        0i8
    } else {
        b[i]
    }) by {
        lemma_mul_cases(a[i], b[i]);
        let p = sign_of(a[i] * b[i]);
        lemma_mul_cases(p, a[i]);
    }
}

/// Bind is commutative.
pub proof fn lemma_bind_commutative(a: Seq<i8>, b: Seq<i8>)
    requires
        a.len() == b.len(),
    ensures
        bind_seq(a, b) == bind_seq(b, a),
{
    assert forall|i: int| 0 <= i < a.len() implies bind_seq(a, b)[i] == bind_seq(b, a)[i] by {
        let x = a[i];
        let y = b[i];
        assert(x * y == y * x) by (nonlinear_arith);
    }
    assert(bind_seq(a, b) =~= bind_seq(b, a));
}

/// Binding a vector with itself gives +1 wherever the vector is nonzero
/// and zero elsewhere.
pub proof fn lemma_bind_self(v: Seq<i8>)
    requires
        wf_seq(v),
    ensures
        forall|i: int|
            0 <= i < v.len() ==> bind_seq(v, v)[i] == (if v[i] == 0 {
                0i8
            } else {
                1i8
            }),
{
    assert forall|i: int| 0 <= i < v.len() implies bind_seq(v, v)[i] == (if v[i] == 0 {
        0i8
    } else {
        1i8
    }) by {
        lemma_mul_cases(v[i], v[i]);
    }
}

/// The sequence of abstract contents of a list of vectors.
pub open spec fn views_of(vs: Seq<&TritVector>) -> Seq<Seq<i8>> {
    Seq::new(vs.len(), |k: int| vs[k]@)
}

/// The dimension a bundle of these vectors has: that of the first, or
/// zero for the degenerate empty list, which bundles to a zero-length
/// vector.
pub open spec fn bundle_dim(vs: Seq<&TritVector>) -> nat {
    if vs.len() == 0 {
        0nat
    } else {
        vs[0]@.len()
    }
}

/// Bundle: elementwise signed sum across all input vectors (plain
/// integer accumulation, not trit-saturating addition) followed by a
/// per-position sign threshold, with an exact tie giving zero. All
/// inputs must share one dimension; an empty list yields a zero-length
/// vector.
pub fn bundle(vectors: &[&TritVector]) -> (r: TritVector)
    requires
        forall|t: int|
            0 <= t < vectors@.len() ==> (#[trigger] vectors@[t])@.len() == vectors@[0]@.len(),
        forall|t: int| 0 <= t < vectors@.len() ==> (#[trigger] vectors@[t]).wf(),
    ensures
        r@ =~= bundle_seq(views_of(vectors@), bundle_dim(vectors@)),
        r.wf(),
{
    let n = vectors.len();
    if n == 0 {
        return TritVector::zeros(0);
    }
    let ghost views = views_of(vectors@);
    let dim = vectors[0].len();
    let mut sums: Vec<i128> = Vec::new();
    let mut i: usize = 0;
    while i < dim
        invariant
            i <= dim,
            sums@.len() == i,
            forall|j: int| 0 <= j < i ==> sums@[j] == 0,
        decreases dim - i,
    {
        sums.push(0);
        i = i + 1;
    }
    let mut k: usize = 0;
    while k < n
        invariant
            k <= n,
            n == vectors@.len(),
            views == views_of(vectors@),
            dim == vectors@[0]@.len(),
            forall|t: int| 0 <= t < n ==> (#[trigger] vectors@[t])@.len() == dim,
            forall|t: int| 0 <= t < n ==> (#[trigger] vectors@[t]).wf(),
            sums@.len() == dim,
            forall|j: int| 0 <= j < dim ==> #[trigger] sums@[j] == bundle_sum(views, j, k as int),
            forall|j: int| 0 <= j < dim ==> -(k as int) <= #[trigger] sums@[j] <= k as int,
        decreases n - k,
    {
        let v = vectors[k];
        let vsl = v.as_slice();
        let mut i: usize = 0;
        while i < dim
            invariant
                i <= dim,
                k < n,
                n == vectors@.len(),
                views == views_of(vectors@),
                dim == vectors@[0]@.len(),
                forall|t: int| 0 <= t < n ==> (#[trigger] vectors@[t])@.len() == dim,
                forall|t: int| 0 <= t < n ==> (#[trigger] vectors@[t]).wf(),
                vsl@ == vectors@[k as int]@,
                sums@.len() == dim,
                forall|j: int|
                    0 <= j < i ==> #[trigger] sums@[j] == bundle_sum(views, j, k as int + 1),
                forall|j: int|
                    i <= j < dim ==> #[trigger] sums@[j] == bundle_sum(views, j, k as int),
                forall|j: int|
                    0 <= j < i ==> -(k as int + 1) <= #[trigger] sums@[j] <= k as int + 1,
                forall|j: int| i <= j < dim ==> -(k as int) <= #[trigger] sums@[j] <= k as int,
            decreases dim - i,
        {
            let x = vsl[i];
            let cur = sums[i];
            proof {
                assert(wf_seq(vectors@[k as int]@));
                assert(-1 <= x <= 1);
                assert(bundle_sum(views, i as int, k as int + 1) == bundle_sum(
                    views,
                    i as int,
                    k as int,
                ) + views[k as int][i as int]);
            }
            sums[i] = cur + (x as i128);
            i = i + 1;
        }
        k = k + 1;
    }
    let mut out: Vec<i8> = Vec::new();
    let mut i: usize = 0;
    while i < dim
        invariant
            i <= dim,
            n == vectors@.len(),
            n > 0,
            views == views_of(vectors@),
            dim == vectors@[0]@.len(),
            sums@.len() == dim,
            forall|j: int| 0 <= j < dim ==> #[trigger] sums@[j] == bundle_sum(views, j, n as int),
            out@.len() == i,
            forall|j: int| 0 <= j < i ==> out@[j] == sign_of(bundle_sum(views, j, n as int)),
        decreases dim - i,
    {
        let s = sums[i];
        let t: i8 = if s > 0 {
            1
        } else if s < 0 {
            -1
        } else {
            0
        };
        out.push(t);
        i = i + 1;
    }
    let r = TritVector::from_slice(out.as_slice());
    proof {
        assert forall|j: int| 0 <= j < dim implies r@[j] == bundle_seq(views, dim as nat)[j] by {
            assert(out@[j] == sign_of(bundle_sum(views, j, n as int)));
        }
    }
    r
}

/// Normalize an arbitrary shift into `[0, len)` by floored (Euclidean)
/// modulo, so negative shifts wrap the other way.
fn normalize_shift(shift: i32, len: usize) -> (norm: usize)
    requires
        len > 0,
    ensures
        norm == (shift as int) % (len as int),
        norm < len,
{
    let len64 = len as u64;
    if shift >= 0 {
        let norm = (shift as u64) % len64;
        proof {
            vstd::arithmetic::div_mod::lemma_mod_bound(shift as int, len as int);
        }
        norm as usize
    } else {
        let s = (-(shift as i64)) as u64;
        let a = s % len64;
        let norm = (len64 - a) % len64;
        proof {
            let si = s as int;
            let li = len as int;
            vstd::arithmetic::div_mod::lemma_fundamental_div_mod(si, li);
            vstd::arithmetic::div_mod::lemma_mod_bound(si, li);
            // -s == li * (-(s/li) - 1) + (li - s % li)
            vstd::arithmetic::div_mod::lemma_mod_multiples_vanish(
                -(si / li) - 1,
                li - si % li,
                li,
            );
            assert(li * (-(si / li) - 1) + (li - si % li) == -si) by (nonlinear_arith)
                requires
                    si == li * (si / li) + si % li,
            ;
            vstd::arithmetic::div_mod::lemma_mod_bound(li - (si % li), li);
        }
        norm as usize
    }
}

/// Permute: circular shift of positions by `shift`, positive shifts
/// moving elements toward higher indices with wraparound. A shift is a
/// no-op modulo the length, and a length-0 vector permutes to itself.
pub fn permute(v: &TritVector, shift: i32) -> (r: TritVector)
    requires
        v.wf(),
    ensures
        r@ =~= permute_seq(v@, shift as int),
        r.wf(),
{
    let vs = v.as_slice();
    let len = vs.len();
    if len == 0 {
        return TritVector::zeros(0);
    }
    let norm = normalize_shift(shift, len);
    let mut out: Vec<i8> = Vec::new();
    let mut j: usize = 0;
    while j < len
        invariant
            j <= len,
            0 < len,
            len == v@.len(),
            vs@ == v@,
            norm == (shift as int) % (len as int),
            norm < len,
            out@.len() == j,
            forall|jj: int| 0 <= jj < j ==> out@[jj] == v@[(jj - shift) % (len as int)],
        decreases len - j,
    {
        let src = if j >= norm {
            j - norm
        } else {
            j + (len - norm)
        };
        proof {
            let li = len as int;
            let ji = j as int;
            let ni = norm as int;
            // (j - shift) and (j - norm) differ by a multiple of len,
            // and j - norm (wrapped into range) is its own remainder.
            vstd::arithmetic::div_mod::lemma_fundamental_div_mod(shift as int, li);
            vstd::arithmetic::div_mod::lemma_mod_multiples_vanish(
                (shift as int) / li,
                ji - shift,
                li,
            );
            assert(li * ((shift as int) / li) + (ji - shift) == ji - ni) by (nonlinear_arith)
                requires
                    shift as int == li * ((shift as int) / li) + ni,
            ;
            if j >= norm {
                vstd::arithmetic::div_mod::lemma_small_mod((j - norm) as nat, len as nat);
            } else {
                vstd::arithmetic::div_mod::lemma_mod_add_multiples_vanish(ji - ni, li);
                vstd::arithmetic::div_mod::lemma_small_mod((j + (len - norm)) as nat, len as nat);
            }
        }
        out.push(vs[src]);
        j = j + 1;
    }
    TritVector::from_slice(out.as_slice())
}

/// A permutation leaves the length unchanged, carries position `i` to
/// position `(i + shift) mod len`, and that carrying map is injective:
/// permutation is a bijection on positions.
pub proof fn lemma_permute_bijective(s: Seq<i8>, shift: int)
    requires
        s.len() > 0,
    ensures
        permute_seq(s, shift).len() == s.len(),
        forall|i: int|
            0 <= i < s.len() ==> permute_seq(s, shift)[(i + shift) % (s.len() as int)] == s[i],
        forall|i: int, j: int|
            0 <= i < s.len() && 0 <= j < s.len() && #[trigger] ((i + shift) % (s.len() as int))
                == #[trigger] ((j + shift) % (s.len() as int)) ==> i == j,
{
    let li = s.len() as int;
    assert forall|i: int| 0 <= i < s.len() implies permute_seq(s, shift)[(i + shift) % li]
        == s[i] by {
        vstd::arithmetic::div_mod::lemma_mod_bound(i + shift, li);
        lemma_mod_shift_cancel(i, shift, li);
        vstd::arithmetic::div_mod::lemma_small_mod(i as nat, s.len());
    }
    assert forall|i: int, j: int|
        0 <= i < s.len() && 0 <= j < s.len() && #[trigger] ((i + shift) % li) == #[trigger] ((j
            + shift) % li) implies i == j by {
        lemma_mod_shift_cancel(i, shift, li);
        lemma_mod_shift_cancel(j, shift, li);
        vstd::arithmetic::div_mod::lemma_small_mod(i as nat, s.len());
        vstd::arithmetic::div_mod::lemma_small_mod(j as nat, s.len());
    }
}

/// `((i + shift) mod m - shift) mod m == i mod m`.
proof fn lemma_mod_shift_cancel(i: int, shift: int, m: int)
    requires
        0 < m,
    ensures
        ((i + shift) % m - shift) % m == i % m,
{
    vstd::arithmetic::div_mod::lemma_fundamental_div_mod(i + shift, m);
    // (i + shift) % m - shift == i - m * ((i + shift) / m)
    vstd::arithmetic::div_mod::lemma_mod_multiples_vanish(-((i + shift) / m), i, m);
    assert(m * (-((i + shift) / m)) + i == (i + shift) % m - shift) by (nonlinear_arith)
        requires
            i + shift == m * ((i + shift) / m) + (i + shift) % m,
    ;
}

/// Permuting by zero is the identity.
pub proof fn lemma_permute_zero(s: Seq<i8>)
    ensures
        permute_seq(s, 0) == s,
{
    if s.len() > 0 {
        assert forall|j: int| 0 <= j < s.len() implies permute_seq(s, 0)[j] == s[j] by {
            vstd::arithmetic::div_mod::lemma_small_mod(j as nat, s.len());
        }
    }
    assert(permute_seq(s, 0) =~= s);
}

/// Two successive permutations compose into one by the sum of the
/// shifts; together with the zero case, shifts act modulo the length.
pub proof fn lemma_permute_compose(s: Seq<i8>, s1: int, s2: int)
    ensures
        permute_seq(permute_seq(s, s1), s2) == permute_seq(s, s1 + s2),
{
    let li = s.len() as int;
    if s.len() > 0 {
        assert forall|j: int| 0 <= j < s.len() implies permute_seq(permute_seq(s, s1), s2)[j]
            == permute_seq(s, s1 + s2)[j] by {
            vstd::arithmetic::div_mod::lemma_mod_bound(j - s2, li);
            lemma_mod_shift_cancel(j - s2 - s1, s1, li);
            assert(((j - s2) % li - s1) % li == (j - s2 - s1) % li);
        }
    }
    assert(permute_seq(permute_seq(s, s1), s2) =~= permute_seq(s, s1 + s2));
}

/// Hamming distance: the number of positions where the two vectors hold
/// different values (+1 against 0 counts, the same as +1 against -1).
pub fn hamming_distance(a: &TritVector, b: &TritVector) -> (d: usize)
    requires
        a@.len() == b@.len(),
    ensures
        d == hamming_seq(a@, b@),
{
    let av = a.as_slice();
    let bv = b.as_slice();
    let len = av.len();
    let mut count: usize = 0;
    let mut i: usize = 0;
    while i < len
        invariant
            i <= len,
            len == a@.len(),
            a@.len() == b@.len(),
            av@ == a@,
            bv@ == b@,
            count == hamming_prefix(a@, b@, i as int),
            count <= i,
        decreases len - i,
    {
        if av[i] != bv[i] {
            count = count + 1;
        }
        i = i + 1;
    }
    count
}

/// The hamming distance of two equal-length vectors is zero exactly when
/// they agree at every position; in particular a vector's distance to
/// itself is zero.
pub proof fn lemma_hamming_zero_iff_equal(a: Seq<i8>, b: Seq<i8>)
    requires
        a.len() == b.len(),
    ensures
        (hamming_seq(a, b) == 0) <==> (a =~= b),
        hamming_seq(a, a) == 0,
{
    lemma_hamming_prefix_zero(a, b, a.len() as int);
    lemma_hamming_prefix_zero(a, a, a.len() as int);
    if hamming_seq(a, b) == 0 {
        assert(a =~= b);
    }
}

proof fn lemma_hamming_prefix_zero(a: Seq<i8>, b: Seq<i8>, n: int)
    requires
        n <= a.len(),
        n <= b.len(),
    ensures
        (hamming_prefix(a, b, n) == 0) <==> (forall|i: int| 0 <= i < n ==> a[i] == b[i]),
    decreases n,
{
    if n > 0 {
        lemma_hamming_prefix_zero(a, b, n - 1);
    }
}

} // verus!

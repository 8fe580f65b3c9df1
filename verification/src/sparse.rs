//! The sparse representation: only the nonzero elements are stored, as
//! index/value entries sorted by index, together with the declared
//! dimension. No entry holds zero — storing zero removes the entry —
//! indices are unique and all lie below the dimension. The view is the
//! same dense trit sequence the other representations model, so the
//! contracts line up position by position.

use vstd::prelude::*;

use crate::model::bind_seq;
use crate::model::dot_prefix;
use crate::model::dot_seq;
use crate::model::lemma_dot_prefix_bound;
use crate::model::nnz_prefix;
use crate::model::nnz_seq;
use crate::model::sign_seq;
use crate::model::wf_seq;
use crate::model::zero_seq;
use crate::trit::sign_of;
use crate::trit::Trit;
use crate::vector::TritVector;

verus! {

/// The value a sorted entry list holds at `idx`: the first matching
/// entry's value, or zero where no entry matches.
pub open spec fn entries_lookup(e: Seq<(usize, i8)>, idx: int) -> i8
    decreases e.len(),
{
    if e.len() == 0 {
        0i8
    } else if e[0].0 == idx {
        e[0].1
    } else {
        entries_lookup(e.drop_first(), idx)
    }
}

/// Whether some entry carries index `idx`.
pub open spec fn has_idx(e: Seq<(usize, i8)>, idx: int) -> bool {
    exists|k: int| 0 <= k < e.len() && (#[trigger] e[k]).0 == idx
}

/// Where no entry carries the index, the lookup is zero.
proof fn lemma_lookup_absent(e: Seq<(usize, i8)>, idx: int)
    requires
        !has_idx(e, idx),
    ensures
        entries_lookup(e, idx) == 0i8,
    decreases e.len(),
{
    if e.len() > 0 {
        assert(!has_idx(e.drop_first(), idx)) by {
            assert forall|k: int|
                0 <= k < e.drop_first().len() implies (#[trigger] e.drop_first()[k]).0 != idx by {
                assert(e.drop_first()[k] == e[k + 1]);
            }
        }
        lemma_lookup_absent(e.drop_first(), idx);
    }
}

/// With distinct indices, the lookup at an entry's index is its value.
proof fn lemma_lookup_found(e: Seq<(usize, i8)>, k: int)
    requires
        forall|t: int, u: int|
            0 <= t < u < e.len() ==> (#[trigger] e[t]).0 != (#[trigger] e[u]).0,
        0 <= k < e.len(),
    ensures
        entries_lookup(e, e[k].0 as int) == e[k].1,
    decreases e.len(),
{
    if k > 0 {
        assert(e[0].0 != e[k].0);
        assert(e.drop_first()[k - 1] == e[k]);
        assert forall|t: int, u: int|
            0 <= t < u < e.drop_first().len() implies (#[trigger] e.drop_first()[t]).0 != (
        #[trigger] e.drop_first()[u]).0 by {
            assert(e.drop_first()[t] == e[t + 1]);
            assert(e.drop_first()[u] == e[u + 1]);
        }
        lemma_lookup_found(e.drop_first(), k - 1);
    }
}

/// Appending an entry with a fresh index changes the lookup only there.
proof fn lemma_lookup_push(e: Seq<(usize, i8)>, p: (usize, i8), idx: int)
    requires
        forall|k: int| 0 <= k < e.len() ==> (#[trigger] e[k]).0 != p.0,
    ensures
        idx == p.0 ==> entries_lookup(e.push(p), idx) == p.1,
        idx != p.0 ==> entries_lookup(e.push(p), idx) == entries_lookup(e, idx),
    decreases e.len(),
{
    if e.len() == 0 {
        assert(e.push(p)[0] == p);
        assert(e.push(p).drop_first() =~= Seq::<(usize, i8)>::empty());
        assert(entries_lookup(e, idx) == 0i8);
        if idx != p.0 {
            assert(entries_lookup(e.push(p), idx) == entries_lookup(
                e.push(p).drop_first(),
                idx,
            ));
            assert(entries_lookup(e.push(p).drop_first(), idx) == 0i8);
        }
    } else {
        assert(e.push(p)[0] == e[0]);
        assert(e.push(p).drop_first() =~= e.drop_first().push(p));
        assert forall|k: int|
            0 <= k < e.drop_first().len() implies (#[trigger] e.drop_first()[k]).0 != p.0 by {
            assert(e.drop_first()[k] == e[k + 1]);
        }
        lemma_lookup_push(e.drop_first(), p, idx);
    }
}

/// Dot product walking `a`'s entries and probing `b` at each index.
fn dot_entries(a: &SparseVec, b: &SparseVec) -> (d: i64)
    requires
        a.wf(),
        b.wf(),
        a@.len() == b@.len(),
        a@.len() <= i64::MAX,
    ensures
        d == dot_seq(a@, b@),
{
    proof {
        a.lemma_view_wf();
        b.lemma_view_wf();
    }
    let n = a.entries.len();
    let dim = a.dim;
    let mut sum: i64 = 0;
    let mut k: usize = 0;
    proof {
        let bnd = entry_bound(a.entries@, dim as int, 0);
        assert forall|i: int| 0 <= i < bnd implies a@[i] == 0i8 by {
            a.lemma_gap(i, 0);
        }
        crate::model::lemma_dot_prefix_zero_range(a@, b@, 0, bnd);
    }
    while k < n
        invariant
            k <= n,
            n == a.entries@.len(),
            dim == a.dim,
            a.wf(),
            b.wf(),
            a@.len() == b@.len(),
            a@.len() <= i64::MAX,
            wf_seq(a@),
            wf_seq(b@),
            sum == dot_prefix(a@, b@, entry_bound(a.entries@, dim as int, k as int)),
            -(dim as int) <= sum <= dim as int,
        decreases n - k,
    {
        let (idx, av) = a.entries[k];
        let bv = b.get(idx).to_i8();
        proof {
            lemma_lookup_found(a.entries@, k as int);
            assert(a@[idx as int] == av);
            assert(b@[idx as int] == bv);
            crate::model::lemma_mul_cases(av, bv);
        }
        let p = av * bv;
        proof {
            let iv = idx as int;
            let bnd = entry_bound(a.entries@, dim as int, k as int + 1);
            assert(iv < bnd) by {
                if k as int + 1 < n {
                    assert(a.entries@[k as int].0 < a.entries@[k as int + 1].0);
                }
            }
            assert(dot_prefix(a@, b@, iv + 1) == dot_prefix(a@, b@, iv) + a@[iv] * b@[iv]);
            assert forall|i: int| iv + 1 <= i < bnd implies a@[i] == 0i8 by {
                a.lemma_gap(i, k as int + 1);
            }
            crate::model::lemma_dot_prefix_zero_range(a@, b@, iv + 1, bnd);
            lemma_dot_prefix_bound(a@, b@, bnd);
        }
        sum = sum + (p as i64);
        k = k + 1;
    }
    sum
}

/// A sorted entry list with in-range indices and nonzero values stands
/// for a dense sequence with exactly one nonzero element per entry.
proof fn lemma_sparse_nnz(e: Seq<(usize, i8)>, dim: int)
    requires
        dim >= 0,
        forall|t: int|
            0 <= t < e.len() ==> (#[trigger] e[t]).0 < dim && (e[t].1 == 1i8 || e[t].1 == -1i8),
        forall|t: int, u: int|
            0 <= t < u < e.len() ==> (#[trigger] e[t]).0 < (#[trigger] e[u]).0,
    ensures
        nnz_prefix(Seq::new(dim as nat, |i: int| entries_lookup(e, i)), dim) == e.len(),
    decreases e.len(),
{
    let sv = Seq::new(dim as nat, |i: int| entries_lookup(e, i));
    if e.len() == 0 {
        assert forall|i: int| 0 <= i < dim implies sv[i] == 0i8 by {
            lemma_lookup_absent(e, i);
        }
        crate::model::lemma_nnz_zero(sv, dim);
    } else {
        let m = e.len() - 1;
        let last = e[m];
        let e2 = e.drop_last();
        assert(e =~= e2.push(last));
        assert forall|t: int| 0 <= t < e2.len() implies (#[trigger] e2[t]).0 != last.0 by {
            assert(e2[t] == e[t]);
        }
        lemma_sparse_nnz(e2, dim);
        let sv2 = Seq::new(dim as nat, |i: int| entries_lookup(e2, i));
        assert forall|i: int| 0 <= i < dim && i != last.0 implies sv[i] == sv2[i] by {
            lemma_lookup_push(e2, last, i);
        }
        lemma_lookup_push(e2, last, last.0 as int);
        assert(!has_idx(e2, last.0 as int));
        lemma_lookup_absent(e2, last.0 as int);
        crate::model::lemma_nnz_update(sv, sv2, last.0 as int, dim);
    }
}

/// The first position not yet covered after `k` entries: the index of
/// entry `k`, or the dimension once every entry is spent.
spec fn entry_bound(e: Seq<(usize, i8)>, dim: int, k: int) -> int {
    if k < e.len() {
        e[k].0 as int
    } else {
        dim
    }
}

/// Sparse vector: the nonzero elements of a fixed-dimension trit vector,
/// stored as index/value entries sorted by index.
///
/// Invariant (`wf`): entry values are +1 or -1 only, indices are
/// strictly increasing and all lie below the dimension.
#[derive(Debug, Clone, PartialEq, Eq)]
pub struct SparseVec {
    /// Nonzero elements, as (index, value) pairs sorted by index.
    entries: Vec<(usize, i8)>,
    /// Total dimension.
    dim: usize,
}

impl View for SparseVec {
    type V = Seq<i8>;

    closed spec fn view(&self) -> Seq<i8> {
        Seq::new(self.dim as nat, |i: int| entries_lookup(self.entries@, i))
    }
}

impl SparseVec {
    /// Structural invariant of the entry list.
    pub closed spec fn wf(&self) -> bool {
        &&& forall|t: int|
            0 <= t < self.entries@.len() ==> (#[trigger] self.entries@[t]).0 < self.dim && (
            self.entries@[t].1 == 1i8 || self.entries@[t].1 == -1i8)
        &&& forall|t: int, u: int|
            0 <= t < u < self.entries@.len() ==> (#[trigger] self.entries@[t]).0 < (
            #[trigger] self.entries@[u]).0
    }

    /// The view always holds trit scalars.
    pub proof fn lemma_view_wf(&self)
        requires
            self.wf(),
        ensures
            wf_seq(self@),
    {
        assert forall|i: int| 0 <= i < self@.len() implies -1 <= #[trigger] self@[i] <= 1 by {
            self.lemma_at(i);
        }
    }

    /// The view at a position: an entry's value where one carries the
    /// index, zero elsewhere.
    proof fn lemma_at(&self, i: int)
        requires
            self.wf(),
            0 <= i < self.dim,
        ensures
            has_idx(self.entries@, i) ==> exists|k: int|
                0 <= k < self.entries@.len() && (#[trigger] self.entries@[k]).0 == i
                    && self@[i] == self.entries@[k].1,
            !has_idx(self.entries@, i) ==> self@[i] == 0i8,
    {
        if has_idx(self.entries@, i) {
            let k = choose|k: int|
                0 <= k < self.entries@.len() && (#[trigger] self.entries@[k]).0 == i;
            assert forall|t: int, u: int|
                0 <= t < u < self.entries@.len() implies (#[trigger] self.entries@[t]).0 != (
            #[trigger] self.entries@[u]).0 by {}
            lemma_lookup_found(self.entries@, k);
        } else {
            lemma_lookup_absent(self.entries@, i);
        }
    }

    /// The empty sparse vector of a given dimension: all positions zero.
    pub fn new(dim: usize) -> (v: SparseVec)
        ensures
            v@ =~= zero_seq(dim as nat),
            v.wf(),
    {
        let v = SparseVec { entries: Vec::new(), dim };
        proof {
            assert forall|i: int| 0 <= i < dim implies v@[i] == 0i8 by {
                lemma_lookup_absent(v.entries@, i);
            }
        }
        v
    }

    /// Vector dimension.
    pub fn dim(&self) -> (d: usize)
        ensures
            d == self@.len(),
    {
        self.dim
    }

    /// Number of nonzero elements: one per stored entry.
    pub fn nnz(&self) -> (n: usize)
        requires
            self.wf(),
        ensures
            n == nnz_seq(self@),
    {
        proof {
            lemma_sparse_nnz(self.entries@, self.dim as int);
        }
        self.entries.len()
    }

    /// Extract the nonzero elements of a dense vector, in index order.
    pub fn from_trit_vector(v: &TritVector) -> (r: SparseVec)
        requires
            v.wf(),
        ensures
            r@ =~= v@,
            r.wf(),
    {
        let dim = v.len();
        let vs = v.as_slice();
        let mut entries: Vec<(usize, i8)> = Vec::new();
        let mut i: usize = 0;
        while i < dim
            invariant
                i <= dim,
                dim == v@.len(),
                vs@ == v@,
                wf_seq(v@),
                forall|t: int|
                    0 <= t < entries@.len() ==> (#[trigger] entries@[t]).0 < i && (entries@[t].1
                        == 1i8 || entries@[t].1 == -1i8),
                forall|t: int, u: int|
                    0 <= t < u < entries@.len() ==> (#[trigger] entries@[t]).0 < (
                    #[trigger] entries@[u]).0,
                forall|p: int| 0 <= p < i ==> entries_lookup(entries@, p) == v@[p],
                forall|p: int| i <= p < dim ==> entries_lookup(entries@, p) == 0i8,
            decreases dim - i,
        {
            let x = vs[i];
            if x != 0 {
                let ghost olde = entries@;
                entries.push((i, x));
                proof {
                    assert forall|p: int| 0 <= p < dim implies entries_lookup(entries@, p) == (
                    if p < i + 1 {
                        v@[p]
                    } else {
                        0i8
                    }) by {
                        lemma_lookup_push(olde, (i, x), p);
                    }
                }
            }
            i = i + 1;
        }
        let r = SparseVec { entries, dim };
        proof {
            assert(r@ =~= v@);
        }
        r
    }

    /// Expand into a dense vector holding the same abstract contents:
    /// the round trip through the sparse form is the identity.
    pub fn to_trit_vector(&self) -> (r: TritVector)
        requires
            self.wf(),
        ensures
            r@ =~= self@,
            r.wf(),
    {
        let dim = self.dim;
        let mut data: Vec<i8> = Vec::new();
        let mut i: usize = 0;
        while i < dim
            invariant
                i <= dim,
                data@.len() == i,
                forall|j: int| 0 <= j < i ==> data@[j] == 0i8,
            decreases dim - i,
        {
            data.push(0);
            i = i + 1;
        }
        let n = self.entries.len();
        let mut k: usize = 0;
        proof {
            assert(self.entries@.take(0) =~= Seq::<(usize, i8)>::empty());
        }
        while k < n
            invariant
                k <= n,
                n == self.entries@.len(),
                self.wf(),
                dim == self.dim,
                data@.len() == dim,
                wf_seq(data@),
                forall|p: int|
                    0 <= p < dim ==> data@[p] == entries_lookup(
                        self.entries@.take(k as int),
                        p,
                    ),
            decreases n - k,
        {
            let (idx, val) = self.entries[k];
            data[idx] = val;
            proof {
                let ghost tk = self.entries@.take(k as int);
                assert(self.entries@.take(k as int + 1) =~= tk.push(self.entries@[k as int]));
                assert forall|t: int| 0 <= t < tk.len() implies (#[trigger] tk[t]).0 != idx by {
                    assert(tk[t] == self.entries@[t]);
                }
                assert forall|p: int| 0 <= p < dim implies data@[p] == entries_lookup(
                    self.entries@.take(k as int + 1),
                    p,
                ) by {
                    lemma_lookup_push(tk, self.entries@[k as int], p);
                }
            }
            k = k + 1;
        }
        proof {
            assert(self.entries@.take(n as int) =~= self.entries@);
        }
        let r = TritVector::from_slice(data.as_slice());
        proof {
            assert(sign_seq(data@) =~= self@);
        }
        r
    }

    /// Position of the first entry whose index is not below `idx`: where
    /// an entry for `idx` sits if one exists, else where it would go.
    fn lower_bound(&self, idx: usize) -> (k: usize)
        requires
            self.wf(),
        ensures
            k <= self.entries@.len(),
            forall|t: int| 0 <= t < k ==> (#[trigger] self.entries@[t]).0 < idx,
            k < self.entries@.len() ==> self.entries@[k as int].0 >= idx,
    {
        let n = self.entries.len();
        let mut k: usize = 0;
        while k < n
            invariant
                k <= n,
                n == self.entries@.len(),
                forall|t: int| 0 <= t < k ==> (#[trigger] self.entries@[t]).0 < idx,
            decreases n - k,
        {
            let e = self.entries[k];
            if e.0 >= idx {
                return k;
            }
            k = k + 1;
        }
        k
    }

    /// Store a trit at `idx`: a nonzero value inserts or overwrites the
    /// entry, zero removes any entry rather than storing it.
    pub fn set(&mut self, idx: usize, trit: Trit)
        requires
            old(self).wf(),
            idx < old(self)@.len(),
        ensures
            final(self)@ =~= old(self)@.update(idx as int, trit.as_i8()),
            final(self).wf(),
    {
        let val = trit.to_i8();
        let k = self.lower_bound(idx);
        let n = self.entries.len();
        let ghost olde = self.entries@;
        let ghost oldv = self@;
        let ghost ki = k as int;
        let found = k < n && self.entries[k].0 == idx;
        if found {
            if val == 0 {
                self.entries.remove(k);
                proof {
                    olde.remove_ensures(ki);
                }
            } else {
                self.entries[k] = (idx, val);
            }
        } else {
            proof {
                assert forall|t: int|
                    0 <= t < olde.len() implies (#[trigger] olde[t]).0 != idx by {
                    if t >= ki + 1 {
                        assert(olde[ki] == olde[t] || olde[ki].0 < olde[t].0);
                    }
                }
            }
            if val != 0 {
                self.entries.insert(k, (idx, val));
                proof {
                    olde.insert_ensures(ki, (idx, val));
                }
            }
        }
        proof {
            let newe = self.entries@;
            let iv = idx as int;
            // the new entry list is still sorted with in-range indices
            // and nonzero values
            assert forall|t: int, u: int|
                0 <= t < u < newe.len() implies (#[trigger] newe[t]).0 < (
            #[trigger] newe[u]).0 by {
                if found && val == 0 {
                    if u < ki {
                    } else if t < ki {
                        assert(newe[u] == olde[u + 1]);
                    } else {
                        assert(newe[t] == olde[t + 1]);
                        assert(newe[u] == olde[u + 1]);
                    }
                } else if !found && val != 0 {
                    if u < ki {
                    } else if u == ki {
                        assert(newe[t] == olde[t]);
                        assert(olde[t].0 < idx);
                    } else if t < ki {
                        assert(newe[u] == olde[u - 1]);
                        if u - 1 > ki {
                            assert(olde[ki].0 < olde[u - 1].0);
                        }
                        assert(olde[u - 1].0 > idx);
                    } else if t == ki {
                        assert(newe[u] == olde[u - 1]);
                        if u - 1 > ki {
                            assert(olde[ki].0 < olde[u - 1].0);
                        }
                        assert(olde[u - 1].0 > idx);
                    } else {
                        assert(newe[t] == olde[t - 1]);
                        assert(newe[u] == olde[u - 1]);
                    }
                }
            }
            assert forall|t: int|
                0 <= t < newe.len() implies (#[trigger] newe[t]).0 < self.dim && (newe[t].1
                == 1i8 || newe[t].1 == -1i8) by {
                if found && val == 0 {
                    if t >= ki {
                        assert(newe[t] == olde[t + 1]);
                    }
                } else if !found && val != 0 {
                    if t > ki {
                        assert(newe[t] == olde[t - 1]);
                    }
                }
            }
            assert(self.wf());
            // the new list reads back as the old contents with `idx`
            // updated
            assert forall|t: int, u: int|
                0 <= t < u < olde.len() implies (#[trigger] olde[t]).0 != (
            #[trigger] olde[u]).0 by {}
            assert forall|t: int, u: int|
                0 <= t < u < newe.len() implies (#[trigger] newe[t]).0 != (
            #[trigger] newe[u]).0 by {}
            assert forall|i: int| 0 <= i < self.dim && i != iv implies entries_lookup(newe, i)
                == entries_lookup(olde, i) by {
                if has_idx(olde, i) {
                    let j = choose|j: int| 0 <= j < olde.len() && (#[trigger] olde[j]).0 == i;
                    lemma_lookup_found(olde, j);
                    if found && val == 0 {
                        if j < ki {
                            lemma_lookup_found(newe, j);
                        } else {
                            assert(newe[j - 1] == olde[j]);
                            lemma_lookup_found(newe, j - 1);
                        }
                    } else if found {
                        assert(j != ki);
                        assert(newe[j] == olde[j]);
                        lemma_lookup_found(newe, j);
                    } else if val != 0 {
                        if j < ki {
                            lemma_lookup_found(newe, j);
                        } else {
                            assert(newe[j + 1] == olde[j]);
                            lemma_lookup_found(newe, j + 1);
                        }
                    } else {
                        lemma_lookup_found(newe, j);
                    }
                } else {
                    lemma_lookup_absent(olde, i);
                    assert forall|t: int|
                        0 <= t < newe.len() implies (#[trigger] newe[t]).0 != i by {
                        if found && val == 0 {
                            if t >= ki {
                                assert(newe[t] == olde[t + 1]);
                            } else {
                                assert(newe[t] == olde[t]);
                            }
                        } else if found {
                            if t != ki {
                                assert(newe[t] == olde[t]);
                            }
                        } else if val != 0 {
                            if t > ki {
                                assert(newe[t] == olde[t - 1]);
                            } else if t < ki {
                                assert(newe[t] == olde[t]);
                            }
                        }
                    }
                    lemma_lookup_absent(newe, i);
                }
            }
            if found && val == 0 {
                assert forall|t: int|
                    0 <= t < newe.len() implies (#[trigger] newe[t]).0 != iv by {
                    if t >= ki {
                        assert(newe[t] == olde[t + 1]);
                        assert(olde[ki].0 < olde[t + 1].0);
                    } else {
                        assert(newe[t] == olde[t]);
                    }
                }
                lemma_lookup_absent(newe, iv);
            } else if found {
                lemma_lookup_found(newe, ki);
            } else if val != 0 {
                lemma_lookup_found(newe, ki);
            } else {
                lemma_lookup_absent(newe, iv);
            }
            assert(self@ =~= oldv.update(iv, trit.as_i8()));
        }
    }

    /// Dot product bounded by the smaller nonzero count: walk the entry
    /// list of the operand with fewer nonzeros and probe the other for a
    /// match at each index. Positions outside the walked entries hold
    /// zero there and add nothing.
    pub fn dot(&self, other: &SparseVec) -> (d: i64)
        requires
            self.wf(),
            other.wf(),
            self@.len() == other@.len(),
            self@.len() <= i64::MAX,
        ensures
            d == dot_seq(self@, other@),
    {
        let a = self.nnz();
        let b = other.nnz();
        if a < b {
            dot_entries(self, other)
        } else {
            proof {
                crate::model::lemma_dot_commutative(self@, other@);
            }
            dot_entries(other, self)
        }
    }

    /// Bind: the result has an entry exactly where both operands are
    /// nonzero, holding the sign product; a matched pair of nonzero
    /// trits never multiplies to zero.
    pub fn bind(&self, other: &SparseVec) -> (r: SparseVec)
        requires
            self.wf(),
            other.wf(),
            self@.len() == other@.len(),
        ensures
            r@ =~= bind_seq(self@, other@),
            r.wf(),
    {
        proof {
            self.lemma_view_wf();
            other.lemma_view_wf();
        }
        let dim = self.dim;
        let n = self.entries.len();
        let mut entries: Vec<(usize, i8)> = Vec::new();
        let mut k: usize = 0;
        proof {
            assert forall|i: int|
                0 <= i < entry_bound(self.entries@, dim as int, 0) implies entries_lookup(
                entries@,
                i,
            ) == sign_of(self@[i] * other@[i]) by {
                self.lemma_gap(i, 0);
                lemma_lookup_absent(entries@, i);
                crate::model::lemma_mul_cases(self@[i], other@[i]);
            }
        }
        while k < n
            invariant
                k <= n,
                n == self.entries@.len(),
                dim == self.dim,
                self.wf(),
                other.wf(),
                self@.len() == other@.len(),
                wf_seq(self@),
                wf_seq(other@),
                forall|t: int|
                    0 <= t < entries@.len() ==> (#[trigger] entries@[t]).0 < entry_bound(
                        self.entries@,
                        dim as int,
                        k as int,
                    ) && entries@[t].0 < dim && (entries@[t].1 == 1i8 || entries@[t].1 == -1i8),
                forall|t: int, u: int|
                    0 <= t < u < entries@.len() ==> (#[trigger] entries@[t]).0 < (
                    #[trigger] entries@[u]).0,
                forall|i: int|
                    0 <= i < entry_bound(self.entries@, dim as int, k as int)
                        ==> entries_lookup(entries@, i) == sign_of(self@[i] * other@[i]),
            decreases n - k,
        {
            let (idx, av) = self.entries[k];
            let bv = other.get(idx).to_i8();
            let ghost olde = entries@;
            proof {
                lemma_lookup_found(self.entries@, k as int);
                assert(self@[idx as int] == av);
                assert(other@[idx as int] == bv);
                crate::model::lemma_mul_cases(av, bv);
            }
            let p = av * bv;
            if bv != 0 {
                entries.push((idx, p));
            }
            k = k + 1;
            proof {
                let bnd = entry_bound(self.entries@, dim as int, k as int);
                let iv = idx as int;
                assert(iv < bnd) by {
                    if k < n {
                        assert(self.entries@[k as int - 1].0 < self.entries@[k as int].0);
                    }
                }
                assert forall|i: int| 0 <= i < bnd implies entries_lookup(entries@, i)
                    == sign_of(self@[i] * other@[i]) by {
                    if bv != 0 {
                        lemma_lookup_push(olde, (idx, p), i);
                    }
                    if i < iv {
                    } else if i == iv {
                        if bv == 0 {
                            assert forall|t: int|
                                0 <= t < entries@.len() implies (#[trigger] entries@[t]).0
                                != iv by {}
                            lemma_lookup_absent(entries@, i);
                        }
                    } else {
                        self.lemma_gap(i, k as int);
                        crate::model::lemma_mul_cases(self@[i], other@[i]);
                        assert forall|t: int|
                            0 <= t < entries@.len() implies (#[trigger] entries@[t]).0 != i by {}
                        lemma_lookup_absent(entries@, i);
                    }
                }
            }
        }
        let r = SparseVec { entries, dim };
        proof {
            assert(r@ =~= bind_seq(self@, other@));
        }
        r
    }

    /// Positions at or past every processed entry index and below the
    /// next entry index carry no entry, so the vector is zero there.
    proof fn lemma_gap(&self, i: int, k: int)
        requires
            self.wf(),
            0 <= k <= self.entries@.len(),
            0 <= i < self.dim,
            k > 0 ==> i > self.entries@[k - 1].0,
            i < entry_bound(self.entries@, self.dim as int, k),
        ensures
            self@[i] == 0i8,
    {
        assert forall|t: int|
            0 <= t < self.entries@.len() implies (#[trigger] self.entries@[t]).0 != i by {
            if t < k - 1 {
                assert(self.entries@[t].0 < self.entries@[k - 1].0);
            } else if t > k {
                assert(self.entries@[k as int].0 < self.entries@[t].0);
            }
        }
        lemma_lookup_absent(self.entries@, i);
    }

    /// Memory the entry storage takes, approximately: one index/value
    /// pair per nonzero element beside the fixed header of the vector.
    pub fn memory_bytes(&self) -> (b: usize)
        requires
            self.wf(),
            24 + 16 * nnz_seq(self@) <= usize::MAX,
        ensures
            b == 24 + 16 * nnz_seq(self@),
    {
        proof {
            lemma_sparse_nnz(self.entries@, self.dim as int);
        }
        24 + self.entries.len() * 16
    }

    /// The trit at `idx`: zero for any index no entry carries.
    pub fn get(&self, idx: usize) -> (t: Trit)
        requires
            self.wf(),
            idx < self@.len(),
        ensures
            t == Trit::of_int(self@[idx as int] as int),
    {
        let n = self.entries.len();
        let mut k: usize = 0;
        while k < n
            invariant
                k <= n,
                n == self.entries@.len(),
                self.wf(),
                idx < self.dim,
                forall|t: int| 0 <= t < k ==> (#[trigger] self.entries@[t]).0 != idx,
            decreases n - k,
        {
            let (eidx, eval) = self.entries[k];
            if eidx == idx {
                proof {
                    self.lemma_at(idx as int);
                    lemma_lookup_found(self.entries@, k as int);
                }
                return Trit::from_i8(eval);
            }
            k = k + 1;
        }
        proof {
            lemma_lookup_absent(self.entries@, idx as int);
        }
        Trit::Zero
    }
}

} // verus!

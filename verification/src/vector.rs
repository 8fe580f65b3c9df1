//! The dense representation: one scalar per position. This is the
//! reference representation; the packed and sparse forms state their
//! contracts against the same sequence model.

use rand::Rng;
use vstd::prelude::*;

use crate::model::neg_seq;
use crate::model::nnz_prefix;
use crate::model::nnz_seq;
use crate::model::sign_seq;
use crate::model::wf_seq;
use crate::model::zero_seq;
use crate::trit::sign_of;
use crate::trit::Trit;

verus! {

/// Dense vector of balanced-ternary values, stored one scalar per slot.
///
/// Invariant (`wf`): every stored scalar lies in {-1, 0, +1}. All
/// constructors establish it and all mutators preserve it, except
/// writes through `as_mut_slice`, which hand the caller the raw storage.
#[derive(Debug, Clone, PartialEq, Eq)]
pub struct TritVector {
    data: Vec<i8>,
}

impl View for TritVector {
    type V = Seq<i8>;

    closed spec fn view(&self) -> Seq<i8> {
        self.data@
    }
}

impl TritVector {
    /// Every element is a trit scalar.
    pub open spec fn wf(&self) -> bool {
        wf_seq(self@)
    }

    /// The all-zero vector of the given dimension.
    pub fn zeros(dim: usize) -> (v: TritVector)
        ensures
            v@ =~= zero_seq(dim as nat),
            v.wf(),
    {
        let mut data: Vec<i8> = Vec::new();
        let mut i: usize = 0;
        while i < dim
            invariant
                i <= dim,
                data@.len() == i,
                forall|j: int| 0 <= j < i ==> data@[j] == 0i8,
            decreases dim - i,
        {
            data.push(0);
            i = i + 1;
        }
        TritVector { data }
    }

    /// Random vector: each element drawn independently and uniformly
    /// from {-1, 0, +1}. Nothing holds of the values beyond the trit
    /// range, so the contract states the dimension and well-formedness.
    pub fn random(dim: usize) -> (v: TritVector)
        ensures
            v@.len() == dim,
            v.wf(),
    {
        let mut data: Vec<i8> = Vec::new();
        let mut i: usize = 0;
        while i < dim
            invariant
                i <= dim,
                data@.len() == i,
                wf_seq(data@),
            decreases dim - i,
        {
            data.push(sample_uniform_trit());
            i = i + 1;
        }
        TritVector { data }
    }

    /// Build from arbitrary scalars, normalizing each element to its
    /// sign: any positive value becomes +1, any negative value -1.
    pub fn from_slice(data: &[i8]) -> (v: TritVector)
        ensures
            v@ =~= sign_seq(data@),
            v.wf(),
    {
        let n = data.len();
        let mut out: Vec<i8> = Vec::new();
        let mut i: usize = 0;
        while i < n
            invariant
                i <= n,
                n == data@.len(),
                out@.len() == i,
                forall|j: int| 0 <= j < i ==> out@[j] == sign_of(data@[j] as int),
            decreases n - i,
        {
            let e = data[i];
            let s: i8 = if e < 0 {
                -1
            } else if e > 0 {
                1
            } else {
                0
            };
            out.push(s);
            i = i + 1;
        }
        TritVector { data: out }
    }

    /// Vector dimension.
    pub fn len(&self) -> (n: usize)
        ensures
            n == self@.len(),
    {
        self.data.len()
    }

    /// Whether the dimension is zero.
    pub fn is_empty(&self) -> (r: bool)
        ensures
            r == (self@.len() == 0),
    {
        self.data.len() == 0
    }

    /// The trit at `idx`, the stored scalar read through its sign.
    pub fn get(&self, idx: usize) -> (t: Trit)
        requires
            idx < self@.len(),
        ensures
            t == Trit::of_int(self@[idx as int] as int),
    {
        Trit::from_i8(self.data[idx])
    }

    /// Store a trit at `idx`.
    pub fn set(&mut self, idx: usize, trit: Trit)
        requires
            idx < old(self)@.len(),
        ensures
            final(self)@ =~= old(self)@.update(idx as int, trit.as_i8()),
            old(self).wf() ==> final(self).wf(),
    {
        let v = trit.to_i8();
        self.data[idx] = v;
    }

    /// The raw storage, read-only.
    pub fn as_slice(&self) -> (s: &[i8])
        ensures
            s@ == self@,
    {
        self.data.as_slice()
    }

    /// The raw storage, writable. A caller that stores a value outside
    /// {-1, 0, +1} leaves the vector without its well-formedness.
    pub fn as_mut_slice(&mut self) -> (s: &mut [i8])
        ensures
            s@ == old(self)@,
            final(s)@ == final(self)@,
    {
        self.data.as_mut_slice()
    }

    /// Count of nonzero elements.
    pub fn nnz(&self) -> (n: usize)
        ensures
            n == nnz_seq(self@),
    {
        let len = self.data.len();
        let mut count: usize = 0;
        let mut i: usize = 0;
        while i < len
            invariant
                i <= len,
                len == self@.len(),
                count == nnz_prefix(self@, i as int),
                count <= i,
            decreases len - i,
        {
            if self.data[i] != 0 {
                count = count + 1;
            }
            i = i + 1;
        }
        count
    }

    /// Negate every element in place.
    pub fn negate(&mut self)
        requires
            old(self).wf(),
        ensures
            final(self)@ =~= neg_seq(old(self)@),
            final(self).wf(),
    {
        let len = self.data.len();
        let mut i: usize = 0;
        while i < len
            invariant
                i <= len,
                len == self@.len(),
                wf_seq(old(self)@),
                self@.len() == old(self)@.len(),
                forall|j: int| 0 <= j < i ==> self@[j] == sign_of(-old(self)@[j]),
                forall|j: int| i <= j < len ==> self@[j] == old(self)@[j],
            decreases len - i,
        {
            let v = self.data[i];
            self.data[i] = -v;
            i = i + 1;
        }
    }

    /// A negated copy, leaving the vector unchanged.
    pub fn negated(&self) -> (v: TritVector)
        requires
            self.wf(),
        ensures
            v@ =~= neg_seq(self@),
            v.wf(),
    {
        let len = self.data.len();
        let mut out: Vec<i8> = Vec::new();
        let mut i: usize = 0;
        while i < len
            invariant
                i <= len,
                len == self@.len(),
                wf_seq(self@),
                out@.len() == i,
                forall|j: int| 0 <= j < i ==> out@[j] == sign_of(-self@[j]),
            decreases len - i,
        {
            let v = self.data[i];
            out.push(-v);
            i = i + 1;
        }
        TritVector { data: out }
    }
}

/// Relies on rand::Rng::gen_range: a sample from the inclusive range
/// -1..=1 lies within that range. The drawn value is random, so nothing
/// more holds of any one outcome.
#[verifier::external_body]
fn sample_uniform_trit() -> (r: i8)
    ensures
        -1 <= r <= 1,
{
    let mut rng = rand::thread_rng();
    rng.gen_range(-1..=1)
}

} // verus!

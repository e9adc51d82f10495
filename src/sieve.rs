//! The similarity sieve: one bit per number of the domain, set once the number
//! is excluded from selection. The bits live in a `vob::Vob`.

use vstd::prelude::*;

verus! {

#[verifier::external_type_specification]
#[verifier::external_body]
#[verifier::reject_recursive_types(T)]
pub struct ExVob<T>(vob::Vob<T>);

/// The bits held by a `Vob`, index 0 first.
pub uninterp spec fn vob_bits(v: vob::Vob) -> Seq<bool>;

/// Relies on `vob::Vob::from_elem`: a vector of `len` bits, each `false`.
#[verifier::external_body]
fn vob_cleared(len: usize) -> (r: vob::Vob)
    ensures
        vob_bits(r) == Seq::new(len as nat, |i: int| false),
{
    vob::Vob::from_elem(false, len)
}

/// Relies on `vob::Vob::get`: the bit at `index`, or `None` past the end.
#[verifier::external_body]
fn vob_get(v: &vob::Vob, index: usize) -> (r: Option<bool>)
    ensures
        index < vob_bits(*v).len() ==> r == Some(vob_bits(*v)[index as int]),
        index >= vob_bits(*v).len() ==> r is None,
{
    v.get(index)
}

/// Relies on `vob::Vob::set`: stores `value` at `index` (it panics past the
/// end) and reports whether the bit changed.
#[verifier::external_body]
fn vob_set(v: &mut vob::Vob, index: usize, value: bool) -> (changed: bool)
    requires
        index < vob_bits(*old(v)).len(),
    ensures
        vob_bits(*final(v)) == vob_bits(*old(v)).update(index as int, value),
        changed == (vob_bits(*old(v))[index as int] != value),
{
    v.set(index, value)
}

/// Relies on `vob::Vob::iter_unset_bits`: the first index of the range
/// `from..` whose bit is unset, or `None` if every bit from `from` on is set.
#[verifier::external_body]
fn vob_first_unset_from(v: &vob::Vob, from: usize) -> (r: Option<usize>)
    ensures
        match r {
            Some(i) => from <= i < vob_bits(*v).len() && !vob_bits(*v)[i as int] && forall|j: int|
                from <= j < i ==> vob_bits(*v)[j],
            None => forall|j: int| from <= j < vob_bits(*v).len() ==> vob_bits(*v)[j],
        },
{
    v.iter_unset_bits(from..).next()
}

/// A dense bitmap over `0 .. len`; a set bit marks an excluded number.
pub struct Sieve {
    bits: vob::Vob,
    len: usize,
}

impl View for Sieve {
    type V = Seq<bool>;

    closed spec fn view(&self) -> Seq<bool> {
        vob_bits(self.bits)
    }
}

impl Sieve {
    pub closed spec fn wf(&self) -> bool {
        vob_bits(self.bits).len() == self.len
    }

    /// The sieve's length is a `usize`.
    pub proof fn lemma_len_fits(&self)
        requires
            self.wf(),
        ensures
            self@.len() <= usize::MAX,
    {
    }

    /// A sieve over `0 .. len` in which nothing is excluded yet.
    pub fn new(len: usize) -> (s: Sieve)
        ensures
            s.wf(),
            s@ == Seq::new(len as nat, |i: int| false),
    {
        Sieve { bits: vob_cleared(len), len }
    }

    pub fn len(&self) -> (r: usize)
        requires
            self.wf(),
        ensures
            r == self@.len(),
    {
        self.len
    }

    pub fn is_excluded(&self, index: usize) -> (r: bool)
        requires
            self.wf(),
            index < self@.len(),
        ensures
            r == self@[index as int],
    {
        match vob_get(&self.bits, index) {
            Some(b) => b,
            None => false,
        }
    }

    /// Excludes `index`; returns whether it was not excluded before.
    pub fn mark_excluded(&mut self, index: usize) -> (newly: bool)
        requires
            old(self).wf(),
            index < old(self)@.len(),
        ensures
            final(self).wf(),
            final(self)@ == old(self)@.update(index as int, true),
            newly == !old(self)@[index as int],
    {
        vob_set(&mut self.bits, index, true)
    }

    /// The smallest index at or after `cursor` that is not excluded, if any.
    pub fn next_unexcluded_from(&self, cursor: usize) -> (r: Option<usize>)
        requires
            self.wf(),
        ensures
            match r {
                Some(i) => cursor <= i < self@.len() && !self@[i as int] && forall|j: int|
                    cursor <= j < i ==> self@[j],
                None => forall|j: int| cursor <= j < self@.len() ==> self@[j],
            },
    {
        vob_first_unset_from(&self.bits, cursor)
    }
}

} // verus!

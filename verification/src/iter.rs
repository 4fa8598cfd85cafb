//! Iteration over a store's pairs, in insertion order.  Each cursor offers
//! an inherent `next`; its position and the pairs it walks are visible to
//! contracts through spec accessors.

use crate::model::PairModel;
use crate::{pairs_view, Properties};
use vstd::prelude::*;

verus! {

/// Walks the store, yielding borrowed key and value strings.
pub struct KVIter<'a>(pub(crate) &'a Properties, pub(crate) usize);

/// Walks the store, yielding borrowed key strings.
pub struct KIter<'a>(pub(crate) &'a Properties, pub(crate) usize);

/// Walks pairs taken out of a consumed store, yielding owned strings.
pub struct IntoIter(pub(crate) Vec<(String, String)>, pub(crate) usize);

/// Walks the store, yielding references to its pairs.
pub struct Iter<'a>(pub(crate) &'a Properties, pub(crate) usize);

/// Walks an owned snapshot taken from an exclusively borrowed store,
/// yielding owned pairs.
pub struct IterMut(pub(crate) Vec<(String, String)>, pub(crate) usize);

impl<'a> KVIter<'a> {
    /// The pairs being walked.
    pub closed spec fn pairs(&self) -> Seq<PairModel> {
        self.0@
    }

    /// How many pairs were already yielded.
    pub closed spec fn at(&self) -> nat {
        self.1 as nat
    }

    /// The next pair, or nothing once every pair was yielded.
    pub fn next(&mut self) -> (r: Option<(&'a str, &'a str)>)
        ensures
            final(self).pairs() == old(self).pairs(),
            old(self).at() < old(self).pairs().len() ==> final(self).at() == old(self).at() + 1
                && (r matches Some(kv) && kv.0@ == old(self).pairs()[old(self).at() as int].0
                && kv.1@ == old(self).pairs()[old(self).at() as int].1),
            old(self).at() >= old(self).pairs().len() ==> r is None && final(self).at() == old(
                self,
            ).at(),
    {
        if self.1 >= self.0.len() {
            return None;
        }
        let idx = self.1;
        self.1 = idx + 1;
        let p = self.0.pair_ref(idx);
        Some((p.0.as_str(), p.1.as_str()))
    }
}

impl<'a> KIter<'a> {
    /// The pairs being walked.
    pub closed spec fn pairs(&self) -> Seq<PairModel> {
        self.0@
    }

    /// How many pairs were already yielded.
    pub closed spec fn at(&self) -> nat {
        self.1 as nat
    }

    /// The next key, or nothing once every pair was yielded.
    pub fn next(&mut self) -> (r: Option<&'a str>)
        ensures
            final(self).pairs() == old(self).pairs(),
            old(self).at() < old(self).pairs().len() ==> final(self).at() == old(self).at() + 1
                && (r matches Some(k) && k@ == old(self).pairs()[old(self).at() as int].0),
            old(self).at() >= old(self).pairs().len() ==> r is None && final(self).at() == old(
                self,
            ).at(),
    {
        if self.1 >= self.0.len() {
            return None;
        }
        let idx = self.1;
        self.1 = idx + 1;
        let p = self.0.pair_ref(idx);
        Some(p.0.as_str())
    }
}

impl IntoIter {
    /// The pairs being walked.
    pub closed spec fn pairs(&self) -> Seq<PairModel> {
        pairs_view(self.0@)
    }

    /// How many pairs were already yielded.
    pub closed spec fn at(&self) -> nat {
        self.1 as nat
    }

    /// The next pair as owned strings, or nothing once every pair was
    /// yielded.
    pub fn next(&mut self) -> (r: Option<(String, String)>)
        ensures
            final(self).pairs() == old(self).pairs(),
            old(self).at() < old(self).pairs().len() ==> final(self).at() == old(self).at() + 1
                && (r matches Some(kv) && kv.0@ == old(self).pairs()[old(self).at() as int].0
                && kv.1@ == old(self).pairs()[old(self).at() as int].1),
            old(self).at() >= old(self).pairs().len() ==> r is None && final(self).at() == old(
                self,
            ).at(),
    {
        if self.1 >= self.0.len() {
            return None;
        }
        let idx = self.1;
        self.1 = idx + 1;
        let p = vstd::std_specs::vec::vec_index(&self.0, idx);
        Some((p.0.clone(), p.1.clone()))
    }
}

impl<'a> Iter<'a> {
    /// The pairs being walked.
    pub closed spec fn pairs(&self) -> Seq<PairModel> {
        self.0@
    }

    /// How many pairs were already yielded.
    pub closed spec fn at(&self) -> nat {
        self.1 as nat
    }

    /// A reference to the next pair, or nothing once every pair was
    /// yielded.
    pub fn next(&mut self) -> (r: Option<&'a (String, String)>)
        ensures
            final(self).pairs() == old(self).pairs(),
            old(self).at() < old(self).pairs().len() ==> final(self).at() == old(self).at() + 1
                && (r matches Some(p) && p.0@ == old(self).pairs()[old(self).at() as int].0 && p.1@
                == old(self).pairs()[old(self).at() as int].1),
            old(self).at() >= old(self).pairs().len() ==> r is None && final(self).at() == old(
                self,
            ).at(),
    {
        if self.1 >= self.0.len() {
            return None;
        }
        let idx = self.1;
        self.1 = idx + 1;
        Some(self.0.pair_ref(idx))
    }
}

impl IterMut {
    /// The pairs being walked.
    pub closed spec fn pairs(&self) -> Seq<PairModel> {
        pairs_view(self.0@)
    }

    /// How many pairs were already yielded.
    pub closed spec fn at(&self) -> nat {
        self.1 as nat
    }

    /// The next pair as owned strings, or nothing once every pair was
    /// yielded.
    pub fn next(&mut self) -> (r: Option<(String, String)>)
        ensures
            final(self).pairs() == old(self).pairs(),
            old(self).at() < old(self).pairs().len() ==> final(self).at() == old(self).at() + 1
                && (r matches Some(kv) && kv.0@ == old(self).pairs()[old(self).at() as int].0
                && kv.1@ == old(self).pairs()[old(self).at() as int].1),
            old(self).at() >= old(self).pairs().len() ==> r is None && final(self).at() == old(
                self,
            ).at(),
    {
        if self.1 >= self.0.len() {
            return None;
        }
        let idx = self.1;
        self.1 = idx + 1;
        let p = vstd::std_specs::vec::vec_index(&self.0, idx);
        Some((p.0.clone(), p.1.clone()))
    }
}

impl Properties {
    /// A cursor over borrowed key/value pairs, from the front.
    pub fn key_values<'a>(&'a self) -> (r: KVIter<'a>)
        ensures
            r.pairs() == self@,
            r.at() == 0,
    {
        KVIter(self, 0)
    }

    /// A cursor over borrowed keys, from the front.
    pub fn keys<'a>(&'a self) -> (r: KIter<'a>)
        ensures
            r.pairs() == self@,
            r.at() == 0,
    {
        KIter(self, 0)
    }

    /// A cursor over references to the pairs, from the front.
    pub fn iter<'a>(&'a self) -> (r: Iter<'a>)
        ensures
            r.pairs() == self@,
            r.at() == 0,
    {
        Iter(self, 0)
    }

    /// A cursor over an owned snapshot of the pairs, from the front.  The
    /// store itself stays as it was.
    pub fn iter_mut(&mut self) -> (r: IterMut)
        ensures
            final(self)@ == old(self)@,
            r.pairs() == old(self)@,
            r.at() == 0,
    {
        let mut copy: Vec<(String, String)> = Vec::new();
        let n = self.len();
        let mut i: usize = 0;
        proof {
            assert(pairs_view(copy@) =~= self@.take(0));
        }
        while i < n
            invariant
                n == self@.len(),
                0 <= i <= n,
                pairs_view(copy@) == self@.take(i as int),
            decreases n - i,
        {
            let p = self.pair_ref(i);
            let ghost prev = pairs_view(copy@);
            copy.push((p.0.clone(), p.1.clone()));
            proof {
                assert(pairs_view(copy@) =~= prev.push((p.0@, p.1@)));
                assert(self@.take(i as int + 1) =~= self@.take(i as int).push(self@[i as int]));
            }
            i += 1;
        }
        proof {
            assert(self@.take(n as int) =~= self@);
        }
        IterMut(copy, 0)
    }

    /// Consumes the store into a cursor over its owned pairs.
    pub fn into_iter(self) -> (r: IntoIter)
        ensures
            r.pairs() == self@,
            r.at() == 0,
    {
        IntoIter(self.into_pairs(), 0)
    }
}

} // verus!

//! An ordered, duplicate-keeping store of string pairs, loaded from and
//! serialized to the line-oriented `key=value` properties text format.
//!
//! The parser in [`load`](Properties::load) handles comment stripping,
//! logical-line continuation across physical lines, whitespace trimming and
//! in-value escape decoding; its result is pinned down exactly by the
//! specification functions of the [`model`] module.

use vstd::prelude::*;

pub mod iter;
pub mod laws;
pub mod load;
pub mod model;

mod dump;
mod escape;
mod strutil;

use crate::model::{first_value, kept_pairs, values_for, ErrorModel, PairModel};

verus! {

/// A properties parse failure, carrying the 1-based number of the offending
/// physical line and, where the diagnostic keeps it, the decoded line text.
#[derive(Debug)]
pub enum Error {
    /// A fresh, non-empty, non-comment line had no `=` or `:` separator.
    MalformedLine(usize, String),
    /// A byte slice produced during splitting or decoding was not UTF-8.
    InvalidUtf8(usize),
    /// A value held an unrecognized or truncated escape sequence.
    InvalidEscape(usize, String),
}

impl View for Error {
    type V = ErrorModel;

    open spec fn view(&self) -> ErrorModel {
        match self {
            Error::MalformedLine(n, s) => ErrorModel::MalformedLine(*n as nat, s@),
            Error::InvalidUtf8(n) => ErrorModel::InvalidUtf8(*n as nat),
            Error::InvalidEscape(n, s) => ErrorModel::InvalidEscape(*n as nat, s@),
        }
    }
}

/// The image of a vector of owned pairs in the model.
pub open spec fn pairs_view(v: Seq<(String, String)>) -> Seq<PairModel> {
    v.map_values(|p: (String, String)| (p.0@, p.1@))
}

/// An ordered collection of key/value pairs.  Insertion order is kept
/// exactly; duplicate keys are permitted and never merged.
#[derive(Debug)]
pub struct Properties {
    pairs: Vec<(String, String)>,
}

impl View for Properties {
    type V = Seq<PairModel>;

    closed spec fn view(&self) -> Seq<PairModel> {
        pairs_view(self.pairs@)
    }
}

impl Default for Properties {
    /// An empty store.
    fn default() -> (r: Properties)
        ensures
            r@ == Seq::<PairModel>::empty(),
    {
        let r = Properties { pairs: Vec::new() };
        proof {
            assert(r@ =~= Seq::<PairModel>::empty());
        }
        r
    }
}

impl Properties {
    /// Wraps an already-built vector of pairs.
    pub(crate) fn from_pairs(pairs: Vec<(String, String)>) -> (r: Properties)
        ensures
            r@ == pairs_view(pairs@),
    {
        Properties { pairs }
    }

    /// Consumes the store, handing its pairs out in order.
    pub(crate) fn into_pairs(self) -> (r: Vec<(String, String)>)
        ensures
            pairs_view(r@) == self@,
    {
        self.pairs
    }

    /// A reference to the pair at the given position.
    pub(crate) fn pair_ref<'a>(&'a self, i: usize) -> (r: &'a (String, String))
        requires
            i < self@.len(),
        ensures
            (r.0@, r.1@) == self@[i as int],
    {
        vstd::std_specs::vec::vec_index(&self.pairs, i)
    }

    /// How many pairs the store holds.
    pub fn len(&self) -> (r: usize)
        ensures
            r == self@.len(),
    {
        self.pairs.len()
    }

    /// Whether the store holds no pairs.
    pub fn is_empty(&self) -> (r: bool)
        ensures
            r == (self@.len() == 0),
    {
        self.pairs.is_empty()
    }

    /// The value of the first pair whose key matches, if any.
    pub fn get<'a>(&'a self, key: &str) -> (r: Option<&'a str>)
        ensures
            match r {
                Some(v) => first_value(self@, key@) == Some(v@),
                None => first_value(self@, key@) is None,
            },
    {
        let n = self.pairs.len();
        let mut i: usize = 0;
        proof {
            assert(self@.skip(0) =~= self@);
        }
        while i < n
            invariant
                n == self@.len(),
                0 <= i <= n,
                first_value(self@, key@) == first_value(self@.skip(i as int), key@),
            decreases n - i,
        {
            let p = vstd::std_specs::vec::vec_index(&self.pairs, i);
            proof {
                assert(self@.skip(i as int)[0] == self@[i as int]);
            }
            if strutil::str_eq(p.0.as_str(), key) {
                return Some(p.1.as_str());
            }
            proof {
                assert(self@.skip(i as int).drop_first() =~= self@.skip(i as int + 1));
            }
            i += 1;
        }
        proof {
            assert(self@.skip(n as int).len() == 0);
        }
        None
    }

    /// The values of every pair whose key matches, in store order.
    pub fn get_all<'a>(&'a self, key: &str) -> (r: Vec<&'a str>)
        ensures
            r@.map_values(|v: &str| v@) == values_for(self@, key@),
    {
        let mut res: Vec<&'a str> = Vec::new();
        let n = self.pairs.len();
        let mut i: usize = 0;
        proof {
            assert(self@.skip(0) =~= self@);
            assert(res@.map_values(|v: &str| v@) =~= Seq::<Seq<char>>::empty());
            assert(Seq::<Seq<char>>::empty() + values_for(self@, key@) =~= values_for(
                self@,
                key@,
            ));
        }
        while i < n
            invariant
                n == self@.len(),
                0 <= i <= n,
                values_for(self@, key@) == res@.map_values(|v: &str| v@) + values_for(
                    self@.skip(i as int),
                    key@,
                ),
            decreases n - i,
        {
            let p = vstd::std_specs::vec::vec_index(&self.pairs, i);
            proof {
                assert(self@.skip(i as int)[0] == self@[i as int]);
                assert(self@.skip(i as int).drop_first() =~= self@.skip(i as int + 1));
            }
            let ghost prev = res@.map_values(|v: &str| v@);
            if strutil::str_eq(p.0.as_str(), key) {
                res.push(p.1.as_str());
                proof {
                    assert(res@.map_values(|v: &str| v@) =~= prev.push(self@[i as int].1));
                    assert(prev.push(self@[i as int].1) + values_for(
                        self@.skip(i as int + 1),
                        key@,
                    ) =~= prev + (seq![self@[i as int].1] + values_for(
                        self@.skip(i as int + 1),
                        key@,
                    )));
                }
            } else {
                proof {
                    assert(prev + (Seq::<Seq<char>>::empty() + values_for(
                        self@.skip(i as int + 1),
                        key@,
                    )) =~= prev + values_for(self@.skip(i as int + 1), key@));
                }
            }
            i += 1;
        }
        proof {
            assert(self@.skip(n as int).len() == 0);
            assert(res@.map_values(|v: &str| v@) + Seq::<Seq<char>>::empty() =~= res@.map_values(
                |v: &str| v@,
            ));
        }
        res
    }

    /// Appends an owned pair at the end of the store.
    pub fn insert(&mut self, key: String, value: String)
        ensures
            final(self)@ == old(self)@.push((key@, value@)),
    {
        let ghost prev = self@;
        self.pairs.push((key, value));
        proof {
            assert(self@ =~= prev.push((key@, value@)));
        }
    }

    /// Appends a borrowed pair, copying both strings.
    pub fn insert_str(&mut self, key: &str, value: &str)
        ensures
            final(self)@ == old(self)@.push((key@, value@)),
    {
        let ghost prev = self@;
        self.pairs.push((key.to_owned(), value.to_owned()));
        proof {
            assert(self@ =~= prev.push((key@, value@)));
        }
    }

    /// Removes every pair whose key matches, keeping all others in order.
    /// The length drops by exactly the number of matching pairs.
    pub fn delete(&mut self, key: &str)
        ensures
            final(self)@ == kept_pairs(old(self)@, key@),
            final(self)@.len() == old(self)@.len() - values_for(old(self)@, key@).len(),
    {
        let ghost whole = self@;
        let mut kept: Vec<(String, String)> = Vec::new();
        let n = self.pairs.len();
        let mut i: usize = 0;
        proof {
            assert(whole.skip(0) =~= whole);
            assert(pairs_view(kept@) =~= Seq::<PairModel>::empty());
            assert(Seq::<PairModel>::empty() + kept_pairs(whole, key@) =~= kept_pairs(
                whole,
                key@,
            ));
        }
        while i < n
            invariant
                self@ == whole,
                n == self@.len(),
                0 <= i <= n,
                kept_pairs(whole, key@) == pairs_view(kept@) + kept_pairs(
                    whole.skip(i as int),
                    key@,
                ),
            decreases n - i,
        {
            let p = vstd::std_specs::vec::vec_index(&self.pairs, i);
            proof {
                assert(whole.skip(i as int)[0] == whole[i as int]);
                assert(whole.skip(i as int).drop_first() =~= whole.skip(i as int + 1));
            }
            let ghost prev = pairs_view(kept@);
            if !strutil::str_eq(p.0.as_str(), key) {
                kept.push((p.0.clone(), p.1.clone()));
                proof {
                    assert(pairs_view(kept@) =~= prev.push(whole[i as int]));
                    assert(prev.push(whole[i as int]) + kept_pairs(whole.skip(i as int + 1), key@)
                        =~= prev + (seq![whole[i as int]] + kept_pairs(
                        whole.skip(i as int + 1),
                        key@,
                    )));
                }
            } else {
                proof {
                    assert(prev + (Seq::<PairModel>::empty() + kept_pairs(
                        whole.skip(i as int + 1),
                        key@,
                    )) =~= prev + kept_pairs(whole.skip(i as int + 1), key@));
                }
            }
            i += 1;
        }
        proof {
            assert(whole.skip(n as int).len() == 0);
            assert(pairs_view(kept@) + Seq::<PairModel>::empty() =~= pairs_view(kept@));
            crate::model::lemma_kept_values_len(whole, key@);
        }
        self.pairs = kept;
    }

    /// Appends every pair of the other store after this one's, keeping both
    /// sides' internal order and all duplicates.
    pub fn merge(&mut self, other: Properties)
        ensures
            final(self)@ == old(self)@ + other@,
    {
        let ghost prev = self@;
        let ghost addition = other@;
        let mut o = other;
        self.pairs.append(&mut o.pairs);
        proof {
            assert(self@ =~= prev + addition);
        }
    }

    /// The value of the first pair whose key matches.  The key must be
    /// present; `get` is the recoverable form of this lookup.
    pub fn index<'a>(&'a self, key: &str) -> (r: &'a str)
        requires
            first_value(self@, key@) is Some,
        ensures
            first_value(self@, key@) == Some(r@),
    {
        let n = self.pairs.len();
        let mut i: usize = 0;
        proof {
            assert(self@.skip(0) =~= self@);
        }
        while i < n
            invariant
                n == self@.len(),
                0 <= i <= n,
                first_value(self@, key@) == first_value(self@.skip(i as int), key@),
                first_value(self@, key@) is Some,
            decreases n - i,
        {
            let p = vstd::std_specs::vec::vec_index(&self.pairs, i);
            proof {
                assert(self@.skip(i as int)[0] == self@[i as int]);
            }
            if strutil::str_eq(p.0.as_str(), key) {
                return p.1.as_str();
            }
            proof {
                assert(self@.skip(i as int).drop_first() =~= self@.skip(i as int + 1));
            }
            i += 1;
        }
        proof {
            assert(self@.skip(n as int).len() == 0);
        }
        unreached()
    }
}

} // verus!

//! Short lists of texts, kept in place while they are short.
use smallvec::SmallVec;
use vstd::prelude::*;
use crate::text::strs;

verus! {

/// A list of texts: up to four of them are kept without an allocation.
#[verifier::external_body]
pub struct Strings {
    items: SmallVec<[String; 4]>,
}

/// The texts that a list holds, in order.
pub uninterp spec fn strings_of(v: Strings) -> Seq<Seq<char>>;

impl Strings {
    /// `SmallVec::new`: a list that holds nothing.
    #[verifier::external_body]
    pub(crate) fn new() -> (r: Self)
        ensures
            strings_of(r) == Seq::<Seq<char>>::empty(),
    {
        Strings { items: SmallVec::new() }
    }

    /// `SmallVec::push`: the text is put behind those that the list holds.
    #[verifier::external_body]
    pub(crate) fn push(&mut self, s: String)
        ensures
            strings_of(*final(self)) == strings_of(*old(self)).push(s@),
    {
        self.items.push(s);
    }

    /// `SmallVec::as_slice`: the texts that the list holds, in order.
    #[verifier::external_body]
    pub(crate) fn as_slice(&self) -> (r: &[String])
        ensures
            strs(r@) == strings_of(*self),
    {
        self.items.as_slice()
    }

    /// How many texts the list holds.
    pub fn len(&self) -> (r: usize)
        ensures
            r == strings_of(*self).len(),
    {
        let s = self.as_slice();
        proof {
            assert(strs(s@).len() == s@.len());
        }
        s.len()
    }

    /// The text at a place of the list.
    pub fn at(&self, i: usize) -> (r: &str)
        requires
            i < strings_of(*self).len(),
        ensures
            r@ == strings_of(*self)[i as int],
    {
        let s = self.as_slice();
        proof {
            assert(strs(s@).len() == s@.len());
            assert(strs(s@)[i as int] == s@[i as int]@);
        }
        s[i].as_str()
    }
}

/// The texts of a row of pairs.
pub open spec fn pairs(v: Seq<(String, String)>) -> Seq<(Seq<char>, Seq<char>)> {
    v.map_values(|p: (String, String)| (p.0@, p.1@))
}

/// A list of pairs of texts: up to two of them are kept without an allocation.
#[verifier::external_body]
pub struct Pairs {
    items: SmallVec<[(String, String); 2]>,
}

/// The pairs that a list holds, in order.
pub uninterp spec fn pairs_of(v: Pairs) -> Seq<(Seq<char>, Seq<char>)>;

impl Pairs {
    /// `SmallVec::new`: a list that holds nothing.
    #[verifier::external_body]
    pub(crate) fn new() -> (r: Self)
        ensures
            pairs_of(r) == Seq::<(Seq<char>, Seq<char>)>::empty(),
    {
        Pairs { items: SmallVec::new() }
    }

    /// `SmallVec::push`: the pair is put behind those that the list holds.
    #[verifier::external_body]
    pub(crate) fn push(&mut self, p: (String, String))
        ensures
            pairs_of(*final(self)) == pairs_of(*old(self)).push((p.0@, p.1@)),
    {
        self.items.push(p);
    }

    /// `SmallVec::as_slice`: the pairs that the list holds, in order.
    #[verifier::external_body]
    pub(crate) fn as_slice(&self) -> (r: &[(String, String)])
        ensures
            pairs(r@) == pairs_of(*self),
    {
        self.items.as_slice()
    }

    /// How many pairs the list holds.
    pub fn len(&self) -> (r: usize)
        ensures
            r == pairs_of(*self).len(),
    {
        let s = self.as_slice();
        proof {
            assert(pairs(s@).len() == s@.len());
        }
        s.len()
    }

    /// The pair at a place of the list.
    pub fn at(&self, i: usize) -> (r: (&str, &str))
        requires
            i < pairs_of(*self).len(),
        ensures
            (r.0@, r.1@) == pairs_of(*self)[i as int],
    {
        let s = self.as_slice();
        proof {
            assert(pairs(s@).len() == s@.len());
            assert(pairs(s@)[i as int] == (s@[i as int].0@, s@[i as int].1@));
        }
        (s[i].0.as_str(), s[i].1.as_str())
    }
}

} // verus!

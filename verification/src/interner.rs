//! The string interner: an append-only table of unique strings handing out
//! dense integer identities. Identity equality coincides with string
//! equality, and a lookup-only entry point reports absence without
//! inserting — absence means "this string is not in the corpus".
use vstd::prelude::*;

verus! {

/// A stable compact identity for an interned string.
pub type Id = usize;

pub struct Interner {
    pub table: Vec<String>,
}

impl Interner {
    /// The interned strings, by identity.
    pub open spec fn view(&self) -> Seq<Seq<char>> {
        self.table@.map_values(|s: String| s@)
    }

    /// All interned strings are distinct.
    pub open spec fn wf(&self) -> bool {
        forall|i: int, j: int|
            0 <= i < j < self.view().len() ==> self.view()[i] != self.view()[j]
    }

    /// Some interned string equals `s`.
    pub open spec fn spec_contains(&self, s: Seq<char>) -> bool {
        exists|i: int| 0 <= i < self.view().len() && self.view()[i] == s
    }

    pub fn new() -> (r: Interner)
        ensures
            r.wf(),
            r.view().len() == 0,
    {
        Interner { table: Vec::new() }
    }

    pub fn len(&self) -> (r: usize)
        ensures
            r == self.view().len(),
    {
        self.table.len()
    }

    /// The string behind an identity.
    pub fn resolve(&self, id: Id) -> (r: &String)
        requires
            id < self.view().len(),
        ensures
            r@ == self.view()[id as int],
    {
        &self.table[id]
    }

    /// The identity of `s`, if `s` was interned; no insertion takes place.
    pub fn lookup(&self, s: &str) -> (r: Option<Id>)
        ensures
            match r {
                Some(id) => id < self.view().len() && self.view()[id as int] == s@,
                None => !self.spec_contains(s@),
            },
    {
        let mut i: usize = 0;
        while i < self.table.len()
            invariant
                i <= self.view().len(),
                forall|j: int| 0 <= j < i ==> self.view()[j] != s@,
            decreases self.view().len() - i,
        {
            if crate::text::str_eq(self.table[i].as_str(), s) {
                return Some(i);
            }
            i += 1;
        }
        None
    }

    /// Intern `s` (build time only): returns the existing identity or appends
    /// a new one. Identities already handed out are unchanged.
    pub fn intern(&mut self, s: &str) -> (r: Id)
        requires
            old(self).wf(),
        ensures
            final(self).wf(),
            r < final(self).view().len(),
            final(self).view()[r as int] == s@,
            old(self).view().len() <= final(self).view().len()
                <= old(self).view().len() + 1,
            forall|j: int|
                0 <= j < old(self).view().len() ==> final(self).view()[j] == old(
                    self,
                ).view()[j],
    {
        match self.lookup(s) {
            Some(id) => id,
            None => {
                let id = self.table.len();
                self.table.push(String::from_str(s));
                proof {
                    assert(self.view() =~= old(self).view().push(s@));
                }
                id
            },
        }
    }

    /// The identity of an interned string (the one identity, under a
    /// well-formed interner).
    pub open spec fn spec_id_of(&self, s: Seq<char>) -> Id {
        choose|u: Id| u < self.view().len() && self.view()[u as int] == s
    }

    /// Distinct identities carry distinct strings, and conversely.
    pub proof fn lemma_id_eq(&self, i: Id, j: Id)
        requires
            self.wf(),
            i < self.view().len(),
            j < self.view().len(),
        ensures
            (self.view()[i as int] == self.view()[j as int]) <==> i == j,
    {
    }
}

/// Membership of an identity in a list.
pub fn contains_id(v: &Vec<Id>, x: Id) -> (r: bool)
    ensures
        r == v@.contains(x),
{
    let mut i: usize = 0;
    while i < v.len()
        invariant
            i <= v@.len(),
            forall|j: int| 0 <= j < i ==> v@[j] != x,
        decreases v@.len() - i,
    {
        if v[i] == x {
            return true;
        }
        i += 1;
    }
    false
}

} // verus!

//! The word index: for each vocabulary token, the set of location keys whose
//! searchable strings contain it. Entries are kept strictly sorted by token,
//! so tokens are unique and the vector doubles as the ordinal-indexed table
//! behind the vocabulary automaton.
use vstd::prelude::*;

use crate::interner::Id;
use crate::text::{lemma_lex_lt_total, lemma_lex_lt_trans, lex_lt, str_eq, str_lex_lt};

verus! {

/// One vocabulary token with the keys of the locations containing it.
#[derive(Debug)]
pub struct WordEntry {
    pub word: String,
    pub locs: Vec<Id>,
}

/// Mapping from each vocabulary token to the locations it occurs in,
/// strictly sorted by token.
#[derive(Debug)]
pub struct WordIndex {
    pub entries: Vec<WordEntry>,
}

impl WordIndex {
    /// Entries strictly sorted (hence unique tokens), every stored set
    /// non-empty and duplicate-free.
    pub open spec fn wf(&self) -> bool {
        &&& forall|i: int, j: int|
            0 <= i < j < self.entries@.len() ==> lex_lt(
                self.entries@[i].word@,
                self.entries@[j].word@,
            )
        &&& forall|i: int|
            0 <= i < self.entries@.len() ==> (#[trigger] self.entries@[i]).locs@.len() > 0
        &&& forall|i: int, a: int, b: int|
            0 <= i < self.entries@.len() && 0 <= a < b < self.entries@[i].locs@.len() ==> #[trigger] self.entries@[i].locs@[a] != #[trigger] self.entries@[i].locs@[b]
    }

    /// Some entry carries the token `w`.
    pub open spec fn has_word(&self, w: Seq<char>) -> bool {
        exists|i: int| 0 <= i < self.entries@.len() && (#[trigger] self.entries@[i]).word@ == w
    }

    /// Location `k` is indexed under token `w`.
    pub open spec fn pair_in(&self, w: Seq<char>, k: Id) -> bool {
        exists|i: int|
            0 <= i < self.entries@.len() && (#[trigger] self.entries@[i]).word@ == w
                && self.entries@[i].locs@.contains(k)
    }

    pub fn new() -> (r: WordIndex)
        ensures
            r.wf(),
            r.entries@.len() == 0,
    {
        WordIndex { entries: Vec::new() }
    }

    pub fn len(&self) -> (r: usize)
        ensures
            r == self.entries@.len(),
    {
        self.entries.len()
    }

    /// The entry at a vocabulary ordinal.
    pub fn at(&self, i: usize) -> (r: &WordEntry)
        requires
            i < self.entries@.len(),
        ensures
            *r == self.entries@[i as int],
    {
        &self.entries[i]
    }

    /// The locations indexed under token `w`, if any.
    pub fn get(&self, w: &str) -> (r: Option<&WordEntry>)
        requires
            self.wf(),
        ensures
            match r {
                Some(e) => e.word@ == w@ && self.has_word(w@) && forall|k: Id|
                    e.locs@.contains(k) <==> self.pair_in(w@, k),
                None => !self.has_word(w@),
            },
    {
        let mut i: usize = 0;
        while i < self.entries.len()
            invariant
                self.wf(),
                i <= self.entries@.len(),
                forall|j: int| 0 <= j < i ==> (#[trigger] self.entries@[j]).word@ != w@,
            decreases self.entries@.len() - i,
        {
            if str_eq(self.entries[i].word.as_str(), w) {
                let e = &self.entries[i];
                proof {
                    assert forall|k: Id| e.locs@.contains(k) <==> self.pair_in(w@, k) by {
                        if self.pair_in(w@, k) {
                            let j = choose|j: int|
                                0 <= j < self.entries@.len() && (#[trigger] self.entries@[j]).word@
                                    == w@ && self.entries@[j].locs@.contains(k);
                            if j != i {
                                lemma_lex_lt_total(w@, w@);
                                if j < i {
                                    assert(lex_lt(self.entries@[j].word@, self.entries@[i as int].word@));
                                } else {
                                    assert(lex_lt(self.entries@[i as int].word@, self.entries@[j].word@));
                                }
                                assert(false);
                            }
                        }
                    }
                }
                return Some(e);
            }
            i += 1;
        }
        None
    }

    /// Does some entry carry the token `w`?
    pub fn has(&self, w: &str) -> (r: bool)
        requires
            self.wf(),
        ensures
            r == self.has_word(w@),
    {
        match self.get(w) {
            Some(_) => true,
            None => false,
        }
    }

    /// Record that location `k` contains token `w`: extends the token's set,
    /// or inserts a fresh entry at the sorted position. No pair is lost, and
    /// only `(w, k)` is gained.
    pub fn add(&mut self, w: &str, k: Id)
        requires
            old(self).wf(),
        ensures
            final(self).wf(),
            final(self).pair_in(w@, k),
            forall|w2: Seq<char>, k2: Id|
                old(self).pair_in(w2, k2) ==> final(self).pair_in(w2, k2),
            forall|w2: Seq<char>, k2: Id|
                final(self).pair_in(w2, k2) ==> old(self).pair_in(w2, k2) || (w2 == w@ && k2 == k),
            forall|w2: Seq<char>|
                final(self).has_word(w2) <==> old(self).has_word(w2) || w2 == w@,
    {
        let mut i: usize = 0;
        while i < self.entries.len() && str_lex_lt(self.entries[i].word.as_str(), w)
            invariant
                self.wf(),
                self == old(self),
                i <= self.entries@.len(),
                forall|j: int| 0 <= j < i ==> lex_lt((#[trigger] self.entries@[j]).word@, w@),
            decreases self.entries@.len() - i,
        {
            i += 1;
        }
        if i < self.entries.len() && str_eq(self.entries[i].word.as_str(), w) {
            let ghost pre = self.entries@;
            let mut e = self.entries.remove(i);
            let present = crate::interner::contains_id(&e.locs, k);
            if !present {
                e.locs.push(k);
            }
            self.entries.insert(i, e);
            proof {
                let post = self.entries@;
                assert(post.len() == pre.len());
                assert forall|j: int| 0 <= j < post.len() && j != i implies post[j] == pre[j] by {
                    if j < i {
                        assert(post[j] == pre.remove(i as int)[j]);
                    } else {
                        assert(post[j] == pre.remove(i as int)[j - 1]);
                    }
                }
                assert(post[i as int].word@ == pre[i as int].word@);
                assert(post[i as int].word@ == w@);
                if present {
                    assert(post[i as int].locs@ == pre[i as int].locs@);
                } else {
                    assert(post[i as int].locs@ == pre[i as int].locs@.push(k));
                }
                assert(post[i as int].locs@.contains(k)) by {
                    if !present {
                        assert(post[i as int].locs@.last() == k);
                    }
                }
                assert(final(self).wf()) by {
                    assert forall|a: int, b: int| 0 <= a < b < post.len() implies lex_lt(
                        post[a].word@,
                        post[b].word@,
                    ) by {
                        assert(post[a].word@ == pre[a].word@);
                        assert(post[b].word@ == pre[b].word@);
                    }
                }
                assert(final(self).pair_in(w@, k)) by {
                    assert(0 <= i < post.len() && post[i as int].word@ == w@ && post[
                        i as int
                    ].locs@.contains(k));
                }
                assert forall|w2: Seq<char>, k2: Id| old(self).pair_in(w2, k2) implies final(self).pair_in(w2, k2) by {
                    let j = choose|j: int|
                        0 <= j < pre.len() && (#[trigger] pre[j]).word@ == w2
                            && pre[j].locs@.contains(k2);
                    if j == i {
                        let idx = choose|idx: int|
                            0 <= idx < pre[j].locs@.len() && pre[j].locs@[idx] == k2;
                        assert(post[j].locs@[idx] == k2);
                    }
                    assert(post[j].word@ == w2 && post[j].locs@.contains(k2));
                }
                assert forall|w2: Seq<char>, k2: Id| final(self).pair_in(w2, k2) implies old(self).pair_in(w2, k2) || (w2 == w@ && k2 == k) by {
                    let j = choose|j: int|
                        0 <= j < post.len() && (#[trigger] post[j]).word@ == w2
                            && post[j].locs@.contains(k2);
                    if j == i && !present && k2 == k {
                    } else {
                        assert(pre[j].word@ == w2 && pre[j].locs@.contains(k2));
                    }
                }
                assert forall|w2: Seq<char>| true implies (final(self).has_word(w2) <==> old(self).has_word(w2) || w2 == w@) by {
                    if final(self).has_word(w2) {
                        let j = choose|j: int|
                            0 <= j < post.len() && (#[trigger] post[j]).word@ == w2;
                        assert(pre[j].word@ == w2);
                    }
                    if old(self).has_word(w2) {
                        let j = choose|j: int| 0 <= j < pre.len() && (#[trigger] pre[j]).word@ == w2;
                        assert(post[j].word@ == w2);
                    }
                    if w2 == w@ {
                        assert(post[i as int].word@ == w2);
                    }
                }
            }
        } else {
            proof {
                if i < self.entries@.len() {
                    lemma_lex_lt_total(self.entries@[i as int].word@, w@);
                }
            }
            let mut locs: Vec<Id> = Vec::new();
            locs.push(k);
            let ghost pre = self.entries@;
            self.entries.insert(i, WordEntry { word: String::from_str(w), locs });
            proof {
                let post = self.entries@;
                assert(post.len() == pre.len() + 1);
                assert(forall|j: int| 0 <= j < i ==> post[j] == pre[j]);
                assert(forall|j: int| i < j < post.len() ==> post[j] == pre[j - 1]);
                assert(post[i as int].word@ == w@);
                assert(post[i as int].locs@.len() == 1);
                assert(post[i as int].locs@[0] == k);
                assert(post[i as int].locs@.contains(k));
                assert(final(self).wf()) by {
                    assert forall|j: int| i <= j < pre.len() implies lex_lt(w@, pre[j].word@) by {
                        if j > i {
                            lemma_lex_lt_trans(w@, pre[i as int].word@, pre[j].word@);
                        }
                    }
                    assert forall|a: int, b: int| 0 <= a < b < post.len() implies lex_lt(
                        post[a].word@,
                        post[b].word@,
                    ) by {
                        if b == i {
                            assert(post[a].word@ == pre[a].word@);
                        } else if a == i {
                            assert(post[b].word@ == pre[b - 1].word@);
                        } else if a < i && b > i {
                            lemma_lex_lt_trans(pre[a].word@, w@, pre[b - 1].word@);
                        }
                    }
                }
                assert(final(self).pair_in(w@, k)) by {
                    assert(0 <= i < post.len() && post[i as int].word@ == w@ && post[
                        i as int
                    ].locs@.contains(k));
                }
                assert forall|w2: Seq<char>, k2: Id| old(self).pair_in(w2, k2) implies final(self).pair_in(w2, k2) by {
                    let j = choose|j: int|
                        0 <= j < pre.len() && (#[trigger] pre[j]).word@ == w2
                            && pre[j].locs@.contains(k2);
                    if j < i {
                        assert(post[j].word@ == w2 && post[j].locs@.contains(k2));
                    } else {
                        assert(post[j + 1].word@ == w2 && post[j + 1].locs@.contains(k2));
                    }
                }
                assert forall|w2: Seq<char>, k2: Id| final(self).pair_in(w2, k2) implies old(self).pair_in(w2, k2) || (w2 == w@ && k2 == k) by {
                    let j = choose|j: int|
                        0 <= j < post.len() && (#[trigger] post[j]).word@ == w2
                            && post[j].locs@.contains(k2);
                    if j != i {
                        if j < i {
                            assert(pre[j].word@ == w2 && pre[j].locs@.contains(k2));
                        } else {
                            assert(pre[j - 1].word@ == w2 && pre[j - 1].locs@.contains(k2));
                        }
                    } else {
                        assert(w2 == w@);
                        assert(Seq::empty().push(k).contains(k2) ==> k2 == k);
                    }
                }
                assert forall|w2: Seq<char>| true implies (final(self).has_word(w2) <==> old(self).has_word(w2) || w2 == w@) by {
                    if final(self).has_word(w2) {
                        let j = choose|j: int|
                            0 <= j < post.len() && (#[trigger] post[j]).word@ == w2;
                        if j != i {
                            if j < i {
                                assert(pre[j].word@ == w2);
                            } else {
                                assert(pre[j - 1].word@ == w2);
                            }
                        }
                    }
                    if old(self).has_word(w2) {
                        let j = choose|j: int| 0 <= j < pre.len() && (#[trigger] pre[j]).word@ == w2;
                        if j < i {
                            assert(post[j].word@ == w2);
                        } else {
                            assert(post[j + 1].word@ == w2);
                        }
                    }
                    if w2 == w@ {
                        assert(post[i as int].word@ == w2);
                    }
                }
            }
        }
    }
}

} // verus!

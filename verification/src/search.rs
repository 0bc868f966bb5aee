//! The classified query and the per-subject fuzzy matcher.
//!
//! A raw query is normalized, segmented, and classified into stop words,
//! exact terms (tokens and n-grams interned in the corpus) and inexact terms
//! (candidates for fuzzy lookup), each with its byte offset into the
//! normalized query. A subject string is scored against the classified query
//! by a max-reduction over exact hits, prefix hits and edit-distance
//! similarity.
use unicode_segmentation::UnicodeSegmentation;
use vstd::prelude::*;

use crate::fuzzy::{is_prefix, lev};
use crate::interner::{contains_id, Id, Interner};
use crate::norm::normalize_spec;
use crate::text::{find_first, is_substring, occurs_at, str_eq};
use crate::word_index::WordIndex;
use crate::{LEV_LENGTH_MAX, SCORE_SOFT_MAX, TERM_LEN_CAP};

verus! {

/// A character range in the normalized query, ordered by `(start, end)`.
#[derive(Debug, Copy, Clone, PartialEq, Eq, Structural)]
pub struct Offset {
    pub start: usize,
    pub end: usize,
}

/// A composite match score; ordered by `score`, ties broken by `offset`.
#[derive(Debug, Copy, Clone, PartialEq, Eq, Structural)]
pub struct Score {
    pub score: i64,
    pub offset: Offset,
}

/// A classified term with the range of its first occurrence in the
/// normalized query.
#[derive(Debug)]
pub struct MatchDef<T> {
    pub term: T,
    pub offset: Offset,
}

pub open spec fn offset_lt(a: Offset, b: Offset) -> bool {
    a.start < b.start || (a.start == b.start && a.end < b.end)
}

pub open spec fn score_lt(a: Score, b: Score) -> bool {
    a.score < b.score || (a.score == b.score && offset_lt(a.offset, b.offset))
}

pub open spec fn score_le(a: Score, b: Score) -> bool {
    score_lt(a, b) || a == b
}

impl Score {
    /// Total-order comparison: by score, then by offset.
    pub fn le(&self, other: &Score) -> (r: bool)
        ensures
            r == score_le(*self, *other),
    {
        if self.score != other.score {
            self.score < other.score
        } else if self.offset.start != other.offset.start {
            self.offset.start < other.offset.start
        } else if self.offset.end != other.offset.end {
            self.offset.end < other.offset.end
        } else {
            true
        }
    }
}

/// A term's length contribution to a score, capped far below overflow.
pub open spec fn len_capped(l: nat) -> int {
    if l > TERM_LEN_CAP as nat {
        TERM_LEN_CAP as int
    } else {
        l as int
    }
}

/// Score of an exact hit on `subj`.
pub open spec fn exact_hit_score(subj: Seq<char>) -> int {
    SCORE_SOFT_MAX as int + len_capped(subj.len())
}

/// Similarity score: the normalized Levenshtein similarity
/// `1 - d/max(|a|,|b|)` scaled to `SCORE_SOFT_MAX` and floored.
pub open spec fn sim_score_spec(a: Seq<char>, b: Seq<char>) -> int {
    let m = if a.len() >= b.len() {
        a.len() as int
    } else {
        b.len() as int
    };
    if m == 0 {
        SCORE_SOFT_MAX as int
    } else if lev(a, b) >= m {
        0
    } else {
        SCORE_SOFT_MAX as int * (m - lev(a, b)) / m
    }
}

/// Score an inexact term `t` against subject `subj`: a long-enough prefix of
/// the subject earns a bonus; otherwise terms within one character of the
/// subject's length earn the similarity score; others earn nothing.
pub open spec fn ne_score(t: Seq<char>, subj: Seq<char>) -> int {
    if t.len() > 3 && is_prefix(t, subj) {
        SCORE_SOFT_MAX as int + 2 * len_capped(t.len())
    } else if t.len() + 1 >= subj.len() && t.len() <= subj.len() + 1 {
        sim_score_spec(subj, t)
    } else {
        0
    }
}

/// Fold a candidate into a running maximum (later candidates win ties).
pub open spec fn merge_max(cur: Option<Score>, s: Score) -> Option<Score> {
    match cur {
        None => Some(s),
        Some(b) => if score_le(b, s) {
            Some(s)
        } else {
            Some(b)
        },
    }
}

/// Best score over the exact terms equal to the subject.
pub open spec fn best_exact(
    ms: Seq<MatchDef<Id>>,
    iv: Seq<Seq<char>>,
    subj: Seq<char>,
) -> Option<Score>
    decreases ms.len(),
{
    if ms.len() == 0 {
        None
    } else {
        let rest = best_exact(ms.drop_last(), iv, subj);
        let m = ms.last();
        if 0 <= m.term < iv.len() && iv[m.term as int] == subj {
            merge_max(rest, Score { score: exact_hit_score(subj) as i64, offset: m.offset })
        } else {
            rest
        }
    }
}

/// Best score over the inexact terms.
pub open spec fn best_not_exact(ms: Seq<MatchDef<String>>, subj: Seq<char>) -> Option<Score>
    decreases ms.len(),
{
    if ms.len() == 0 {
        None
    } else {
        let rest = best_not_exact(ms.drop_last(), subj);
        let m = ms.last();
        merge_max(rest, Score { score: ne_score(m.term@, subj) as i64, offset: m.offset })
    }
}

/// The fixed English stop list.
pub open spec fn is_stop_str(s: Seq<char>) -> bool {
    ||| s == "any"@
    ||| s == "all"@
    ||| s == "are"@
    ||| s == "is"@
    ||| s == "at"@
    ||| s == "to"@
    ||| s == "in"@
    ||| s == "on"@
    ||| s == "of"@
    ||| s == "for"@
    ||| s == "by"@
    ||| s == "and"@
    ||| s == "was"@
    ||| s == "did"@
    ||| s == "the"@
}

/// Is `s` one of the fixed English stop words?
pub fn is_stop_word(s: &str) -> (r: bool)
    ensures
        r == is_stop_str(s@),
{
    str_eq(s, "any") || str_eq(s, "all") || str_eq(s, "are") || str_eq(s, "is") || str_eq(s, "at")
        || str_eq(s, "to") || str_eq(s, "in") || str_eq(s, "on") || str_eq(s, "of") || str_eq(
        s,
        "for",
    ) || str_eq(s, "by") || str_eq(s, "and") || str_eq(s, "was") || str_eq(s, "did") || str_eq(
        s,
        "the",
    )
}

/// The classified, searchable part of a query: recognized stop words, terms
/// interned in the corpus, and unknown terms eligible for fuzzy lookup.
#[derive(Debug)]
pub struct SearchableStringSet {
    pub stop_words: Vec<Id>,
    pub exact: Vec<MatchDef<Id>>,
    pub not_exact: Vec<MatchDef<String>>,
}

impl SearchableStringSet {
    /// Well-formed against the interner view `iv` and the normalized query:
    /// every term stands at its first occurrence, exact terms are interned
    /// non-stop strings, inexact terms are unknown to the interner and short
    /// enough for fuzzy lookup.
    pub open spec fn wf(&self, iv: Seq<Seq<char>>, normalized: Seq<char>) -> bool {
        &&& forall|i: int|
            0 <= i < self.stop_words@.len() ==> (#[trigger] self.stop_words@[i]) < iv.len()
                && is_stop_str(iv[self.stop_words@[i] as int])
        &&& forall|i: int|
            0 <= i < self.exact@.len() ==> {
                let m = #[trigger] self.exact@[i];
                &&& m.term < iv.len()
                &&& iv[m.term as int].len() >= 2
                &&& occurs_at(normalized, iv[m.term as int], m.offset.start as int)
                &&& (forall|p: int|
                    0 <= p < m.offset.start ==> !occurs_at(normalized, iv[m.term as int], p))
                &&& m.offset.end == m.offset.start + iv[m.term as int].len()
                &&& !self.stop_words@.contains(m.term)
            }
        &&& forall|i: int|
            0 <= i < self.not_exact@.len() ==> {
                let m = #[trigger] self.not_exact@[i];
                &&& m.term@.len() < LEV_LENGTH_MAX as nat
                &&& !(exists|u: Id| u < iv.len() && #[trigger] iv[u as int] == m.term@)
                &&& occurs_at(normalized, m.term@, m.offset.start as int)
                &&& (forall|p: int| 0 <= p < m.offset.start ==> !occurs_at(normalized, m.term@, p))
                &&& m.offset.end == m.offset.start + m.term@.len()
            }
    }

    pub fn new(stop_words: Vec<Id>) -> (r: SearchableStringSet)
        ensures
            r.stop_words == stop_words,
            r.exact@.len() == 0,
            r.not_exact@.len() == 0,
    {
        SearchableStringSet { stop_words, exact: Vec::new(), not_exact: Vec::new() }
    }

    /// Best score of the classified terms against one subject string: an
    /// exact hit wins (scored by subject length); otherwise the best inexact
    /// term decides; `None` when nothing at all matches.
    pub open spec fn match_spec(&self, iv: Seq<Seq<char>>, subj: Seq<char>) -> Option<Score> {
        match best_exact(self.exact@, iv, subj) {
            Some(s) => Some(s),
            None => best_not_exact(self.not_exact@, subj),
        }
    }

    /// Score one subject string against the classified terms.
    pub fn match_str(&self, interner: &Interner, subject: &str) -> (r: Option<Score>)
        requires
            forall|i: int|
                0 <= i < self.exact@.len() ==> (#[trigger] self.exact@[i]).term
                    < interner.view().len(),
            forall|i: int|
                0 <= i < self.not_exact@.len() ==> (#[trigger] self.not_exact@[i]).term@.len()
                    < LEV_LENGTH_MAX as nat,
        ensures
            r == self.match_spec(interner.view(), subject@),
    {
        let ghost iv = interner.view();
        let mut best: Option<Score> = None;
        let mut i: usize = 0;
        while i < self.exact.len()
            invariant
                i <= self.exact@.len(),
                forall|j: int|
                    0 <= j < self.exact@.len() ==> (#[trigger] self.exact@[j]).term < iv.len(),
                iv == interner.view(),
                best == best_exact(self.exact@.subrange(0, i as int), iv, subject@),
            decreases self.exact@.len() - i,
        {
            let m = &self.exact[i];
            proof {
                assert(self.exact@.subrange(0, i + 1).drop_last() =~= self.exact@.subrange(
                    0,
                    i as int,
                ));
                assert(self.exact@.subrange(0, i + 1).last() == self.exact@[i as int]);
            }
            if str_eq(interner.resolve(m.term).as_str(), subject) {
                let l = subject.unicode_len();
                let lc: usize = if l > TERM_LEN_CAP {
                    TERM_LEN_CAP
                } else {
                    l
                };
                let sc = Score { score: SCORE_SOFT_MAX + lc as i64, offset: m.offset };
                best = match best {
                    None => Some(sc),
                    Some(b) => if b.le(&sc) {
                        Some(sc)
                    } else {
                        Some(b)
                    },
                };
            }
            i += 1;
        }
        proof {
            assert(self.exact@.subrange(0, self.exact@.len() as int) =~= self.exact@);
        }
        if best.is_some() {
            return best;
        }
        let mut i: usize = 0;
        while i < self.not_exact.len()
            invariant
                i <= self.not_exact@.len(),
                forall|j: int|
                    0 <= j < self.not_exact@.len() ==> (#[trigger] self.not_exact@[j]).term@.len()
                        < LEV_LENGTH_MAX as nat,
                best == best_not_exact(self.not_exact@.subrange(0, i as int), subject@),
            decreases self.not_exact@.len() - i,
        {
            let m = &self.not_exact[i];
            proof {
                assert(self.not_exact@.subrange(0, i + 1).drop_last() =~= self.not_exact@.subrange(
                    0,
                    i as int,
                ));
                assert(self.not_exact@.subrange(0, i + 1).last() == self.not_exact@[i as int]);
            }
            let sc = Score { score: ne_score_exec(m.term.as_str(), subject), offset: m.offset };
            best = match best {
                None => Some(sc),
                Some(b) => if b.le(&sc) {
                    Some(sc)
                } else {
                    Some(b)
                },
            };
            i += 1;
        }
        proof {
            assert(self.not_exact@.subrange(0, self.not_exact@.len() as int) =~= self.not_exact@);
        }
        best
    }

    /// Classify one matchable string: an interned, non-trivial,
    /// non-stop-word string becomes an exact term at its first occurrence in
    /// the normalized query; an unknown one short enough for fuzzy lookup
    /// becomes an inexact term when allowed; everything else is dropped.
    pub fn add(&mut self, interner: &Interner, matchable: &str, normalized: &str,
        allow_inexact: bool)
        requires
            interner.wf(),
        ensures
            final(self).stop_words == old(self).stop_words,
            old(self).wf(interner.view(), normalized@) ==> final(self).wf(
                interner.view(),
                normalized@,
            ),
            // an interned, long-enough, non-stop term that occurs in the
            // normalized query extends the exact list and nothing else
            (interner.spec_contains(matchable@) && matchable@.len() >= 2 && !(exists|u: Id|
                u < interner.view().len() && interner.view()[u as int] == matchable@ && old(self).stop_words@.contains(u)) && is_substring(matchable@, normalized@)) ==> {
                &&& final(self).exact@.len() == old(self).exact@.len() + 1
                &&& final(self).exact@.drop_last() == old(self).exact@
                &&& interner.view()[final(self).exact@.last().term as int] == matchable@
                &&& occurs_at(
                    normalized@,
                    matchable@,
                    final(self).exact@.last().offset.start as int,
                )
                &&& forall|p: int|
                    0 <= p < final(self).exact@.last().offset.start ==> !occurs_at(
                        normalized@,
                        matchable@,
                        p,
                    )
                &&& final(self).not_exact@ == old(self).not_exact@
            },
            // an unknown short term that occurs extends the inexact list
            (!interner.spec_contains(matchable@) && allow_inexact && matchable@.len()
                < LEV_LENGTH_MAX as nat && is_substring(matchable@, normalized@)) ==> {
                &&& final(self).not_exact@.len() == old(self).not_exact@.len() + 1
                &&& final(self).not_exact@.drop_last() == old(self).not_exact@
                &&& final(self).not_exact@.last().term@ == matchable@
                &&& occurs_at(
                    normalized@,
                    matchable@,
                    final(self).not_exact@.last().offset.start as int,
                )
                &&& forall|p: int|
                    0 <= p < final(self).not_exact@.last().offset.start ==> !occurs_at(
                        normalized@,
                        matchable@,
                        p,
                    )
                &&& final(self).exact@ == old(self).exact@
            },
            // every other input changes nothing
            (!(interner.spec_contains(matchable@) && matchable@.len() >= 2 && !(exists|u: Id|
                u < interner.view().len() && interner.view()[u as int] == matchable@ && old(self).stop_words@.contains(u)) && is_substring(matchable@, normalized@)) && !(
            !interner.spec_contains(matchable@) && allow_inexact && matchable@.len()
                < LEV_LENGTH_MAX as nat && is_substring(matchable@, normalized@))) ==> final(self).exact@ == old(self).exact@ && final(self).not_exact@ == old(self).not_exact@,
            // in every case nothing is removed
            old(self).exact@.is_prefix_of(final(self).exact@),
            old(self).not_exact@.is_prefix_of(final(self).not_exact@),
    {
        let nl = normalized.unicode_len();
        match interner.lookup(matchable) {
            Some(u) => {
                let l = matchable.unicode_len();
                if l <= 1 {
                    return ;
                }
                if contains_id(&self.stop_words, u) {
                    return ;
                }
                match find_first(normalized, matchable) {
                    Some(start) => {
                        let off = Offset { start, end: start + l };
                        self.exact.push(MatchDef { term: u, offset: off });
                        proof {
                            assert(self.exact@.drop_last() =~= old(self).exact@);
                        }
                    },
                    None => {},
                }
            },
            None => {
                if allow_inexact {
                    let l = matchable.unicode_len();
                    if l < LEV_LENGTH_MAX {
                        match find_first(normalized, matchable) {
                            Some(start) => {
                                let off = Offset { start, end: start + l };
                                self.not_exact.push(
                                    MatchDef { term: String::from_str(matchable), offset: off },
                                );
                                proof {
                                    assert(self.not_exact@.drop_last() =~= old(self).not_exact@);
                                }
                            },
                            None => {},
                        }
                    }
                }
            },
        }
    }
}

/// Some string in `terms` reads `t`.
pub open spec fn has_term(terms: Seq<String>, t: Seq<char>) -> bool {
    exists|j: int| 0 <= j < terms.len() && (#[trigger] terms[j])@ == t
}

impl SearchableStringSet {
    /// Some inexact term reads `t`.
    pub open spec fn has_not_exact_str(&self, t: Seq<char>) -> bool {
        exists|i: int|
            0 <= i < self.not_exact@.len() && (#[trigger] self.not_exact@[i]).term@ == t
    }

    /// Some exact term's interned string reads `t`.
    pub open spec fn has_exact_str(&self, iv: Seq<Seq<char>>, t: Seq<char>) -> bool {
        exists|i: int|
            0 <= i < self.exact@.len() && (#[trigger] self.exact@[i]).term < iv.len()
                && iv[self.exact@[i].term as int] == t
    }

    /// A string the gather stage may hand to fuzzy search: an inexact term,
    /// or an exact term the word index does not know.
    pub open spec fn is_searched_term(
        &self,
        iv: Seq<Seq<char>>,
        index: &WordIndex,
        t: Seq<char>,
    ) -> bool {
        self.has_not_exact_str(t) || (self.has_exact_str(iv, t) && !index.has_word(t))
    }

    /// The grabbed set holds exactly the keys the word index lists under
    /// some exact term of the query.
    pub open spec fn grabbed(&self, iv: Seq<Seq<char>>, index: &WordIndex, pre: Seq<Id>) -> bool {
        forall|k: Id|
            #[trigger] pre.contains(k) <==> exists|i: int|
                0 <= i < self.exact@.len() && (#[trigger] self.exact@[i]).term < iv.len()
                    && index.pair_in(iv[self.exact@[i].term as int], k)
    }

    /// The fuzzy-search list holds only inexact terms and unknown exact
    /// terms.
    pub open spec fn searched_sound(
        &self,
        iv: Seq<Seq<char>>,
        index: &WordIndex,
        terms: Seq<String>,
    ) -> bool {
        forall|j: int|
            0 <= j < terms.len() ==> self.is_searched_term(iv, index, (#[trigger] terms[j])@)
    }

    /// Every inexact term, and every exact term the index lacks, is searched.
    pub open spec fn searched_complete(
        &self,
        iv: Seq<Seq<char>>,
        index: &WordIndex,
        terms: Seq<String>,
    ) -> bool {
        &&& forall|i: int|
            0 <= i < self.not_exact@.len() ==> has_term(
                terms,
                (#[trigger] self.not_exact@[i]).term@,
            )
        &&& forall|i: int|
            0 <= i < self.exact@.len() && (#[trigger] self.exact@[i]).term < iv.len()
                && !index.has_word(iv[self.exact@[i].term as int]) ==> has_term(
                terms,
                iv[self.exact@[i].term as int],
            )
    }

    /// Two-pronged gather: union the word-index sets of the exact terms the
    /// index knows ("grab"), and list the inexact terms together with the
    /// unknown exact terms for fuzzy automaton search.
    pub fn build_search(&self, interner: &Interner, index: &WordIndex) -> (r: (
        Vec<String>,
        Vec<Id>,
    ))
        requires
            index.wf(),
            forall|i: int|
                0 <= i < self.exact@.len() ==> (#[trigger] self.exact@[i]).term
                    < interner.view().len(),
        ensures
            self.grabbed(interner.view(), index, r.1@),
            forall|a: int, b: int| 0 <= a < b < r.1@.len() ==> r.1@[a] != r.1@[b],
            self.searched_sound(interner.view(), index, r.0@),
            self.searched_complete(interner.view(), index, r.0@),
    {
        let ghost iv = interner.view();
        let mut terms: Vec<String> = Vec::new();
        let mut i: usize = 0;
        while i < self.not_exact.len()
            invariant
                i <= self.not_exact@.len(),
                terms@.len() == i,
                forall|j: int| 0 <= j < i ==> (#[trigger] terms@[j])@ == self.not_exact@[j].term@,
            decreases self.not_exact@.len() - i,
        {
            terms.push(self.not_exact[i].term.clone());
            i += 1;
        }
        let ghost ne_len = terms@.len();
        proof {
            assert forall|j: int| 0 <= j < terms@.len() implies self.is_searched_term(
                iv,
                index,
                (#[trigger] terms@[j])@,
            ) by {
                assert(self.not_exact@[j].term@ == terms@[j]@);
                assert(self.has_not_exact_str(terms@[j]@));
            }
        }
        let mut i: usize = 0;
        while i < self.exact.len()
            invariant
                index.wf(),
                iv == interner.view(),
                i <= self.exact@.len(),
                forall|i2: int|
                    0 <= i2 < self.exact@.len() ==> (#[trigger] self.exact@[i2]).term < iv.len(),
                ne_len == self.not_exact@.len(),
                ne_len <= terms@.len(),
                forall|j: int|
                    0 <= j < ne_len ==> (#[trigger] terms@[j])@ == self.not_exact@[j].term@,
                forall|j: int|
                    0 <= j < terms@.len() ==> self.is_searched_term(
                        iv,
                        index,
                        (#[trigger] terms@[j])@,
                    ),
                forall|i2: int|
                    0 <= i2 < i && !index.has_word(iv[(#[trigger] self.exact@[i2]).term as int])
                        ==> has_term(terms@, iv[self.exact@[i2].term as int]),
            decreases self.exact@.len() - i,
        {
            let w = interner.resolve(self.exact[i].term);
            if !index.has(w.as_str()) {
                let ghost prev = terms@;
                terms.push(String::from_str(w.as_str()));
                proof {
                    assert(forall|j: int| 0 <= j < prev.len() ==> terms@[j] == prev[j]);
                    assert(terms@[terms@.len() - 1]@ == iv[self.exact@[i as int].term as int]);
                    assert forall|j: int| 0 <= j < terms@.len() implies self.is_searched_term(
                        iv,
                        index,
                        (#[trigger] terms@[j])@,
                    ) by {
                        if j < prev.len() {
                            assert(prev[j]@ == terms@[j]@);
                            assert(self.is_searched_term(iv, index, prev[j]@));
                        } else {
                            assert(self.has_exact_str(iv, terms@[j]@)) by {
                                assert(iv[(#[trigger] self.exact@[i as int]).term as int]
                                    == terms@[j]@);
                            }
                        }
                    }
                    assert forall|i2: int|
                        0 <= i2 < i + 1 && !index.has_word(
                            iv[(#[trigger] self.exact@[i2]).term as int],
                        ) implies has_term(terms@, iv[self.exact@[i2].term as int]) by {
                        if i2 < i {
                            let j = choose|j: int|
                                0 <= j < prev.len() && (#[trigger] prev[j])@ == iv[self.exact@[
                                    i2
                                ].term as int];
                            assert(terms@[j]@ == iv[self.exact@[i2].term as int]);
                        } else {
                            assert(terms@[terms@.len() - 1]@ == iv[self.exact@[i2].term as int]);
                        }
                    }
                }
            }
            i += 1;
        }
        proof {
            assert forall|i2: int| 0 <= i2 < self.not_exact@.len() implies has_term(
                terms@,
                (#[trigger] self.not_exact@[i2]).term@,
            ) by {
                assert(terms@[i2]@ == self.not_exact@[i2].term@);
            }
        }
        let mut pre: Vec<Id> = Vec::new();
        let mut i: usize = 0;
        while i < self.exact.len()
            invariant
                index.wf(),
                iv == interner.view(),
                i <= self.exact@.len(),
                forall|i2: int|
                    0 <= i2 < self.exact@.len() ==> (#[trigger] self.exact@[i2]).term < iv.len(),
                forall|k: Id|
                    #[trigger] pre@.contains(k) <==> exists|i2: int|
                        0 <= i2 < i && index.pair_in(
                            iv[(#[trigger] self.exact@[i2]).term as int],
                            k,
                        ),
                forall|a: int, b: int| 0 <= a < b < pre@.len() ==> pre@[a] != pre@[b],
            decreases self.exact@.len() - i,
        {
            let w = interner.resolve(self.exact[i].term);
            match index.get(w.as_str()) {
                Some(e) => {
                    extend_unique(&mut pre, &e.locs);
                    proof {
                        assert forall|k: Id| #[trigger] pre@.contains(k) implies exists|i2: int|
                            0 <= i2 < i + 1 && index.pair_in(
                                iv[(#[trigger] self.exact@[i2]).term as int],
                                k,
                            ) by {
                            if e.locs@.contains(k) {
                                assert(index.pair_in(iv[self.exact@[i as int].term as int], k));
                            }
                        }
                        assert forall|k: Id|
                            (exists|i2: int|
                                0 <= i2 < i + 1 && index.pair_in(
                                    iv[(#[trigger] self.exact@[i2]).term as int],
                                    k,
                                )) implies #[trigger] pre@.contains(k) by {
                            let i2 = choose|i2: int|
                                0 <= i2 < i + 1 && index.pair_in(
                                    iv[(#[trigger] self.exact@[i2]).term as int],
                                    k,
                                );
                            if i2 == i {
                                assert(e.locs@.contains(k));
                            }
                        }
                    }
                },
                None => {
                    proof {
                        assert forall|k: Id| #[trigger] pre@.contains(k) implies exists|i2: int|
                            0 <= i2 < i + 1 && index.pair_in(
                                iv[(#[trigger] self.exact@[i2]).term as int],
                                k,
                            ) by {}
                        assert forall|k: Id|
                            (exists|i2: int|
                                0 <= i2 < i + 1 && index.pair_in(
                                    iv[(#[trigger] self.exact@[i2]).term as int],
                                    k,
                                )) implies #[trigger] pre@.contains(k) by {
                            let i2 = choose|i2: int|
                                0 <= i2 < i + 1 && index.pair_in(
                                    iv[(#[trigger] self.exact@[i2]).term as int],
                                    k,
                                );
                            if i2 == i {
                                let w2 = iv[self.exact@[i as int].term as int];
                                assert(index.has_word(w2));
                                assert(false);
                            }
                        }
                    }
                },
            }
            i += 1;
        }
        (terms, pre)
    }
}

/// Extend `pre` with every identity of `more` not already present.
pub(crate) fn extend_unique(pre: &mut Vec<Id>, more: &Vec<Id>)
    requires
        forall|a: int, b: int| 0 <= a < b < old(pre)@.len() ==> old(pre)@[a] != old(pre)@[b],
    ensures
        forall|a: int, b: int| 0 <= a < b < final(pre)@.len() ==> final(pre)@[a] != final(pre)@[b],
        forall|k: Id|
            #[trigger] final(pre)@.contains(k) <==> old(pre)@.contains(k) || more@.contains(k),
{
    let mut j: usize = 0;
    while j < more.len()
        invariant
            j <= more@.len(),
            forall|a: int, b: int| 0 <= a < b < pre@.len() ==> pre@[a] != pre@[b],
            forall|k: Id|
                #[trigger] pre@.contains(k) <==> old(pre)@.contains(k) || more@.subrange(
                    0,
                    j as int,
                ).contains(k),
        decreases more@.len() - j,
    {
        let k = more[j];
        let ghost prev = pre@;
        if !crate::interner::contains_id(pre, k) {
            pre.push(k);
        }
        proof {
            assert(more@.subrange(0, j + 1).drop_last() =~= more@.subrange(0, j as int));
            assert(more@.subrange(0, j + 1).last() == more@[j as int]);
            if prev.contains(k) {
                assert(pre@ == prev);
            } else {
                assert(pre@ == prev.push(k));
                assert(forall|a: int| 0 <= a < prev.len() ==> pre@[a] == prev[a]);
                assert(pre@[pre@.len() - 1] == k);
                assert forall|k2: Id| #[trigger] pre@.contains(k2) implies prev.contains(k2) || k2
                    == k by {
                    let a = choose|a: int| 0 <= a < pre@.len() && pre@[a] == k2;
                    if a < pre@.len() - 1 {
                        assert(prev[a] == k2);
                    }
                }
                assert forall|k2: Id| prev.contains(k2) implies #[trigger] pre@.contains(k2) by {
                    let a = choose|a: int| 0 <= a < prev.len() && prev[a] == k2;
                    assert(pre@[a] == k2);
                }
            }
            assert forall|k2: Id| more@.subrange(0, j + 1).contains(k2) implies #[trigger] pre@.contains(
                k2,
            ) by {
                let a = choose|a: int|
                    0 <= a < j + 1 && #[trigger] more@.subrange(0, j + 1)[a] == k2;
                if a < j {
                    assert(more@.subrange(0, j as int).contains(k2)) by {
                        assert(more@.subrange(0, j as int)[a] == k2);
                    }
                }
            }
            assert forall|k2: Id| old(pre)@.contains(k2) || more@.subrange(0, j + 1).contains(k2)
                implies #[trigger] pre@.contains(k2) by {}
        }
        j += 1;
    }
    proof {
        assert(more@.subrange(0, more@.len() as int) =~= more@);
    }
}

/// Upper bound of any match score.
pub open spec fn score_ub() -> int {
    SCORE_SOFT_MAX as int + 2 * TERM_LEN_CAP as int
}

/// Similarity scores lie in `[0, SCORE_SOFT_MAX]`.
pub proof fn lemma_sim_score_bounds(a: Seq<char>, b: Seq<char>)
    ensures
        0 <= sim_score_spec(a, b) <= SCORE_SOFT_MAX as int,
{
    let m = if a.len() >= b.len() {
        a.len() as int
    } else {
        b.len() as int
    };
    if m > 0 && lev(a, b) < m {
        let soft = SCORE_SOFT_MAX as int;
        let d = lev(a, b) as int;
        let x = soft * (m - d);
        vstd::arithmetic::mul::lemma_mul_nonnegative(soft, m - d);
        vstd::arithmetic::div_mod::lemma_div_pos_is_pos(x, m);
        vstd::arithmetic::mul::lemma_mul_inequality(m - d, m, soft);
        assert((m - d) * soft == soft * (m - d)) by (nonlinear_arith);
        assert(m * soft == soft * m) by (nonlinear_arith);
        vstd::arithmetic::div_mod::lemma_div_is_ordered(x, m * soft, m);
        vstd::arithmetic::div_mod::lemma_div_multiples_vanish(soft, m);
    }
}

/// Inexact-term scores lie in `[0, score_ub()]`.
pub proof fn lemma_ne_score_bounds(t: Seq<char>, subj: Seq<char>)
    ensures
        0 <= ne_score(t, subj) <= score_ub(),
{
    lemma_sim_score_bounds(subj, t);
}

/// Any score a match yields lies in `[0, score_ub()]`.
pub proof fn lemma_match_spec_bounds(
    s: SearchableStringSet,
    iv: Seq<Seq<char>>,
    subj: Seq<char>,
)
    ensures
        match s.match_spec(iv, subj) {
            Some(r) => 0 <= r.score <= score_ub(),
            None => true,
        },
{
    lemma_best_exact_bounds(s.exact@, iv, subj);
    lemma_best_not_exact_bounds(s.not_exact@, subj);
}

proof fn lemma_best_exact_bounds(ms: Seq<MatchDef<Id>>, iv: Seq<Seq<char>>, subj: Seq<char>)
    ensures
        match best_exact(ms, iv, subj) {
            Some(r) => 0 <= r.score <= score_ub(),
            None => true,
        },
    decreases ms.len(),
{
    if ms.len() > 0 {
        lemma_best_exact_bounds(ms.drop_last(), iv, subj);
    }
}

proof fn lemma_best_not_exact_bounds(ms: Seq<MatchDef<String>>, subj: Seq<char>)
    ensures
        match best_not_exact(ms, subj) {
            Some(r) => 0 <= r.score <= score_ub(),
            None => true,
        },
    decreases ms.len(),
{
    if ms.len() > 0 {
        lemma_best_not_exact_bounds(ms.drop_last(), subj);
        lemma_ne_score_bounds(ms.last().term@, subj);
    }
}

/// A code match always carries exactly the given score.
pub proof fn lemma_codes_match_score(codes: Seq<MatchDef<Id>>, subs: Seq<Id>, sc: i64)
    ensures
        match SearchTerm::codes_match_spec(codes, subs, sc) {
            Some(r) => r.score == sc,
            None => true,
        },
    decreases subs.len(),
{
    if subs.len() > 0 {
        lemma_codes_match_score(codes, subs.drop_last(), sc);
        lemma_code_fold_score(
            SearchTerm::codes_match_spec(codes, subs.drop_last(), sc),
            codes,
            subs.last(),
            sc,
            codes.len() as int,
        );
    }
}

proof fn lemma_code_fold_score(cur: Option<Score>, codes: Seq<MatchDef<Id>>, c: Id, sc: i64, n: int)
    requires
        match cur {
            Some(r) => r.score == sc,
            None => true,
        },
    ensures
        match SearchTerm::code_fold(cur, codes, c, sc, n) {
            Some(r) => r.score == sc,
            None => true,
        },
    decreases n,
{
    if n > 0 {
        lemma_code_fold_score(cur, codes, c, sc, n - 1);
    }
}

/// Both term lists of `b` extend those of `a`.
pub open spec fn lists_extend(a: SearchableStringSet, b: SearchableStringSet) -> bool {
    a.exact@.is_prefix_of(b.exact@) && a.not_exact@.is_prefix_of(b.not_exact@)
}

/// `lists_extend` composes along a chain of `add` calls.
proof fn lemma_lists_extend(a: SearchableStringSet, b: SearchableStringSet)
    requires
        a.exact@.len() <= b.exact@.len(),
        forall|j: int| 0 <= j < a.exact@.len() ==> #[trigger] b.exact@[j] == a.exact@[j],
        a.not_exact@.len() <= b.not_exact@.len(),
        forall|j: int| 0 <= j < a.not_exact@.len() ==> #[trigger] b.not_exact@[j] == a.not_exact@[j],
    ensures
        lists_extend(a, b),
{
    assert(b.exact@.subrange(0, a.exact@.len() as int) =~= a.exact@);
    assert(b.not_exact@.subrange(0, a.not_exact@.len() as int) =~= a.not_exact@);
}

/// One `add` call keeps every classified term an n-gram, provided the term
/// it may have added is one.
proof fn lemma_ngrams_extend(
    a: SearchableStringSet,
    b: SearchableStringSet,
    iv: Seq<Seq<char>>,
    words: Seq<Seq<char>>,
    added: Seq<char>,
)
    requires
        lists_extend(a, b),
        b.exact@.len() <= a.exact@.len() + 1,
        b.not_exact@.len() <= a.not_exact@.len() + 1,
        b.exact@.len() > a.exact@.len() ==> b.exact@.last().term < iv.len()
            && iv[b.exact@.last().term as int] == added,
        b.not_exact@.len() > a.not_exact@.len() ==> b.not_exact@.last().term@ == added,
        is_ngram(words, added, true),
        is_ngram(words, added, false) || !(b.not_exact@.len() > a.not_exact@.len()),
        forall|j: int|
            0 <= j < a.exact@.len() ==> is_ngram(
                words,
                iv[(#[trigger] a.exact@[j]).term as int],
                true,
            ),
        forall|j: int|
            0 <= j < a.not_exact@.len() ==> is_ngram(
                words,
                (#[trigger] a.not_exact@[j]).term@,
                false,
            ),
    ensures
        forall|j: int|
            0 <= j < b.exact@.len() ==> is_ngram(
                words,
                iv[(#[trigger] b.exact@[j]).term as int],
                true,
            ),
        forall|j: int|
            0 <= j < b.not_exact@.len() ==> is_ngram(
                words,
                (#[trigger] b.not_exact@[j]).term@,
                false,
            ),
{
    assert forall|j: int| 0 <= j < b.exact@.len() implies is_ngram(
        words,
        iv[(#[trigger] b.exact@[j]).term as int],
        true,
    ) by {
        if j < a.exact@.len() {
            assert(b.exact@[j] == a.exact@[j]);
        }
    }
    assert forall|j: int| 0 <= j < b.not_exact@.len() implies is_ngram(
        words,
        (#[trigger] b.not_exact@[j]).term@,
        false,
    ) by {
        if j < a.not_exact@.len() {
            assert(b.not_exact@[j] == a.not_exact@[j]);
        }
    }
}

/// Growing the term lists never un-covers a word.
proof fn lemma_covered_monotone(
    a: SearchableStringSet,
    b: SearchableStringSet,
    iv: Seq<Seq<char>>,
    w: Seq<char>,
)
    requires
        lists_extend(a, b),
    ensures
        a.has_exact_str(iv, w) ==> b.has_exact_str(iv, w),
        a.has_not_exact_str(w) ==> b.has_not_exact_str(w),
{
    if a.has_exact_str(iv, w) {
        let j = choose|j: int|
            0 <= j < a.exact@.len() && (#[trigger] a.exact@[j]).term < iv.len() && iv[a.exact@[
                j
            ].term as int] == w;
        assert(b.exact@[j] == a.exact@[j]);
    }
    if a.has_not_exact_str(w) {
        let j = choose|j: int|
            0 <= j < a.not_exact@.len() && (#[trigger] a.not_exact@[j]).term@ == w;
        assert(b.not_exact@[j] == a.not_exact@[j]);
    }
}

/// Within a single subject, the max-reduction over inexact terms is monotone:
/// adding an inexact term to the query never lowers the subject's score, and
/// never loses a match.
pub proof fn lemma_match_monotone_not_exact(
    s1: SearchableStringSet,
    s2: SearchableStringSet,
    m: MatchDef<String>,
    iv: Seq<Seq<char>>,
    subj: Seq<char>,
)
    requires
        s2.exact == s1.exact,
        s2.not_exact@ == s1.not_exact@.push(m),
    ensures
        match (s1.match_spec(iv, subj), s2.match_spec(iv, subj)) {
            (Some(r1), Some(r2)) => r1.score <= r2.score,
            (Some(_), None) => false,
            _ => true,
        },
{
    assert(s2.not_exact@.drop_last() =~= s1.not_exact@);
    assert(s2.not_exact@.last() == m);
}

/// Within a single subject, the max-reduction over exact terms is monotone:
/// when some exact term already hits the subject, adding another exact term
/// never lowers the subject's score.
pub proof fn lemma_match_monotone_exact(
    s1: SearchableStringSet,
    s2: SearchableStringSet,
    m: MatchDef<Id>,
    iv: Seq<Seq<char>>,
    subj: Seq<char>,
)
    requires
        s2.not_exact == s1.not_exact,
        s2.exact@ == s1.exact@.push(m),
        best_exact(s1.exact@, iv, subj) is Some,
    ensures
        match (s1.match_spec(iv, subj), s2.match_spec(iv, subj)) {
            (Some(r1), Some(r2)) => r1.score <= r2.score,
            (Some(_), None) => false,
            _ => true,
        },
{
    assert(s2.exact@.drop_last() =~= s1.exact@);
    assert(s2.exact@.last() == m);
}

/// `t` is one of the query's n-grams over the segmented words: a word, an
/// adjacent pair, or (when triples are admitted) an adjacent triple, joined
/// by single spaces.
pub open spec fn is_ngram(words: Seq<Seq<char>>, t: Seq<char>, triples: bool) -> bool {
    exists|i: int|
        0 <= i < words.len() && {
            ||| t == #[trigger] words[i]
            ||| (i + 1 < words.len() && t == words[i] + seq![' '] + words[i + 1])
            ||| (triples && i + 2 < words.len() && t == words[i] + seq![' '] + words[i + 1]
                + seq![' '] + words[i + 2])
        }
}

/// The stop-word identities among the first `n` words, in query order: the
/// words that are interned and belong to the fixed stop list.
pub open spec fn stop_ids_upto(interner: &Interner, words: Seq<Seq<char>>, n: int) -> Seq<Id>
    decreases n,
{
    if n <= 0 {
        Seq::empty()
    } else {
        let rest = stop_ids_upto(interner, words, n - 1);
        if interner.spec_contains(words[n - 1]) && is_stop_str(words[n - 1]) {
            rest.push(interner.spec_id_of(words[n - 1]))
        } else {
            rest
        }
    }
}

/// What unicode-segmentation's `unicode_words` yields on a string.
pub uninterp spec fn unicode_words_of(s: Seq<char>) -> Seq<Seq<char>>;

/// Relies on unicode-segmentation's `unicode_words`: splits at Unicode word
/// boundaries; every word is a contiguous substring of the input.
#[verifier::external_body]
fn unicode_words_vec(s: &str) -> (r: Vec<String>)
    ensures
        r@.map_values(|w: String| w@) == unicode_words_of(s@),
        forall|i: int| 0 <= i < r@.len() ==> is_substring((#[trigger] r@[i])@, s@),
{
    s.unicode_words().map(|w| w.to_string()).collect()
}

/// A classified query: the normalized text, recognized machine codes, the
/// searchable term sets, an optional state filter, the result cap and the
/// fuzzy budget.
#[derive(Debug)]
pub struct SearchTerm {
    pub raw: String,
    pub normalized: String,
    pub codes: Vec<MatchDef<Id>>,
    pub matches: SearchableStringSet,
    pub state_filter: Option<Id>,
    pub limit: usize,
    pub lev_dist: u32,
}

impl SearchTerm {
    /// Well-formed against the interner: all identities in range, all
    /// offsets real occurrences in the normalized query, inexact terms short
    /// enough for fuzzy lookup.
    pub open spec fn wf(&self, iv: Seq<Seq<char>>) -> bool {
        &&& self.matches.wf(iv, self.normalized@)
        &&& forall|i: int|
            0 <= i < self.codes@.len() ==> {
                let m = #[trigger] self.codes@[i];
                &&& m.term < iv.len()
                &&& occurs_at(self.normalized@, iv[m.term as int], m.offset.start as int)
                &&& m.offset.end == m.offset.start + iv[m.term as int].len()
            }
        &&& match self.state_filter {
            Some(u) => u < iv.len(),
            None => true,
        }
    }

    /// Record a discovered code match at its first occurrence in the
    /// normalized query. A code that does not occur there is ignored.
    pub fn add_code(&mut self, interner: &Interner, u: Id)
        requires
            u < interner.view().len(),
            old(self).wf(interner.view()),
        ensures
            final(self).wf(interner.view()),
            is_substring(interner.view()[u as int], old(self).normalized@) ==> {
                &&& final(self).codes@.len() == old(self).codes@.len() + 1
                &&& final(self).codes@.drop_last() == old(self).codes@
                &&& final(self).codes@.last().term == u
                &&& occurs_at(
                    old(self).normalized@,
                    interner.view()[u as int],
                    final(self).codes@.last().offset.start as int,
                )
                &&& forall|p: int|
                    0 <= p < final(self).codes@.last().offset.start ==> !occurs_at(
                        old(self).normalized@,
                        interner.view()[u as int],
                        p,
                    )
            },
            !is_substring(interner.view()[u as int], old(self).normalized@) ==> final(self).codes
                == old(self).codes,
            final(self).normalized == old(self).normalized,
            final(self).matches == old(self).matches,
            final(self).limit == old(self).limit,
            final(self).raw == old(self).raw,
            final(self).state_filter == old(self).state_filter,
            final(self).lev_dist == old(self).lev_dist,
    {
        let s = interner.resolve(u);
        let nl = self.normalized.as_str().unicode_len();
        let l = s.as_str().unicode_len();
        match find_first(self.normalized.as_str(), s.as_str()) {
            Some(start) => {
                self.codes.push(MatchDef { term: u, offset: Offset { start, end: start + l } });
                proof {
                    assert(self.codes@.drop_last() =~= old(self).codes@);
                }
            },
            None => {},
        }
    }

    /// One query word is classified per policy: an interned, non-stop word
    /// of length at least two stands among the exact terms; an unknown word
    /// short enough for fuzzy lookup stands among the inexact terms.
    pub open spec fn word_covered(&self, interner: &Interner, w: Seq<char>) -> bool {
        &&& (interner.spec_contains(w) && w.len() >= 2 && !is_stop_str(w))
            ==> self.matches.has_exact_str(interner.view(), w)
        &&& (!interner.spec_contains(w) && w.len() < LEV_LENGTH_MAX as nat)
            ==> self.matches.has_not_exact_str(w)
    }

    /// Parse a raw query: normalize it, segment it at Unicode word
    /// boundaries, recognize stop words and short machine codes, and classify
    /// every word, adjacent pair and adjacent triple (pairs fuzzily, triples
    /// exactly) into exact or inexact terms.
    pub fn from_raw_query(
        interner: &Interner,
        raw: String,
        state_filter: Option<String>,
        limit: usize,
        lev_dist: u32,
    ) -> (st: SearchTerm)
        requires
            interner.wf(),
        ensures
            st.wf(interner.view()),
            st.raw == raw,
            st.normalized@ == normalize_spec(raw@),
            st.limit == limit,
            st.lev_dist == lev_dist,
            match state_filter {
                None => st.state_filter is None,
                Some(s) => match st.state_filter {
                    Some(u) => u < interner.view().len() && interner.view()[u as int] == s@,
                    None => !interner.spec_contains(s@),
                },
            },
            forall|i: int|
                0 <= i < unicode_words_of(normalize_spec(raw@)).len() ==> st.word_covered(
                    interner,
                    #[trigger] unicode_words_of(normalize_spec(raw@))[i],
                ),
            // the recognized stop words, exactly and in query order
            st.matches.stop_words@ == stop_ids_upto(
                interner,
                unicode_words_of(normalize_spec(raw@)),
                unicode_words_of(normalize_spec(raw@)).len() as int,
            ),
            // every classified term is a word, pair or triple of the
            // segmentation (inexact terms: never a triple)
            forall|j: int|
                0 <= j < st.matches.exact@.len() ==> is_ngram(
                    unicode_words_of(normalize_spec(raw@)),
                    interner.view()[(#[trigger] st.matches.exact@[j]).term as int],
                    true,
                ),
            forall|j: int|
                0 <= j < st.matches.not_exact@.len() ==> is_ngram(
                    unicode_words_of(normalize_spec(raw@)),
                    (#[trigger] st.matches.not_exact@[j]).term@,
                    false,
                ),
    {
        let normalized = crate::norm::normalize(raw.as_str());
        let words = unicode_words_vec(normalized.as_str());
        let ghost iv = interner.view();
        let ghost wviews = words@.map_values(|x: String| x@);
        let mut stop_words: Vec<Id> = Vec::new();
        let mut i: usize = 0;
        while i < words.len()
            invariant
                interner.wf(),
                iv == interner.view(),
                i <= words@.len(),
                wviews == words@.map_values(|x: String| x@),
                forall|j: int|
                    0 <= j < stop_words@.len() ==> (#[trigger] stop_words@[j]) < iv.len()
                        && is_stop_str(iv[stop_words@[j] as int]),
                stop_words@ == stop_ids_upto(interner, wviews, i as int),
            decreases words@.len() - i,
        {
            let w = words[i].as_str();
            let ghost pre_stop = stop_words@;
            match interner.lookup(w) {
                Some(u) => {
                    if is_stop_word(w) {
                        stop_words.push(u);
                        proof {
                            assert(interner.spec_contains(w@));
                            let u2 = interner.spec_id_of(w@);
                            assert(u2 < iv.len() && iv[u2 as int] == w@);
                            interner.lemma_id_eq(u, u2);
                            assert(wviews[i as int] == w@);
                        }
                    } else {
                        proof {
                            assert(wviews[i as int] == w@);
                        }
                    }
                },
                None => {
                    proof {
                        assert(wviews[i as int] == w@);
                        if interner.spec_contains(w@) {
                            let u2 = choose|u2: Id|
                                u2 < iv.len() && #[trigger] iv[u2 as int] == w@;
                            assert(false);
                        }
                    }
                },
            }
            i += 1;
        }
        proof {
            assert(stop_words@ == stop_ids_upto(interner, wviews, wviews.len() as int));
        }
        let sf = match state_filter {
            Some(s) => interner.lookup(s.as_str()),
            None => None,
        };
        let mut st = SearchTerm {
            raw,
            normalized,
            codes: Vec::new(),
            matches: SearchableStringSet::new(stop_words),
            state_filter: sf,
            limit,
            lev_dist,
        };
        let mut i: usize = 0;
        while i < words.len()
            invariant
                interner.wf(),
                iv == interner.view(),
                st.wf(iv),
                words@.map_values(|w: String| w@) == unicode_words_of(st.normalized@),
                forall|j: int|
                    0 <= j < words@.len() ==> is_substring((#[trigger] words@[j])@, st.normalized@),
                st.raw == raw,
                st.normalized@ == normalize_spec(raw@),
                st.limit == limit,
                st.lev_dist == lev_dist,
                st.state_filter == sf,
                st.matches.stop_words@ == stop_ids_upto(interner, wviews, wviews.len() as int),
                wviews == words@.map_values(|x: String| x@),
                forall|j: int|
                    0 <= j < i ==> st.word_covered(interner, (#[trigger] words@[j])@),
                forall|j: int|
                    0 <= j < st.matches.exact@.len() ==> is_ngram(
                        wviews,
                        iv[(#[trigger] st.matches.exact@[j]).term as int],
                        true,
                    ),
                forall|j: int|
                    0 <= j < st.matches.not_exact@.len() ==> is_ngram(
                        wviews,
                        (#[trigger] st.matches.not_exact@[j]).term@,
                        false,
                    ),
            decreases words@.len() - i,
        {
            let ghost m0 = st.matches;
            proof {
                reveal_strlit(" ");
                assert(" "@ =~= seq![' ']);
            }
            if i + 1 < words.len() {
                let mut doublet = String::from_str(words[i].as_str());
                doublet.append(" ");
                doublet.append(words[i + 1].as_str());
                proof {
                    assert(doublet@ == wviews[i as int] + seq![' '] + wviews[i + 1]);
                    assert(is_ngram(wviews, doublet@, true) && is_ngram(wviews, doublet@, false))
                        by {
                        assert(0 <= i < wviews.len());
                    }
                }
                let ghost ma = st.matches;
                st.matches.add(interner, doublet.as_str(), st.normalized.as_str(), true);
                proof {
                    lemma_lists_extend(ma, st.matches);
                    lemma_ngrams_extend(ma, st.matches, iv, wviews, doublet@);
                }
                if i + 2 < words.len() {
                    let mut triplet = String::from_str(doublet.as_str());
                    triplet.append(" ");
                    triplet.append(words[i + 2].as_str());
                    proof {
                        assert(triplet@ == wviews[i as int] + seq![' '] + wviews[i + 1]
                            + seq![' '] + wviews[i + 2]);
                        assert(is_ngram(wviews, triplet@, true)) by {
                            assert(0 <= i < wviews.len());
                        }
                    }
                    let ghost mb = st.matches;
                    st.matches.add(interner, triplet.as_str(), st.normalized.as_str(), false);
                    proof {
                        lemma_lists_extend(mb, st.matches);
                        lemma_ngrams_extend(mb, st.matches, iv, wviews, triplet@);
                    }
                }
            }
            let ghost m1 = st.matches;
            proof {
                lemma_lists_extend(m0, m1);
            }
            let w = words[i].as_str();
            proof {
                assert(w@ == wviews[i as int]);
                assert(is_ngram(wviews, w@, true) && is_ngram(wviews, w@, false)) by {
                    assert(0 <= i < wviews.len());
                }
            }
            st.matches.add(interner, w, st.normalized.as_str(), true);
            let ghost m2 = st.matches;
            proof {
                lemma_lists_extend(m1, m2);
                lemma_ngrams_extend(m1, m2, iv, wviews, w@);
                // the current word is now covered
                if interner.spec_contains(w@) && w@.len() >= 2 && !is_stop_str(w@) {
                    assert(!(exists|u: Id|
                        u < iv.len() && iv[u as int] == w@ && m1.stop_words@.contains(u))) by {
                        if exists|u: Id|
                            u < iv.len() && iv[u as int] == w@ && m1.stop_words@.contains(u) {
                            let u = choose|u: Id|
                                u < iv.len() && iv[u as int] == w@ && m1.stop_words@.contains(u);
                            assert(is_stop_str(iv[u as int]));
                        }
                    }
                    assert(is_substring(w@, st.normalized@));
                    assert(m2.exact@.last().term < iv.len() && iv[m2.exact@.last().term as int]
                        == w@) by {
                        assert(st.wf(iv));
                    }
                    assert(m2.has_exact_str(iv, w@)) by {
                        assert(0 <= m2.exact@.len() - 1 < m2.exact@.len());
                    }
                }
                if !interner.spec_contains(w@) && w@.len() < LEV_LENGTH_MAX as nat {
                    assert(m2.not_exact@.last().term@ == w@);
                    assert(m2.has_not_exact_str(w@)) by {
                        assert(0 <= m2.not_exact@.len() - 1 < m2.not_exact@.len());
                    }
                }
            }
            match interner.lookup(w) {
                Some(u) => {
                    let l = w.unicode_len();
                    if l >= 2 && l <= 3 && !is_stop_word(w) {
                        st.add_code(interner, u);
                    }
                },
                None => {},
            }
            proof {
                // earlier words stay covered: the term lists only grew
                assert(st.matches.exact == m2.exact && st.matches.not_exact == m2.not_exact);
                lemma_lists_extend(m0, st.matches);
                assert forall|j: int| 0 <= j < i + 1 implies st.word_covered(
                    interner,
                    (#[trigger] words@[j])@,
                ) by {
                    if j < i {
                        lemma_covered_monotone(m0, st.matches, iv, words@[j]@);
                    }
                }
            }
            i += 1;
        }
        proof {
            assert(unicode_words_of(normalize_spec(raw@)) == words@.map_values(
                |w: String| w@,
            ));
            assert forall|i2: int|
                0 <= i2 < unicode_words_of(normalize_spec(raw@)).len() implies st.word_covered(
                interner,
                #[trigger] unicode_words_of(normalize_spec(raw@))[i2],
            ) by {
                assert(unicode_words_of(normalize_spec(raw@))[i2] == words@[i2]@);
                assert(st.word_covered(interner, words@[i2]@));
            }
        }
        st
    }

    /// Best authoritative code match: the highest-offset occurrence of any of
    /// the subject's codes among the query's discovered codes, at the given
    /// score.
    pub open spec fn codes_match_spec(
        codes: Seq<MatchDef<Id>>,
        subject_codes: Seq<Id>,
        score: i64,
    ) -> Option<Score>
        decreases subject_codes.len(),
    {
        if subject_codes.len() == 0 {
            None
        } else {
            let rest = Self::codes_match_spec(codes, subject_codes.drop_last(), score);
            Self::code_fold(rest, codes, subject_codes.last(), score, codes.len() as int)
        }
    }

    /// Fold the matches of one subject code over the first `n` query codes.
    pub open spec fn code_fold(
        cur: Option<Score>,
        codes: Seq<MatchDef<Id>>,
        c: Id,
        score: i64,
        n: int,
    ) -> Option<Score>
        decreases n,
    {
        if n <= 0 {
            cur
        } else {
            let prev = Self::code_fold(cur, codes, c, score, n - 1);
            if codes[n - 1].term == c {
                merge_max(prev, Score { score, offset: codes[n - 1].offset })
            } else {
                prev
            }
        }
    }

    /// Match the subject's machine codes against the query's codes; a hit is
    /// authoritative and scored with `score` outright.
    pub fn codes_match(&self, subject_codes: &Vec<Id>, score: i64) -> (r: Option<Score>)
        ensures
            r == Self::codes_match_spec(self.codes@, subject_codes@, score),
    {
        let mut best: Option<Score> = None;
        let mut i: usize = 0;
        while i < subject_codes.len()
            invariant
                i <= subject_codes@.len(),
                best == Self::codes_match_spec(
                    self.codes@,
                    subject_codes@.subrange(0, i as int),
                    score,
                ),
            decreases subject_codes@.len() - i,
        {
            let c = subject_codes[i];
            proof {
                assert(subject_codes@.subrange(0, i + 1).drop_last() =~= subject_codes@.subrange(
                    0,
                    i as int,
                ));
                assert(subject_codes@.subrange(0, i + 1).last() == subject_codes@[i as int]);
            }
            let mut j: usize = 0;
            while j < self.codes.len()
                invariant
                    j <= self.codes@.len(),
                    best == Self::code_fold(
                        Self::codes_match_spec(
                            self.codes@,
                            subject_codes@.subrange(0, i as int),
                            score,
                        ),
                        self.codes@,
                        c,
                        score,
                        j as int,
                    ),
                decreases self.codes@.len() - j,
            {
                if self.codes[j].term == c {
                    let sc = Score { score, offset: self.codes[j].offset };
                    best = match best {
                        None => Some(sc),
                        Some(b) => if b.le(&sc) {
                            Some(sc)
                        } else {
                            Some(b)
                        },
                    };
                }
                j += 1;
            }
            i += 1;
        }
        proof {
            assert(subject_codes@.subrange(0, subject_codes@.len() as int) =~= subject_codes@);
        }
        best
    }

    /// Score one subject string against the query's classified terms.
    pub fn match_str(&self, interner: &Interner, subject: &str) -> (r: Option<Score>)
        requires
            self.wf(interner.view()),
        ensures
            r == self.matches.match_spec(interner.view(), subject@),
    {
        self.matches.match_str(interner, subject)
    }

    /// Is `s` a recognized stop word of this query?
    pub fn str_in_stop_words(&self, interner: &Interner, s: &str) -> (r: bool)
        requires
            self.wf(interner.view()),
        ensures
            r == exists|i: int|
                0 <= i < self.matches.stop_words@.len() && interner.view()[(
                #[trigger] self.matches.stop_words@[i]) as int] == s@,
    {
        let mut i: usize = 0;
        while i < self.matches.stop_words.len()
            invariant
                self.wf(interner.view()),
                i <= self.matches.stop_words@.len(),
                forall|j: int|
                    0 <= j < i ==> interner.view()[(#[trigger] self.matches.stop_words@[j]) as int]
                        != s@,
            decreases self.matches.stop_words@.len() - i,
        {
            if str_eq(interner.resolve(self.matches.stop_words[i]).as_str(), s) {
                return true;
            }
            i += 1;
        }
        false
    }

    /// Split the query between direct word-index grabs and fuzzy searches.
    pub fn build_search(&self, interner: &Interner, index: &WordIndex) -> (r: (
        Vec<String>,
        Vec<Id>,
    ))
        requires
            self.wf(interner.view()),
            index.wf(),
        ensures
            self.matches.grabbed(interner.view(), index, r.1@),
            forall|a: int, b: int| 0 <= a < b < r.1@.len() ==> r.1@[a] != r.1@[b],
            self.matches.searched_sound(interner.view(), index, r.0@),
            self.matches.searched_complete(interner.view(), index, r.0@),
    {
        self.matches.build_search(interner, index)
    }
}
fn ne_score_exec(t: &str, subject: &str) -> (r: i64)
    requires
        t@.len() < LEV_LENGTH_MAX as nat,
    ensures
        r as int == ne_score(t@, subject@),
{
    let tlen = t.unicode_len();
    let slen = subject.unicode_len();
    if tlen > 3 && crate::text::str_starts_with(subject, t) {
        let lc: usize = if tlen > TERM_LEN_CAP {
            TERM_LEN_CAP
        } else {
            tlen
        };
        SCORE_SOFT_MAX + 2 * (lc as i64)
    } else if tlen + 1 >= slen && tlen <= slen + 1 {
        // under the length gate both strings are short
        let d = strsim::levenshtein(subject, t);
        let m = if slen >= tlen {
            slen
        } else {
            tlen
        };
        if m == 0 {
            SCORE_SOFT_MAX
        } else if d >= m {
            0
        } else {
            (SCORE_SOFT_MAX * ((m - d) as i64)) / (m as i64)
        }
    } else {
        0
    }
}

} // verus!

//! Location entities and the per-location scorer: a candidate is scored by
//! an authoritative code match, or by the best subject (name or id) score
//! with the stop-word penalty, and survives only above the inclusion
//! threshold.
use vstd::prelude::*;

use crate::coordinates::Coordinates;
use crate::interner::{contains_id, Id, Interner};
use crate::search::{
    lemma_codes_match_score, lemma_match_spec_bounds, merge_max, score_le, score_ub, Score,
    SearchTerm,
};
use crate::{SCORE_SOFT_MAX, SEARCH_INCLUSION_THRESHOLD, STOP_WORDS_PENALTY};

verus! {

/// The kind of a location record.
#[derive(Debug, Copy, Clone, PartialEq, Eq, Structural)]
pub enum LocKind {
    State,
    Subdivision,
    Locode,
    Airport,
}

/// A decoded raw location record, as the corpus files carry it: plain
/// strings, not yet normalized or interned.
#[derive(Debug)]
pub struct RawLocation {
    pub key: String,
    pub id: String,
    pub kind: LocKind,
    pub names: Vec<String>,
    pub codes: Vec<String>,
    pub parent_state: Option<String>,
    pub parent_subdiv: Option<String>,
}

/// A reason a raw record is rejected at build time.
#[derive(Debug, Copy, Clone, PartialEq, Eq, Structural)]
pub enum BuildError {
    MissingParentState,
}

impl BuildError {
    /// A human-readable description.
    pub fn message(&self) -> (r: &'static str)
        ensures
            r@ == "record needs a parent state"@,
    {
        "record needs a parent state"
    }
}

/// A location entity: interned identity, kind, machine codes, normalized
/// names, the words of those names, and parent references by key.
#[derive(Debug)]
pub struct Location {
    pub key: Id,
    pub id: Id,
    pub kind: LocKind,
    pub codes: Vec<Id>,
    pub names: Vec<Id>,
    pub words: Vec<Id>,
    pub parent_state: Option<Id>,
    pub parent_subdiv: Option<Id>,
    pub coordinates: Option<Coordinates>,
}

impl Location {
    /// All identities in range; subdivisions and locodes have a parent
    /// state.
    pub open spec fn wf(&self, iv: Seq<Seq<char>>) -> bool {
        &&& self.key < iv.len()
        &&& self.id < iv.len()
        &&& forall|i: int| 0 <= i < self.codes@.len() ==> (#[trigger] self.codes@[i]) < iv.len()
        &&& forall|i: int| 0 <= i < self.names@.len() ==> (#[trigger] self.names@[i]) < iv.len()
        &&& forall|i: int| 0 <= i < self.words@.len() ==> (#[trigger] self.words@[i]) < iv.len()
        &&& match self.parent_state {
            Some(p) => p < iv.len(),
            None => true,
        }
        &&& match self.parent_subdiv {
            Some(p) => p < iv.len(),
            None => true,
        }
        &&& (self.kind == LocKind::Subdivision ==> self.parent_state is Some)
        &&& (self.kind == LocKind::Locode ==> self.parent_state is Some)
    }

    /// Well-formedness only constrains identities to be in range, so it
    /// survives interner growth.
    pub proof fn lemma_wf_extends(&self, iv1: Seq<Seq<char>>, iv2: Seq<Seq<char>>)
        requires
            self.wf(iv1),
            iv1.len() <= iv2.len(),
        ensures
            self.wf(iv2),
    {
    }

    /// All fields agree (vectors by their contents).
    pub open spec fn same_loc(&self, other: &Location) -> bool {
        &&& self.key == other.key
        &&& self.id == other.id
        &&& self.kind == other.kind
        &&& self.codes@ == other.codes@
        &&& self.names@ == other.names@
        &&& self.words@ == other.words@
        &&& self.parent_state == other.parent_state
        &&& self.parent_subdiv == other.parent_subdiv
        &&& self.coordinates == other.coordinates
    }

    /// A field-by-field copy.
    pub fn duplicate(&self) -> (r: Location)
        ensures
            r.same_loc(self),
    {
        let r = Location {
            key: self.key,
            id: self.id,
            kind: self.kind,
            codes: self.codes.clone(),
            names: self.names.clone(),
            words: self.words.clone(),
            parent_state: self.parent_state,
            parent_subdiv: self.parent_subdiv,
            coordinates: self.coordinates,
        };
        proof {
            assert(r.codes@ =~= self.codes@);
            assert(r.names@ =~= self.names@);
            assert(r.words@ =~= self.words@);
        }
        r
    }

    /// The parents, state first.
    pub fn get_parents(&self) -> (r: (Option<Id>, Option<Id>))
        ensures
            r.0 == self.parent_state,
            r.1 == self.parent_subdiv,
    {
        (self.parent_state, self.parent_subdiv)
    }

    /// Halve a parent's score before it boosts a child, preventing runaway
    /// inflation along multi-level chains.
    pub fn parent_boost(&self, s: i64) -> (r: i64)
        requires
            s >= 0,
        ensures
            r == s / 2,
    {
        s / 2
    }

    /// Does this location pass the query's state filter?
    pub open spec fn passes_filter(&self, st: &SearchTerm) -> bool {
        match st.state_filter {
            None => true,
            Some(f) => self.key == f || self.parent_state == Some(f),
        }
    }

    /// The searchable subjects: the names, then the scheme-local id.
    pub open spec fn subjects(&self) -> Seq<Id> {
        self.names@.push(self.id)
    }

    /// One subject's score: the match score, minus the stop-word penalty
    /// when the subject is a stop word of the query.
    pub open spec fn subject_score(st: &SearchTerm, iv: Seq<Seq<char>>, u: Id) -> Option<Score> {
        match st.matches.match_spec(iv, iv[u as int]) {
            None => None,
            Some(s) => Some(
                Score {
                    score: (s.score - (if st.matches.stop_words@.contains(u) {
                        STOP_WORDS_PENALTY as int
                    } else {
                        0
                    })) as i64,
                    offset: s.offset,
                },
            ),
        }
    }

    /// Best score over a sequence of subjects.
    pub open spec fn best_subjects(
        subjects: Seq<Id>,
        st: &SearchTerm,
        iv: Seq<Seq<char>>,
    ) -> Option<Score>
        decreases subjects.len(),
    {
        if subjects.len() == 0 {
            None
        } else {
            let rest = Self::best_subjects(subjects.drop_last(), st, iv);
            match Self::subject_score(st, iv, subjects.last()) {
                None => rest,
                Some(s) => merge_max(rest, s),
            }
        }
    }

    /// The scorer's outcome on this location: nothing outside the state
    /// filter; an authoritative code match at `SCORE_SOFT_MAX`; otherwise
    /// the best subject score, kept only strictly above the inclusion
    /// threshold.
    pub open spec fn search_spec(&self, iv: Seq<Seq<char>>, st: &SearchTerm) -> Option<Score> {
        if !self.passes_filter(st) {
            None
        } else {
            match SearchTerm::codes_match_spec(st.codes@, self.codes@, SCORE_SOFT_MAX) {
                Some(s) => Some(s),
                None => match Self::best_subjects(self.subjects(), st, iv) {
                    Some(b) => if b.score > SEARCH_INCLUSION_THRESHOLD {
                        Some(b)
                    } else {
                        None
                    },
                    None => None,
                },
            }
        }
    }

    /// Score this location against a classified query.
    pub fn search(&self, interner: &Interner, st: &SearchTerm) -> (r: Option<Score>)
        requires
            self.wf(interner.view()),
            st.wf(interner.view()),
        ensures
            r == self.search_spec(interner.view(), st),
            match r {
                Some(s) => SEARCH_INCLUSION_THRESHOLD < s.score as int <= score_ub(),
                None => true,
            },
    {
        let ghost iv = interner.view();
        match st.state_filter {
            Some(f) => {
                let parent_ok = match self.parent_state {
                    Some(p) => p == f,
                    None => false,
                };
                if !(self.key == f || parent_ok) {
                    return None;
                }
            },
            None => {},
        }
        let code_hit = st.codes_match(&self.codes, SCORE_SOFT_MAX);
        proof {
            lemma_codes_match_score(st.codes@, self.codes@, SCORE_SOFT_MAX);
        }
        if code_hit.is_some() {
            return code_hit;
        }
        let mut best: Option<Score> = None;
        let mut i: usize = 0;
        while i < self.names.len()
            invariant
                self.wf(iv),
                st.wf(iv),
                iv == interner.view(),
                i <= self.names@.len(),
                best == Self::best_subjects(self.names@.subrange(0, i as int), st, iv),
            decreases self.names@.len() - i,
        {
            proof {
                assert(self.names@.subrange(0, i + 1).drop_last() =~= self.names@.subrange(
                    0,
                    i as int,
                ));
                assert(self.names@.subrange(0, i + 1).last() == self.names@[i as int]);
            }
            let u = self.names[i];
            best = merge_subject(best, subject_score_exec(interner, st, u));
            i += 1;
        }
        proof {
            assert(self.names@.subrange(0, self.names@.len() as int) =~= self.names@);
            assert(self.subjects().drop_last() =~= self.names@);
            assert(self.subjects().last() == self.id);
        }
        best = merge_subject(best, subject_score_exec(interner, st, self.id));
        proof {
            lemma_best_subjects_ub(self.subjects(), st, iv);
        }
        match best {
            Some(b) => {
                if b.score > SEARCH_INCLUSION_THRESHOLD {
                    Some(b)
                } else {
                    None
                }
            },
            None => None,
        }
    }
}

/// Any best-subject score stays below the score cap.
proof fn lemma_best_subjects_ub(subjects: Seq<Id>, st: &SearchTerm, iv: Seq<Seq<char>>)
    ensures
        match Location::best_subjects(subjects, st, iv) {
            Some(b) => b.score as int <= score_ub(),
            None => true,
        },
    decreases subjects.len(),
{
    if subjects.len() > 0 {
        lemma_best_subjects_ub(subjects.drop_last(), st, iv);
        lemma_match_spec_bounds(st.matches, iv, iv[subjects.last() as int]);
    }
}

/// Fold one subject's score into the running best.
fn merge_subject(best: Option<Score>, s: Option<Score>) -> (r: Option<Score>)
    ensures
        r == match s {
            None => best,
            Some(sc) => merge_max(best, sc),
        },
{
    match s {
        None => best,
        Some(sc) => match best {
            None => Some(sc),
            Some(b) => if b.le(&sc) {
                Some(sc)
            } else {
                Some(b)
            },
        },
    }
}

/// One subject's score, with the stop-word penalty applied after the
/// per-subject max.
fn subject_score_exec(interner: &Interner, st: &SearchTerm, u: Id) -> (r: Option<Score>)
    requires
        st.wf(interner.view()),
        u < interner.view().len(),
    ensures
        r == Location::subject_score(st, interner.view(), u),
{
    let subject = interner.resolve(u);
    let m = st.matches.match_str(interner, subject.as_str());
    proof {
        lemma_match_spec_bounds(st.matches, interner.view(), interner.view()[u as int]);
    }
    match m {
        None => None,
        Some(s) => {
            let penalty: i64 = if contains_id(&st.matches.stop_words, u) {
                STOP_WORDS_PENALTY
            } else {
                0
            };
            Some(Score { score: s.score - penalty, offset: s.offset })
        },
    }
}

} // verus!

//! The location store and the query pipeline: insertion of built location
//! entities, index construction (word index, vocabulary automaton,
//! hierarchy arena), and the search entry point that gathers, scores,
//! re-ranks, sorts and truncates.
use vstd::prelude::*;

use crate::arena::Arena;
use crate::fuzzy::{
    entries_map, entry_views, fst_contents, fst_from_entries, fst_fuzzy_lookup,
    lemma_entries_map_complete, lemma_entries_map_pairs,
};
use crate::interner::{Id, Interner};
use crate::coordinates::{coord_spec, Coordinates};
use crate::location::{BuildError, LocKind, Location, RawLocation};
use crate::norm::normalize_spec;
use crate::search::{extend_unique, Score, SearchTerm};
use crate::sorting::{result_le, sort_results};
use crate::text::lex_lt;
use crate::word_index::WordIndex;
use crate::{LEV_2_LENGTH_MAX, LEV_3_LENGTH_MAX, SEARCH_INCLUSION_THRESHOLD};

verus! {

/// The read-only database behind query execution.
pub struct LocationsDb {
    pub interner: Interner,
    pub all: Vec<(Id, Location)>,
    pub state_by_code: Vec<(Id, Id)>,
    pub subdiv_by_code: Vec<(Id, Id)>,
    pub indices: Vec<(Id, usize)>,
    pub by_word: WordIndex,
    pub fst: Option<fst::Map<Vec<u8>>>,
    pub arena: Arena,
}

/// Every searchable string identity of a location: words, codes, names.
pub open spec fn loc_strings(l: &Location) -> Seq<Id> {
    l.words@ + l.codes@ + l.names@
}

impl LocationsDb {
    pub open spec fn iv(&self) -> Seq<Seq<char>> {
        self.interner.view()
    }

    /// Unique keys, well-formed locations stored under their own key, a
    /// well-formed word index and arena.
    pub open spec fn wf(&self) -> bool {
        &&& self.interner.wf()
        &&& forall|i: int, j: int| 0 <= i < j < self.all@.len() ==> (#[trigger] self.all@[i]).0 != (#[trigger] self.all@[j]).0
        &&& forall|i: int|
            0 <= i < self.all@.len() ==> (#[trigger] self.all@[i]).1.wf(self.iv())
                && self.all@[i].1.key == self.all@[i].0
        &&& self.by_word.wf()
        &&& self.arena.wf()
    }

    /// Some location is stored under key `k`.
    pub open spec fn has_key(&self, k: Id) -> bool {
        exists|i: int| 0 <= i < self.all@.len() && (#[trigger] self.all@[i]).0 == k
    }

    /// The index of the entry stored under `k` (the one index, when keys are
    /// unique).
    pub open spec fn loc_idx(&self, k: Id) -> int {
        choose|j: int| 0 <= j < self.all@.len() && (#[trigger] self.all@[j]).0 == k
    }

    /// With unique keys, `loc_idx` names exactly the index carrying `k`.
    pub proof fn lemma_loc_idx(&self, k: Id, j: int)
        requires
            self.wf(),
            0 <= j < self.all@.len(),
            self.all@[j].0 == k,
        ensures
            self.has_key(k),
            self.loc_idx(k) == j,
    {
        assert(self.has_key(k));
        let j2 = self.loc_idx(k);
        assert(0 <= j2 < self.all@.len() && self.all@[j2].0 == k);
    }

    /// The stored location under `k` accepted the query, with an outcome the
    /// pipeline only raised in score and never moved in offset.
    pub open spec fn result_sound(&self, st: &SearchTerm, k: Id, s: Score) -> bool {
        &&& self.has_key(k)
        &&& match self.all@[self.loc_idx(k)].1.search_spec(self.iv(), st) {
            Some(sc) => sc.score <= s.score && sc.offset == s.offset,
            None => false,
        }
    }

    /// `k` is listed in the word index under an exact term of the query: the
    /// grab prong of candidate gather reaches it.
    pub open spec fn grab_hit(&self, st: &SearchTerm, k: Id) -> bool {
        exists|i: int|
            0 <= i < st.matches.exact@.len() && (#[trigger] st.matches.exact@[i]).term
                < self.iv().len() && self.by_word.pair_in(
                self.iv()[st.matches.exact@[i].term as int],
                k,
            )
    }

    /// The scorer accepts the location stored under `k`.
    pub open spec fn scorer_accepts(&self, st: &SearchTerm, k: Id) -> bool {
        self.has_key(k) && self.all@[self.loc_idx(k)].1.search_spec(self.iv(), st) is Some
    }

    /// The score the scorer gave the location stored under `k`.
    pub open spec fn scorer_score(&self, st: &SearchTerm, k: Id) -> int {
        match self.all@[self.loc_idx(k)].1.search_spec(self.iv(), st) {
            Some(sc) => sc.score as int,
            None => 0,
        }
    }

    /// The location stored under `c` names `p` as its parent state or
    /// parent subdivision.
    pub open spec fn stored_parent(&self, c: Id, p: Id) -> bool {
        &&& self.has_key(c)
        &&& {
            let l = self.all@[self.loc_idx(c)].1;
            l.parent_state == Some(p) || l.parent_subdiv == Some(p)
        }
    }

    /// Location `k` carries the searchable string `w`.
    pub open spec fn db_has_word_for(&self, k: Id, w: Seq<char>) -> bool {
        exists|i: int|
            0 <= i < self.all@.len() && (#[trigger] self.all@[i]).0 == k && loc_has_string(
                &self.all@[i].1,
                self.iv(),
                w,
            )
    }

    /// Everything the word index lists really belongs to a stored location.
    pub open spec fn index_sound(&self) -> bool {
        forall|w: Seq<char>, k: Id|
            #[trigger] self.by_word.pair_in(w, k) ==> self.db_has_word_for(k, w)
    }

    /// Every searchable string of every stored location is indexed.
    pub open spec fn index_complete(&self) -> bool {
        forall|i: int, j: int|
            0 <= i < self.all@.len() && 0 <= j < loc_strings(&self.all@[i].1).len() && (
            #[trigger] loc_strings(&self.all@[i].1)[j]) < self.iv().len()
                ==> self.by_word.pair_in(
                self.iv()[loc_strings(&self.all@[i].1)[j] as int],
                self.all@[i].0,
            )
    }

    /// The vocabulary automaton maps exactly the word-index tokens, each to
    /// its ordinal.
    pub open spec fn fst_ok(&self) -> bool {
        match self.fst {
            None => false,
            Some(m) => {
                &&& forall|k: Seq<char>, v: u64|
                    #[trigger] fst_contents(m).contains_pair(k, v) ==> v
                        < self.by_word.entries@.len() && self.by_word.entries@[v as int].word@
                        == k
                &&& forall|j: int|
                    0 <= j < self.by_word.entries@.len() ==> fst_contents(m).contains_pair(
                        (#[trigger] self.by_word.entries@[j]).word@,
                        j as u64,
                    )
            },
        }
    }

    /// An empty store.
    pub fn new() -> (r: LocationsDb)
        ensures
            r.wf(),
            r.all@.len() == 0,
            r.iv().len() == 0,
    {
        LocationsDb {
            interner: Interner::new(),
            all: Vec::new(),
            state_by_code: Vec::new(),
            subdiv_by_code: Vec::new(),
            indices: Vec::new(),
            by_word: WordIndex::new(),
            fst: None,
            arena: Arena::new(),
        }
    }

    /// The stored location under key `k`.
    pub fn get(&self, k: Id) -> (r: Option<&Location>)
        ensures
            match r {
                Some(l) => self.has_key(k) && exists|i: int|
                    0 <= i < self.all@.len() && #[trigger] self.all@[i] == (k, *l),
                None => !self.has_key(k),
            },
    {
        let mut i: usize = 0;
        while i < self.all.len()
            invariant
                i <= self.all@.len(),
                forall|j: int| 0 <= j < i ==> (#[trigger] self.all@[j]).0 != k,
            decreases self.all@.len() - i,
        {
            if self.all[i].0 == k {
                return Some(&self.all[i].1);
            }
            i += 1;
        }
        None
    }

    /// Insert a built location under its key. The key must be fresh: keys
    /// are unique across the store.
    pub fn insert(&mut self, l: Location)
        requires
            old(self).wf(),
            l.wf(old(self).iv()),
            !old(self).has_key(l.key),
        ensures
            final(self).wf(),
            final(self).interner == old(self).interner,
            final(self).all@.len() == old(self).all@.len() + 1,
            final(self).all@.drop_last() == old(self).all@,
            final(self).all@.last().0 == l.key,
            final(self).all@.last().1.same_loc(&l),
            final(self).by_word == old(self).by_word,
            final(self).fst == old(self).fst,
            final(self).arena.nodes@.len() == old(self).arena.nodes@.len() + 1,
            final(self).indices@ == old(self).indices@.push(
                (l.key, old(self).arena.nodes@.len() as usize),
            ),
            final(self).state_by_code@ == if l.kind == LocKind::State {
                old(self).state_by_code@.push((l.id, l.key))
            } else {
                old(self).state_by_code@
            },
            final(self).subdiv_by_code@ == if l.kind == LocKind::Subdivision {
                old(self).subdiv_by_code@.push((l.id, l.key))
            } else {
                old(self).subdiv_by_code@
            },
    {
        let node = self.arena.new_node(l.key);
        self.indices.push((l.key, node));
        match l.kind {
            LocKind::State => {
                self.state_by_code.push((l.id, l.key));
            },
            LocKind::Subdivision => {
                self.subdiv_by_code.push((l.id, l.key));
            },
            LocKind::Locode => {},
            LocKind::Airport => {},
        }
        let key = l.key;
        self.all.push((key, l));
        proof {
            assert(self.all@.drop_last() =~= old(self).all@);
        }
    }

    /// Look a string up: interned strings of length at least two retrieve a
    /// copy of the location stored under their identity.
    pub fn retrieve(&self, matchable: &str) -> (r: Option<Location>)
        requires
            self.wf(),
        ensures
            match r {
                Some(l) => matchable@.len() >= 2 && l.key < self.iv().len() && self.iv()[l.key as int]
                    == matchable@ && exists|i: int|
                    0 <= i < self.all@.len() && (#[trigger] self.all@[i]).0 == l.key
                        && l.same_loc(&self.all@[i].1),
                None => matchable@.len() <= 1 || !(exists|u: Id|
                    u < self.iv().len() && self.iv()[u as int] == matchable@ && self.has_key(u)),
            },
    {
        match self.interner.lookup(matchable) {
            Some(u) => {
                let len = matchable.unicode_len();
                if len <= 1 {
                    return None;
                }
                match self.get(u) {
                    Some(l) => {
                        let ghost i = choose|i: int|
                            0 <= i < self.all@.len() && #[trigger] self.all@[i] == (u, *l);
                        let r = l.duplicate();
                        proof {
                            assert(self.all@[i].0 == r.key);
                        }
                        Some(r)
                    },
                    None => {
                        proof {
                            assert forall|u2: Id|
                                u2 < self.iv().len() && self.iv()[u2 as int] == matchable@
                                    implies !self.has_key(u2) by {
                                self.interner.lemma_id_eq(u, u2);
                            }
                        }
                        None
                    },
                }
            },
            None => None,
        }
    }

    /// Freeze the store for querying: link the arena by parent references,
    /// build the word index over every location's words, codes and names,
    /// and compile the vocabulary automaton over the index's tokens in
    /// sorted order.
    pub fn mk_fst(self) -> (r: LocationsDb)
        requires
            self.wf(),
        ensures
            r.wf(),
            r.interner == self.interner,
            r.all@ == self.all@,
            r.index_sound(),
            r.index_complete(),
            r.fst_ok(),
    {
        let LocationsDb {
            interner,
            all,
            state_by_code,
            subdiv_by_code,
            indices,
            by_word: _,
            fst: _,
            mut arena,
        } = self;
        // arena linking: append each node under its nearest stored parent
        let mut i: usize = 0;
        while i < all.len()
            invariant
                arena.wf(),
            decreases all@.len() - i,
        {
            let key = all[i].0;
            let parent = match all[i].1.parent_subdiv {
                Some(p) => Some(p),
                None => all[i].1.parent_state,
            };
            match parent {
                Some(p) => {
                    match (assoc_find(&indices, key), assoc_find(&indices, p)) {
                        (Some(me), Some(pn)) => {
                            if me < arena.len() && pn < arena.len() && me != pn {
                                arena.append(pn, me);
                            }
                        },
                        _ => {},
                    }
                },
                None => {},
            }
            i += 1;
        }
        // word index over words ∪ codes ∪ names of every location
        let ghost pre_all = all@;
        let ghost iv = interner.view();
        let mut bw = WordIndex::new();
        let mut i: usize = 0;
        while i < all.len()
            invariant
                interner.wf(),
                iv == interner.view(),
                i <= all@.len(),
                all@ == pre_all,
                forall|i2: int, j2: int|
                    0 <= i2 < j2 < all@.len() ==> (#[trigger] all@[i2]).0 != (#[trigger] all@[j2]).0,
                forall|i2: int|
                    0 <= i2 < all@.len() ==> (#[trigger] all@[i2]).1.wf(iv) && all@[i2].1.key
                        == all@[i2].0,
                bw.wf(),
                forall|w: Seq<char>, k: Id|
                    #[trigger] bw.pair_in(w, k) ==> exists|i2: int|
                        0 <= i2 < all@.len() && (#[trigger] all@[i2]).0 == k && loc_has_string(
                            &all@[i2].1,
                            iv,
                            w,
                        ),
                forall|i2: int, j2: int|
                    0 <= i2 < i && 0 <= j2 < loc_strings(&all@[i2].1).len() && (
                    #[trigger] loc_strings(&all@[i2].1)[j2]) < iv.len() ==> bw.pair_in(
                        iv[loc_strings(&all@[i2].1)[j2] as int],
                        all@[i2].0,
                    ),
            decreases all@.len() - i,
        {
            let key = all[i].0;
            let mut strs: Vec<Id> = all[i].1.words.clone();
            let mut codes = all[i].1.codes.clone();
            let mut names = all[i].1.names.clone();
            strs.append(&mut codes);
            strs.append(&mut names);
            proof {
                assert(strs@ =~= loc_strings(&all@[i as int].1));
            }
            let mut j: usize = 0;
            while j < strs.len()
                invariant
                    interner.wf(),
                    iv == interner.view(),
                    i < all@.len(),
                    all@ == pre_all,
                    strs@ == loc_strings(&all@[i as int].1),
                    key == all@[i as int].0,
                    forall|i2: int|
                        0 <= i2 < all@.len() ==> (#[trigger] all@[i2]).1.wf(iv) && all@[i2].1.key
                            == all@[i2].0,
                    j <= strs@.len(),
                    forall|j2: int| 0 <= j2 < strs@.len() ==> (#[trigger] strs@[j2]) < iv.len(),
                    bw.wf(),
                    forall|w: Seq<char>, k: Id|
                        #[trigger] bw.pair_in(w, k) ==> exists|i2: int|
                            0 <= i2 < all@.len() && (#[trigger] all@[i2]).0 == k && loc_has_string(
                                &all@[i2].1,
                                iv,
                                w,
                            ),
                    forall|i2: int, j2: int|
                        0 <= i2 < i && 0 <= j2 < loc_strings(&all@[i2].1).len() && (
                        #[trigger] loc_strings(&all@[i2].1)[j2]) < iv.len() ==> bw.pair_in(
                            iv[loc_strings(&all@[i2].1)[j2] as int],
                            all@[i2].0,
                        ),
                    forall|j2: int|
                        0 <= j2 < j ==> bw.pair_in(iv[(#[trigger] strs@[j2]) as int], key),
                decreases strs@.len() - j,
            {
                let w = strs[j];
                let ghost bw_pre = bw;
                bw.add(interner.resolve(w).as_str(), key);
                proof {
                    assert(bw.pair_in(iv[w as int], key));
                    assert forall|w2: Seq<char>, k2: Id| #[trigger] bw.pair_in(w2, k2) implies exists|
                        i2: int,
                    |
                        0 <= i2 < all@.len() && (#[trigger] all@[i2]).0 == k2 && loc_has_string(
                            &all@[i2].1,
                            iv,
                            w2,
                        ) by {
                        if bw_pre.pair_in(w2, k2) {
                        } else {
                            assert(w2 == iv[w as int] && k2 == key);
                            assert(loc_has_string(&all@[i as int].1, iv, w2)) by {
                                assert(loc_strings(&all@[i as int].1)[j as int] == w);
                            }
                        }
                    }
                }
                j += 1;
            }
            proof {
                assert forall|i2: int, j2: int|
                    0 <= i2 < i + 1 && 0 <= j2 < loc_strings(&all@[i2].1).len() && (
                    #[trigger] loc_strings(&all@[i2].1)[j2]) < iv.len() implies bw.pair_in(
                    iv[loc_strings(&all@[i2].1)[j2] as int],
                    all@[i2].0,
                ) by {
                    if i2 == i {
                        assert(bw.pair_in(iv[strs@[j2] as int], key));
                    }
                }
            }
            i += 1;
        }
        // the vocabulary automaton over the sorted tokens
        let mut entries: Vec<(String, u64)> = Vec::new();
        let mut k: usize = 0;
        while k < bw.len()
            invariant
                bw.wf(),
                k <= bw.entries@.len(),
                entries@.len() == k,
                forall|j: int|
                    0 <= j < k ==> (#[trigger] entries@[j]).0@ == bw.entries@[j].word@
                        && entries@[j].1 == j,
            decreases bw.entries@.len() - k,
        {
            let e = bw.at(k);
            entries.push((e.word.clone(), k as u64));
            k += 1;
        }
        proof {
            assert forall|a: int, b: int| 0 <= a < b < entries@.len() implies lex_lt(
                entries@[a].0@,
                entries@[b].0@,
            ) by {
                assert(lex_lt(bw.entries@[a].word@, bw.entries@[b].word@));
            }
        }
        let m = fst_from_entries(&entries);
        proof {
            lemma_entries_map_pairs(entry_views(entries@));
            assert forall|a: int, b: int|
                0 <= a < b < entry_views(entries@).len() implies (#[trigger] entry_views(
                entries@,
            )[a]).0 != (#[trigger] entry_views(entries@)[b]).0 by {
                crate::text::lemma_lex_lt_total(entries@[a].0@, entries@[b].0@);
            }
            lemma_entries_map_complete(entry_views(entries@));
            assert forall|j: int| 0 <= j < bw.entries@.len() implies fst_contents(
                m,
            ).contains_pair((#[trigger] bw.entries@[j]).word@, j as u64) by {
                assert(entry_views(entries@)[j] == (entries@[j].0@, entries@[j].1));
                assert(entries@[j].0@ == bw.entries@[j].word@ && entries@[j].1 == j as u64);
                assert(entries_map(entry_views(entries@)).contains_pair(
                    entry_views(entries@)[j].0,
                    entry_views(entries@)[j].1,
                ));
            }
            assert forall|key2: Seq<char>, v: u64|
                #[trigger] fst_contents(m).contains_pair(key2, v) implies v < bw.entries@.len()
                && bw.entries@[v as int].word@ == key2 by {
                let j = choose|j: int|
                    0 <= j < entry_views(entries@).len() && #[trigger] entry_views(entries@)[j] == (
                    key2,
                    v,
                );
                assert(entries@[j].0@ == key2 && entries@[j].1 == v);
            }
        }
        LocationsDb {
            interner,
            all,
            state_by_code,
            subdiv_by_code,
            indices,
            by_word: bw,
            fst: Some(m),
            arena,
        }
    }

    /// The edit budget for a fuzzy term: the query's budget, tightened for
    /// longer terms.
    pub fn lev_budget(&self, chars: usize, lev_dist: u32) -> (r: u32)
        ensures
            r == if chars < LEV_3_LENGTH_MAX {
                lev_dist
            } else if chars < LEV_2_LENGTH_MAX {
                if lev_dist < 2 {
                    lev_dist
                } else {
                    2u32
                }
            } else {
                if lev_dist < 1 {
                    lev_dist
                } else {
                    1u32
                }
            },
    {
        if chars < LEV_3_LENGTH_MAX {
            lev_dist
        } else if chars < LEV_2_LENGTH_MAX {
            if lev_dist < 2 {
                lev_dist
            } else {
                2
            }
        } else {
            if lev_dist < 1 {
                lev_dist
            } else {
                1
            }
        }
    }

    /// Execute a query: gather candidates through the word index and the
    /// vocabulary automaton, score each candidate, boost children of scoring
    /// parents, sort, and truncate to the query's limit.
    ///
    /// The result is at most `limit` long, every returned score is strictly
    /// above the inclusion threshold, and the list is sorted: score
    /// descending, ties by offset and then key, a total order.
    pub fn search(&self, st: &SearchTerm) -> (res: Vec<(Id, Score)>)
        requires
            self.wf(),
            st.wf(self.iv()),
        ensures
            res@.len() <= st.limit,
            forall|i: int|
                0 <= i < res@.len() ==> (#[trigger] res@[i]).1.score as int
                    > SEARCH_INCLUSION_THRESHOLD,
            forall|a: int, b: int| 0 <= a < b < res@.len() ==> result_le(res@[a], res@[b]),
            forall|a: int, b: int|
                0 <= a < b < res@.len() ==> (#[trigger] res@[a]).0 != (#[trigger] res@[b]).0,
            // soundness: every returned pair names a stored location the
            // scorer accepted; re-rank only raised its score
            forall|i: int|
                0 <= i < res@.len() ==> self.result_sound(st, (#[trigger] res@[i]).0, res@[i].1),
            // grab-prong completeness: a word-index hit of an exact term the
            // scorer accepted is returned, unless the limit is filled with
            // entries of no lower final score
            forall|k: Id|
                self.grab_hit(st, k) && #[trigger] self.scorer_accepts(st, k) ==> (exists|i: int|
                    0 <= i < res@.len() && (#[trigger] res@[i]).0 == k) || (res@.len() == st.limit
                    && forall|i: int|
                    0 <= i < res@.len() ==> (#[trigger] res@[i]).1.score as int
                        >= self.scorer_score(st, k)),
    {
        broadcast use vstd::seq_lib::group_to_multiset_ensures;

        let (terms, mut candidates) = st.build_search(&self.interner, &self.by_word);
        proof {
            assert forall|k: Id| #[trigger] self.grab_hit(st, k) implies candidates@.contains(
                k,
            ) by {
                assert(st.matches.grabbed(self.interner.view(), &self.by_word, candidates@));
            }
        }
        let mut ti: usize = 0;
        while ti < terms.len()
            invariant
                self.wf(),
                forall|a: int, b: int|
                    0 <= a < b < candidates@.len() ==> candidates@[a] != candidates@[b],
                forall|k: Id| #[trigger] self.grab_hit(st, k) ==> candidates@.contains(k),
            decreases terms@.len() - ti,
        {
            let t = &terms[ti];
            let chars = t.as_str().unicode_len();
            if chars > 3 {
                let dist = self.lev_budget(chars, st.lev_dist);
                match &self.fst {
                    Some(m) => {
                        match fst_fuzzy_lookup(m, t.as_str(), dist) {
                            Some(vals) => {
                                let mut vi: usize = 0;
                                while vi < vals.len()
                                    invariant
                                        self.wf(),
                                        forall|a: int, b: int|
                                            0 <= a < b < candidates@.len() ==> candidates@[a]
                                                != candidates@[b],
                                        forall|k: Id|
                                            #[trigger] self.grab_hit(st, k)
                                                ==> candidates@.contains(k),
                                    decreases vals@.len() - vi,
                                {
                                    let v = vals[vi];
                                    if v < self.by_word.len() as u64 {
                                        let e = self.by_word.at(v as usize);
                                        extend_unique(&mut candidates, &e.locs);
                                    }
                                    vi += 1;
                                }
                            },
                            None => {},
                        }
                    },
                    None => {},
                }
            }
            ti += 1;
        }
        // score every candidate
        let mut scored: Vec<(Id, Score)> = Vec::new();
        let mut ci: usize = 0;
        while ci < candidates.len()
            invariant
                self.wf(),
                st.wf(self.iv()),
                ci <= candidates@.len(),
                crate::graph::scores_bounded(scored@),
                forall|a: int, b: int|
                    0 <= a < b < candidates@.len() ==> candidates@[a] != candidates@[b],
                forall|a: int, b: int|
                    0 <= a < b < scored@.len() ==> (#[trigger] scored@[a]).0 != (
                    #[trigger] scored@[b]).0,
                forall|a: int|
                    0 <= a < scored@.len() ==> exists|c: int|
                        0 <= c < ci && candidates@[c] == (#[trigger] scored@[a]).0,
                forall|a: int|
                    0 <= a < scored@.len() ==> self.result_sound(
                        st,
                        (#[trigger] scored@[a]).0,
                        scored@[a].1,
                    ),
                forall|c: int|
                    0 <= c < ci && #[trigger] self.scorer_accepts(st, candidates@[c])
                        ==> exists|a: int|
                        0 <= a < scored@.len() && (#[trigger] scored@[a]).0 == candidates@[c],
            decreases candidates@.len() - ci,
        {
            let k = candidates[ci];
            let ghost pre_scored = scored@;
            match self.get(k) {
                Some(loc) => {
                    proof {
                        let i = choose|i: int|
                            0 <= i < self.all@.len() && #[trigger] self.all@[i] == (k, *loc);
                        assert(loc.wf(self.iv()));
                        self.lemma_loc_idx(k, i);
                    }
                    match loc.search(&self.interner, st) {
                        Some(sc) => {
                            scored.push((k, sc));
                            proof {
                                assert forall|a: int, b: int|
                                    0 <= a < b < scored@.len() implies (#[trigger] scored@[a]).0
                                    != (#[trigger] scored@[b]).0 by {
                                    if b == scored@.len() - 1 {
                                        let c = choose|c: int|
                                            0 <= c < ci && candidates@[c] == (
                                            #[trigger] pre_scored[a]).0;
                                        assert(candidates@[c] != candidates@[ci as int]);
                                    }
                                }
                                assert forall|a: int|
                                    0 <= a < scored@.len() implies exists|c: int|
                                        0 <= c < ci + 1 && candidates@[c] == (
                                        #[trigger] scored@[a]).0 by {
                                    if a == scored@.len() - 1 {
                                        assert(candidates@[ci as int] == scored@[a].0);
                                    } else {
                                        let c = choose|c: int|
                                            0 <= c < ci && candidates@[c] == (
                                            #[trigger] pre_scored[a]).0;
                                        assert(candidates@[c] == scored@[a].0);
                                    }
                                }
                                assert forall|a: int|
                                    0 <= a < scored@.len() implies self.result_sound(
                                    st,
                                    (#[trigger] scored@[a]).0,
                                    scored@[a].1,
                                ) by {
                                    if a < scored@.len() - 1 {
                                        assert(scored@[a] == pre_scored[a]);
                                    }
                                }
                                assert forall|c: int|
                                    0 <= c < ci + 1 && #[trigger] self.scorer_accepts(
                                    st,
                                    candidates@[c],
                                ) implies exists|a: int|
                                    0 <= a < scored@.len() && (#[trigger] scored@[a]).0
                                        == candidates@[c] by {
                                    if c == ci {
                                        assert(scored@[scored@.len() - 1].0 == candidates@[c]);
                                    } else {
                                        let a = choose|a: int|
                                            0 <= a < pre_scored.len() && (
                                            #[trigger] pre_scored[a]).0 == candidates@[c];
                                        assert(scored@[a].0 == candidates@[c]);
                                    }
                                }
                            }
                        },
                        None => {
                            proof {
                                assert forall|c: int|
                                    0 <= c < ci + 1 && #[trigger] self.scorer_accepts(
                                    st,
                                    candidates@[c],
                                ) implies exists|a: int|
                                    0 <= a < scored@.len() && (#[trigger] scored@[a]).0
                                        == candidates@[c] by {
                                    if c == ci {
                                        assert(!self.scorer_accepts(st, k));
                                        assert(false);
                                    }
                                }
                            }
                        },
                    }
                },
                None => {
                    proof {
                        assert forall|c: int|
                            0 <= c < ci + 1 && #[trigger] self.scorer_accepts(
                            st,
                            candidates@[c],
                        ) implies exists|a: int|
                            0 <= a < scored@.len() && (#[trigger] scored@[a]).0 == candidates@[
                            c
                        ] by {
                            if c == ci {
                                assert(self.has_key(k));
                                assert(false);
                            }
                        }
                    }
                },
            }
            ci += 1;
        }
        // hierarchy re-rank, then final assembly
        let ghost scored_snap = scored@;
        let graph = crate::graph::ResultsGraph::from_results(scored, self);
        let mut res = graph.scores;
        let ghost pre_sort = res@;
        proof {
            // soundness and key-presence carry through the boost pass:
            // keys and offsets are untouched, scores only rise
            assert forall|a: int| 0 <= a < pre_sort.len() implies self.result_sound(
                st,
                (#[trigger] pre_sort[a]).0,
                pre_sort[a].1,
            ) by {
                assert(self.result_sound(st, scored_snap[a].0, scored_snap[a].1));
                assert(pre_sort[a].0 == scored_snap[a].0);
                assert(pre_sort[a].1.offset == scored_snap[a].1.offset);
                assert(pre_sort[a].1.score as int >= scored_snap[a].1.score as int);
            }
            assert forall|k: Id|
                self.grab_hit(st, k) && #[trigger] self.scorer_accepts(st, k) implies exists|
                a: int,
            |
                0 <= a < pre_sort.len() && (#[trigger] pre_sort[a]).0 == k by {
                assert(candidates@.contains(k));
                let c = choose|c: int| 0 <= c < candidates@.len() && candidates@[c] == k;
                assert(self.scorer_accepts(st, candidates@[c]));
                let a = choose|a: int|
                    0 <= a < scored_snap.len() && (#[trigger] scored_snap[a]).0 == candidates@[c];
                assert(pre_sort[a].0 == k);
            }
        }
        sort_results(&mut res);
        proof {
            assert forall|i: int|
                0 <= i < res@.len() implies (#[trigger] res@[i]).1.score as int
                > SEARCH_INCLUSION_THRESHOLD by {
                assert(res@.contains(res@[i]));
                assert(res@.to_multiset().contains(res@[i]));
                assert(pre_sort.to_multiset().contains(res@[i]));
                assert(pre_sort.contains(res@[i]));
                let j = choose|j: int| 0 <= j < pre_sort.len() && pre_sort[j] == res@[i];
            }
        }
        proof {
            // distinct keys survive the permutation: the pre-sort list has
            // pairwise distinct keys, hence pairwise distinct pairs
            assert(pre_sort.no_duplicates()) by {
                assert forall|a: int, b: int|
                    0 <= a < b < pre_sort.len() implies pre_sort[a] != pre_sort[b] by {
                    assert(pre_sort[a].0 != pre_sort[b].0);
                }
            }
            pre_sort.lemma_multiset_has_no_duplicates();
            res@.lemma_multiset_has_no_duplicates_conv();
            assert forall|a: int, b: int|
                0 <= a < b < res@.len() implies (#[trigger] res@[a]).0 != (
                #[trigger] res@[b]).0 by {
                if res@[a] != res@[b] && res@[a].0 == res@[b].0 {
                    assert(pre_sort.contains(res@[a])) by {
                        assert(res@.contains(res@[a]));
                        assert(res@.to_multiset().contains(res@[a]));
                    }
                    assert(pre_sort.contains(res@[b])) by {
                        assert(res@.contains(res@[b]));
                        assert(res@.to_multiset().contains(res@[b]));
                    }
                    let ja = choose|j: int| 0 <= j < pre_sort.len() && pre_sort[j] == res@[a];
                    let jb = choose|j: int| 0 <= j < pre_sort.len() && pre_sort[j] == res@[b];
                    assert(pre_sort[ja].0 == pre_sort[jb].0);
                    assert(ja == jb);
                    assert(false);
                }
            }
        }
        proof {
            // soundness and key-presence carry through the permutation
            assert forall|i: int| 0 <= i < res@.len() implies self.result_sound(
                st,
                (#[trigger] res@[i]).0,
                res@[i].1,
            ) by {
                assert(res@.contains(res@[i]));
                assert(res@.to_multiset().contains(res@[i]));
                assert(pre_sort.contains(res@[i]));
                let j = choose|j: int| 0 <= j < pre_sort.len() && pre_sort[j] == res@[i];
                assert(self.result_sound(st, pre_sort[j].0, pre_sort[j].1));
            }
            assert forall|k: Id|
                self.grab_hit(st, k) && #[trigger] self.scorer_accepts(st, k) implies exists|
                i: int,
            |
                0 <= i < res@.len() && (#[trigger] res@[i]).0 == k by {
                let a = choose|a: int|
                    0 <= a < pre_sort.len() && (#[trigger] pre_sort[a]).0 == k;
                assert(pre_sort.contains(pre_sort[a]));
                assert(pre_sort.to_multiset().contains(pre_sort[a]));
                assert(res@.contains(pre_sort[a]));
                let i = choose|i: int| 0 <= i < res@.len() && res@[i] == pre_sort[a];
                assert(res@[i].0 == k);
            }
        }
        let ghost sorted_full = res@;
        res.truncate(st.limit);
        proof {
            if st.limit < sorted_full.len() {
                assert(res@ =~= sorted_full.subrange(0, st.limit as int));
            }
            assert forall|i: int| 0 <= i < res@.len() implies self.result_sound(
                st,
                (#[trigger] res@[i]).0,
                res@[i].1,
            ) by {
                assert(res@[i] == sorted_full[i]);
            }
            // a grabbed, accepted key is either kept or crowded out by a
            // full limit of entries scoring no lower than its scorer score
            assert forall|k: Id|
                self.grab_hit(st, k) && #[trigger] self.scorer_accepts(st, k) implies (exists|
                i: int,
            |
                0 <= i < res@.len() && (#[trigger] res@[i]).0 == k) || (res@.len() == st.limit
                && forall|i: int|
                0 <= i < res@.len() ==> (#[trigger] res@[i]).1.score as int >= self.scorer_score(
                    st,
                    k,
                )) by {
                let jk = choose|j: int|
                    0 <= j < sorted_full.len() && (#[trigger] sorted_full[j]).0 == k;
                if st.limit >= sorted_full.len() {
                    assert(res@[jk].0 == k);
                } else if jk < st.limit {
                    assert(res@[jk].0 == k);
                } else {
                    assert(res@.len() == st.limit);
                    assert forall|i: int|
                        0 <= i < res@.len() implies (#[trigger] res@[i]).1.score as int
                        >= self.scorer_score(st, k) by {
                        assert(result_le(sorted_full[i], sorted_full[jk]));
                        assert(sorted_full[i].1.score >= sorted_full[jk].1.score);
                        assert(self.result_sound(st, sorted_full[jk].0, sorted_full[jk].1));
                        assert(sorted_full[jk].1.score as int >= self.scorer_score(st, k));
                    }
                }
            }
        }
        res
    }
}

/// The location carries `w` among its searchable strings.
pub open spec fn loc_has_string(l: &Location, iv: Seq<Seq<char>>, w: Seq<char>) -> bool {
    exists|j: int|
        0 <= j < loc_strings(l).len() && (#[trigger] loc_strings(l)[j]) < iv.len()
            && iv[loc_strings(l)[j] as int] == w
}

/// First value stored under key `k` in an association list.
fn assoc_find(v: &Vec<(Id, usize)>, k: Id) -> (r: Option<usize>)
    ensures
        match r {
            Some(val) => exists|i: int| 0 <= i < v@.len() && #[trigger] v@[i] == (k, val),
            None => forall|i: int| 0 <= i < v@.len() ==> (#[trigger] v@[i]).0 != k,
        },
{
    let mut i: usize = 0;
    while i < v.len()
        invariant
            i <= v@.len(),
            forall|j: int| 0 <= j < i ==> (#[trigger] v@[j]).0 != k,
        decreases v@.len() - i,
    {
        if v[i].0 == k {
            return Some(v[i].1);
        }
        i += 1;
    }
    None
}

/// Build a location entity from a raw record: keys and ids are interned as
/// they stand; names and codes are normalized and interned; every
/// whitespace-split word of every normalized name is interned.
pub fn location_from_raw(interner: &mut Interner, raw: &RawLocation) -> (r: Result<
    Location,
    BuildError,
>)
    requires
        old(interner).wf(),
    ensures
        final(interner).wf(),
        old(interner).view().len() <= final(interner).view().len(),
        forall|j: int|
            0 <= j < old(interner).view().len() ==> final(interner).view()[j] == old(interner).view()[j],
        match r {
            Ok(l) => {
                &&& l.wf(final(interner).view())
                &&& l.kind == raw.kind
                &&& final(interner).view()[l.key as int] == raw.key@
                &&& final(interner).view()[l.id as int] == raw.id@
                &&& l.names@.len() == raw.names@.len()
                &&& forall|i: int|
                    0 <= i < raw.names@.len() ==> final(interner).view()[(
                    #[trigger] l.names@[i]) as int] == normalize_spec(raw.names@[i]@)
                &&& l.codes@.len() == raw.codes@.len()
                &&& forall|i: int|
                    0 <= i < raw.codes@.len() ==> final(interner).view()[(
                    #[trigger] l.codes@[i]) as int] == normalize_spec(raw.codes@[i]@)
                &&& match (&raw.parent_state, l.parent_state) {
                    (Some(p), Some(u)) => final(interner).view()[u as int] == p@,
                    (None, None) => true,
                    _ => false,
                }
                &&& match (&raw.parent_subdiv, l.parent_subdiv) {
                    (Some(p), Some(u)) => final(interner).view()[u as int] == p@,
                    (None, None) => true,
                    _ => false,
                }
                &&& l.coordinates is None
            },
            Err(e) => e == BuildError::MissingParentState && (raw.kind == LocKind::Subdivision
                || raw.kind == LocKind::Locode) && raw.parent_state is None,
        },
{
    if raw.parent_state.is_none() && (matches!(raw.kind, LocKind::Subdivision) || matches!(
        raw.kind,
        LocKind::Locode,
    )) {
        return Err(BuildError::MissingParentState);
    }
    let key = interner.intern(raw.key.as_str());
    let id = interner.intern(raw.id.as_str());
    proof {
        assert(interner.view()[key as int] == raw.key@);
    }
    let mut codes: Vec<Id> = Vec::new();
    let mut i: usize = 0;
    while i < raw.codes.len()
        invariant
            interner.wf(),
            old(interner).view().len() <= interner.view().len(),
            forall|j: int|
                0 <= j < old(interner).view().len() ==> interner.view()[j] == old(interner).view()[j],
            key < interner.view().len(),
            interner.view()[key as int] == raw.key@,
            id < interner.view().len(),
            interner.view()[id as int] == raw.id@,
            i <= raw.codes@.len(),
            codes@.len() == i,
            forall|j: int|
                0 <= j < codes@.len() ==> (#[trigger] codes@[j]) < interner.view().len()
                    && interner.view()[codes@[j] as int] == normalize_spec(raw.codes@[j]@),
        decreases raw.codes@.len() - i,
    {
        let n = crate::norm::normalize(raw.codes[i].as_str());
        codes.push(interner.intern(n.as_str()));
        i += 1;
    }
    let mut names: Vec<Id> = Vec::new();
    let mut words: Vec<Id> = Vec::new();
    let mut i: usize = 0;
    while i < raw.names.len()
        invariant
            interner.wf(),
            old(interner).view().len() <= interner.view().len(),
            forall|j: int|
                0 <= j < old(interner).view().len() ==> interner.view()[j] == old(interner).view()[j],
            key < interner.view().len(),
            interner.view()[key as int] == raw.key@,
            id < interner.view().len(),
            interner.view()[id as int] == raw.id@,
            codes@.len() == raw.codes@.len(),
            forall|j: int|
                0 <= j < codes@.len() ==> (#[trigger] codes@[j]) < interner.view().len()
                    && interner.view()[codes@[j] as int] == normalize_spec(raw.codes@[j]@),
            i <= raw.names@.len(),
            names@.len() == i,
            forall|j: int|
                0 <= j < names@.len() ==> (#[trigger] names@[j]) < interner.view().len()
                    && interner.view()[names@[j] as int] == normalize_spec(raw.names@[j]@),
            forall|j: int| 0 <= j < words@.len() ==> (#[trigger] words@[j]) < interner.view().len(),
        decreases raw.names@.len() - i,
    {
        let n = crate::norm::normalize(raw.names[i].as_str());
        names.push(interner.intern(n.as_str()));
        let parts = split_spaces(n.as_str());
        let mut j: usize = 0;
        while j < parts.len()
            invariant
                interner.wf(),
                old(interner).view().len() <= interner.view().len(),
                forall|j2: int|
                    0 <= j2 < old(interner).view().len() ==> interner.view()[j2] == old(interner).view()[j2],
                key < interner.view().len(),
                interner.view()[key as int] == raw.key@,
                id < interner.view().len(),
                interner.view()[id as int] == raw.id@,
                codes@.len() == raw.codes@.len(),
                forall|j2: int|
                    0 <= j2 < codes@.len() ==> (#[trigger] codes@[j2]) < interner.view().len()
                        && interner.view()[codes@[j2] as int] == normalize_spec(raw.codes@[j2]@),
                i < raw.names@.len(),
                names@.len() == i + 1,
                forall|j2: int|
                    0 <= j2 < names@.len() ==> (#[trigger] names@[j2]) < interner.view().len()
                        && interner.view()[names@[j2] as int] == normalize_spec(raw.names@[j2]@),
                forall|j2: int|
                    0 <= j2 < words@.len() ==> (#[trigger] words@[j2]) < interner.view().len(),
            decreases parts@.len() - j,
        {
            words.push(interner.intern(parts[j].as_str()));
            j += 1;
        }
        i += 1;
    }
    let parent_state = match &raw.parent_state {
        Some(p) => Some(interner.intern(p.as_str())),
        None => None,
    };
    let parent_subdiv = match &raw.parent_subdiv {
        Some(p) => Some(interner.intern(p.as_str())),
        None => None,
    };
    Ok(
        Location {
            key,
            id,
            kind: raw.kind,
            codes,
            names,
            words,
            parent_state,
            parent_subdiv,
            coordinates: None,
        },
    )
}

/// The maximal space-free chunks of `s`.
fn split_spaces(s: &str) -> (r: Vec<String>)
{
    let len = s.unicode_len();
    let mut out: Vec<String> = Vec::new();
    let mut cur: Vec<char> = Vec::new();
    let mut i: usize = 0;
    while i < len
        invariant
            s@.len() == len,
            i <= len,
        decreases len - i,
    {
        let c = s.get_char(i);
        if c == ' ' {
            if cur.len() > 0 {
                out.push(crate::norm::string_from_chars(&cur));
                cur = Vec::new();
            }
        } else {
            cur.push(c);
        }
        i += 1;
    }
    if cur.len() > 0 {
        out.push(crate::norm::string_from_chars(&cur));
    }
    out
}

/// The error string opens with the record key it reports.
pub open spec fn names_key(err: Seq<char>, key: Seq<char>) -> bool {
    err.len() >= key.len() && err.subrange(0, key.len() as int) == key
}

/// The error string opens with the key of one of the given records.
pub open spec fn names_some_key(err: Seq<char>, records: Seq<RawLocation>) -> bool {
    exists|ri: int| 0 <= ri < records.len() && names_key(err, (#[trigger] records[ri]).key@)
}

/// Ingest a batch of raw records: every record is either inserted or
/// reported under its key; nothing already stored is lost. `Ok` means every
/// record went in; `Err` carries one error per record that did not.
pub fn parse_data_block(db: &mut LocationsDb, records: Vec<RawLocation>) -> (r: Result<
    usize,
    Vec<String>,
>)
    requires
        old(db).wf(),
    ensures
        final(db).wf(),
        forall|k: Id| old(db).has_key(k) ==> final(db).has_key(k),
        match r {
            Ok(n) => n == records@.len() && final(db).all@.len() == old(db).all@.len()
                + records@.len(),
            Err(errs) => {
                &&& errs@.len() >= 1
                &&& final(db).all@.len() + errs@.len() == old(db).all@.len() + records@.len()
                &&& forall|j: int|
                    0 <= j < errs@.len() ==> names_some_key((#[trigger] errs@[j])@, records@)
            },
        },
{
    let mut errs: Vec<String> = Vec::new();
    let mut i: usize = 0;
    while i < records.len()
        invariant
            db.wf(),
            i <= records@.len(),
            errs@.len() <= i,
            db.all@.len() + errs@.len() == old(db).all@.len() + i,
            forall|k: Id| old(db).has_key(k) ==> db.has_key(k),
            forall|j: int|
                0 <= j < errs@.len() ==> names_some_key((#[trigger] errs@[j])@, records@),
        decreases records@.len() - i,
    {
        let ghost pre_iv = db.iv();
        let parsed = location_from_raw(&mut db.interner, &records[i]);
        proof {
            assert forall|j: int| 0 <= j < db.all@.len() implies (#[trigger] db.all@[j]).1.wf(
                db.iv(),
            ) && db.all@[j].1.key == db.all@[j].0 by {
                db.all@[j].1.lemma_wf_extends(pre_iv, db.iv());
            }
        }
        let ghost pre_errs = errs@;
        let ghost pre_db = *db;
        match parsed {
            Ok(l) => {
                let fresh = match db.get(l.key) {
                    Some(_) => false,
                    None => true,
                };
                if fresh {
                    db.insert(l);
                    proof {
                        assert forall|k: Id| old(db).has_key(k) implies db.has_key(k) by {
                            assert(pre_db.has_key(k));
                            let j = choose|j: int|
                                0 <= j < pre_db.all@.len() && (#[trigger] pre_db.all@[j]).0 == k;
                            assert(db.all@[j].0 == k);
                        }
                    }
                } else {
                    let mut e = String::from_str(records[i].key.as_str());
                    e.append(": duplicate key");
                    errs.push(e);
                    proof {
                        assert(errs@.last()@.subrange(0, records@[i as int].key@.len() as int)
                            =~= records@[i as int].key@);
                    }
                }
            },
            Err(be) => {
                let mut e = String::from_str(records[i].key.as_str());
                e.append(": ");
                e.append(be.message());
                errs.push(e);
                proof {
                    assert(errs@.last()@.subrange(0, records@[i as int].key@.len() as int)
                        =~= records@[i as int].key@);
                }
            },
        }
        proof {
            assert forall|j: int| 0 <= j < errs@.len() implies names_some_key(
                (#[trigger] errs@[j])@,
                records@,
            ) by {
                if j < pre_errs.len() {
                    assert(errs@[j] == pre_errs[j]);
                } else {
                    assert(names_key(errs@[j]@, records@[i as int].key@));
                }
            }
        }
        i += 1;
    }
    if errs.len() > 0 {
        Err(errs)
    } else {
        Ok(records.len())
    }
}

/// All fields agree except possibly the coordinates.
pub open spec fn same_but_coords(a: &Location, b: &Location) -> bool {
    &&& a.key == b.key
    &&& a.id == b.id
    &&& a.kind == b.kind
    &&& a.codes@ == b.codes@
    &&& a.names@ == b.names@
    &&& a.words@ == b.words@
    &&& a.parent_state == b.parent_state
    &&& a.parent_subdiv == b.parent_subdiv
}

/// What one code-list row leaves on a stored location: a locode takes a
/// parsable coordinate, everything else keeps its own.
pub open spec fn expected_coords(l: &Location, coord: Seq<char>) -> Option<Coordinates> {
    if l.kind == LocKind::Locode {
        match coord_spec(coord) {
            Some(p) => Some(p.0),
            None => l.coordinates,
        }
    } else {
        l.coordinates
    }
}

/// The row key is an interned string under which a location is stored.
pub open spec fn row_resolves(db: &LocationsDb, key: Seq<char>) -> bool {
    exists|u: Id| u < db.iv().len() && db.iv()[u as int] == key && #[trigger] db.has_key(u)
}

/// How many of the first `n` rows name no stored location.
pub open spec fn miss_count(db: &LocationsDb, rows: Seq<(String, String)>, n: int) -> int
    decreases n,
{
    if n <= 0 {
        0
    } else {
        miss_count(db, rows, n - 1) + (if row_resolves(db, rows[n - 1].0@) {
            0int
        } else {
            1int
        })
    }
}

/// Row `ri` names stored entry `j`.
pub open spec fn row_names_entry(
    db: &LocationsDb,
    rows: Seq<(String, String)>,
    ri: int,
    j: int,
) -> bool {
    rows[ri].0@ == db.iv()[db.all@[j].0 as int]
}

/// Some row before `n` names entry `j` with a parsable coordinate.
pub open spec fn parsable_row_before(
    db: &LocationsDb,
    rows: Seq<(String, String)>,
    n: int,
    j: int,
) -> bool {
    exists|ri: int|
        0 <= ri < n && #[trigger] row_names_entry(db, rows, ri, j) && coord_spec(
            rows[ri].1@,
        ) is Some
}

/// `c` is the parsed coordinate of some row before `n` naming entry `j`.
pub open spec fn coords_from_row_before(
    db: &LocationsDb,
    rows: Seq<(String, String)>,
    n: int,
    j: int,
    c: Option<Coordinates>,
) -> bool {
    exists|ri: int|
        0 <= ri < n && #[trigger] row_names_entry(db, rows, ri, j) && (match coord_spec(
            rows[ri].1@,
        ) {
            Some(p) => c == Some(p.0),
            None => false,
        })
}

/// Attach coordinates from the code-list rows. Keys and all location fields
/// but the coordinates are untouched; `misses` counts exactly the rows whose
/// key names no stored location; and every stored locode named by a parsable
/// row ends up carrying such a row's parsed coordinate.
pub fn parse_data_list(db: &mut LocationsDb, rows: &Vec<(String, String)>) -> (misses: usize)
    requires
        old(db).wf(),
    ensures
        final(db).wf(),
        final(db).interner == old(db).interner,
        final(db).all@.len() == old(db).all@.len(),
        forall|j: int|
            0 <= j < old(db).all@.len() ==> (#[trigger] final(db).all@[j]).0 == old(db).all@[j].0 && same_but_coords(&old(db).all@[j].1, &final(db).all@[j].1),
        misses as int == miss_count(old(db), rows@, rows@.len() as int),
        misses <= rows@.len(),
        forall|j: int|
            0 <= j < old(db).all@.len() && old(db).all@[j].1.kind == LocKind::Locode
                && parsable_row_before(old(db), rows@, rows@.len() as int, j)
                ==> coords_from_row_before(
                old(db),
                rows@,
                rows@.len() as int,
                j,
                (#[trigger] final(db).all@[j]).1.coordinates,
            ),
{
    let mut misses: usize = 0;
    let mut i: usize = 0;
    while i < rows.len()
        invariant
            db.wf(),
            i <= rows@.len(),
            misses <= i,
            db.interner == old(db).interner,
            db.all@.len() == old(db).all@.len(),
            forall|j: int|
                0 <= j < old(db).all@.len() ==> (#[trigger] db.all@[j]).0 == old(db).all@[j].0
                    && same_but_coords(&old(db).all@[j].1, &db.all@[j].1),
            misses as int == miss_count(old(db), rows@, i as int),
            forall|j: int|
                0 <= j < old(db).all@.len() && old(db).all@[j].1.kind == LocKind::Locode
                    && parsable_row_before(old(db), rows@, i as int, j) ==> coords_from_row_before(
                    old(db),
                    rows@,
                    i as int,
                    j,
                    (#[trigger] db.all@[j]).1.coordinates,
                ),
        decreases rows@.len() - i,
    {
        let lk = db.interner.lookup(rows[i].0.as_str());
        let ghost pre = *db;
        let ghost n = i as int;
        proof {
            assert forall|k: Id| pre.has_key(k) implies old(db).has_key(k) by {
                let j = choose|j: int|
                    0 <= j < pre.all@.len() && (#[trigger] pre.all@[j]).0 == k;
                assert(old(db).all@[j].0 == k);
            }
            assert forall|k: Id| old(db).has_key(k) implies pre.has_key(k) by {
                let j = choose|j: int|
                    0 <= j < old(db).all@.len() && (#[trigger] old(db).all@[j]).0 == k;
                assert(pre.all@[j].0 == k);
            }
        }
        let found = match lk {
            Some(u) => set_coordinates(db, u, rows[i].1.as_str()),
            None => false,
        };
        proof {
            // the verdict of this row matches the miss counter's predicate
            assert(miss_count(old(db), rows@, n + 1) == miss_count(old(db), rows@, n) + (
            if row_resolves(old(db), rows@[n].0@) {
                0int
            } else {
                1int
            }));
            match lk {
                Some(u) => {
                    assert(found == pre.has_key(u));
                    if row_resolves(old(db), rows@[n].0@) {
                        let u2 = choose|u2: Id|
                            u2 < old(db).iv().len() && old(db).iv()[u2 as int] == rows@[n].0@
                                && #[trigger] old(db).has_key(u2);
                        pre.interner.lemma_id_eq(u, u2);
                        assert(found);
                    }
                    if found {
                        assert(old(db).has_key(u));
                        assert(row_resolves(old(db), rows@[n].0@));
                    }
                },
                None => {
                    if row_resolves(old(db), rows@[n].0@) {
                        let u2 = choose|u2: Id|
                            u2 < old(db).iv().len() && old(db).iv()[u2 as int] == rows@[n].0@
                                && #[trigger] old(db).has_key(u2);
                        assert(pre.interner.spec_contains(rows@[n].0@));
                        assert(false);
                    }
                },
            }
            assert(found == row_resolves(old(db), rows@[n].0@));
            // locations keep everything but coordinates, and a named locode
            // takes this row's parsed coordinate
            assert forall|j: int|
                0 <= j < old(db).all@.len() implies (#[trigger] db.all@[j]).0 == old(db).all@[j].0 && same_but_coords(&old(db).all@[j].1, &db.all@[j].1) by {
                assert(same_but_coords(&old(db).all@[j].1, &pre.all@[j].1));
            }
            assert forall|j: int|
                0 <= j < old(db).all@.len() && old(db).all@[j].1.kind == LocKind::Locode
                    && parsable_row_before(old(db), rows@, n + 1, j) implies coords_from_row_before(
                old(db),
                rows@,
                n + 1,
                j,
                (#[trigger] db.all@[j]).1.coordinates,
            ) by {
                let k = old(db).all@[j].0;
                assert(pre.all@[j].0 == k && k < old(db).iv().len());
                match lk {
                    Some(u) => {
                        if k == u {
                            assert(db.all@[j].1.coordinates == expected_coords(
                                &pre.all@[j].1,
                                rows@[n].1@,
                            ));
                            assert(pre.all@[j].1.kind == LocKind::Locode);
                            match coord_spec(rows@[n].1@) {
                                Some(p) => {
                                    assert(row_names_entry(old(db), rows@, n, j));
                                    assert(coords_from_row_before(
                                        old(db),
                                        rows@,
                                        n + 1,
                                        j,
                                        db.all@[j].1.coordinates,
                                    ));
                                },
                                None => {
                                    assert(db.all@[j].1.coordinates
                                        == pre.all@[j].1.coordinates);
                                    let ri = choose|ri: int|
                                        0 <= ri < n + 1 && #[trigger] row_names_entry(
                                            old(db),
                                            rows@,
                                            ri,
                                            j,
                                        ) && coord_spec(rows@[ri].1@) is Some;
                                    assert(ri < n);
                                    assert(parsable_row_before(old(db), rows@, n, j));
                                },
                            }
                        } else {
                            // this row names a different entry: j is untouched
                            assert(db.all@[j] == pre.all@[j]);
                            let ri = choose|ri: int|
                                0 <= ri < n + 1 && #[trigger] row_names_entry(
                                    old(db),
                                    rows@,
                                    ri,
                                    j,
                                ) && coord_spec(rows@[ri].1@) is Some;
                            if ri == n {
                                assert(old(db).iv()[k as int] == old(db).iv()[u as int]);
                                pre.interner.lemma_id_eq(u, k);
                                assert(false);
                            }
                            assert(parsable_row_before(old(db), rows@, n, j));
                        }
                    },
                    None => {
                        let ri = choose|ri: int|
                            0 <= ri < n + 1 && #[trigger] row_names_entry(
                                old(db),
                                rows@,
                                ri,
                                j,
                            ) && coord_spec(rows@[ri].1@) is Some;
                        if ri == n {
                            assert(pre.interner.spec_contains(rows@[n].0@));
                            assert(false);
                        }
                        assert(parsable_row_before(old(db), rows@, n, j));
                    },
                }
            }
        }
        if !found {
            misses += 1;
        }
        i += 1;
    }
    misses
}

/// Parse and store a coordinate on the location stored under `key`, if any:
/// only that entry changes, and only its coordinates, to what the row's
/// coordinate text dictates.
fn set_coordinates(db: &mut LocationsDb, key: Id, coord: &str) -> (found: bool)
    requires
        old(db).wf(),
    ensures
        final(db).wf(),
        found == old(db).has_key(key),
        final(db).interner == old(db).interner,
        final(db).all@.len() == old(db).all@.len(),
        forall|j: int|
            0 <= j < old(db).all@.len() && old(db).all@[j].0 != key ==> (#[trigger] final(db).all@[j]) == old(db).all@[j],
        forall|j: int|
            0 <= j < old(db).all@.len() ==> (#[trigger] final(db).all@[j]).0 == old(db).all@[j].0 && same_but_coords(&old(db).all@[j].1, &final(db).all@[j].1),
        forall|j: int|
            0 <= j < old(db).all@.len() && old(db).all@[j].0 == key ==> (#[trigger] final(db).all@[j]).1.coordinates == expected_coords(&old(db).all@[j].1, coord@),
{
    let mut i: usize = 0;
    while i < db.all.len()
        invariant
            db.wf(),
            db == old(db),
            i <= db.all@.len(),
            forall|j: int| 0 <= j < i ==> (#[trigger] db.all@[j]).0 != key,
        decreases db.all@.len() - i,
    {
        if db.all[i].0 == key {
            let ghost pre = db.all@;
            let mut entry = db.all.remove(i);
            if matches!(entry.1.kind, LocKind::Locode) {
                match crate::coordinates::coordinate_parser(coord) {
                    Some((c, _)) => {
                        entry.1.coordinates = Some(c);
                    },
                    None => {},
                }
            }
            db.all.insert(i, entry);
            proof {
                assert(db.all@.len() == pre.len());
                assert forall|j: int| 0 <= j < db.all@.len() && j != i implies db.all@[j] == pre[
                    j
                ] by {
                    if j < i {
                        assert(db.all@[j] == pre.remove(i as int)[j]);
                    } else {
                        assert(db.all@[j] == pre.remove(i as int)[j - 1]);
                    }
                }
                assert(db.all@[i as int].0 == pre[i as int].0);
                assert(same_but_coords(&pre[i as int].1, &db.all@[i as int].1));
                assert(db.all@[i as int].1.coordinates == expected_coords(
                    &pre[i as int].1,
                    coord@,
                ));
                assert(db.all@[i as int].1.wf(db.iv()));
                assert(db.all@[i as int].1.key == db.all@[i as int].0);
                assert(old(db).has_key(key));
                // only this entry carries the key
                assert forall|j: int|
                    0 <= j < pre.len() && pre[j].0 != key implies db.all@[j] == pre[j] by {}
            }
            return true;
        }
        i += 1;
    }
    proof {
        if old(db).has_key(key) {
            let j = choose|j: int|
                0 <= j < old(db).all@.len() && (#[trigger] old(db).all@[j]).0 == key;
            assert(db.all@[j].0 != key);
            assert(false);
        }
    }
    false
}

} // verus!

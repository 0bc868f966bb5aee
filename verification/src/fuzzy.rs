//! Approximate term matching: the edit-distance specification, the trusted
//! distance computation, and the vocabulary automaton (an `fst` map from
//! sorted vocabulary tokens to dense ordinals) with prefix and
//! bounded-edit-distance lookup.
use fst::automaton::{Levenshtein, Str};
use fst::{Automaton, IntoStreamer, Streamer};
use vstd::prelude::*;

use crate::text::lex_lt;

verus! {

pub open spec fn min3(a: nat, b: nat, c: nat) -> nat {
    if a <= b && a <= c {
        a
    } else if b <= c {
        b
    } else {
        c
    }
}

/// The Levenshtein edit distance: the least number of character insertions,
/// deletions and substitutions turning `a` into `b`.
pub open spec fn lev(a: Seq<char>, b: Seq<char>) -> nat
    decreases a.len() + b.len(),
{
    if a.len() == 0 {
        b.len()
    } else if b.len() == 0 {
        a.len()
    } else if a[0] == b[0] {
        lev(a.drop_first(), b.drop_first())
    } else {
        1 + min3(
            lev(a.drop_first(), b),
            lev(a, b.drop_first()),
            lev(a.drop_first(), b.drop_first()),
        )
    }
}

/// Relies on `strsim::levenshtein`: the character edit distance of two
/// strings.
pub assume_specification[ strsim::levenshtein ](a: &str, b: &str) -> (r: usize)
    ensures
        r as nat == lev(a@, b@),
;

/// `t` is a prefix of `s`.
pub open spec fn is_prefix(t: Seq<char>, s: Seq<char>) -> bool {
    t.len() <= s.len() && s.subrange(0, t.len() as int) == t
}

#[verifier::external_type_specification]
#[verifier::external_body]
#[verifier::reject_recursive_types(D)]
pub struct ExFstMap<D>(fst::Map<D>);

/// The key-value pairs a vocabulary automaton holds.
pub uninterp spec fn fst_contents(m: fst::Map<Vec<u8>>) -> Map<Seq<char>, u64>;

/// The map described by a sequence of entries, later entries winning.
pub open spec fn entries_map(es: Seq<(Seq<char>, u64)>) -> Map<Seq<char>, u64>
    decreases es.len(),
{
    if es.len() == 0 {
        Map::empty()
    } else {
        entries_map(es.drop_last()).insert(es.last().0, es.last().1)
    }
}

pub open spec fn entry_views(es: Seq<(String, u64)>) -> Seq<(Seq<char>, u64)> {
    es.map_values(|p: (String, u64)| (p.0@, p.1))
}

/// Every pair of the map described by distinct-keyed entries is one of the
/// entries.
pub proof fn lemma_entries_map_pairs(es: Seq<(Seq<char>, u64)>)
    ensures
        forall|k: Seq<char>, v: u64|
            entries_map(es).contains_pair(k, v) ==> exists|j: int|
                0 <= j < es.len() && #[trigger] es[j] == (k, v),
    decreases es.len(),
{
    if es.len() > 0 {
        lemma_entries_map_pairs(es.drop_last());
        assert forall|k: Seq<char>, v: u64|
            entries_map(es).contains_pair(k, v) implies exists|j: int|
            0 <= j < es.len() && #[trigger] es[j] == (k, v) by {
            if k == es.last().0 && v == es.last().1 {
                assert(es[es.len() - 1] == (k, v));
            } else {
                assert(entries_map(es.drop_last()).contains_pair(k, v));
                let j = choose|j: int|
                    0 <= j < es.drop_last().len() && #[trigger] es.drop_last()[j] == (k, v);
                assert(es[j] == (k, v));
            }
        }
    }
}

/// With distinct keys, the map holds every entry's pair.
pub proof fn lemma_entries_map_complete(es: Seq<(Seq<char>, u64)>)
    requires
        forall|a: int, b: int|
            0 <= a < b < es.len() ==> (#[trigger] es[a]).0 != (#[trigger] es[b]).0,
    ensures
        forall|j: int|
            0 <= j < es.len() ==> entries_map(es).contains_pair((#[trigger] es[j]).0, es[j].1),
    decreases es.len(),
{
    if es.len() > 0 {
        lemma_entries_map_complete(es.drop_last());
        assert forall|j: int| 0 <= j < es.len() implies entries_map(es).contains_pair(
            (#[trigger] es[j]).0,
            es[j].1,
        ) by {
            if j < es.len() - 1 {
                assert(es.drop_last()[j] == es[j]);
                assert(entries_map(es.drop_last()).contains_pair(es[j].0, es[j].1));
                assert(es[j].0 != es.last().0);
            } else {
                assert(es[j] == es.last());
            }
        }
    }
}

/// Relies on `fst::Map::from_iter`: builds the map of exactly the given
/// entries when the keys come unique in lexicographic byte order (UTF-8 byte
/// order agrees with the code-point order `lex_lt` states).
#[verifier::external_body]
pub fn fst_from_entries(entries: &Vec<(String, u64)>) -> (r: fst::Map<Vec<u8>>)
    requires
        forall|i: int, j: int|
            0 <= i < j < entries@.len() ==> lex_lt(entries@[i].0@, entries@[j].0@),
    ensures
        fst_contents(r) == entries_map(entry_views(entries@)),
{
    fst::Map::from_iter(entries.iter().map(|p| (p.0.as_str(), p.1))).unwrap_or_default()
}

/// Fuzzy lookup of one term. Relies on fst's `Levenshtein` automaton (all
/// keys within the edit budget), `Str::starts_with` (all keys extending the
/// term), their union, and `Map::search` streaming every matching key with
/// its value. `None` when the distance automaton grew over fst's state limit.
#[verifier::external_body]
pub fn fst_fuzzy_lookup(m: &fst::Map<Vec<u8>>, term: &str, dist: u32) -> (r: Option<Vec<u64>>)
    ensures
        match r {
            Some(vals) => {
                &&& forall|i: int|
                    0 <= i < vals@.len() ==> exists|k: Seq<char>|
                        {
                            &&& fst_contents(*m).contains_pair(k, #[trigger] vals@[i])
                            &&& (lev(k, term@) <= dist || is_prefix(term@, k))
                        }
                &&& forall|k: Seq<char>|
                    fst_contents(*m).dom().contains(k) && (lev(k, term@) <= dist || is_prefix(
                        term@,
                        k,
                    )) ==> vals@.contains(#[trigger] fst_contents(*m)[k])
            },
            None => true,
        },
{
    let lev_aut = match Levenshtein::new(term, dist) {
        Ok(l) => l,
        Err(_) => return None,
    };
    let aut = lev_aut.union(Str::new(term).starts_with());
    let mut stream = m.search(aut).into_stream();
    let mut out: Vec<u64> = Vec::new();
    while let Some((_, v)) = stream.next() {
        out.push(v);
    }
    Some(out)
}

} // verus!

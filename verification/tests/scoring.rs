use berlin_search::interner::Interner;
use berlin_search::location::{LocKind, RawLocation};
use berlin_search::locations_db::{parse_data_block, LocationsDb};
use berlin_search::search::{SearchTerm, SearchableStringSet};

fn single_location_db(name: &str) -> LocationsDb {
    let mut db = LocationsDb::new();
    let records = vec![RawLocation {
        key: "TEST-KEY-x:1".to_string(),
        id: "x:1".to_string(),
        kind: LocKind::Airport,
        names: vec![name.to_string()],
        codes: vec![],
        parent_state: None,
        parent_subdiv: None,
    }];
    parse_data_block(&mut db, records).expect("ingest");
    db.mk_fst()
}

#[test]
fn exact_hit_scores_soft_max_plus_length() {
    let db = single_location_db("abercarn");
    let st = SearchTerm::from_raw_query(&db.interner, "abercarn".to_string(), None, 5, 3);
    let sc = st.match_str(&db.interner, "abercarn").expect("exact hit");
    assert_eq!(sc.score, 1000 + 8);
}

#[test]
fn fuzzy_hit_scores_scaled_similarity() {
    // one substitution in eight characters: floor(1000 * 7 / 8)
    let db = single_location_db("abercarn");
    let st = SearchTerm::from_raw_query(&db.interner, "abercorn".to_string(), None, 5, 3);
    let sc = st.match_str(&db.interner, "abercarn").expect("fuzzy hit");
    assert_eq!(sc.score, 875);
}

#[test]
fn prefix_hit_scores_soft_max_plus_twice_length() {
    let db = single_location_db("armagh city banbridge and craigavon");
    let st = SearchTerm::from_raw_query(&db.interner, "Armagh City".to_string(), None, 5, 3);
    let sc = st
        .match_str(&db.interner, "armagh city banbridge and craigavon")
        .expect("prefix hit");
    assert_eq!(sc.score, 1000 + 2 * "armagh city".len() as i64);
}

#[test]
fn adding_a_matching_term_never_lowers_a_subject_score() {
    // the monotonicity law on concrete values: one more inexact term can
    // only raise the max-reduction
    let mut interner = Interner::new();
    interner.intern("abercarn");
    let mut set = SearchableStringSet::new(Vec::new());
    set.add(&interner, "abercorn", "abercorn aber", true);
    let before = set.match_str(&interner, "abercarn").expect("first term matches");
    set.add(&interner, "aber", "abercorn aber", true);
    let after = set.match_str(&interner, "abercarn").expect("still matches");
    assert!(after.score >= before.score);
    assert_eq!(before.score, 875);
    assert_eq!(after.score, 1000 + 2 * 4);
}

#[test]
fn stop_word_subject_is_penalized_below_inclusion() {
    // "for" is a stop word: as soon as the query recognizes it, the
    // location named "for" must not surface, though its fuzzy score alone
    // (750) clears the threshold
    let db = single_location_db("for");
    let st = SearchTerm::from_raw_query(&db.interner, "fore".to_string(), None, 5, 3);
    assert_eq!(db.search(&st).len(), 1);
    let st = SearchTerm::from_raw_query(&db.interner, "for fore".to_string(), None, 5, 3);
    assert_eq!(db.search(&st).len(), 0);
}

#[test]
fn str_in_stop_words_recognizes_query_stop_words() {
    let db = single_location_db("for");
    let st = SearchTerm::from_raw_query(&db.interner, "for fore".to_string(), None, 5, 3);
    assert!(st.str_in_stop_words(&db.interner, "for"));
    assert!(!st.str_in_stop_words(&db.interner, "fore"));
}

#[test]
fn analyzer_classifies_words_and_ngrams() {
    let db = single_location_db("bognor regis");
    let st = SearchTerm::from_raw_query(&db.interner, "in Bognor Regis".to_string(), None, 5, 3);
    // "bognor", "regis" and the interned doublet "bognor regis" are exact;
    // "in" is too short for either list, the remaining n-grams are unknown
    assert_eq!(st.matches.exact.len(), 3);
    let exact: Vec<String> = st
        .matches
        .exact
        .iter()
        .map(|m| db.interner.resolve(m.term).clone())
        .collect();
    assert!(exact.contains(&"bognor".to_string()));
    assert!(exact.contains(&"regis".to_string()));
    assert!(exact.contains(&"bognor regis".to_string()));
    assert!(st.matches.stop_words.is_empty());
    // offsets index the first occurrence in the normalized query
    for m in &st.matches.exact {
        let term = db.interner.resolve(m.term);
        assert_eq!(m.offset.end - m.offset.start, term.chars().count());
    }
}

#[test]
fn codes_match_is_authoritative_at_soft_max() {
    let mut db = LocationsDb::new();
    let records = vec![RawLocation {
        key: "ISO-3166-1-gb".to_string(),
        id: "gb".to_string(),
        kind: LocKind::State,
        names: vec!["United Kingdom".to_string()],
        codes: vec!["gb".to_string(), "gbr".to_string()],
        parent_state: None,
        parent_subdiv: None,
    }];
    parse_data_block(&mut db, records).expect("ingest");
    let db = db.mk_fst();
    let st = SearchTerm::from_raw_query(&db.interner, "gbr".to_string(), None, 5, 3);
    let results = db.search(&st);
    assert_eq!(results.len(), 1);
    assert_eq!(results[0].1.score, 1000);
}

#[test]
fn rerank_without_matching_parents_changes_nothing() {
    // no scored candidate has a scored parent: the boost pass is the
    // identity, twice over
    let db = single_location_db("abercarn");
    let st = SearchTerm::from_raw_query(&db.interner, "abercarn".to_string(), None, 5, 3);
    let results = db.search(&st);
    assert_eq!(results.len(), 1);
    assert_eq!(results[0].1.score, 1008);
}

#[test]
fn retrieve_ignores_short_strings() {
    let db = single_location_db("abercarn");
    assert!(db.retrieve("x").is_none());
}

#[test]
fn limit_zero_gives_empty_results() {
    let db = single_location_db("abercarn");
    let st = SearchTerm::from_raw_query(&db.interner, "abercarn".to_string(), None, 0, 3);
    assert_eq!(db.search(&st).len(), 0);
}

#[test]
fn equal_scores_tie_break_deterministically() {
    // two locations with the same single name score identically; the tie
    // breaks on the key, so the order is fixed
    let mut db = LocationsDb::new();
    let records = vec![
        RawLocation {
            key: "TEST-KEY-a:1".to_string(),
            id: "a:1".to_string(),
            kind: LocKind::Airport,
            names: vec!["twin".to_string()],
            codes: vec![],
            parent_state: None,
            parent_subdiv: None,
        },
        RawLocation {
            key: "TEST-KEY-b:2".to_string(),
            id: "b:2".to_string(),
            kind: LocKind::Airport,
            names: vec!["twin".to_string()],
            codes: vec![],
            parent_state: None,
            parent_subdiv: None,
        },
    ];
    parse_data_block(&mut db, records).expect("ingest");
    let db = db.mk_fst();
    let st = SearchTerm::from_raw_query(&db.interner, "twin".to_string(), None, 5, 3);
    let first = db.search(&st);
    let again = db.search(&st);
    assert_eq!(first.len(), 2);
    assert_eq!(first[0].1.score, first[1].1.score);
    assert!(first[0].0 < first[1].0);
    assert_eq!(first, again);
}

use berlin_search::coordinates::coordinate_parser;
use berlin_search::location::{LocKind, RawLocation};
use berlin_search::locations_db::{parse_data_block, parse_data_list, LocationsDb};
use berlin_search::norm::normalize;
use berlin_search::search::SearchTerm;

fn raw(
    key: &str,
    id: &str,
    kind: LocKind,
    names: &[&str],
    codes: &[&str],
    parent_state: Option<&str>,
    parent_subdiv: Option<&str>,
) -> RawLocation {
    RawLocation {
        key: key.to_string(),
        id: id.to_string(),
        kind,
        names: names.iter().map(|s| s.to_string()).collect(),
        codes: codes.iter().map(|s| s.to_string()).collect(),
        parent_state: parent_state.map(|s| s.to_string()),
        parent_subdiv: parent_subdiv.map(|s| s.to_string()),
    }
}

fn fake_data() -> LocationsDb {
    let mut db = LocationsDb::new();
    let records = vec![
        raw(
            "ISO-3166-1-gb",
            "gb",
            LocKind::State,
            &["United Kingdom"],
            &["gb", "gbr"],
            None,
            None,
        ),
        raw("ISO-3166-1-bg", "bg", LocKind::State, &["Bulgaria"], &["bg", "bgr"], None, None),
        raw(
            "ISO-3166-2-gb:cay",
            "gb:cay",
            LocKind::Subdivision,
            &["Caerphilly"],
            &[],
            Some("ISO-3166-1-gb"),
            None,
        ),
        raw(
            "ISO-3166-2-gb:abc",
            "gb:abc",
            LocKind::Subdivision,
            &["Armagh City, Banbridge and Craigavon"],
            &[],
            Some("ISO-3166-1-gb"),
            None,
        ),
        raw(
            "ISO-3166-2-bg:02",
            "bg:02",
            LocKind::Subdivision,
            &["Burgas"],
            &[],
            Some("ISO-3166-1-bg"),
            None,
        ),
        raw(
            "UN-LOCODE-gb:abc",
            "gb:abc",
            LocKind::Locode,
            &["Abercarn"],
            &[],
            Some("ISO-3166-1-gb"),
            Some("ISO-3166-2-gb:cay"),
        ),
        raw(
            "UN-LOCODE-bg:blo",
            "bg:blo",
            LocKind::Locode,
            &["Lyuliakovo"],
            &[],
            Some("ISO-3166-1-bg"),
            Some("ISO-3166-2-bg:02"),
        ),
        raw(
            "UN-LOCODE-gb:bor",
            "gb:bor",
            LocKind::Locode,
            &["Bognor Regis"],
            &[],
            Some("ISO-3166-1-gb"),
            None,
        ),
        raw("MY-STANDARD-my:1", "my:1", LocKind::Airport, &["One1"], &[], None, None),
    ];
    let n = records.len();
    let inserted = parse_data_block(&mut db, records).expect("corpus should ingest");
    assert_eq!(inserted, n);
    let rows = vec![("UN-LOCODE-bg:blo".to_string(), "600N 01212E".to_string())];
    let misses = parse_data_list(&mut db, &rows);
    assert_eq!(misses, 0);
    db.mk_fst()
}

fn run(db: &LocationsDb, q: &str) -> Vec<String> {
    let st = SearchTerm::from_raw_query(&db.interner, q.to_string(), None, 5, 3);
    db.search(&st)
        .iter()
        .map(|(k, _)| db.interner.resolve(*k).clone())
        .collect()
}

#[test]
fn should_search_lyuliakovo() {
    let db = fake_data();
    let results = run(&db, "Lyuliakovo");
    assert_eq!(results.len(), 1);
    assert_eq!(results[0], "UN-LOCODE-bg:blo");
}

#[test]
fn should_search_abercorn() {
    let db = fake_data();
    let results = run(&db, "abercorn");
    assert_eq!(results.len(), 1);
    assert_eq!(results[0], "UN-LOCODE-gb:abc");
}

#[test]
fn should_search_punctuation() {
    let db = fake_data();
    for q in ["Armagh City", "Armagh City, Banbridge", "Armagh City, Banbridge and Craigavon"] {
        let results = run(&db, q);
        assert_eq!(results.len(), 1, "query: {}", q);
        assert_eq!(results[0], "ISO-3166-2-gb:abc", "query: {}", q);
    }
}

#[test]
fn should_search_long_sentence() {
    let db = fake_data();
    let cases: &[(&str, usize)] = &[
        ("Where are all the dentists in Abercorn I would like to find some somewhere", 1),
        ("WhereareallthedentistsinAbercornIwouldlisomesomewhere", 0),
        ("Whereareallthedentists inAbercornIwouldliketofind some somewhere", 0),
        ("Whereareallthedentists in Bognor Regis Iwouldlike some somewhere", 1),
        ("Whereareallthedentists in Bognore Regis Iwouldlike some somewhere", 1),
        ("Whereareallthedentists in Bognoreregis Iwouldlike some somewhere", 1),
        ("Whereareallthedentists in BognoreRegistrar Iwouldlike some somewhere", 0),
        ("Whereareallthedentists some somewhere", 0),
    ];
    for (q, expected) in cases {
        let results = run(&db, q);
        assert_eq!(results.len(), *expected, "query: {}", q);
    }
}

#[test]
fn should_search_generic() {
    let db = fake_data();
    let results = run(&db, "One1");
    assert_eq!(results.len(), 1);
    assert_eq!(results[0], "MY-STANDARD-my:1");
}

#[test]
fn search_respects_limit() {
    // limit caps the result list even when more locations match
    let db = fake_data();
    let st = SearchTerm::from_raw_query(&db.interner, "bognor burgas".to_string(), None, 1, 3);
    let results = db.search(&st);
    assert_eq!(results.len(), 1);
}

#[test]
fn search_sorts_by_score_descending() {
    let db = fake_data();
    let st = SearchTerm::from_raw_query(&db.interner, "bognor burgas".to_string(), None, 5, 3);
    let results = db.search(&st);
    assert_eq!(results.len(), 2);
    assert!(results[0].1.score >= results[1].1.score);
    // the exact one-word hit outranks the fuzzy doublet hit
    assert_eq!(db.interner.resolve(results[0].0), "ISO-3166-2-bg:02");
    assert_eq!(db.interner.resolve(results[1].0), "UN-LOCODE-gb:bor");
}

#[test]
fn search_scores_all_above_threshold() {
    let db = fake_data();
    for q in ["bognor burgas", "bulgaria lyuliakovo", "abercorn"] {
        let st = SearchTerm::from_raw_query(&db.interner, q.to_string(), None, 10, 3);
        for (_, sc) in db.search(&st) {
            assert!(sc.score > berlin_search::SEARCH_INCLUSION_THRESHOLD);
        }
    }
}

#[test]
fn parent_match_boosts_child() {
    // both the state and its locode match; the child's boosted score wins
    let db = fake_data();
    let st = SearchTerm::from_raw_query(&db.interner, "bulgaria lyuliakovo".to_string(), None, 5, 3);
    let results = db.search(&st);
    assert_eq!(results.len(), 2);
    assert_eq!(db.interner.resolve(results[0].0), "UN-LOCODE-bg:blo");
    assert_eq!(db.interner.resolve(results[1].0), "ISO-3166-1-bg");
    // child: exact hit 1000 + 10, boosted by half the parent's 1000 + 8
    assert_eq!(results[1].1.score, 1008);
    assert_eq!(results[0].1.score, 1010 + 1008 / 2);
}

#[test]
fn state_code_is_authoritative() {
    let db = fake_data();
    let results = run(&db, "gb");
    assert_eq!(results.len(), 1);
    assert_eq!(results[0], "ISO-3166-1-gb");
}

#[test]
fn empty_query_gives_empty_results() {
    let db = fake_data();
    let results = run(&db, "");
    assert_eq!(results.len(), 0);
}

#[test]
fn state_filter_excludes_other_states() {
    let db = fake_data();
    let st = SearchTerm::from_raw_query(
        &db.interner,
        "abercarn".to_string(),
        Some("ISO-3166-1-bg".to_string()),
        5,
        3,
    );
    assert_eq!(db.search(&st).len(), 0);
    let st = SearchTerm::from_raw_query(
        &db.interner,
        "abercarn".to_string(),
        Some("ISO-3166-1-gb".to_string()),
        5,
        3,
    );
    assert_eq!(db.search(&st).len(), 1);
}

#[test]
fn rejects_subdivision_without_parent() {
    let mut db = LocationsDb::new();
    let records = vec![raw("ISO-3166-2-xx:01", "xx:01", LocKind::Subdivision, &["Nowhere"], &[], None, None)];
    let errs = parse_data_block(&mut db, records).expect_err("record must be rejected");
    assert_eq!(errs.len(), 1);
    assert!(errs[0].contains("ISO-3166-2-xx:01"));
}

#[test]
fn missing_csv_key_is_counted_not_fatal() {
    let db = fake_data();
    let mut db = db;
    let rows = vec![("UN-LOCODE-zz:zzz".to_string(), "600N 01212E".to_string())];
    let misses = parse_data_list(&mut db, &rows);
    assert_eq!(misses, 1);
}

#[test]
fn can_parse_coordinates() {
    let res = coordinate_parser("600N 01212E").unwrap();
    assert!(res.1 == "600N 01212E".chars().count());
    let c = res.0;
    let lat = (c.lat_deg as f64 + c.lat_min as f64 / 60.0) * if c.lat_south { -1.0 } else { 1.0 };
    let lon = (c.lon_deg as f64 + c.lon_min as f64 / 60.0) * if c.lon_west { -1.0 } else { 1.0 };
    assert!((lat - 60.0).abs() < 1e-3);
    assert!((lon - 12.2).abs() < 1e-3);
}

#[test]
fn coordinate_parser_rejects_garbage() {
    assert!(coordinate_parser("no coordinates here").is_none());
    assert!(coordinate_parser("6N 01212E").is_none());
    assert!(coordinate_parser("600X 01212E").is_none());
    assert!(coordinate_parser("600N01212E").is_none());
}

#[test]
fn normalize_folds_case_punctuation_and_diacritics() {
    assert_eq!(normalize("Armagh City, Banbridge and Craigavon"), "armagh city banbridge and craigavon");
    assert_eq!(normalize("  Lyuliakovo  "), "lyuliakovo");
    assert_eq!(normalize("S\u{e3}o   Paulo!"), "sao paulo");
    assert_eq!(normalize(""), "");
}

#[test]
fn normalize_is_idempotent_on_samples() {
    for s in [
        "Armagh City, Banbridge and Craigavon",
        "  WEIRD\tSpacing  here ",
        "S\u{e3}o Paulo",
        "One1",
        "",
        "-- punctuation only --",
    ] {
        let once = normalize(s);
        assert_eq!(normalize(&once), once);
    }
}

#[test]
fn retrieve_finds_interned_keys_only() {
    let db = fake_data();
    let loc = db.retrieve("UN-LOCODE-bg:blo").expect("stored key");
    assert_eq!(db.interner.resolve(loc.key), "UN-LOCODE-bg:blo");
    assert!(db.retrieve("UN-LOCODE-zz:zzz").is_none());
    assert!(db.retrieve("g").is_none());
}

#[test]
fn csv_coordinates_are_attached() {
    let db = fake_data();
    let loc = db.retrieve("UN-LOCODE-bg:blo").expect("stored key");
    let c = loc.coordinates.expect("coordinates set from the code list");
    assert_eq!(c.lat_deg, 60);
    assert_eq!(c.lat_min, 0);
    assert!(!c.lat_south);
    assert_eq!(c.lon_deg, 12);
    assert_eq!(c.lon_min, 12);
    assert!(!c.lon_west);
}

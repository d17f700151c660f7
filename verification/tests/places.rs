use schattenweg_core::model::{Place, PlaceKind};
use schattenweg_core::places::{fold, PlaceIndex};

fn place(name: &str, kind: PlaceKind) -> Place {
    Place { name: name.to_string(), kind, lat_bits: 52.52f64.to_bits(), lon_bits: 13.40f64.to_bits() }
}

fn index() -> PlaceIndex {
    PlaceIndex::new(vec![
        place("Alexanderplatz", PlaceKind::Locality),
        place("Alexanderplatz Bahnhof Nordseite", PlaceKind::Station),
        place("Karl-Marx-Allee", PlaceKind::Street),
        place("Müllerstraße", PlaceKind::Street),
        place("Prenzlauer Berg", PlaceKind::Locality),
    ])
}

#[test]
fn prefix_matches_outrank_contains() {
    let hits = index().search("alexander", 10);
    assert_eq!(hits[0].name, "Alexanderplatz");
    assert_eq!(hits[1].name, "Alexanderplatz Bahnhof Nordseite");
}

#[test]
fn matches_mid_word() {
    let hits = index().search("marx", 10);
    assert_eq!(hits.len(), 1);
    assert_eq!(hits[0].name, "Karl-Marx-Allee");
}

#[test]
fn folds_umlauts_and_eszett() {
    // Typed without the umlaut, and without the ß.
    assert_eq!(index().search("muller", 10)[0].name, "Müllerstraße");
    assert_eq!(index().search("müllerstrasse", 10)[0].name, "Müllerstraße");
}

#[test]
fn ignores_case_and_surrounding_space() {
    assert_eq!(index().search("  PRENZLAUER ", 10)[0].name, "Prenzlauer Berg");
}

#[test]
fn empty_query_returns_nothing() {
    assert!(index().search("   ", 10).is_empty());
}

#[test]
fn limit_is_respected() {
    assert_eq!(index().search("a", 2).len(), 2);
}

#[test]
fn duplicate_street_names_collapse() {
    // OSM splits a street into many ways; each would arrive separately.
    let idx = PlaceIndex::new(vec![
        place("Hauptstraße", PlaceKind::Street),
        place("Hauptstraße", PlaceKind::Street),
        place("Hauptstraße", PlaceKind::Street),
    ]);
    assert_eq!(idx.len(), 1);
}

// ---------------------------------------------------------------------------

fn chars(s: &str) -> Vec<char> {
    s.chars().collect()
}

#[test]
fn fold_maps_accents_and_case() {
    assert_eq!(fold("  Straße "), chars("strasse"));
    assert_eq!(fold("ÀÉÎÕÜ çñ"), chars("aeiou cn"));
    assert_eq!(fold("Øresund"), chars("oresund"));
    assert_eq!(fold(""), Vec::<char>::new());
}

#[test]
fn ranking_is_rank_then_length_then_name() {
    let idx = PlaceIndex::new(vec![
        place("Zoo Platz", PlaceKind::Street),
        place("Am Platz", PlaceKind::Street),
        place("Platz B", PlaceKind::Street),
        place("Platz A", PlaceKind::Street),
        place("Platzweg", PlaceKind::Street),
    ]);
    let names: Vec<String> = idx.search("platz", 10).into_iter().map(|p| p.name).collect();
    assert_eq!(names, vec!["Platz A", "Platz B", "Platzweg", "Am Platz", "Zoo Platz"]);
    let names: Vec<String> = idx.search("platz", 3).into_iter().map(|p| p.name).collect();
    assert_eq!(names, vec!["Platz A", "Platz B", "Platzweg"]);
    assert!(idx.search("platz", 0).is_empty());
    assert!(idx.search("nowhere", 10).is_empty());
}

#[test]
fn same_name_different_kind_stays_apart() {
    let idx = PlaceIndex::new(vec![
        place("Mitte", PlaceKind::Station),
        place("Mitte", PlaceKind::Locality),
        place("Mitte", PlaceKind::Locality),
        place("Anfang", PlaceKind::Street),
    ]);
    assert_eq!(idx.len(), 3);
    assert!(!idx.is_empty());
    let hits = idx.search("mitte", 10);
    assert_eq!(hits.len(), 2);
    // Equal in rank, length and name: the index order (stable) decides.
    assert_eq!(hits[0].kind, PlaceKind::Station);
    assert_eq!(hits[1].kind, PlaceKind::Locality);
    assert!(PlaceIndex::new(vec![]).is_empty());
}

#[test]
fn first_of_a_duplicate_run_is_kept() {
    let mut a = place("Weg", PlaceKind::Street);
    a.lat_bits = 1;
    let mut b = place("Weg", PlaceKind::Street);
    b.lat_bits = 2;
    let idx = PlaceIndex::new(vec![a, b]);
    let hits = idx.search("weg", 5);
    assert_eq!(hits.len(), 1);
    assert_eq!(hits[0].lat_bits, 1);
}

#[test]
fn every_match_is_found_under_the_limit_and_the_cut_keeps_the_best() {
    let idx = PlaceIndex::new(vec![
        place("Weg C", PlaceKind::Street),
        place("Alter Weg", PlaceKind::Street),
        place("Weg", PlaceKind::Street),
        place("Wegscheide", PlaceKind::Locality),
        place("Ostbahnhof", PlaceKind::Station),
    ]);
    let names = |r: Vec<Place>| r.into_iter().map(|p| p.name).collect::<Vec<_>>();
    // All four matches, best first.
    assert_eq!(names(idx.search("weg", 10)), vec!["Weg", "Weg C", "Wegscheide", "Alter Weg"]);
    // Cut at two: the two best remain.
    assert_eq!(names(idx.search("weg", 2)), vec!["Weg", "Weg C"]);
    assert_eq!(names(idx.search("weg", 0)), Vec::<String>::new());
}

#[test]
fn unicode_white_space_around_the_query_is_ignored() {
    let idx = index();
    let plain = idx.search("marx", 10);
    for padded in ["\u{3000}marx", "marx\u{a0}", "\t\u{2003}marx\u{85}\n", "\u{202f}marx\u{2028}"] {
        let hits = idx.search(padded, 10);
        assert_eq!(hits.len(), plain.len(), "{padded:?}");
        assert_eq!(hits[0].name, plain[0].name);
    }
}

#[test]
fn ascii_letter_case_of_the_query_is_ignored() {
    let idx = index();
    let names = |r: Vec<Place>| r.into_iter().map(|p| p.name).collect::<Vec<_>>();
    let lower = names(idx.search("alexanderplatz b", 10));
    assert_eq!(lower, vec!["Alexanderplatz Bahnhof Nordseite"]);
    assert_eq!(names(idx.search("ALEXANDERPLATZ B", 10)), lower);
    assert_eq!(names(idx.search("aLeXaNdErPlAtZ b", 10)), lower);
}

use ord::db::{Database, WorkingDatabase};
use ord::doc::{StyledText, Tint};
use ord::lang::{Word, POS};
use ord::parser::{MatchType, POSTypeFlags, PopularityBounds};
use ord::session::{
    all_have_variants, lookup_phones, lookup_words, phone_summary, sort_found_words, sort_order, text_less,
};

fn verb(variant: &str, phone: &str) -> Word {
    Word {
        variants: vec![variant.to_string()],
        phones: vec![phone.to_string()],
        definition: format!("to {variant}"),
        standard: true,
        pos: POS::Verb { present: format!("{variant}r"), past: format!("{variant}t") },
    }
}

fn sample() -> WorkingDatabase {
    let entries = vec![
        (1u128, verb("spise", "SPISE")),
        (2u128, verb("bade", "BADE")),
        (3u128, verb("bake", "BAKE")),
        (4u128, verb("bade", "BADE")),
        (5u128, verb("åpne", "OPNE")),
    ];
    WorkingDatabase::from_database(Database::from_entries(1, entries))
}

fn text_of(t: &StyledText) -> Vec<String> {
    t.lines
        .iter()
        .map(|l| l.spans.iter().map(|s| s.content.clone()).collect::<String>())
        .collect()
}

fn chars(s: &str) -> Vec<char> {
    s.chars().collect()
}

#[test]
fn character_order() {
    assert!(text_less(&chars("a"), &chars("b")));
    assert!(text_less(&chars("ab"), &chars("abc")));
    assert!(!text_less(&chars("abc"), &chars("abc")));
    assert!(text_less(&chars("z"), &chars("å")));
    assert!(text_less(&chars(""), &chars("a")));
}

#[test]
fn sorting_is_stable() {
    let keys: Vec<String> = ["b", "a", "b", "c", "a"].iter().map(|s| s.to_string()).collect();
    assert_eq!(sort_order(&keys), vec![1, 4, 0, 2, 3]);
    assert!(sort_order(&Vec::new()).is_empty());
}

#[test]
fn sorting_agrees_with_strings() {
    let keys: Vec<String> = ["øl", "bil", "Bil", "æble", "ål", "bi"].iter().map(|s| s.to_string()).collect();
    let order = sort_order(&keys);
    let mut expected = keys.clone();
    expected.sort();
    let got: Vec<String> = order.into_iter().map(|i| keys[i].clone()).collect();
    assert_eq!(got, expected);
}

#[test]
fn words_sorted_by_first_variant() {
    let mut db = sample();
    let ids = lookup_words(&mut db, "^ba", MatchType::Regex, POSTypeFlags::all(), &Vec::new()).unwrap();
    assert_eq!(ids.len(), 3);
    assert!(all_have_variants(&db, &ids));
    let found = sort_found_words(&db, &ids);
    let variants: Vec<&str> = found.iter().map(|(_, w)| w.variants[0].as_str()).collect();
    assert_eq!(variants, vec!["bade", "bade", "bake"]);
    let ids: Vec<u128> = found.iter().map(|(id, _)| *id).collect();
    assert_eq!(ids[2], 3);
}

#[test]
fn words_not_found() {
    let mut db = sample();
    let err = lookup_words(&mut db, "tog", MatchType::Standard, POSTypeFlags::all(), &Vec::new()).unwrap_err();
    assert_eq!(text_of(&err), vec!["found no words which matched tog"]);
    assert_eq!(err.lines[0].spans[0].style.tint, Some(Tint::Red));
}

#[test]
fn words_bad_regex() {
    let mut db = sample();
    let err = lookup_words(&mut db, "(", MatchType::Regex, POSTypeFlags::all(), &Vec::new()).unwrap_err();
    assert!(text_of(&err)[0].starts_with("regex error: "));
    let expected = format!("regex error: {}", regex::Regex::new("(").unwrap_err());
    assert_eq!(text_of(&err).join("\n"), expected);
}

#[test]
fn phones_sorted() {
    let mut db = sample();
    let found = lookup_phones(&mut db, None, &Vec::new(), None).unwrap();
    let phones: Vec<&str> = found.iter().map(|(p, _)| p.as_str()).collect();
    assert_eq!(phones, vec!["BADE", "BAKE", "OPNE", "SPISE"]);
    let mut bade = found[0].1.clone();
    bade.sort();
    assert_eq!(bade, vec![2, 4]);
}

#[test]
fn phones_not_found() {
    let mut db = sample();
    let err = lookup_phones(&mut db, None, &Vec::new(), Some(PopularityBounds::LowHigh { low: Some(3), high: None }))
        .unwrap_err();
    assert_eq!(text_of(&err), vec!["could not find any matching phones"]);
}

#[test]
fn phones_bad_regex() {
    let mut db = sample();
    let err = lookup_phones(&mut db, Some(("[", MatchType::Regex)), &Vec::new(), None).unwrap_err();
    assert!(text_of(&err)[0].starts_with("regex error "));
    assert!(!text_of(&err)[0].starts_with("regex error:"));
    let expected = format!("regex error {}", regex::Regex::new("[").unwrap_err());
    assert_eq!(text_of(&err).join("\n"), expected);
}

#[test]
fn phone_summaries() {
    let db = sample();
    assert_eq!(phone_summary(&db, &vec![2, 5, 1]), "bade åpne spise");
    assert_eq!(phone_summary(&db, &Vec::new()), "");
}

#[test]
fn variants_present() {
    let db = sample();
    assert!(all_have_variants(&db, &vec![1, 2]));
    assert!(!all_have_variants(&db, &vec![1, 9]));
    let mut other = sample();
    let id = other.new_word(Word { variants: Vec::new(), ..verb("x", "X") });
    assert!(!all_have_variants(&other, &vec![id]));
}

use ord::db::{
    find_phone, format_word, parse_sheet_line, process_phone, process_phone_with, search_english,
    set_flags, update, Database, SheetError, WorkingDatabase,
};
use ord::doc::{StyledText, Tint};
use ord::lang::{POSType, ParticleCategory, Word, POS};
use ord::parser::{MatchType, POSTypeFlags, PopularityBounds, SheetType};

fn noun(variants: &[&str], phones: &[&str], definition: &str) -> Word {
    let key = variants[0];
    Word {
        variants: variants.iter().map(|s| s.to_string()).collect(),
        phones: phones.iter().map(|s| s.to_string()).collect(),
        definition: definition.to_string(),
        standard: true,
        pos: POS::Noun {
            plural: ord::lang::generate_noun_plural(key),
            definite: ord::lang::generate_noun_definite(key),
            definite_plural: ord::lang::generate_noun_definite_plural(key),
        },
    }
}

fn verb(variants: &[&str], phones: &[&str], definition: &str) -> Word {
    Word {
        variants: variants.iter().map(|s| s.to_string()).collect(),
        phones: phones.iter().map(|s| s.to_string()).collect(),
        definition: definition.to_string(),
        standard: true,
        pos: POS::Verb {
            present: format!("{}r", variants[0]),
            past: format!("{}t", variants[0]),
        },
    }
}

fn sample() -> WorkingDatabase {
    let entries = vec![
        (1u128, noun(&["bil", "auto"], &["BIL"], "car")),
        (2u128, noun(&["hus"], &["HUS", "HUSY"], "house")),
        (3u128, verb(&["snakke"], &["SNAKE"], "to talk")),
        (4u128, noun(&["båt"], &["BOT"], "boat, a small ship")),
        (5u128, verb(&["bile"], &["BIL"], "to drive a car")),
    ];
    WorkingDatabase::from_database(Database::from_entries(1, entries))
}

fn plain_lines(t: &StyledText) -> Vec<String> {
    t.lines
        .iter()
        .map(|l| l.spans.iter().map(|s| s.content.clone()).collect::<String>())
        .collect()
}

fn sorted(mut v: Vec<u128>) -> Vec<u128> {
    v.sort();
    v
}

#[test]
fn empty_database() {
    let db = Database::default();
    assert_eq!(db.version(), 1);
    assert_eq!(db.len(), 0);
    assert!(db.fetch(7).is_none());
}

#[test]
fn entries_read_back() {
    let db = sample();
    assert_eq!(db.database().len(), 5);
    assert_eq!(db.fetch(2).unwrap().word.definition, "house");
    let mut ids: Vec<u128> = db.database().entries().into_iter().map(|(id, _)| id).collect();
    ids.sort();
    assert_eq!(ids, vec![1, 2, 3, 4, 5]);
    assert_eq!(db.database().debug_get_n(3).len(), 3);
    assert_eq!(db.database().debug_get_n(12).len(), 5);
}

#[test]
fn working_copy_settings() {
    let db = sample();
    assert!(db.ignore_terminal_y());
    assert!(!db.ignore_h());
}

#[test]
fn find_word_by_any_variant() {
    let mut db = sample();
    let found = db.find_word("auto", MatchType::Standard, POSTypeFlags::all(), &Vec::new()).unwrap();
    assert_eq!(found, vec![1]);
    let found = db.find_word("bil", MatchType::Standard, POSTypeFlags::all(), &Vec::new()).unwrap();
    assert_eq!(found, vec![1]);
    let found = db.find_word("tog", MatchType::Standard, POSTypeFlags::all(), &Vec::new()).unwrap();
    assert!(found.is_empty());
}

#[test]
fn find_word_by_regex() {
    let mut db = sample();
    let found = db.find_word("^bil", MatchType::Regex, POSTypeFlags::all(), &Vec::new()).unwrap();
    assert_eq!(sorted(found), vec![1, 5]);
}

#[test]
fn find_word_regex_error() {
    let mut db = sample();
    let err = db.find_word("(", MatchType::Regex, POSTypeFlags::all(), &Vec::new()).unwrap_err();
    assert!(err.message.contains("unclosed group"));
    assert_eq!(err.message, regex::Regex::new("(").unwrap_err().to_string());
}

#[test]
fn find_word_with_guards() {
    let mut db = sample();
    let verbs = POSTypeFlags::from_type(POSType::Verb);
    let found = db.find_word("^bil", MatchType::Regex, verbs, &Vec::new()).unwrap();
    assert_eq!(found, vec![5]);
    let particles = POSTypeFlags::from_type(POSType::Particle);
    let found = db.find_word("bil", MatchType::Standard, particles, &Vec::new()).unwrap();
    assert!(found.is_empty());
}

#[test]
fn find_word_fuzzy_takes_the_verdicts() {
    let mut db = sample();
    let keys = db.get_word_map().keys();
    let hits: Vec<bool> = keys.iter().map(|k| k == "hus" || k == "snakke").collect();
    let found = db.find_word("whatever", MatchType::Fuzzy, POSTypeFlags::all(), &hits).unwrap();
    assert_eq!(sorted(found), vec![2, 3]);
}

#[test]
fn new_word_is_found() {
    let mut db = sample();
    db.get_word_map();
    let id = db.new_word(noun(&["tog"], &["TOG"], "train"));
    assert_eq!((id >> 76) & 0xF, 7);
    assert_eq!(db.fetch(id).unwrap().word.definition, "train");
    let found = db.find_word("tog", MatchType::Standard, POSTypeFlags::all(), &Vec::new()).unwrap();
    assert_eq!(found, vec![id]);
}

#[test]
fn new_words_get_distinct_ids() {
    let mut db = sample();
    let a = db.new_word(noun(&["a"], &["A"], "a"));
    let b = db.new_word(noun(&["b"], &["B"], "b"));
    assert_ne!(a, b);
}

#[test]
fn update_word_replaces() {
    let mut db = sample();
    db.get_word_map();
    assert!(db.update_word(2, noun(&["hytte"], &["HYTE"], "cabin")));
    assert_eq!(db.fetch(2).unwrap().word.definition, "cabin");
    let found = db.find_word("hus", MatchType::Standard, POSTypeFlags::all(), &Vec::new()).unwrap();
    assert!(found.is_empty());
    let found = db.find_word("hytte", MatchType::Standard, POSTypeFlags::all(), &Vec::new()).unwrap();
    assert_eq!(found, vec![2]);
}

#[test]
fn update_word_missing_target() {
    let mut db = sample();
    assert!(!db.update_word(99, noun(&["x"], &["X"], "x")));
    assert!(db.fetch(99).is_none());
    assert_eq!(db.database().len(), 5);
}

#[test]
fn phones_as_indexed() {
    let db = sample();
    assert_eq!(process_phone(&db, "HUSY"), "HUS");
    assert_eq!(process_phone_with(false, false, "HUSY"), "HUSY");
    assert_eq!(process_phone_with(true, true, "HAHY"), "A");
    assert_eq!(process_phone_with(true, false, "YY"), "Y");
}

#[test]
fn find_phone_standard() {
    let mut db = sample();
    let map = db.get_phone_map();
    let found = find_phone(map, Some(("BIL", MatchType::Standard)), &Vec::new(), None).unwrap();
    assert_eq!(found.len(), 1);
    assert_eq!(found[0].0, "BIL");
    assert_eq!(sorted(found[0].1.clone()), vec![1, 5]);
}

#[test]
fn find_phone_terminal_y_merges() {
    let mut db = sample();
    let map = db.get_phone_map();
    let found = find_phone(map, Some(("HUS", MatchType::Standard)), &Vec::new(), None).unwrap();
    assert_eq!(found.len(), 1);
    assert_eq!(found[0].1, vec![2]);
}

#[test]
fn find_phone_bounds() {
    let mut db = sample();
    let map = db.get_phone_map();
    let unique = find_phone(map, None, &Vec::new(), Some(PopularityBounds::Unique)).unwrap();
    let mut phones: Vec<String> = unique.into_iter().map(|(p, _)| p).collect();
    phones.sort();
    assert_eq!(phones, vec!["BOT", "HUS", "SNAKE"]);
    let popular = find_phone(
        map,
        None,
        &Vec::new(),
        Some(PopularityBounds::LowHigh { low: Some(2), high: None }),
    )
    .unwrap();
    assert_eq!(popular.len(), 1);
    assert_eq!(popular[0].0, "BIL");
    let none = find_phone(
        map,
        None,
        &Vec::new(),
        Some(PopularityBounds::LowHigh { low: None, high: Some(0) }),
    )
    .unwrap();
    assert!(none.is_empty());
}

#[test]
fn find_phone_regex_error() {
    let mut db = sample();
    let map = db.get_phone_map();
    let err = find_phone(map, Some(("[", MatchType::Regex)), &Vec::new(), None).unwrap_err();
    assert_eq!(err.message, regex::Regex::new("[").unwrap_err().to_string());
    let found = find_phone(map, Some(("^S", MatchType::Regex)), &Vec::new(), None).unwrap();
    assert_eq!(found.len(), 1);
    assert_eq!(found[0].0, "SNAKE");
}

#[test]
fn flags_report_and_reset() {
    let mut db = sample();
    db.get_phone_map();
    let report = set_flags(&mut db, Some(false), Some(true));
    assert_eq!(
        report,
        "Current flags:\n\nIgnore terminal Y:        Off\nIgnore H:                 On\n"
    );
    assert!(!db.ignore_terminal_y());
    assert!(db.ignore_h());
    let map = db.get_phone_map();
    let found = find_phone(map, Some(("USY", MatchType::Standard)), &Vec::new(), None).unwrap();
    assert_eq!(found[0].1, vec![2]);
}

#[test]
fn flags_left_alone() {
    let mut db = sample();
    let report = set_flags(&mut db, None, None);
    assert_eq!(
        report,
        "Current flags:\n\nIgnore terminal Y:        On\nIgnore H:                 Off\n"
    );
}

#[test]
fn formatted_noun() {
    let db = sample();
    let w = noun(&["bil", "auto"], &["BIL", "BILY"], "car");
    let t = format_word(&db, &w);
    assert_eq!(
        plain_lines(&t),
        vec![
            "%% bil,auto %%",
            "> noun",
            "",
            "car",
            "",
            "Phones: BIL, BIL",
            "",
            "Plural:       biler",
            "Definite:     bilet",
            "Def. Plural:  bilene",
            "",
            "",
        ]
    );
    assert!(t.lines[0].spans[0].style.bold);
    assert_eq!(t.lines[0].spans[0].style.tint, Some(Tint::Blue));
    assert!(t.lines[1].spans[0].style.italic);
    assert!(t.lines[5].spans[1].style.bold);
}

#[test]
fn formatted_irregular_particle() {
    let db = sample();
    let w = Word {
        variants: vec!["og".to_string()],
        phones: vec![],
        definition: "and".to_string(),
        standard: false,
        pos: POS::Particle { category: ParticleCategory::Conjunction },
    };
    assert_eq!(
        plain_lines(&format_word(&db, &w)),
        vec![
            "%% og %%",
            "> particle (conjunction)",
            "",
            "and",
            "",
            "Phones: ",
            "",
            " * Irregular",
            "",
            "",
            "",
        ]
    );
}

#[test]
fn search_definitions() {
    let db = sample();
    let t = search_english(&db, "car");
    let lines = plain_lines(&t);
    let headings: Vec<&String> = lines.iter().filter(|l| l.starts_with("%%")).collect();
    assert_eq!(headings.len(), 2);
    assert!(plain_lines(&search_english(&db, "zebra")).is_empty());
}

#[test]
fn sheet_line_noun_regular() {
    let w = parse_sheet_line("bil,auto\tBIL\tcar\t\t\t", SheetType::Nouns).unwrap();
    assert_eq!(w.variants, vec!["bil", "auto"]);
    assert_eq!(w.phones, vec!["BIL"]);
    assert_eq!(w.definition, "car");
    assert!(w.standard);
    match w.pos {
        POS::Noun { plural, definite, definite_plural } => {
            assert_eq!(plural, "biler");
            assert_eq!(definite, "bilet");
            assert_eq!(definite_plural, "bilene");
        }
        _ => panic!("expected a noun"),
    }
}

#[test]
fn sheet_line_noun_irregular() {
    let w = parse_sheet_line("mann\tMAN\tman\tmenn\t\t", SheetType::Nouns).unwrap();
    assert!(!w.standard);
    match w.pos {
        POS::Noun { plural, definite, .. } => {
            assert_eq!(plural, "menn");
            assert_eq!(definite, "mannet");
        }
        _ => panic!("expected a noun"),
    }
}

#[test]
fn sheet_line_verb_and_descriptor() {
    let v = parse_sheet_line("spise\tSPISE\tto eat\t\tspiste", SheetType::Verbs).unwrap();
    match v.pos {
        POS::Verb { present, past } => {
            assert_eq!(present, "spiser");
            assert_eq!(past, "spiste");
        }
        _ => panic!("expected a verb"),
    }
    assert!(!v.standard);
    let d = parse_sheet_line("fin\tFIN\tfine\t\t", SheetType::Descriptors).unwrap();
    match d.pos {
        POS::Descriptor { plural, adverbial } => {
            assert_eq!(plural, "fine");
            assert_eq!(adverbial, "finlig");
        }
        _ => panic!("expected a descriptor"),
    }
    assert!(d.standard);
}

#[test]
fn sheet_line_particle() {
    let p = parse_sheet_line("og\tOG\tconjunction\tand", SheetType::Particles).unwrap();
    assert_eq!(p.definition, "and");
    assert!(matches!(p.pos, POS::Particle { category: ParticleCategory::Conjunction }));
}

#[test]
fn sheet_line_errors() {
    assert!(matches!(parse_sheet_line("bil\tBIL", SheetType::Nouns), Err(SheetError::Malformed)));
    assert!(matches!(parse_sheet_line("bil\tBIL\tcar\t\t", SheetType::Nouns), Err(SheetError::Malformed)));
    match parse_sheet_line("og\tOG\tglue\tand", SheetType::Particles) {
        Err(e) => assert_eq!(e.message(), "unknown particle category glue"),
        Ok(_) => panic!("expected an unknown category"),
    }
    assert_eq!(SheetError::Malformed.message(), "malformed sheet");
}

#[test]
fn update_from_sheet() {
    let mut db = sample();
    let lines = vec![
        "variants\tphones\tdefinition\tplural\tdefinite\tdefinite plural".to_string(),
        "tog\tTOG\ttrain\t\t\t".to_string(),
        "fly\tFLY\tplane\t\t\t".to_string(),
    ];
    let outcome = update(&mut db, SheetType::Nouns, &lines);
    assert!(outcome.error.is_none());
    assert_eq!(outcome.added.len(), 2);
    assert_eq!(db.database().len(), 7);
    let (id, w) = &outcome.added[0];
    assert_eq!(w.variants, vec!["tog"]);
    assert_eq!(db.fetch(*id).unwrap().word.definition, "train");
    for (id, _) in &outcome.added {
        assert_eq!((id >> 76) & 0xF, 7);
    }
}

#[test]
fn working_copy_gives_back_its_words() {
    let entries = vec![
        (1u128, noun(&["bil"], &["BIL"], "car")),
        (2u128, noun(&["hus"], &["HUS"], "house")),
    ];
    let db = Database::from_entries(3, entries);
    let back: Database = WorkingDatabase::from(db).into();
    assert_eq!(back.version(), 3);
    assert_eq!(back.len(), 2);
    assert_eq!(back.fetch(1).unwrap().word.definition, "car");
    assert_eq!(back.fetch(2).unwrap().word.variants, vec!["hus"]);
}

#[test]
fn update_stops_at_a_bad_line() {
    let mut db = sample();
    let lines = vec![
        "header".to_string(),
        "tog\tTOG\ttrain\t\t\t".to_string(),
        "broken".to_string(),
        "fly\tFLY\tplane\t\t\t".to_string(),
    ];
    let outcome = update(&mut db, SheetType::Nouns, &lines);
    assert_eq!(outcome.added.len(), 1);
    assert!(matches!(outcome.error, Some(SheetError::Malformed)));
    assert_eq!(db.database().len(), 6);
}

#[test]
fn update_with_only_a_header() {
    let mut db = sample();
    let outcome = update(&mut db, SheetType::Verbs, &vec!["header".to_string()]);
    assert!(outcome.added.is_empty());
    assert!(outcome.error.is_none());
    let outcome = update(&mut db, SheetType::Verbs, &Vec::new());
    assert!(outcome.added.is_empty());
}

#[test]
fn entries_rebuild_the_database() {
    let db = sample();
    let copy = Database::from_entries(db.database().version(), db.database().entries());
    assert_eq!(copy.len(), 5);
    for id in 1..=5u128 {
        assert_eq!(copy.fetch(id).unwrap().word.definition, db.fetch(id).unwrap().word.definition);
        assert_eq!(copy.fetch(id).unwrap().word.variants, db.fetch(id).unwrap().word.variants);
    }
}

#[test]
fn later_entries_win() {
    let db = Database::from_entries(1, vec![(1, noun(&["a"], &["A"], "first")), (1, noun(&["b"], &["B"], "second"))]);
    assert_eq!(db.len(), 1);
    assert_eq!(db.fetch(1).unwrap().word.definition, "second");
}

#[test]
fn working_copy_conversions() {
    let db: WorkingDatabase = Database::from_entries(1, vec![(9, noun(&["a"], &["A"], "x"))]).into();
    assert!(db.ignore_terminal_y());
    assert_eq!(db.len(), 1);
    let back: Database = db.into();
    assert_eq!(back.fetch(9).unwrap().word.definition, "x");
}

#[test]
fn words_from_a_list_wait_for_the_variant_index() {
    let mut db = sample();
    db.get_word_map();
    let outcome = update(&mut db, SheetType::Nouns, &vec!["h".to_string(), "tog\tTOG\ttrain\t\t\t".to_string()]);
    assert_eq!(outcome.added.len(), 1);
    let found = db.find_word("tog", MatchType::Standard, POSTypeFlags::all(), &Vec::new()).unwrap();
    assert!(found.is_empty());
    set_flags(&mut db, None, None);
    let found = db.find_word("tog", MatchType::Standard, POSTypeFlags::all(), &Vec::new()).unwrap();
    assert_eq!(found, vec![outcome.added[0].0]);
}

use ord::lang::POSType;
use ord::parser::{parse, parse_usize, Commands, MatchType, POSTypeFlags, PopularityBounds, SheetType};

fn error_of(input: &str) -> (usize, String) {
    match parse(input) {
        Ok(_) => panic!("expected an error for {input:?}"),
        Err(e) => (e.pos(), e.message().to_string()),
    }
}

#[test]
fn dump_alone() {
    assert!(matches!(parse("dump"), Ok(Commands::Dump)));
}

#[test]
fn dump_with_extra_text() {
    assert_eq!(error_of("dump x"), (4, "expected end of command".to_string()));
}

#[test]
fn quit_short_and_long() {
    assert!(matches!(parse("q"), Ok(Commands::Quit)));
    assert!(matches!(parse("quit"), Ok(Commands::Quit)));
    assert_eq!(error_of("quit now"), (4, "expected end of command".to_string()));
}

#[test]
fn choice_and_new() {
    assert!(matches!(parse("choice"), Ok(Commands::Choose)));
    assert!(matches!(parse("new"), Ok(Commands::New)));
    assert_eq!(error_of("new x"), (3, "expected end of command".to_string()));
}

#[test]
fn unknown_command() {
    assert_eq!(error_of("foo bar"), (0, "unknown command foo".to_string()));
}

#[test]
fn empty_line_is_unknown_command() {
    assert_eq!(error_of(""), (0, "unknown command ".to_string()));
}

#[test]
fn phones_without_arguments() {
    match parse("phones") {
        Ok(Commands::Phone { phone_matching, bounds }) => {
            assert!(phone_matching.is_none());
            assert!(bounds.is_none());
        }
        _ => panic!("expected a phone command"),
    }
}

#[test]
fn phones_pattern_then_regex_flag() {
    match parse("phones ab.* -r") {
        Ok(Commands::Phone { phone_matching: Some((p, m)), bounds: None }) => {
            assert_eq!(p, "ab.*");
            assert_eq!(m, MatchType::Regex);
        }
        _ => panic!("expected a regex phone command"),
    }
}

#[test]
fn phones_fuzzy_flag_then_pattern() {
    match parse("phones --fuzzy abc") {
        Err(e) => assert_eq!(e.message(), "unknown flag -fuzzy"),
        Ok(_) => panic!("a double dash is a flag named with a dash"),
    }
    match parse("phones -fuzzy abc") {
        Ok(Commands::Phone { phone_matching: Some((p, m)), .. }) => {
            assert_eq!(p, "abc");
            assert_eq!(m, MatchType::Fuzzy);
        }
        _ => panic!("expected a fuzzy phone command"),
    }
}

#[test]
fn phones_flag_without_pattern() {
    assert_eq!(error_of("phones -r"), (8, "expected phone pattern".to_string()));
}

#[test]
fn phones_two_match_types() {
    assert_eq!(error_of("phones -r -f"), (10, "match type already set".to_string()));
}

#[test]
fn phones_two_patterns() {
    assert_eq!(error_of("phones a b"), (9, "expected flag".to_string()));
}

#[test]
fn phones_unique_then_low() {
    assert_eq!(
        error_of("phones -u -l 3"),
        (11, "popularity bounds are incompatible with unique bounds".to_string())
    );
}

#[test]
fn phones_low_then_unique() {
    assert_eq!(
        error_of("phones -l 3 -u"),
        (12, "unique bounds are incompatible with popularity bounds".to_string())
    );
}

#[test]
fn phones_duplicate_unique() {
    assert_eq!(error_of("phones -u -u"), (10, "duplicate flag u".to_string()));
}

#[test]
fn phones_low_and_high() {
    match parse("phones -l 2 -h 5") {
        Ok(Commands::Phone { bounds: Some(PopularityBounds::LowHigh { low, high }), .. }) => {
            assert_eq!(low, Some(2));
            assert_eq!(high, Some(5));
        }
        _ => panic!("expected popularity bounds"),
    }
}

#[test]
fn phones_high_first_sets_the_low_bound() {
    match parse("phones -h 5") {
        Ok(Commands::Phone { bounds: Some(PopularityBounds::LowHigh { low, high }), .. }) => {
            assert_eq!(low, Some(5));
            assert_eq!(high, None);
        }
        _ => panic!("expected popularity bounds"),
    }
}

#[test]
fn phones_bound_not_a_number() {
    assert_eq!(error_of("phones -l x"), (9, "expected number".to_string()));
}

#[test]
fn phones_low_twice() {
    assert_eq!(
        error_of("phones -l 1 -l 2"),
        (13, "low popularity bound already defined".to_string())
    );
}

#[test]
fn phones_unknown_flag() {
    assert_eq!(error_of("phones -x"), (8, "unknown flag x".to_string()));
}

#[test]
fn word_plain() {
    match parse("word hus") {
        Ok(Commands::Word { word, match_type, pos_guards, edit }) => {
            assert_eq!(word, "hus");
            assert_eq!(match_type, MatchType::Standard);
            assert!(pos_guards.is_all());
            assert!(!edit);
        }
        _ => panic!("expected a word command"),
    }
}

#[test]
fn word_with_guards_and_edit() {
    match parse("word -p n,v hus -e") {
        Ok(Commands::Word { word, match_type, pos_guards, edit }) => {
            assert_eq!(word, "hus");
            assert_eq!(match_type, MatchType::Standard);
            assert!(pos_guards.contains(POSTypeFlags::from_type(POSType::Noun)));
            assert!(pos_guards.contains(POSTypeFlags::from_type(POSType::Verb)));
            assert!(!pos_guards.contains(POSTypeFlags::from_type(POSType::Particle)));
            assert!(edit);
        }
        _ => panic!("expected a word command"),
    }
}

#[test]
fn word_bad_guard() {
    assert_eq!(error_of("word -p n,x hus"), (9, "expected valid POS specifier".to_string()));
}

#[test]
fn word_guards_twice() {
    assert_eq!(error_of("word -p n -p v hus"), (10, "pos guards already set".to_string()));
}

#[test]
fn word_missing() {
    assert_eq!(error_of("word"), (4, "expected word argument".to_string()));
    assert_eq!(error_of("word -r"), (6, "expected word argument".to_string()));
}

#[test]
fn word_two_arguments() {
    assert_eq!(error_of("word a b"), (7, "unexpected argument b".to_string()));
}

#[test]
fn word_duplicate_edit() {
    assert_eq!(error_of("word a -e -edit"), (10, "duplicate edit flag".to_string()));
}

#[test]
fn word_regex_after_fuzzy() {
    assert_eq!(error_of("word a -f -r"), (10, "match type already set".to_string()));
}

#[test]
fn word_unknown_flag() {
    assert_eq!(error_of("word a -z"), (8, "unknown flag z".to_string()));
}

#[test]
fn flags_both() {
    match parse("flags -Y off -H on") {
        Ok(Commands::Flags { ignore_terminal_Y, ignore_H }) => {
            assert_eq!(ignore_terminal_Y, Some(false));
            assert_eq!(ignore_H, Some(true));
        }
        _ => panic!("expected a flags command"),
    }
}

#[test]
fn flags_none() {
    match parse("flags") {
        Ok(Commands::Flags { ignore_terminal_Y, ignore_H }) => {
            assert_eq!(ignore_terminal_Y, None);
            assert_eq!(ignore_H, None);
        }
        _ => panic!("expected a flags command"),
    }
}

#[test]
fn flags_bad_value() {
    assert_eq!(error_of("flags -Y maybe"), (8, "expected on/off".to_string()));
}

#[test]
fn flags_not_a_flag() {
    assert_eq!(error_of("flags Y"), (7, "expected flag".to_string()));
}

#[test]
fn flags_twice() {
    assert_eq!(error_of("flags -H on -H off"), (12, "already seen flag H".to_string()));
}

#[test]
fn flags_unknown() {
    assert_eq!(error_of("flags -Q on"), (7, "unknown flag Q".to_string()));
}

#[test]
fn update_nouns() {
    match parse("update nouns words.tsv") {
        Ok(Commands::Update { sheet_ty, sheet_file }) => {
            assert_eq!(sheet_ty, SheetType::Nouns);
            assert_eq!(sheet_file, "words.tsv");
        }
        _ => panic!("expected an update command"),
    }
}

#[test]
fn update_short_sheet_names() {
    assert!(matches!(parse("update v a"), Ok(Commands::Update { sheet_ty: SheetType::Verbs, .. })));
    assert!(matches!(
        parse("update d a"),
        Ok(Commands::Update { sheet_ty: SheetType::Descriptors, .. })
    ));
    assert!(matches!(
        parse("update particles a"),
        Ok(Commands::Update { sheet_ty: SheetType::Particles, .. })
    ));
}

#[test]
fn update_errors() {
    assert_eq!(error_of("update"), (6, "expected sheet type".to_string()));
    assert_eq!(error_of("update xyz f"), (7, "unknown sheet type xyz".to_string()));
    assert_eq!(error_of("update n"), (8, "expected sheet filepath".to_string()));
    assert_eq!(error_of("update n a b"), (10, "expected end of command".to_string()));
}

#[test]
fn search_rest_of_line() {
    match parse("search  hello world") {
        Ok(Commands::Search { content }) => assert_eq!(content, "hello world"),
        _ => panic!("expected a search command"),
    }
    assert_eq!(error_of("search   "), (9, "expected search terms".to_string()));
}

#[test]
fn error_positions_count_bytes() {
    assert_eq!(error_of("word æ b"), (8, "unexpected argument b".to_string()));
}

#[test]
fn error_rendering() {
    match parse("foo") {
        Err(e) => {
            assert_eq!(e.render(), "unknown command foo:\n\n  foo\n  ^\n\n");
            assert_eq!(e.input(), "foo");
        }
        Ok(_) => panic!("expected an error"),
    }
    match parse("dump x") {
        Err(e) => assert_eq!(e.render(), "expected end of command:\n\n  dump x\n      ^\n\n"),
        Ok(_) => panic!("expected an error"),
    }
}

fn number(s: &str) -> Option<usize> {
    let chars: Vec<char> = s.chars().collect();
    parse_usize(&chars)
}

#[test]
fn numbers() {
    assert_eq!(number("42"), Some(42));
    assert_eq!(number("+7"), Some(7));
    assert_eq!(number("+"), None);
    assert_eq!(number(""), None);
    assert_eq!(number("4a"), None);
    assert_eq!(number("18446744073709551616"), None);
}

#[test]
fn offsets_after_flags_leave_out_the_dashes() {
    assert_eq!(error_of("word -e -x"), (8, "unknown flag x".to_string()));
    assert_eq!(error_of("phones -u -r -f"), (12, "match type already set".to_string()));
}

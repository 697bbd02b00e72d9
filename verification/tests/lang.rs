use ord::lang::{
    generate_descriptor_adverbial, generate_descriptor_plural, generate_noun_definite,
    generate_noun_definite_plural, generate_noun_plural, generate_verb_past, generate_verb_present,
    POSType, ParticleCategory, Word, POS,
};

fn word(pos: POS, standard: bool) -> Word {
    Word {
        variants: vec!["bil".to_string()],
        phones: vec!["BIL".to_string()],
        definition: "car".to_string(),
        standard,
        pos,
    }
}

#[test]
fn noun_plural_forms() {
    assert_eq!(generate_noun_plural("bil"), "biler");
    assert_eq!(generate_noun_plural("jente"), "jenter");
    assert_eq!(generate_noun_plural("lærer"), "lærerer");
    assert_eq!(generate_noun_plural("hatter"), "hattre");
    assert_eq!(generate_noun_plural("er"), "erer");
}

#[test]
fn noun_definite_forms() {
    assert_eq!(generate_noun_definite("bil"), "bilet");
    assert_eq!(generate_noun_definite("jente"), "jenta");
    assert_eq!(generate_noun_definite("lærer"), "læreret");
    assert_eq!(generate_noun_definite("hatter"), "hattret");
}

#[test]
fn noun_definite_plural_forms() {
    assert_eq!(generate_noun_definite_plural("bil"), "bilene");
    assert_eq!(generate_noun_definite_plural("jente"), "jentene");
    assert_eq!(generate_noun_definite_plural("lærer"), "lærerene");
    assert_eq!(generate_noun_definite_plural("hatter"), "hattrene");
}

#[test]
fn descriptor_forms() {
    assert_eq!(generate_descriptor_plural("fin"), "fine");
    assert_eq!(generate_descriptor_plural("stille"), "stille");
    assert_eq!(generate_descriptor_adverbial("fin"), "finlig");
}

#[test]
fn verb_forms() {
    assert_eq!(generate_verb_present("snakke"), "snakker");
    assert_eq!(generate_verb_past("snakke"), "snakket");
}

#[test]
fn empty_key_variant() {
    assert_eq!(generate_noun_plural(""), "er");
    assert_eq!(generate_noun_definite(""), "et");
    assert_eq!(generate_descriptor_plural(""), "e");
}

#[test]
fn kind_names() {
    assert_eq!(POSType::Noun.as_str(), "noun");
    assert_eq!(POSType::Descriptor.as_str(), "descriptor");
    assert_eq!(POSType::Verb.as_str(), "verb");
    assert_eq!(POSType::Particle.as_str(), "particle");
}

#[test]
fn kind_names_read_back() {
    for t in [POSType::Noun, POSType::Descriptor, POSType::Verb, POSType::Particle] {
        assert_eq!(POSType::from_str(t.as_str()), Ok(t));
    }
    assert_eq!(POSType::from_str("n"), Ok(POSType::Noun));
    assert_eq!(POSType::from_str("d"), Ok(POSType::Descriptor));
    assert_eq!(POSType::from_str("v"), Ok(POSType::Verb));
    assert_eq!(POSType::from_str("p"), Ok(POSType::Particle));
    assert_eq!(POSType::from_str("nouns"), Err(()));
}

#[test]
fn category_names_read_back() {
    for c in [
        ParticleCategory::Miscellaneous,
        ParticleCategory::Article,
        ParticleCategory::Comparator,
        ParticleCategory::Conjunction,
        ParticleCategory::Contextual,
        ParticleCategory::Discursive,
        ParticleCategory::Indicator,
        ParticleCategory::Introductor,
    ] {
        assert_eq!(ParticleCategory::from_str(c.as_str()), Ok(c));
    }
    assert_eq!(ParticleCategory::from_str("Article"), Err(()));
    assert_eq!(ParticleCategory::default(), ParticleCategory::Miscellaneous);
}

#[test]
fn descriptions() {
    let noun = POS::Noun {
        plural: "biler".to_string(),
        definite: "bilen".to_string(),
        definite_plural: "bilene".to_string(),
    };
    assert_eq!(noun.ty_str(), "noun");
    assert_eq!(noun.ty(), POSType::Noun);
    let particle = POS::Particle { category: ParticleCategory::Article };
    assert_eq!(particle.ty_str(), "particle (article)");
    assert_eq!(particle.ty(), POSType::Particle);
    assert!(POSType::Particle.eq_pos(&particle));
    assert!(!POSType::Noun.eq_pos(&particle));
}

#[test]
fn standard_words() {
    let noun = POS::Noun {
        plural: "biler".to_string(),
        definite: "bilen".to_string(),
        definite_plural: "bilene".to_string(),
    };
    assert!(word(noun.clone(), true).is_standard());
    assert!(!word(noun, false).is_standard());
    assert!(!word(POS::Particle { category: ParticleCategory::Article }, true).is_standard());
}

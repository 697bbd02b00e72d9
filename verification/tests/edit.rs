use ord::doc::join_strings;
use ord::edit::{
    category_dropdown, definition_text, edit_key, editor_texts, form_placeholders, hide_pos_inputs, into_pos,
    pos_dropdown, pos_inputs, prefilled_forms, show_pos_inputs, word_from_form, ComponentTag, EditKey,
};
use ord::lang::{POSType, ParticleCategory, Word, POS};
use ord::text::text_lines;
use ord::ui::{FocusManager, KeyName, KeyPress, CONTROL, SHIFT};

fn lines(v: &[&str]) -> Vec<String> {
    v.iter().map(|s| s.to_string()).collect()
}

fn irregular_noun() -> Word {
    Word {
        variants: lines(&["mann"]),
        phones: lines(&["MAN"]),
        definition: "man".to_string(),
        standard: false,
        pos: POS::Noun {
            plural: "menn".to_string(),
            definite: "mannen".to_string(),
            definite_plural: "mennene".to_string(),
        },
    }
}

#[test]
fn inputs_per_kind() {
    assert_eq!(pos_inputs(POSType::Noun), vec![ComponentTag::Inp1, ComponentTag::Inp2, ComponentTag::Inp3]);
    assert_eq!(pos_inputs(POSType::Verb), vec![ComponentTag::Inp1, ComponentTag::Inp2]);
    assert_eq!(pos_inputs(POSType::Particle), vec![ComponentTag::Category]);
}

fn editor_form() -> FocusManager<ComponentTag> {
    let mut f: FocusManager<ComponentTag> = FocusManager::default();
    f.new_child(ComponentTag::Variants);
    f.new_child(ComponentTag::POS);
    f.new_hidden_child(ComponentTag::Category);
    f.new_child(ComponentTag::Phones);
    f.new_child(ComponentTag::Definition);
    f.new_hidden_child(ComponentTag::Inp1);
    f.new_hidden_child(ComponentTag::Inp2);
    f.new_hidden_child(ComponentTag::Inp3);
    f
}

#[test]
fn switching_kinds_changes_the_inputs() {
    let mut f = editor_form();
    let children = show_pos_inputs(&mut f, POSType::Descriptor);
    assert_eq!(children.len(), 2);
    f.set_focus(0);
    let mut order = Vec::new();
    for _ in 0..6 {
        f.next();
        order.push(f.active().unwrap());
    }
    assert_eq!(order, vec![1, 3, 4, 5, 6, 0]);
    hide_pos_inputs(&mut f);
    show_pos_inputs(&mut f, POSType::Particle);
    f.set_focus(0);
    let mut order = Vec::new();
    for _ in 0..5 {
        f.next();
        order.push(f.active().unwrap());
    }
    assert_eq!(order, vec![1, 2, 3, 4, 0]);
}

#[test]
fn kind_list_starts_at_the_word() {
    let w = irregular_noun();
    assert_eq!(*pos_dropdown(Some(&w)).get(), POSType::Noun);
    assert_eq!(pos_dropdown(None).choice(), 0);
    let p = Word { pos: POS::Particle { category: ParticleCategory::Indicator }, ..irregular_noun() };
    assert_eq!(*pos_dropdown(Some(&p)).get(), POSType::Particle);
    assert_eq!(*category_dropdown(Some(ParticleCategory::Indicator)).get(), ParticleCategory::Indicator);
    assert_eq!(*category_dropdown(None).get(), ParticleCategory::Miscellaneous);
}

#[test]
fn irregular_forms_are_filled_in() {
    let w = irregular_noun();
    assert_eq!(
        prefilled_forms(&w),
        vec![Some("menn".to_string()), Some("mannen".to_string()), Some("mennene".to_string())]
    );
    let regular = Word { standard: true, ..irregular_noun() };
    assert_eq!(prefilled_forms(&regular), vec![None, None, None]);
}

#[test]
fn placeholders_are_the_regular_forms() {
    assert_eq!(form_placeholders(POSType::Noun, "bil"), lines(&["biler", "bilet", "bilene"]));
    assert_eq!(form_placeholders(POSType::Descriptor, "fin"), lines(&["fine", "finlig"]));
    assert!(form_placeholders(POSType::Particle, "og").is_empty());
}

#[test]
fn empty_forms_take_regular_values() {
    let form = POS::Verb { present: String::new(), past: "spiste".to_string() };
    let (irregular, pos) = into_pos(&form, "spise");
    assert!(irregular);
    match pos {
        POS::Verb { present, past } => {
            assert_eq!(present, "spiser");
            assert_eq!(past, "spiste");
        }
        _ => panic!("expected a verb"),
    }
    let (irregular, _) = into_pos(&POS::Particle { category: ParticleCategory::Article }, "en");
    assert!(!irregular);
}

#[test]
fn word_read_from_the_form() {
    let form = POS::Noun { plural: String::new(), definite: String::new(), definite_plural: String::new() };
    let w = word_from_form("bil,auto", "BIL,OTO", &lines(&["car", "", "vehicle"]), &form);
    assert_eq!(w.variants, lines(&["bil", "auto"]));
    assert_eq!(w.phones, lines(&["BIL", "OTO"]));
    assert_eq!(w.definition, "car; vehicle");
    assert!(w.standard);
    match w.pos {
        POS::Noun { plural, .. } => assert_eq!(plural, "biler"),
        _ => panic!("expected a noun"),
    }
}

#[test]
fn editing_without_changes_gives_the_word_back() {
    let w = irregular_noun();
    let variants = join_strings(&w.variants, ",");
    let phones = join_strings(&w.phones, ",");
    let definition = text_lines(&w.definition);
    let filled: Vec<String> = prefilled_forms(&w).into_iter().map(|o| o.unwrap_or_default()).collect();
    let form = POS::Noun {
        plural: filled[0].clone(),
        definite: filled[1].clone(),
        definite_plural: filled[2].clone(),
    };
    let back = word_from_form(&variants, &phones, &definition, &form);
    assert_eq!(back.variants, w.variants);
    assert_eq!(back.phones, w.phones);
    assert_eq!(back.definition, w.definition);
    assert_eq!(back.standard, w.standard);
    match back.pos {
        POS::Noun { plural, definite, definite_plural } => {
            assert_eq!(plural, "menn");
            assert_eq!(definite, "mannen");
            assert_eq!(definite_plural, "mennene");
        }
        _ => panic!("expected a noun"),
    }
}

#[test]
fn opened_texts_give_the_word_back() {
    let w = Word {
        variants: lines(&["bok", "bøker"]),
        phones: lines(&["BOK"]),
        definition: "book".to_string(),
        standard: true,
        pos: POS::Noun {
            plural: ord::lang::generate_noun_plural("bok"),
            definite: ord::lang::generate_noun_definite("bok"),
            definite_plural: ord::lang::generate_noun_definite_plural("bok"),
        },
    };
    let t = editor_texts(&w);
    assert_eq!(t.variants, "bok,bøker");
    assert_eq!(t.phones, "BOK");
    assert_eq!(t.definition, lines(&["book"]));
    assert_eq!(t.forms, vec![None, None, None]);
    let form = POS::Noun { plural: String::new(), definite: String::new(), definite_plural: String::new() };
    let back = word_from_form(&t.variants, &t.phones, &t.definition, &form);
    assert_eq!(back.variants, w.variants);
    assert_eq!(back.phones, w.phones);
    assert_eq!(back.definition, w.definition);
    assert!(back.standard);
    assert_eq!(back.pos.ty(), POSType::Noun);
    let irregular = editor_texts(&irregular_noun());
    assert_eq!(
        irregular.forms,
        vec![Some("menn".to_string()), Some("mannen".to_string()), Some("mennene".to_string())]
    );
}

#[test]
fn definitions_from_lines() {
    assert_eq!(definition_text(&lines(&[])), "");
    assert_eq!(definition_text(&lines(&["", "a", "", "b", ""])), "a; b");
}

#[test]
fn lines_of_text() {
    assert_eq!(text_lines("a\nb\r\nc"), lines(&["a", "b", "c"]));
    assert_eq!(text_lines("a\n"), lines(&["a"]));
    assert_eq!(text_lines(""), lines(&[]));
    assert_eq!(text_lines("\n\n"), lines(&["", ""]));
    assert_eq!(text_lines("a\r"), lines(&["a\r"]));
}

#[test]
fn edit_keys() {
    assert_eq!(edit_key(&KeyPress::new(KeyName::Char('c'), CONTROL)), EditKey::Cancel);
    assert_eq!(edit_key(&KeyPress::new(KeyName::Char('s'), CONTROL)), EditKey::Save);
    assert_eq!(edit_key(&KeyPress::new(KeyName::Tab, 0)), EditKey::Next);
    assert_eq!(edit_key(&KeyPress::new(KeyName::Tab, CONTROL)), EditKey::Input);
    assert_eq!(edit_key(&KeyPress::new(KeyName::BackTab, SHIFT)), EditKey::Prev);
    assert_eq!(edit_key(&KeyPress::new(KeyName::Char('s'), 0)), EditKey::Input);
}

//! The word form of the editor: which inputs it shows for each part of
//! speech, how a stored word fills them, and how what was typed is read back
//! into a word, the forms left empty taking their regular values.
use vstd::prelude::*;
use crate::db::form_or;
use crate::doc::{join, join_strings};
use crate::lang::{
    POS, POSType, POSView, ParticleCategory, Word, WordView, descriptor_adverbial, descriptor_plural,
    generate_descriptor_adverbial, generate_descriptor_plural, generate_noun_definite,
    generate_noun_definite_plural, generate_noun_plural, generate_verb_past, generate_verb_present,
    noun_definite, noun_definite_plural, noun_plural, pos_kind, strings_view, verb_past, verb_present,
};
use crate::text::{
    chars_of, lemma_split_concat, lemma_split_on_len, lemma_split_single, lines_of, split, split_on,
    text_lines,
};
use crate::ui::{
    CONTROL, DropdownState, FocusManager, FocusableBuilder, KeyName, KeyPress, SHIFT, is_ctrl_char,
    refocus,
};
use vstd::laws_eq::obeys_concrete_eq;

verus! {

/// The inputs of the word form.
#[derive(Debug, Clone, Copy)]
pub enum ComponentTag {
    Variants,
    POS,
    Phones,
    Definition,
    Category,
    Inp1,
    Inp2,
    Inp3,
}

impl PartialEq for ComponentTag {
    fn eq(&self, other: &ComponentTag) -> (r: bool) {
        match (self, other) {
            (ComponentTag::Variants, ComponentTag::Variants) => true,
            (ComponentTag::POS, ComponentTag::POS) => true,
            (ComponentTag::Phones, ComponentTag::Phones) => true,
            (ComponentTag::Definition, ComponentTag::Definition) => true,
            (ComponentTag::Category, ComponentTag::Category) => true,
            (ComponentTag::Inp1, ComponentTag::Inp1) => true,
            (ComponentTag::Inp2, ComponentTag::Inp2) => true,
            (ComponentTag::Inp3, ComponentTag::Inp3) => true,
            _ => false,
        }
    }
}

impl vstd::std_specs::cmp::PartialEqSpecImpl for ComponentTag {
    open spec fn obeys_eq_spec() -> bool {
        true
    }

    open spec fn eq_spec(&self, other: &ComponentTag) -> bool {
        *self == *other
    }
}

impl Eq for ComponentTag {

}

/// Tags of the form compare as values.
pub proof fn lemma_tags_compare()
    ensures
        obeys_concrete_eq::<ComponentTag>(),
{
    reveal(obeys_concrete_eq);
}

/// Whether an input belongs to the part of speech: the category of a
/// particle or one of the inputs of the forms.
pub open spec fn is_pos_input(t: ComponentTag) -> bool {
    match t {
        ComponentTag::Category | ComponentTag::Inp1 | ComponentTag::Inp2 | ComponentTag::Inp3 => true,
        _ => false,
    }
}

/// The inputs that a part of speech shows: three forms for a noun, two for
/// a descriptor or a verb, and the category for a particle.
pub open spec fn pos_input_tags(t: POSType) -> Seq<ComponentTag> {
    match t {
        POSType::Noun => seq![ComponentTag::Inp1, ComponentTag::Inp2, ComponentTag::Inp3],
        POSType::Descriptor => seq![ComponentTag::Inp1, ComponentTag::Inp2],
        POSType::Verb => seq![ComponentTag::Inp1, ComponentTag::Inp2],
        POSType::Particle => seq![ComponentTag::Category],
    }
}

/// The inputs that a part of speech shows.
pub fn pos_inputs(t: POSType) -> (v: Vec<ComponentTag>)
    ensures
        v@ == pos_input_tags(t),
{
    match t {
        POSType::Noun => vec![ComponentTag::Inp1, ComponentTag::Inp2, ComponentTag::Inp3],
        POSType::Descriptor => vec![ComponentTag::Inp1, ComponentTag::Inp2],
        POSType::Verb => vec![ComponentTag::Inp1, ComponentTag::Inp2],
        POSType::Particle => vec![ComponentTag::Category],
    }
}

/// Whether an input belongs to the part of speech.
fn pos_input_test(t: &ComponentTag) -> (b: bool)
    ensures
        b == is_pos_input(*t),
{
    match t {
        ComponentTag::Category | ComponentTag::Inp1 | ComponentTag::Inp2 | ComponentTag::Inp3 => true,
        _ => false,
    }
}

/// Keeps the inputs of the part of speech from taking the focus; the place
/// of the focus stays as it is.
pub fn hide_pos_inputs(fmanager: &mut FocusManager<ComponentTag>)
    requires
        old(fmanager).wf(),
    ensures
        final(fmanager).wf(),
        final(fmanager).spec_tags() == old(fmanager).spec_tags(),
        final(fmanager).spec_active() == old(fmanager).spec_active(),
        final(fmanager).spec_enabled().len() == old(fmanager).spec_enabled().len(),
        forall|i: int|
            0 <= i < old(fmanager).spec_enabled().len() ==> #[trigger] final(fmanager).spec_enabled()[i]
                == (old(fmanager).spec_enabled()[i] && !is_pos_input(old(fmanager).spec_tags()[i])),
{
    fmanager.disable_if(pos_input_test);
}

/// The flags and the focus after each input carrying one of `which` is let
/// take the focus in turn, the focus read again after each (see `refocus`).
pub open spec fn enable_each(
    tags: Seq<ComponentTag>,
    en: Seq<bool>,
    active: Option<int>,
    which: Seq<ComponentTag>,
) -> (Seq<bool>, Option<int>)
    decreases which.len(),
{
    if which.len() == 0 {
        (en, active)
    } else {
        let (en1, a1) = enable_each(tags, en, active, which.drop_last());
        let en2 = Seq::new(en1.len(), |i: int| en1[i] || tags[i] == which.last());
        (en2, refocus(en2, a1))
    }
}

/// Lets the inputs that the part of speech shows take the focus, one after
/// the other (see `enable_each`), and gives their children in that order.
pub fn show_pos_inputs(fmanager: &mut FocusManager<ComponentTag>, t: POSType) -> (v: Vec<
    FocusableBuilder<ComponentTag>,
>)
    requires
        old(fmanager).wf(),
    ensures
        final(fmanager).wf(),
        final(fmanager).spec_tags() == old(fmanager).spec_tags(),
        (final(fmanager).spec_enabled(), final(fmanager).spec_active()) == enable_each(
            old(fmanager).spec_tags(),
            old(fmanager).spec_enabled(),
            old(fmanager).spec_active(),
            pos_input_tags(t),
        ),
        v@.len() == pos_input_tags(t).len(),
        forall|i: int| 0 <= i < v@.len() ==> (#[trigger] v@[i]).spec_tag() == pos_input_tags(t)[i],
{
    proof {
        lemma_tags_compare();
    }
    let which = pos_inputs(t);
    let mut out: Vec<FocusableBuilder<ComponentTag>> = Vec::new();
    let mut k: usize = 0;
    while k < which.len()
        invariant
            which@ == pos_input_tags(t),
            k <= which@.len(),
            fmanager.wf(),
            obeys_concrete_eq::<ComponentTag>(),
            fmanager.spec_tags() == old(fmanager).spec_tags(),
            (fmanager.spec_enabled(), fmanager.spec_active()) == enable_each(
                old(fmanager).spec_tags(),
                old(fmanager).spec_enabled(),
                old(fmanager).spec_active(),
                which@.take(k as int),
            ),
            out@.len() == k,
            forall|i: int| 0 <= i < k ==> (#[trigger] out@[i]).spec_tag() == which@[i],
        decreases which@.len() - k,
    {
        let ghost before_en = fmanager.spec_enabled();
        let b = fmanager.new_from_existing(which[k]);
        proof {
            let w = which@.take(k + 1);
            assert(w.drop_last() =~= which@.take(k as int));
            let en2 = Seq::new(
                before_en.len(),
                |i: int| before_en[i] || old(fmanager).spec_tags()[i] == w.last(),
            );
            assert(fmanager.spec_enabled() =~= en2);
        }
        out.push(b);
        k = k + 1;
    }
    assert(which@.take(which@.len() as int) =~= which@);
    out
}

/// The kinds of part of speech, in the order the form lists them.
pub open spec fn pos_choices() -> Seq<POSType> {
    seq![POSType::Noun, POSType::Descriptor, POSType::Verb, POSType::Particle]
}

/// The place of a kind in the form's list.
pub open spec fn pos_place(t: POSType) -> nat {
    match t {
        POSType::Noun => 0,
        POSType::Descriptor => 1,
        POSType::Verb => 2,
        POSType::Particle => 3,
    }
}

/// The list of kinds of part of speech, closed, with the kind of `word`
/// chosen, or the first without a word.
pub fn pos_dropdown(word: Option<&Word>) -> (d: DropdownState<POSType>)
    ensures
        d.wf(),
        d.spec_options() == pos_choices(),
        d.spec_choice() == match word {
            Some(w) => pos_place(pos_kind(w@.pos)),
            None => 0,
        },
        !d.spec_open(),
        d.spec_changed(),
{
    let options = vec![POSType::Noun, POSType::Descriptor, POSType::Verb, POSType::Particle];
    let d = DropdownState::new(options);
    let ghost target: POSType = match word {
        Some(w) => pos_kind(w@.pos),
        None => POSType::Noun,
    };
    let cond = |o: &POSType| -> (b: bool)
        ensures
            b == (*o == target),
        {
            match word {
                Some(w) => w.pos.ty() == *o,
                None => *o == POSType::Noun,
            }
        };
    proof {
        assert(d.spec_options()[pos_place(target) as int] == target);
        assert(crate::ui::accepts(cond, d.spec_options()[pos_place(target) as int]));
    }
    let r = d.with_initial(cond);
    proof {
        let c = r.spec_choice() as int;
        assert(r.spec_options()[c] == target);
        if c != pos_place(target) {
            assert(cond.ensures((&r.spec_options()[pos_place(target) as int],), false) || c < pos_place(
                target,
            ));
        }
    }
    r
}

/// The categories of particles, in the order the form lists them.
pub open spec fn category_choices() -> Seq<ParticleCategory> {
    seq![
        ParticleCategory::Miscellaneous,
        ParticleCategory::Article,
        ParticleCategory::Comparator,
        ParticleCategory::Conjunction,
        ParticleCategory::Contextual,
        ParticleCategory::Discursive,
        ParticleCategory::Indicator,
        ParticleCategory::Introductor,
    ]
}

/// The place of a category in the form's list.
pub open spec fn category_place(c: ParticleCategory) -> nat {
    match c {
        ParticleCategory::Miscellaneous => 0,
        ParticleCategory::Article => 1,
        ParticleCategory::Comparator => 2,
        ParticleCategory::Conjunction => 3,
        ParticleCategory::Contextual => 4,
        ParticleCategory::Discursive => 5,
        ParticleCategory::Indicator => 6,
        ParticleCategory::Introductor => 7,
    }
}

/// The list of categories, closed, with `initial` chosen, or the first
/// without one.
pub fn category_dropdown(initial: Option<ParticleCategory>) -> (d: DropdownState<ParticleCategory>)
    ensures
        d.wf(),
        d.spec_options() == category_choices(),
        d.spec_choice() == match initial {
            Some(c) => category_place(c),
            None => 0,
        },
        !d.spec_open(),
        d.spec_changed(),
{
    let options = vec![
        ParticleCategory::Miscellaneous,
        ParticleCategory::Article,
        ParticleCategory::Comparator,
        ParticleCategory::Conjunction,
        ParticleCategory::Contextual,
        ParticleCategory::Discursive,
        ParticleCategory::Indicator,
        ParticleCategory::Introductor,
    ];
    let d = DropdownState::new(options);
    match initial {
        None => d,
        Some(c) => {
            let cond = |o: &ParticleCategory| -> (b: bool)
                ensures
                    b == (*o == c),
                { *o == c };
            proof {
                assert(d.spec_options()[category_place(c) as int] == c);
                assert(crate::ui::accepts(cond, d.spec_options()[category_place(c) as int]));
            }
            let r = d.with_initial(cond);
            proof {
                let k = r.spec_choice() as int;
                assert(r.spec_options()[k] == c);
            }
            r
        },
    }
}


/// The text a form input starts with: the form of an irregular word, and
/// nothing for a regular one, whose forms are shown as placeholders.
pub open spec fn prefill(standard: bool, form: Seq<char>) -> Option<Seq<char>> {
    if standard {
        None
    } else {
        Some(form)
    }
}

/// The texts the form inputs of a word start with, in the order of its
/// inputs (see `pos_input_tags`); none for a particle.
pub open spec fn prefilled_forms_spec(w: WordView) -> Seq<Option<Seq<char>>> {
    match w.pos {
        POSView::Noun { plural, definite, definite_plural } => seq![
            prefill(w.standard, plural),
            prefill(w.standard, definite),
            prefill(w.standard, definite_plural),
        ],
        POSView::Descriptor { plural, adverbial } => seq![
            prefill(w.standard, plural),
            prefill(w.standard, adverbial),
        ],
        POSView::Verb { present, past } => seq![prefill(w.standard, present), prefill(w.standard, past)],
        POSView::Particle { .. } => seq![],
    }
}

/// The text of one form input.
fn prefill_of(standard: bool, form: &String) -> (r: Option<String>)
    ensures
        match r {
            Some(s) => prefill(standard, form@) == Some(s@),
            None => prefill(standard, form@) is None,
        },
{
    if standard {
        None
    } else {
        Some(form.clone())
    }
}

/// The views of a list of optional texts.
pub open spec fn options_view(v: Seq<Option<String>>) -> Seq<Option<Seq<char>>> {
    v.map_values(
        |o: Option<String>|
            match o {
                Some(s) => Some(s@),
                None => None,
            },
    )
}

/// The texts the form inputs of `word` start with.
pub fn prefilled_forms(word: &Word) -> (v: Vec<Option<String>>)
    ensures
        options_view(v@) == prefilled_forms_spec(word@),
{
    let st = word.standard;
    let v = match &word.pos {
        POS::Noun { plural, definite, definite_plural } => vec![
            prefill_of(st, plural),
            prefill_of(st, definite),
            prefill_of(st, definite_plural),
        ],
        POS::Descriptor { plural, adverbial } => vec![prefill_of(st, plural), prefill_of(st, adverbial)],
        POS::Verb { present, past } => vec![prefill_of(st, present), prefill_of(st, past)],
        POS::Particle { .. } => Vec::new(),
    };
    assert(options_view(v@) =~= prefilled_forms_spec(word@));
    v
}

/// The regular forms of a part of speech for a key variant, in the order
/// of its inputs.
pub open spec fn regular_forms(t: POSType, key: Seq<char>) -> Seq<Seq<char>> {
    match t {
        POSType::Noun => seq![noun_plural(key), noun_definite(key), noun_definite_plural(key)],
        POSType::Descriptor => seq![descriptor_plural(key), descriptor_adverbial(key)],
        POSType::Verb => seq![verb_present(key), verb_past(key)],
        POSType::Particle => seq![],
    }
}

/// The regular forms shown in the empty form inputs.
pub fn form_placeholders(t: POSType, key_variant: &str) -> (v: Vec<String>)
    ensures
        strings_view(v@) == regular_forms(t, key_variant@),
{
    let v = match t {
        POSType::Noun => vec![
            generate_noun_plural(key_variant),
            generate_noun_definite(key_variant),
            generate_noun_definite_plural(key_variant),
        ],
        POSType::Descriptor => vec![
            generate_descriptor_plural(key_variant),
            generate_descriptor_adverbial(key_variant),
        ],
        POSType::Verb => vec![generate_verb_present(key_variant), generate_verb_past(key_variant)],
        POSType::Particle => Vec::new(),
    };
    assert(strings_view(v@) =~= regular_forms(t, key_variant@));
    v
}

/// Whether every form typed is empty; a particle has none.
pub open spec fn all_forms_empty(p: POSView) -> bool {
    match p {
        POSView::Noun { plural, definite, definite_plural } => plural.len() == 0 && definite.len() == 0
            && definite_plural.len() == 0,
        POSView::Descriptor { plural, adverbial } => plural.len() == 0 && adverbial.len() == 0,
        POSView::Verb { present, past } => present.len() == 0 && past.len() == 0,
        POSView::Particle { .. } => true,
    }
}

/// The part of speech read from the form: each form typed, or the regular
/// one of the key variant where nothing was typed.
pub open spec fn filled_pos(p: POSView, key: Seq<char>) -> POSView {
    match p {
        POSView::Noun { plural, definite, definite_plural } => POSView::Noun {
            plural: form_or(plural, noun_plural(key)),
            definite: form_or(definite, noun_definite(key)),
            definite_plural: form_or(definite_plural, noun_definite_plural(key)),
        },
        POSView::Descriptor { plural, adverbial } => POSView::Descriptor {
            plural: form_or(plural, descriptor_plural(key)),
            adverbial: form_or(adverbial, descriptor_adverbial(key)),
        },
        POSView::Verb { present, past } => POSView::Verb {
            present: form_or(present, verb_present(key)),
            past: form_or(past, verb_past(key)),
        },
        POSView::Particle { category } => POSView::Particle { category },
    }
}

/// A form typed, or the regular one when nothing was; typing one makes the
/// word irregular.
fn typed_or(typed: &String, regular: String, irregular: &mut bool) -> (s: String)
    ensures
        s@ == form_or(typed@, regular@),
        *final(irregular) == (*old(irregular) || typed@.len() > 0),
{
    let t = chars_of(typed.as_str());
    if t.len() == 0 {
        regular
    } else {
        *irregular = true;
        typed.clone()
    }
}

/// Reads the part of speech from the form (see `filled_pos`), and whether
/// any form was typed.
pub fn into_pos(form: &POS, key_variant: &str) -> (r: (bool, POS))
    ensures
        r.0 == !all_forms_empty(form@),
        r.1@ == filled_pos(form@, key_variant@),
{
    let mut irregular = false;
    let pos = match form {
        POS::Noun { plural, definite, definite_plural } => {
            let p = typed_or(plural, generate_noun_plural(key_variant), &mut irregular);
            let d = typed_or(definite, generate_noun_definite(key_variant), &mut irregular);
            let dp = typed_or(
                definite_plural,
                generate_noun_definite_plural(key_variant),
                &mut irregular,
            );
            POS::Noun { plural: p, definite: d, definite_plural: dp }
        },
        POS::Descriptor { plural, adverbial } => {
            let p = typed_or(plural, generate_descriptor_plural(key_variant), &mut irregular);
            let a = typed_or(adverbial, generate_descriptor_adverbial(key_variant), &mut irregular);
            POS::Descriptor { plural: p, adverbial: a }
        },
        POS::Verb { present, past } => {
            let pr = typed_or(present, generate_verb_present(key_variant), &mut irregular);
            let pa = typed_or(past, generate_verb_past(key_variant), &mut irregular);
            POS::Verb { present: pr, past: pa }
        },
        POS::Particle { category } => POS::Particle { category: *category },
    };
    (irregular, pos)
}

/// The lines that are not empty, in order.
pub open spec fn nonempty_lines(lines: Seq<Seq<char>>) -> Seq<Seq<char>>
    decreases lines.len(),
{
    if lines.len() == 0 {
        lines
    } else if lines.last().len() == 0 {
        nonempty_lines(lines.drop_last())
    } else {
        nonempty_lines(lines.drop_last()).push(lines.last())
    }
}

/// The definition typed in several lines: the lines that are not empty,
/// joined by "; ".
pub fn definition_text(lines: &Vec<String>) -> (s: String)
    ensures
        s@ == join(nonempty_lines(strings_view(lines@)), "; "@),
{
    let mut kept: Vec<String> = Vec::new();
    let mut i: usize = 0;
    while i < lines.len()
        invariant
            i <= lines@.len(),
            strings_view(kept@) == nonempty_lines(strings_view(lines@).take(i as int)),
        decreases lines@.len() - i,
    {
        let line = &lines[i];
        let ghost before = strings_view(kept@);
        proof {
            assert(strings_view(lines@).take(i + 1).drop_last() =~= strings_view(lines@).take(i as int));
            assert(strings_view(lines@).take(i + 1).last() == lines@[i as int]@);
        }
        if !line.as_str().is_empty() {
            kept.push(line.clone());
            assert(strings_view(kept@) =~= before.push(lines@[i as int]@));
        }
        i = i + 1;
    }
    assert(strings_view(lines@).take(lines@.len() as int) =~= strings_view(lines@));
    join_strings(&kept, "; ")
}

/// The word read from the form: the variants and the phones as typed,
/// separated by commas, the definition from its lines (see
/// `definition_text`), and the part of speech from the form inputs (see
/// `filled_pos`) for the first variant; the word is regular when no form
/// was typed.
pub open spec fn form_word(
    variants_line: Seq<char>,
    phones_line: Seq<char>,
    definition_lines: Seq<Seq<char>>,
    form: POSView,
) -> WordView {
    let variants = split_on(variants_line, ',');
    WordView {
        variants,
        phones: split_on(phones_line, ','),
        definition: join(nonempty_lines(definition_lines), "; "@),
        standard: all_forms_empty(form),
        pos: filled_pos(form, variants[0]),
    }
}

/// The word read from the form (see `form_word`).
pub fn word_from_form(variants_line: &str, phones_line: &str, definition_lines: &Vec<String>, form: &POS) -> (w:
    Word)
    ensures
        w@ == form_word(variants_line@, phones_line@, strings_view(definition_lines@), form@),
{
    let vc = chars_of(variants_line);
    let variants = split(&vc, ',');
    let pc = chars_of(phones_line);
    let phones = split(&pc, ',');
    let definition = definition_text(definition_lines);
    proof {
        lemma_split_on_len(variants_line@, ',');
        assert(strings_view(variants@)[0] == variants@[0]@);
    }
    let (irregular, pos) = into_pos(form, variants[0].as_str());
    Word { variants, phones, definition, standard: !irregular, pos }
}

/// What a key does in the word form.
#[derive(Debug, Clone, Copy, PartialEq, Eq, Structural)]
pub enum EditKey {
    /// Leaves without a word.
    Cancel,
    /// Leaves with the word read from the form.
    Save,
    /// Moves the focus to the next input.
    Next,
    /// Moves the focus to the previous input.
    Prev,
    /// Goes to the input that has the focus.
    Input,
}

/// What `k` does in the word form: control-c cancels, control-s saves, tab
/// alone and shift-tab move the focus, and other keys are typed.
pub open spec fn edit_key_spec(k: KeyPress) -> EditKey {
    if is_ctrl_char(k, 'c') {
        EditKey::Cancel
    } else if is_ctrl_char(k, 's') {
        EditKey::Save
    } else if k.code == KeyName::Tab && k.modifiers == 0 {
        EditKey::Next
    } else if k.code == KeyName::BackTab && k.modifiers == SHIFT {
        EditKey::Prev
    } else {
        EditKey::Input
    }
}

/// What a key does in the word form.
pub fn edit_key(k: &KeyPress) -> (e: EditKey)
    ensures
        e == edit_key_spec(*k),
{
    match k.code {
        KeyName::Char(c) => {
            if c == 'c' && k.modifiers == CONTROL {
                EditKey::Cancel
            } else if c == 's' && k.modifiers == CONTROL {
                EditKey::Save
            } else {
                EditKey::Input
            }
        },
        KeyName::Tab => {
            if k.modifiers == 0 {
                EditKey::Next
            } else {
                EditKey::Input
            }
        },
        KeyName::BackTab => {
            if k.modifiers == SHIFT {
                EditKey::Prev
            } else {
                EditKey::Input
            }
        },
        _ => EditKey::Input,
    }
}


/// Splitting pieces joined by a separator that none of them holds gives
/// the pieces back.
pub proof fn lemma_split_join(parts: Seq<Seq<char>>, sep: char)
    requires
        parts.len() >= 1,
        forall|i: int| 0 <= i < parts.len() ==> !(#[trigger] parts[i]).contains(sep),
    ensures
        split_on(join(parts, seq![sep]), sep) == parts,
    decreases parts.len(),
{
    if parts.len() == 1 {
        lemma_split_single(parts[0], sep);
        assert(seq![parts[0]] =~= parts);
    } else {
        let init = parts.drop_last();
        lemma_split_join(init, sep);
        lemma_split_concat(join(init, seq![sep]), parts.last(), sep);
        lemma_split_single(parts.last(), sep);
        assert(join(parts, seq![sep]) == join(init, seq![sep]) + seq![sep] + parts.last());
        assert(init + seq![parts.last()] =~= parts);
    }
}

/// What a form input holds at first: the text given, or nothing.
pub open spec fn input_text(o: Option<Seq<char>>) -> Seq<char> {
    match o {
        Some(t) => t,
        None => Seq::empty(),
    }
}

/// The part of speech as the form inputs hold it when a word is opened for
/// editing (see `prefilled_forms_spec`).
pub open spec fn prefill_pos(w: WordView) -> POSView {
    match w.pos {
        POSView::Noun { plural, definite, definite_plural } => POSView::Noun {
            plural: input_text(prefill(w.standard, plural)),
            definite: input_text(prefill(w.standard, definite)),
            definite_plural: input_text(prefill(w.standard, definite_plural)),
        },
        POSView::Descriptor { plural, adverbial } => POSView::Descriptor {
            plural: input_text(prefill(w.standard, plural)),
            adverbial: input_text(prefill(w.standard, adverbial)),
        },
        POSView::Verb { present, past } => POSView::Verb {
            present: input_text(prefill(w.standard, present)),
            past: input_text(prefill(w.standard, past)),
        },
        POSView::Particle { category } => POSView::Particle { category },
    }
}

/// Whether the forms of a word agree with its mark: a regular word has the
/// regular forms of its first variant, an irregular one has every form
/// filled, and a particle is marked regular.
pub open spec fn consistent_forms(w: WordView) -> bool {
    let key = w.variants[0];
    match w.pos {
        POSView::Noun { plural, definite, definite_plural } => if w.standard {
            plural == noun_plural(key) && definite == noun_definite(key) && definite_plural
                == noun_definite_plural(key)
        } else {
            plural.len() > 0 && definite.len() > 0 && definite_plural.len() > 0
        },
        POSView::Descriptor { plural, adverbial } => if w.standard {
            plural == descriptor_plural(key) && adverbial == descriptor_adverbial(key)
        } else {
            plural.len() > 0 && adverbial.len() > 0
        },
        POSView::Verb { present, past } => if w.standard {
            present == verb_present(key) && past == verb_past(key)
        } else {
            present.len() > 0 && past.len() > 0
        },
        POSView::Particle { .. } => w.standard,
    }
}

/// A form left as a word filled it gives the word back: its variants and
/// phones joined by commas, its definition as lines, and its forms as
/// `prefill_pos` puts them. This holds when no variant or phone holds a
/// comma, there is a variant and a phone, the definition is one line, and
/// the forms agree with the mark (see `consistent_forms`).
pub proof fn lemma_edit_round_trip(w: WordView)
    requires
        w.variants.len() >= 1,
        w.phones.len() >= 1,
        forall|i: int| 0 <= i < w.variants.len() ==> !(#[trigger] w.variants[i]).contains(','),
        forall|i: int| 0 <= i < w.phones.len() ==> !(#[trigger] w.phones[i]).contains(','),
        !w.definition.contains('\n'),
        consistent_forms(w),
    ensures
        form_word(join(w.variants, ","@), join(w.phones, ","@), lines_of(w.definition), prefill_pos(w))
            == w,
{
    reveal_strlit(",");
    assert(","@ =~= seq![',']);
    lemma_split_join(w.variants, ',');
    lemma_split_join(w.phones, ',');
    let d = w.definition;
    lemma_split_single(d, '\n');
    let lines = lines_of(d);
    if d.len() == 0 {
        assert(lines =~= Seq::<Seq<char>>::empty());
        assert(nonempty_lines(lines) =~= Seq::<Seq<char>>::empty());
        assert(join(nonempty_lines(lines), "; "@) =~= d);
    } else {
        assert(lines =~= seq![d]);
        assert(lines.drop_last() =~= Seq::<Seq<char>>::empty());
        assert(nonempty_lines(lines.drop_last()) =~= Seq::<Seq<char>>::empty());
        assert(lines.last() == d);
        assert(nonempty_lines(lines) == nonempty_lines(lines.drop_last()).push(d));
        assert(nonempty_lines(lines) =~= seq![d]);
    }
    let r = form_word(join(w.variants, ","@), join(w.phones, ","@), lines, prefill_pos(w));
    assert(r.variants == w.variants);
    assert(r.phones == w.phones);
    assert(r.definition == w.definition);
    assert(r.standard == w.standard);
    assert(r.pos == w.pos);
}

/// The part of speech read back from form inputs that hold `texts`, in the
/// order of the inputs of `p`'s kind (see `pos_input_tags`); an input given
/// no text holds nothing. A particle keeps its category.
pub open spec fn form_from_texts(p: POSView, texts: Seq<Option<Seq<char>>>) -> POSView {
    match p {
        POSView::Noun { .. } => POSView::Noun {
            plural: input_text(texts[0]),
            definite: input_text(texts[1]),
            definite_plural: input_text(texts[2]),
        },
        POSView::Descriptor { .. } => POSView::Descriptor {
            plural: input_text(texts[0]),
            adverbial: input_text(texts[1]),
        },
        POSView::Verb { .. } => POSView::Verb { present: input_text(texts[0]), past: input_text(texts[1]) },
        POSView::Particle { category } => POSView::Particle { category },
    }
}

/// What the inputs of the editor start with when `w` is opened: the
/// variants and the phones each joined by commas, the lines of the
/// definition, and the texts of the form inputs (see `prefilled_forms_spec`).
pub open spec fn opened_texts(w: WordView) -> (Seq<char>, Seq<char>, Seq<Seq<char>>, Seq<Option<Seq<char>>>) {
    (join(w.variants, ","@), join(w.phones, ","@), lines_of(w.definition), prefilled_forms_spec(w))
}

/// The texts the inputs of the editor start with.
pub struct EditorTexts {
    pub variants: String,
    pub phones: String,
    pub definition: Vec<String>,
    pub forms: Vec<Option<String>>,
}

/// What the inputs of the editor start with when `word` is opened (see
/// `opened_texts`).
pub fn editor_texts(word: &Word) -> (t: EditorTexts)
    ensures
        opened_texts(word@) == (t.variants@, t.phones@, strings_view(t.definition@), options_view(t.forms@)),
{
    let variants = join_strings(&word.variants, ",");
    let phones = join_strings(&word.phones, ",");
    let definition = text_lines(word.definition.as_str());
    let forms = prefilled_forms(word);
    proof {
        assert(word.variants@.map_values(|p: String| p@) =~= word@.variants);
        assert(word.phones@.map_values(|p: String| p@) =~= word@.phones);
    }
    EditorTexts { variants, phones, definition, forms }
}

/// A word opened in the editor and saved with its inputs untouched comes
/// back as it was: the texts the inputs start with (`opened_texts`), read
/// back as `word_from_form` reads them, give the word. This holds when no
/// variant or phone holds a comma, there is a variant and a phone, the
/// definition is one line, and the forms agree with the mark (see
/// `consistent_forms`).
pub proof fn lemma_editor_round_trip(w: WordView)
    requires
        w.variants.len() >= 1,
        w.phones.len() >= 1,
        forall|i: int| 0 <= i < w.variants.len() ==> !(#[trigger] w.variants[i]).contains(','),
        forall|i: int| 0 <= i < w.phones.len() ==> !(#[trigger] w.phones[i]).contains(','),
        !w.definition.contains('\n'),
        consistent_forms(w),
    ensures
        ({
            let (v, p, d, f) = opened_texts(w);
            form_word(v, p, d, form_from_texts(w.pos, f)) == w
        }),
{
    lemma_edit_round_trip(w);
}

/// A form whose forms were all left empty gives a regular word with the
/// regular forms of its first variant.
pub proof fn lemma_untouched_forms_regular(
    variants_line: Seq<char>,
    phones_line: Seq<char>,
    definition_lines: Seq<Seq<char>>,
    form: POSView,
)
    requires
        all_forms_empty(form),
    ensures
        ({
            let w = form_word(variants_line, phones_line, definition_lines, form);
            &&& w.standard
            &&& pos_kind(w.pos) == pos_kind(form)
            &&& pos_kind(form) != POSType::Particle ==> pos_forms(w.pos) == regular_forms(
                pos_kind(form),
                split_on(variants_line, ',')[0],
            )
        }),
{
}

/// The forms of a part of speech, in the order of its inputs.
pub open spec fn pos_forms(p: POSView) -> Seq<Seq<char>> {
    match p {
        POSView::Noun { plural, definite, definite_plural } => seq![plural, definite, definite_plural],
        POSView::Descriptor { plural, adverbial } => seq![plural, adverbial],
        POSView::Verb { present, past } => seq![present, past],
        POSView::Particle { .. } => seq![],
    }
}

} // verus!

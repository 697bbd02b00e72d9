//! Words of the language, their parts of speech, and the regular forms that
//! nouns, descriptors and verbs take.
use vstd::prelude::*;
use crate::text::{chars_eq_str, chars_of, ends_with, ends_with_char, push_str, string_of};

verus! {

/// A dictionary entry.
#[derive(Debug, Clone)]
pub struct Word {
    pub variants: Vec<String>,
    pub phones: Vec<String>,
    pub definition: String,
    pub standard: bool,
    pub pos: POS,
}

/// A part of speech together with the forms that belong to it.
#[derive(Debug, Clone)]
pub enum POS {
    Noun { plural: String, definite: String, definite_plural: String },
    Descriptor { plural: String, adverbial: String },
    Verb { present: String, past: String },
    Particle { category: ParticleCategory },
}

/// The kind of a part of speech, without its forms.
#[derive(Debug, Clone, Copy, PartialEq, Eq, Structural)]
pub enum POSType {
    Noun,
    Descriptor,
    Verb,
    Particle,
}

/// What a particle is used for.
#[derive(Debug, Clone, Copy, PartialEq, Eq, Structural)]
pub enum ParticleCategory {
    Miscellaneous,
    Article,
    Comparator,
    Conjunction,
    Contextual,
    Discursive,
    Indicator,
    Introductor,
}

/// The forms of a part of speech, as character sequences.
pub enum POSView {
    Noun { plural: Seq<char>, definite: Seq<char>, definite_plural: Seq<char> },
    Descriptor { plural: Seq<char>, adverbial: Seq<char> },
    Verb { present: Seq<char>, past: Seq<char> },
    Particle { category: ParticleCategory },
}

/// A dictionary entry, as character sequences.
pub struct WordView {
    pub variants: Seq<Seq<char>>,
    pub phones: Seq<Seq<char>>,
    pub definition: Seq<char>,
    pub standard: bool,
    pub pos: POSView,
}

/// The character sequences of a list of strings.
pub open spec fn strings_view(v: Seq<String>) -> Seq<Seq<char>> {
    v.map_values(|s: String| s@)
}

impl View for POS {
    type V = POSView;

    open spec fn view(&self) -> POSView {
        match self {
            POS::Noun { plural, definite, definite_plural } => POSView::Noun {
                plural: plural@,
                definite: definite@,
                definite_plural: definite_plural@,
            },
            POS::Descriptor { plural, adverbial } => POSView::Descriptor {
                plural: plural@,
                adverbial: adverbial@,
            },
            POS::Verb { present, past } => POSView::Verb { present: present@, past: past@ },
            POS::Particle { category } => POSView::Particle { category: *category },
        }
    }
}

impl View for Word {
    type V = WordView;

    open spec fn view(&self) -> WordView {
        WordView {
            variants: strings_view(self.variants@),
            phones: strings_view(self.phones@),
            definition: self.definition@,
            standard: self.standard,
            pos: self.pos@,
        }
    }
}

/// The kind of a part of speech.
pub open spec fn pos_kind(p: POSView) -> POSType {
    match p {
        POSView::Noun { .. } => POSType::Noun,
        POSView::Descriptor { .. } => POSType::Descriptor,
        POSView::Verb { .. } => POSType::Verb,
        POSView::Particle { .. } => POSType::Particle,
    }
}

/// A word is standard when it is marked so and is not a particle.
pub open spec fn word_is_standard(w: WordView) -> bool {
    !(w.pos is Particle) && w.standard
}

/// The name of a kind of part of speech.
pub open spec fn pos_type_name(t: POSType) -> Seq<char> {
    match t {
        POSType::Noun => "noun"@,
        POSType::Descriptor => "descriptor"@,
        POSType::Verb => "verb"@,
        POSType::Particle => "particle"@,
    }
}

/// The kind that a name (short or long) stands for.
pub open spec fn pos_type_from_name(s: Seq<char>) -> Option<POSType> {
    if s == "n"@ || s == "noun"@ {
        Some(POSType::Noun)
    } else if s == "d"@ || s == "descriptor"@ {
        Some(POSType::Descriptor)
    } else if s == "v"@ || s == "verb"@ {
        Some(POSType::Verb)
    } else if s == "p"@ || s == "particle"@ {
        Some(POSType::Particle)
    } else {
        None
    }
}

/// The name of a particle category.
pub open spec fn category_name(c: ParticleCategory) -> Seq<char> {
    match c {
        ParticleCategory::Article => "article"@,
        ParticleCategory::Comparator => "comparator"@,
        ParticleCategory::Conjunction => "conjunction"@,
        ParticleCategory::Contextual => "contextual"@,
        ParticleCategory::Discursive => "discursive"@,
        ParticleCategory::Indicator => "indicator"@,
        ParticleCategory::Introductor => "introductor"@,
        ParticleCategory::Miscellaneous => "miscellaneous"@,
    }
}

/// The category that a name stands for.
pub open spec fn category_from_name(s: Seq<char>) -> Option<ParticleCategory> {
    if s == "article"@ {
        Some(ParticleCategory::Article)
    } else if s == "comparator"@ {
        Some(ParticleCategory::Comparator)
    } else if s == "conjunction"@ {
        Some(ParticleCategory::Conjunction)
    } else if s == "contextual"@ {
        Some(ParticleCategory::Contextual)
    } else if s == "discursive"@ {
        Some(ParticleCategory::Discursive)
    } else if s == "indicator"@ {
        Some(ParticleCategory::Indicator)
    } else if s == "introductor"@ {
        Some(ParticleCategory::Introductor)
    } else if s == "miscellaneous"@ {
        Some(ParticleCategory::Miscellaneous)
    } else {
        None
    }
}

/// Reading the name of a kind of part of speech gives the kind back.
pub proof fn lemma_pos_type_name_round_trip(t: POSType)
    ensures
        pos_type_from_name(pos_type_name(t)) == Some(t),
{
    reveal_strlit("n");
    reveal_strlit("noun");
    reveal_strlit("d");
    reveal_strlit("descriptor");
    reveal_strlit("v");
    reveal_strlit("verb");
    reveal_strlit("p");
    reveal_strlit("particle");
    let name = pos_type_name(t);
    assert(name.len() != "n"@.len() || name[0] != "n"@[0] || name =~= "n"@);
    assert(name.len() != "noun"@.len() || name[0] != "noun"@[0] || name[2] != "noun"@[2] || name =~= "noun"@);
    assert(name.len() != "d"@.len() || name[0] != "d"@[0] || name =~= "d"@);
    assert(name.len() != "descriptor"@.len() || name[0] != "descriptor"@[0] || name[2] != "descriptor"@[2] || name =~= "descriptor"@);
    assert(name.len() != "v"@.len() || name[0] != "v"@[0] || name =~= "v"@);
    assert(name.len() != "verb"@.len() || name[0] != "verb"@[0] || name[2] != "verb"@[2] || name =~= "verb"@);
    assert(name.len() != "p"@.len() || name[0] != "p"@[0] || name =~= "p"@);
    assert(name.len() != "particle"@.len() || name[0] != "particle"@[0] || name[2] != "particle"@[2] || name =~= "particle"@);
}

/// Reading the name of a particle category gives the category back.
pub proof fn lemma_category_name_round_trip(c: ParticleCategory)
    ensures
        category_from_name(category_name(c)) == Some(c),
{
    reveal_strlit("article");
    reveal_strlit("comparator");
    reveal_strlit("conjunction");
    reveal_strlit("contextual");
    reveal_strlit("discursive");
    reveal_strlit("indicator");
    reveal_strlit("introductor");
    reveal_strlit("miscellaneous");
    let name = category_name(c);
    assert(name.len() != "article"@.len() || name[0] != "article"@[0] || name[2] != "article"@[2] || name =~= "article"@);
    assert(name.len() != "comparator"@.len() || name[0] != "comparator"@[0] || name[2] != "comparator"@[2] || name =~= "comparator"@);
    assert(name.len() != "conjunction"@.len() || name[0] != "conjunction"@[0] || name[2] != "conjunction"@[2] || name =~= "conjunction"@);
    assert(name.len() != "contextual"@.len() || name[0] != "contextual"@[0] || name[2] != "contextual"@[2] || name =~= "contextual"@);
    assert(name.len() != "discursive"@.len() || name[0] != "discursive"@[0] || name[2] != "discursive"@[2] || name =~= "discursive"@);
    assert(name.len() != "indicator"@.len() || name[0] != "indicator"@[0] || name[2] != "indicator"@[2] || name =~= "indicator"@);
    assert(name.len() != "introductor"@.len() || name[0] != "introductor"@[0] || name[2] != "introductor"@[2] || name =~= "introductor"@);
    assert(name.len() != "miscellaneous"@.len() || name[0] != "miscellaneous"@[0] || name[2] != "miscellaneous"@[2] || name =~= "miscellaneous"@);
}

/// The description of a part of speech: its kind, and for a particle its
/// category in brackets.
pub open spec fn pos_description(p: POSView) -> Seq<char> {
    match p {
        POSView::Particle { category } => "particle ("@ + category_name(category) + ")"@,
        _ => pos_type_name(pos_kind(p)),
    }
}

/// The consonants after which a final "er" contracts.
pub open spec fn is_contracting(c: char) -> bool {
    c == 't' || c == 'd' || c == 'p' || c == 'b' || c == 'v' || c == 'k' || c == 'g'
}

/// The stem of a word that ends in "er": the word without it.
pub open spec fn er_stem(w: Seq<char>) -> Seq<char> {
    w.take(w.len() - 2)
}

/// Whether the stem of an "er" word ends in a contracting consonant.
pub open spec fn contracts(w: Seq<char>) -> bool {
    let stem = er_stem(w);
    stem.len() > 0 && is_contracting(stem.last())
}

/// The regular plural of a noun.
pub open spec fn noun_plural(w: Seq<char>) -> Seq<char> {
    if ends_with(w, seq!['e', 'r']) {
        if contracts(w) {
            er_stem(w) + seq!['r', 'e']
        } else {
            er_stem(w) + seq!['e', 'r', 'e', 'r']
        }
    } else if ends_with_char(w, 'e') {
        w.push('r')
    } else {
        w + seq!['e', 'r']
    }
}

/// The regular definite form of a noun.
pub open spec fn noun_definite(w: Seq<char>) -> Seq<char> {
    if ends_with_char(w, 'e') {
        w.drop_last().push('a')
    } else if ends_with(w, seq!['e', 'r']) {
        if contracts(w) {
            er_stem(w) + seq!['r', 'e', 't']
        } else {
            er_stem(w) + seq!['e', 'r', 'e', 't']
        }
    } else {
        w + seq!['e', 't']
    }
}

/// The regular definite plural of a noun.
pub open spec fn noun_definite_plural(w: Seq<char>) -> Seq<char> {
    if ends_with_char(w, 'e') {
        w.drop_last() + seq!['e', 'n', 'e']
    } else if ends_with(w, seq!['e', 'r']) {
        if contracts(w) {
            er_stem(w) + seq!['r', 'e', 'n', 'e']
        } else {
            er_stem(w) + seq!['e', 'r', 'e', 'n', 'e']
        }
    } else {
        w + seq!['e', 'n', 'e']
    }
}

/// The regular plural of a descriptor.
pub open spec fn descriptor_plural(w: Seq<char>) -> Seq<char> {
    if ends_with_char(w, 'e') {
        w
    } else {
        w.push('e')
    }
}

/// The regular adverbial form of a descriptor.
pub open spec fn descriptor_adverbial(w: Seq<char>) -> Seq<char> {
    w + seq!['l', 'i', 'g']
}

/// The regular present of a verb.
pub open spec fn verb_present(w: Seq<char>) -> Seq<char> {
    w.push('r')
}

/// The regular past of a verb.
pub open spec fn verb_past(w: Seq<char>) -> Seq<char> {
    w.push('t')
}

impl Word {
    /// Whether the word follows the regular patterns: particles never do.
    pub fn is_standard(&self) -> (b: bool)
        ensures
            b == word_is_standard(self@),
    {
        !matches!(self.pos, POS::Particle { .. }) && self.standard
    }
}

impl POSType {
    /// The name of the kind.
    pub fn as_str(&self) -> (s: &'static str)
        ensures
            s@ == pos_type_name(*self),
    {
        match self {
            POSType::Noun => "noun",
            POSType::Descriptor => "descriptor",
            POSType::Verb => "verb",
            POSType::Particle => "particle",
        }
    }

    /// Reads a kind from its short or long name; anything else is refused.
    pub fn from_str(s: &str) -> (r: Result<POSType, ()>)
        ensures
            r matches Ok(t) ==> pos_type_from_name(s@) == Some(t),
            r is Err ==> pos_type_from_name(s@) is None,
    {
        let v = chars_of(s);
        POSType::from_chars(&v)
    }

    /// Reads a kind from the characters of its short or long name.
    pub fn from_chars(v: &[char]) -> (r: Result<POSType, ()>)
        ensures
            r matches Ok(t) ==> pos_type_from_name(v@) == Some(t),
            r is Err ==> pos_type_from_name(v@) is None,
    {
        if chars_eq_str(v, "n") || chars_eq_str(v, "noun") {
            Ok(POSType::Noun)
        } else if chars_eq_str(v, "d") || chars_eq_str(v, "descriptor") {
            Ok(POSType::Descriptor)
        } else if chars_eq_str(v, "v") || chars_eq_str(v, "verb") {
            Ok(POSType::Verb)
        } else if chars_eq_str(v, "p") || chars_eq_str(v, "particle") {
            Ok(POSType::Particle)
        } else {
            Err(())
        }
    }

    /// Whether a part of speech is of this kind.
    pub fn eq_pos(&self, other: &POS) -> (b: bool)
        ensures
            b == (pos_kind(other@) == *self),
    {
        match (self, other) {
            (POSType::Noun, POS::Noun { .. }) => true,
            (POSType::Descriptor, POS::Descriptor { .. }) => true,
            (POSType::Verb, POS::Verb { .. }) => true,
            (POSType::Particle, POS::Particle { .. }) => true,
            _ => false,
        }
    }
}

impl POS {
    /// The description of the part of speech.
    pub fn ty_str(&self) -> (s: String)
        ensures
            s@ == pos_description(self@),
    {
        match self {
            POS::Noun { .. } => "noun".to_owned(),
            POS::Descriptor { .. } => "descriptor".to_owned(),
            POS::Verb { .. } => "verb".to_owned(),
            POS::Particle { category } => {
                let mut s = String::new();
                push_str(&mut s, "particle (");
                push_str(&mut s, category.as_str());
                push_str(&mut s, ")");
                s
            },
        }
    }

    /// The kind of the part of speech.
    pub fn ty(&self) -> (t: POSType)
        ensures
            t == pos_kind(self@),
    {
        match self {
            POS::Noun { .. } => POSType::Noun,
            POS::Descriptor { .. } => POSType::Descriptor,
            POS::Verb { .. } => POSType::Verb,
            POS::Particle { .. } => POSType::Particle,
        }
    }
}

impl ParticleCategory {
    /// The name of the category.
    pub fn as_str(&self) -> (s: &'static str)
        ensures
            s@ == category_name(*self),
    {
        match self {
            ParticleCategory::Article => "article",
            ParticleCategory::Comparator => "comparator",
            ParticleCategory::Conjunction => "conjunction",
            ParticleCategory::Contextual => "contextual",
            ParticleCategory::Discursive => "discursive",
            ParticleCategory::Indicator => "indicator",
            ParticleCategory::Introductor => "introductor",
            ParticleCategory::Miscellaneous => "miscellaneous",
        }
    }

    /// Reads a category from its name; anything else is refused.
    pub fn from_str(s: &str) -> (r: Result<ParticleCategory, ()>)
        ensures
            r matches Ok(c) ==> category_from_name(s@) == Some(c),
            r is Err ==> category_from_name(s@) is None,
    {
        let v = chars_of(s);
        if chars_eq_str(&v, "article") {
            Ok(ParticleCategory::Article)
        } else if chars_eq_str(&v, "comparator") {
            Ok(ParticleCategory::Comparator)
        } else if chars_eq_str(&v, "conjunction") {
            Ok(ParticleCategory::Conjunction)
        } else if chars_eq_str(&v, "contextual") {
            Ok(ParticleCategory::Contextual)
        } else if chars_eq_str(&v, "discursive") {
            Ok(ParticleCategory::Discursive)
        } else if chars_eq_str(&v, "indicator") {
            Ok(ParticleCategory::Indicator)
        } else if chars_eq_str(&v, "introductor") {
            Ok(ParticleCategory::Introductor)
        } else if chars_eq_str(&v, "miscellaneous") {
            Ok(ParticleCategory::Miscellaneous)
        } else {
            Err(())
        }
    }
}

impl Default for ParticleCategory {
    fn default() -> (c: ParticleCategory)
        ensures
            c == ParticleCategory::Miscellaneous,
    {
        ParticleCategory::Miscellaneous
    }
}

/// Whether the last two characters are "er".
fn ends_in_er(v: &Vec<char>) -> (b: bool)
    ensures
        b == ends_with(v@, seq!['e', 'r']),
{
    let n = v.len();
    if n < 2 {
        return false;
    }
    let b = v[n - 2] == 'e' && v[n - 1] == 'r';
    proof {
        let s = v@.skip(n - 2);
        if b {
            assert(s =~= seq!['e', 'r']);
        } else {
            assert(s[0] == v@[n - 2] && s[1] == v@[n - 1]);
        }
    }
    b
}

/// Whether the last character is `c`.
fn ends_in(v: &Vec<char>, c: char) -> (b: bool)
    ensures
        b == ends_with_char(v@, c),
{
    v.len() > 0 && v[v.len() - 1] == c
}

/// Whether the character before a final "er" contracts it.
fn stem_contracts(v: &Vec<char>) -> (b: bool)
    requires
        v@.len() >= 2,
    ensures
        b == contracts(v@),
{
    let n = v.len();
    if n < 3 {
        return false;
    }
    let c = v[n - 3];
    c == 't' || c == 'd' || c == 'p' || c == 'b' || c == 'v' || c == 'k' || c == 'g'
}

/// The first `n` characters.
fn prefix(v: &Vec<char>, n: usize) -> (r: Vec<char>)
    requires
        n <= v@.len(),
    ensures
        r@ == v@.take(n as int),
{
    let mut r: Vec<char> = Vec::new();
    let mut i: usize = 0;
    while i < n
        invariant
            i <= n <= v@.len(),
            r@ == v@.take(i as int),
        decreases n - i,
    {
        r.push(v[i]);
        i = i + 1;
        assert(r@ =~= v@.take(i as int));
    }
    r
}

/// `key_variant` followed by `suffix`, as a `String`.
fn with_suffix(stem: &Vec<char>, suffix: &str) -> (s: String)
    ensures
        s@ == stem@ + suffix@,
{
    let mut s = string_of(stem.as_slice());
    push_str(&mut s, suffix);
    s
}

/// The regular plural of a noun: "er" after a contracting consonant becomes
/// "re", another final "er" becomes "erer", a final "e" takes "r", and
/// anything else takes "er".
pub fn generate_noun_plural(key_variant: &str) -> (s: String)
    ensures
        s@ == noun_plural(key_variant@),
{
    let v = chars_of(key_variant);
    proof {
        reveal_strlit("re");
        reveal_strlit("erer");
        reveal_strlit("r");
        reveal_strlit("er");
    }
    if ends_in_er(&v) {
        let stem = prefix(&v, v.len() - 2);
        if stem_contracts(&v) {
            with_suffix(&stem, "re")
        } else {
            with_suffix(&stem, "erer")
        }
    } else if ends_in(&v, 'e') {
        with_suffix(&v, "r")
    } else {
        with_suffix(&v, "er")
    }
}

/// The regular definite form of a noun: a final "e" becomes "a", a final
/// "er" becomes "ret" or "eret", and anything else takes "et".
pub fn generate_noun_definite(key_variant: &str) -> (s: String)
    ensures
        s@ == noun_definite(key_variant@),
{
    let v = chars_of(key_variant);
    proof {
        reveal_strlit("a");
        reveal_strlit("ret");
        reveal_strlit("eret");
        reveal_strlit("et");
    }
    if ends_in(&v, 'e') {
        let stem = prefix(&v, v.len() - 1);
        proof {
            assert(stem@ =~= v@.drop_last());
        }
        with_suffix(&stem, "a")
    } else if ends_in_er(&v) {
        let stem = prefix(&v, v.len() - 2);
        if stem_contracts(&v) {
            with_suffix(&stem, "ret")
        } else {
            with_suffix(&stem, "eret")
        }
    } else {
        with_suffix(&v, "et")
    }
}

/// The regular definite plural of a noun: a final "e" becomes "ene", a
/// final "er" becomes "rene" or "erene", and anything else takes "ene".
pub fn generate_noun_definite_plural(key_variant: &str) -> (s: String)
    ensures
        s@ == noun_definite_plural(key_variant@),
{
    let v = chars_of(key_variant);
    proof {
        reveal_strlit("ene");
        reveal_strlit("rene");
        reveal_strlit("erene");
    }
    if ends_in(&v, 'e') {
        let stem = prefix(&v, v.len() - 1);
        proof {
            assert(stem@ =~= v@.drop_last());
        }
        with_suffix(&stem, "ene")
    } else if ends_in_er(&v) {
        let stem = prefix(&v, v.len() - 2);
        if stem_contracts(&v) {
            with_suffix(&stem, "rene")
        } else {
            with_suffix(&stem, "erene")
        }
    } else {
        with_suffix(&v, "ene")
    }
}

/// The regular plural of a descriptor: a final "e" stays, anything else
/// takes "e".
pub fn generate_descriptor_plural(key_variant: &str) -> (s: String)
    ensures
        s@ == descriptor_plural(key_variant@),
{
    let v = chars_of(key_variant);
    proof {
        reveal_strlit("e");
        reveal_strlit("");
    }
    if ends_in(&v, 'e') {
        with_suffix(&v, "")
    } else {
        with_suffix(&v, "e")
    }
}

/// The regular adverbial form of a descriptor: the word followed by "lig".
pub fn generate_descriptor_adverbial(key_variant: &str) -> (s: String)
    ensures
        s@ == descriptor_adverbial(key_variant@),
{
    proof {
        reveal_strlit("lig");
    }
    let v = chars_of(key_variant);
    with_suffix(&v, "lig")
}

/// The regular present of a verb: the word followed by "r".
pub fn generate_verb_present(key_variant: &str) -> (s: String)
    ensures
        s@ == verb_present(key_variant@),
{
    proof {
        reveal_strlit("r");
    }
    let v = chars_of(key_variant);
    with_suffix(&v, "r")
}

/// The regular past of a verb: the word followed by "t".
pub fn generate_verb_past(key_variant: &str) -> (s: String)
    ensures
        s@ == verb_past(key_variant@),
{
    proof {
        reveal_strlit("t");
    }
    let v = chars_of(key_variant);
    with_suffix(&v, "t")
}

/// A noun ending in "er" right after one of the consonants t, d, p, b, v,
/// k, g loses the 'e' of its ending before the endings of its other forms:
/// "finger" gives "fingre", "fingret" and "fingrene".
pub proof fn lemma_noun_er_contracts(x: Seq<char>)
    requires
        x.len() > 0,
        x.last() == 't' || x.last() == 'd' || x.last() == 'p' || x.last() == 'b' || x.last() == 'v'
            || x.last() == 'k' || x.last() == 'g',
    ensures
        noun_plural(x + seq!['e', 'r']) == x + seq!['r', 'e'],
        noun_definite(x + seq!['e', 'r']) == x + seq!['r', 'e', 't'],
        noun_definite_plural(x + seq!['e', 'r']) == x + seq!['r', 'e', 'n', 'e'],
{
    let w = x + seq!['e', 'r'];
    assert(w.skip(w.len() - 2) =~= seq!['e', 'r']);
    assert(w.take(w.len() - 2) =~= x);
    assert(w.last() == 'r');
}

/// A noun ending in "er" after any other character keeps its ending and
/// adds the endings after it: "lærer" gives "lærerer", "læreret" and
/// "lærerene".
pub proof fn lemma_noun_er_keeps(x: Seq<char>)
    requires
        x.len() > 0,
        !(x.last() == 't' || x.last() == 'd' || x.last() == 'p' || x.last() == 'b' || x.last() == 'v'
            || x.last() == 'k' || x.last() == 'g'),
    ensures
        noun_plural(x + seq!['e', 'r']) == x + seq!['e', 'r', 'e', 'r'],
        noun_definite(x + seq!['e', 'r']) == x + seq!['e', 'r', 'e', 't'],
        noun_definite_plural(x + seq!['e', 'r']) == x + seq!['e', 'r', 'e', 'n', 'e'],
{
    let w = x + seq!['e', 'r'];
    assert(w.skip(w.len() - 2) =~= seq!['e', 'r']);
    assert(w.take(w.len() - 2) =~= x);
    assert(w.last() == 'r');
    assert(x + seq!['e', 'r', 'e', 'r'] =~= er_stem(w) + seq!['e', 'r', 'e', 'r']);
}

/// A noun ending in 'e' takes an 'r' in the plural, and trades its 'e'
/// for 'a' in the definite form and for "ene" in the definite plural:
/// "jente" gives "jenter", "jenta" and "jentene".
pub proof fn lemma_noun_e(x: Seq<char>)
    ensures
        noun_plural(x.push('e')) == x + seq!['e', 'r'],
        noun_definite(x.push('e')) == x.push('a'),
        noun_definite_plural(x.push('e')) == x + seq!['e', 'n', 'e'],
{
    let w = x.push('e');
    assert(w.drop_last() =~= x);
    assert(w.push('r') =~= x + seq!['e', 'r']);
    if w.len() >= 2 {
        assert(w.skip(w.len() - 2)[1] == 'e');
    }
}

/// Any other noun takes "er", "et" and "ene": "hus" gives "huser",
/// "huset" and "husene".
pub proof fn lemma_noun_plain(w: Seq<char>)
    requires
        !(w.len() > 0 && w.last() == 'e'),
        !(w.len() >= 2 && w[w.len() - 2] == 'e' && w.last() == 'r'),
    ensures
        noun_plural(w) == w + seq!['e', 'r'],
        noun_definite(w) == w + seq!['e', 't'],
        noun_definite_plural(w) == w + seq!['e', 'n', 'e'],
{
    if w.len() >= 2 && w.skip(w.len() - 2) == seq!['e', 'r'] {
        assert(w.skip(w.len() - 2)[0] == w[w.len() - 2]);
        assert(w.skip(w.len() - 2)[1] == w[w.len() - 1]);
    }
}

/// A descriptor takes an 'e' in the plural unless it ends in one, and
/// "lig" in the adverbial form; a verb takes 'r' in the present and 't' in
/// the past.
pub proof fn lemma_descriptor_and_verb_forms(w: Seq<char>)
    ensures
        descriptor_plural(w) == (if w.len() > 0 && w.last() == 'e' {
            w
        } else {
            w + seq!['e']
        }),
        descriptor_adverbial(w) == w + seq!['l', 'i', 'g'],
        verb_present(w) == w + seq!['r'],
        verb_past(w) == w + seq!['t'],
{
    assert(w.push('e') =~= w + seq!['e']);
    assert(w.push('r') =~= w + seq!['r']);
    assert(w.push('t') =~= w + seq!['t']);
}

} // verus!

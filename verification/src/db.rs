//! The dictionary: words filed under ids, and a working copy that keeps
//! indexes from variants and from phones to ids, built when first asked for
//! and dropped whenever the words or the phone settings change.
use vstd::prelude::*;
use std::collections::HashMap;
use crate::index::{KeyIndex, entries_wf, has_key, holds};
use crate::lang::{Word, WordView, POS, strings_view};
use crate::text::{chars_eq, chars_of, contains_seq, ends_with_char, push_str, lemma_split_on_len, split, split_on, string_of};
use crate::lang::{
    POSView, ParticleCategory, category_from_name, descriptor_adverbial, descriptor_plural,
    generate_descriptor_adverbial, generate_descriptor_plural, generate_noun_definite,
    generate_noun_definite_plural, generate_noun_plural, generate_verb_past, generate_verb_present,
    noun_definite, noun_definite_plural, noun_plural, pos_description, pos_kind, verb_past,
    verb_present,
};
use crate::doc::{SpanStyle, SpanView, StyledLine, StyledText, Tint, join, join_strings, pad_right, padded, plain, span};
use crate::matching::{
    Pattern, fresh_word_id, is_version_seven, regex_compiles, regex_error_message, regex_matches,
};
use crate::parser::{MatchType, POSTypeFlags, PopularityBounds, SheetType, flags_every};

verus! {

broadcast use vstd::std_specs::hash::group_hash_axioms;

/// The version of the stored format that this library writes.
pub const CURRENT_VERSION_ID: u8 = 1;

/// A word as it is stored.
#[derive(Debug, Clone)]
pub struct WordData {
    pub word: Word,
}

/// All words, by id.
pub struct Database {
    version: u8,
    data: HashMap<u128, WordData>,
}

impl Default for Database {
    fn default() -> (db: Database)
        ensures
            db.spec_version() == CURRENT_VERSION_ID,
            db.spec_data() == Map::<u128, WordData>::empty(),
    {
        Database { version: CURRENT_VERSION_ID, data: HashMap::new() }
    }
}

/// A copy of a list of strings.
pub fn copy_strings(v: &Vec<String>) -> (r: Vec<String>)
    ensures
        strings_view(r@) == strings_view(v@),
{
    let mut r: Vec<String> = Vec::new();
    let mut i: usize = 0;
    while i < v.len()
        invariant
            i <= v@.len(),
            r@.len() == i,
            forall|j: int| 0 <= j < i ==> (#[trigger] r@[j])@ == v@[j]@,
        decreases v@.len() - i,
    {
        r.push(v[i].clone());
        i = i + 1;
    }
    assert(strings_view(r@) =~= strings_view(v@));
    r
}

impl Word {
    /// A copy of the word.
    pub fn copy(&self) -> (w: Word)
        ensures
            w@ == self@,
    {
        let pos = match &self.pos {
            POS::Noun { plural, definite, definite_plural } => POS::Noun {
                plural: plural.clone(),
                definite: definite.clone(),
                definite_plural: definite_plural.clone(),
            },
            POS::Descriptor { plural, adverbial } => POS::Descriptor {
                plural: plural.clone(),
                adverbial: adverbial.clone(),
            },
            POS::Verb { present, past } => POS::Verb { present: present.clone(), past: past.clone() },
            POS::Particle { category } => POS::Particle { category: *category },
        };
        Word {
            variants: copy_strings(&self.variants),
            phones: copy_strings(&self.phones),
            definition: self.definition.clone(),
            standard: self.standard,
            pos,
        }
    }
}

/// The id–word pairs of a list, later pairs overriding earlier ones.
pub open spec fn entries_map(es: Seq<(u128, Word)>) -> Map<u128, WordView>
    decreases es.len(),
{
    if es.len() == 0 {
        Map::empty()
    } else {
        entries_map(es.drop_last()).insert(es.last().0, es.last().1@)
    }
}

/// The words of a map of stored words.
pub open spec fn words_of(data: Map<u128, WordData>) -> Map<u128, WordView> {
    Map::new(|id: u128| data.contains_key(id), |id: u128| data[id].word@)
}

impl Database {
    /// The stored words by id.
    pub closed spec fn spec_data(&self) -> Map<u128, WordData> {
        self.data@
    }

    /// The version of the stored format.
    pub closed spec fn spec_version(&self) -> u8 {
        self.version
    }

    /// The version of the stored format.
    pub fn version(&self) -> (v: u8)
        ensures
            v == self.spec_version(),
    {
        self.version
    }

    /// The number of words.
    pub fn len(&self) -> (n: usize)
        ensures
            n == self.spec_data().len(),
    {
        self.data.len()
    }

    /// A database of the given version holding the given words; of two
    /// pairs with one id, the later one stays.
    pub fn from_entries(version: u8, entries: Vec<(u128, Word)>) -> (db: Database)
        ensures
            db.spec_version() == version,
            words_of(db.spec_data()) == entries_map(entries@),
    {
        let mut data: HashMap<u128, WordData> = HashMap::new();
        let ghost es = entries@;
        let mut i: usize = 0;
        while i < entries.len()
            invariant
                es == entries@,
                i <= es.len(),
                words_of(data@) == entries_map(es.take(i as int)),
            decreases es.len() - i,
        {
            let id = entries[i].0;
            let word = entries[i].1.copy();
            assert(es.take(i + 1).drop_last() =~= es.take(i as int));
            data.insert(id, WordData { word });
            assert(words_of(data@) =~= entries_map(es.take(i + 1)));
            i = i + 1;
        }
        assert(es.take(es.len() as int) =~= es);
        Database { version, data }
    }

    /// The word filed under `uuid`, if there is one.
    pub fn fetch(&self, uuid: u128) -> (r: Option<&WordData>)
        ensures
            match r {
                Some(w) => self.spec_data().contains_key(uuid) && *w == self.spec_data()[uuid],
                None => !self.spec_data().contains_key(uuid),
            },
    {
        self.data.get(&uuid)
    }
    /// Up to `n` ids of stored words, each once, in the order the map
    /// yields them.
    pub fn debug_get_n(&self, n: usize) -> (v: Vec<u128>)
        ensures
            v@.no_duplicates(),
            v@.len() == if n < self.spec_data().len() {
                n as nat
            } else {
                self.spec_data().len()
            },
            forall|i: int| 0 <= i < v@.len() ==> self.spec_data().contains_key(#[trigger] v@[i]),
    {
        let mut v: Vec<u128> = Vec::new();
        for k in it: self.data.keys()
            invariant
                it.seq().unref().to_set() == self.data@.dom(),
                it.seq().no_duplicates(),
                it.seq().len() == self.data@.dom().len(),
                v@.len() == if it.index() < n {
                    it.index() as nat
                } else {
                    n as nat
                },
                v@ == it.seq().unref().take(v@.len() as int),
        {
            if v.len() < n {
                v.push(*k);
                assert(v@ =~= it.seq().unref().take(v@.len() as int));
            }
        }
        proof {
            let ks = self.data@.dom();
            assert(v@.len() <= self.data@.dom().len());
        }
        v
    }
    /// Every stored word with its id, each id once, in the order the map
    /// yields them.
    pub fn entries(&self) -> (v: Vec<(u128, Word)>)
        ensures
            v@.len() == self.spec_data().len(),
            v@.map_values(|e: (u128, Word)| e.0).no_duplicates(),
            forall|i: int|
                0 <= i < v@.len() ==> self.spec_data().contains_key((#[trigger] v@[i]).0)
                    && v@[i].1@ == self.spec_data()[v@[i].0].word@,
            forall|id: u128|
                self.spec_data().contains_key(id) ==> exists|i: int|
                    0 <= i < v@.len() && (#[trigger] v@[i]).0 == id,
    {
        let mut v: Vec<(u128, Word)> = Vec::new();
        let iter = self.data.iter();
        let ghost pairs = vstd::std_specs::iter::IteratorSpec::remaining(&iter);
        proof {
            lemma_map_pairs(&self.data);
        }
        for pair in it: iter
            invariant
                it.seq() == pairs,
                pairs_of(self.data@, pairs),
                v@.len() == it.index(),
                forall|j: int|
                    0 <= j < v@.len() ==> (#[trigger] v@[j]).0 == *pairs[j].0 && v@[j].1@
                        == pairs[j].1.word@,
        {
            let (id, wd) = pair;
            v.push((*id, wd.word.copy()));
        }
        proof {
            let ids = v@.map_values(|e: (u128, Word)| e.0);
            assert forall|a: int, b: int| 0 <= a < ids.len() && 0 <= b < ids.len() && a != b implies ids[a]
                != ids[b] by {
                if ids[a] == ids[b] {
                    assert(pairs[a] == pairs[b]);
                }
            }
            assert forall|id: u128| self.spec_data().contains_key(id) implies exists|i: int|
                0 <= i < v@.len() && (#[trigger] v@[i]).0 == id by {
                let j = choose|j: int| 0 <= j < pairs.len() && pairs[j] == (&id, &self.data@[id]);
                assert(v@[j].0 == id);
            }
        }
        v
    }
}

/// With distinct ids, the words filed by a list of entries are those of
/// the entries: an id is filed exactly when an entry has it, with that
/// entry's word.
proof fn lemma_entries_map_distinct(es: Seq<(u128, Word)>)
    requires
        es.map_values(|e: (u128, Word)| e.0).no_duplicates(),
    ensures
        forall|id: u128| #[trigger] entries_map(es).contains_key(id) <==> exists|i: int| 0 <= i < es.len() && (#[trigger] es[i]).0 == id,
        forall|i: int| 0 <= i < es.len() ==> entries_map(es)[(#[trigger] es[i]).0] == es[i].1@,
    decreases es.len(),
{
    if es.len() > 0 {
        let init = es.drop_last();
        let ids = es.map_values(|e: (u128, Word)| e.0);
        let init_ids = init.map_values(|e: (u128, Word)| e.0);
        assert forall|a: int, b: int|
            0 <= a < init_ids.len() && 0 <= b < init_ids.len() && a != b implies #[trigger] init_ids[a]
            != #[trigger] init_ids[b] by {
            assert(init_ids[a] == ids[a]);
            assert(init_ids[b] == ids[b]);
        }
        assert(init_ids.no_duplicates());
        lemma_entries_map_distinct(init);
        assert(entries_map(es) == entries_map(init).insert(es.last().0, es.last().1@));
        assert forall|id: u128| #[trigger] entries_map(es).contains_key(id) <==> exists|i: int|
            0 <= i < es.len() && (#[trigger] es[i]).0 == id by {
            if entries_map(es).contains_key(id) && id != es.last().0 {
                assert(entries_map(init).contains_key(id));
                let i = choose|i: int| 0 <= i < init.len() && (#[trigger] init[i]).0 == id;
                assert(init[i] == es[i]);
                assert(es[i].0 == id);
            }
            if entries_map(es).contains_key(id) && id == es.last().0 {
                assert(es[es.len() - 1].0 == id);
            }
            if exists|i: int| 0 <= i < es.len() && (#[trigger] es[i]).0 == id {
                let i = choose|i: int| 0 <= i < es.len() && (#[trigger] es[i]).0 == id;
                if i < init.len() {
                    assert(init[i].0 == id);
                }
            }
        }
        assert forall|i: int| 0 <= i < es.len() implies entries_map(es)[(#[trigger] es[i]).0] == es[i].1@ by {
            if i < init.len() {
                assert(init[i] == es[i]);
                assert(es.map_values(|e: (u128, Word)| e.0)[i] != es.map_values(|e: (u128, Word)| e.0)[es.len() - 1]);
            }
        }
    }
}

/// Filing the entries that a database lists gives back its words: what
/// `entries` lists, `from_entries` stores again unchanged.
pub proof fn lemma_entries_rebuild(data: Map<u128, WordData>, es: Seq<(u128, Word)>)
    requires
        es.map_values(|e: (u128, Word)| e.0).no_duplicates(),
        forall|i: int|
            0 <= i < es.len() ==> data.contains_key((#[trigger] es[i]).0) && es[i].1@ == data[es[i].0].word@,
        forall|id: u128| data.contains_key(id) ==> exists|i: int| 0 <= i < es.len() && (#[trigger] es[i]).0 == id,
    ensures
        entries_map(es) == words_of(data),
{
    lemma_entries_map_distinct(es);
    assert forall|id: u128| #[trigger] entries_map(es).contains_key(id) implies entries_map(es)[id] == words_of(data)[id] by {
        let i = choose|i: int| 0 <= i < es.len() && (#[trigger] es[i]).0 == id;
        assert(entries_map(es)[es[i].0] == es[i].1@);
    }
    assert(entries_map(es) =~= words_of(data));
}

/// `pairs` lists each id–word pair of `m` once.
pub open spec fn pairs_of(m: Map<u128, WordData>, pairs: Seq<(&u128, &WordData)>) -> bool {
    &&& pairs.len() == m.dom().len()
    &&& pairs.no_duplicates()
    &&& forall|j: int|
        0 <= j < pairs.len() ==> m.contains_key(*(#[trigger] pairs[j]).0) && m[*pairs[j].0]
            == *pairs[j].1
    &&& forall|id: u128| #[trigger] m.contains_key(id) ==> pairs.contains((&id, &m[id]))
}

/// What the iterator of a map yields, once it is known to hold no pair
/// twice.
pub proof fn lemma_map_pairs(m: &HashMap<u128, WordData>)
    requires
        vstd::std_specs::iter::IteratorSpec::remaining(&vstd::std_specs::hash::spec_hash_map_iter(m)).no_duplicates(),
    ensures
        pairs_of(m@, vstd::std_specs::iter::IteratorSpec::remaining(&vstd::std_specs::hash::spec_hash_map_iter(m))),
{
}

/// A phone as it is indexed: without a final 'Y' when terminal Y is
/// ignored, and without any 'H' when H is ignored.
pub open spec fn process_phone_spec(ignore_terminal_y: bool, ignore_h: bool, phone: Seq<char>) -> Seq<
    char,
> {
    let p = if ignore_terminal_y && ends_with_char(phone, 'Y') {
        phone.drop_last()
    } else {
        phone
    };
    if ignore_h {
        p.filter(|c: char| c != 'H')
    } else {
        p
    }
}

/// A phone as it is indexed, under the given settings.
pub fn process_phone_with(ignore_terminal_y: bool, ignore_h: bool, phone: &str) -> (s: String)
    ensures
        s@ == process_phone_spec(ignore_terminal_y, ignore_h, phone@),
{
    let v = chars_of(phone);
    let n = v.len();
    let end = if ignore_terminal_y && n > 0 && v[n - 1] == 'Y' {
        n - 1
    } else {
        n
    };
    let ghost p = if ignore_terminal_y && ends_with_char(phone@, 'Y') {
        phone@.drop_last()
    } else {
        phone@
    };
    assert(p =~= v@.take(end as int));
    let mut out: Vec<char> = Vec::new();
    let mut i: usize = 0;
    while i < end
        invariant
            i <= end <= v@.len(),
            p == v@.take(end as int),
            out@ == if ignore_h {
                p.take(i as int).filter(|c: char| c != 'H')
            } else {
                p.take(i as int)
            },
        decreases end - i,
    {
        let c = v[i];
        if !ignore_h || c != 'H' {
            out.push(c);
        }
        proof {
            let q = p.take(i + 1);
            assert(q.drop_last() =~= p.take(i as int));
            reveal_with_fuel(Seq::filter, 1);
        }
        i = i + 1;
        assert(out@ =~= if ignore_h {
            p.take(i as int).filter(|c: char| c != 'H')
        } else {
            p.take(i as int)
        });
    }
    assert(p.take(end as int) =~= p);
    string_of(&out)
}

/// Where the keys of an index come from.
pub enum KeySource {
    /// The variants of each word.
    Variants,
    /// The phones of each word, as `process_phone_spec` makes them.
    Phones { ignore_terminal_y: bool, ignore_h: bool },
}

/// The keys that a word is filed under.
pub open spec fn source_keys(src: KeySource, w: WordView) -> Seq<Seq<char>> {
    match src {
        KeySource::Variants => w.variants,
        KeySource::Phones { ignore_terminal_y, ignore_h } => w.phones.map_values(
            |p: Seq<char>| process_phone_spec(ignore_terminal_y, ignore_h, p),
        ),
    }
}

/// An index of `data` by the keys of `src`: an id is filed under a key
/// exactly when a stored word with that id has that key.
pub open spec fn indexes(es: Seq<(Seq<char>, Seq<u128>)>, data: Map<u128, WordData>, src: KeySource) -> bool {
    &&& entries_wf(es)
    &&& forall|k: Seq<char>, x: u128|
        #[trigger] holds(es, k, x) <==> (data.contains_key(x) && source_keys(
            src,
            data[x].word@,
        ).contains(k))
}

/// The keys that a word is filed under.
fn keys_of(w: &Word, src: &KeySource) -> (v: Vec<String>)
    ensures
        strings_view(v@) == source_keys(*src, w@),
{
    match src {
        KeySource::Variants => copy_strings(&w.variants),
        KeySource::Phones { ignore_terminal_y, ignore_h } => {
            let mut v: Vec<String> = Vec::new();
            let mut i: usize = 0;
            while i < w.phones.len()
                invariant
                    i <= w.phones@.len(),
                    v@.len() == i,
                    forall|j: int|
                        0 <= j < i ==> (#[trigger] v@[j])@ == process_phone_spec(
                            *ignore_terminal_y,
                            *ignore_h,
                            w.phones@[j]@,
                        ),
                decreases w.phones@.len() - i,
            {
                v.push(process_phone_with(*ignore_terminal_y, *ignore_h, w.phones[i].as_str()));
                i = i + 1;
            }
            assert(strings_view(v@) =~= source_keys(*src, w@));
            v
        },
    }
}

/// Builds the index of `data` by the keys of `src`.
fn build_index(data: &HashMap<u128, WordData>, src: &KeySource) -> (ix: KeyIndex)
    ensures
        indexes(ix.spec_entries(), data@, *src),
{
    let mut ix = KeyIndex::new();
    let iter = data.iter();
    let ghost pairs = vstd::std_specs::iter::IteratorSpec::remaining(&iter);
    proof {
        lemma_map_pairs(data);
    }
    for pair in it: iter
        invariant
            it.seq() == pairs,
            pairs_of(data@, pairs),
            ix.wf(),
            forall|k: Seq<char>, x: u128|
                #[trigger] holds(ix.spec_entries(), k, x) <==> exists|j: int|
                    0 <= j < it.index() && *pairs[j].0 == x && source_keys(
                        *src,
                        pairs[j].1.word@,
                    ).contains(k),
    {
        let (id, wd) = pair;
        let ghost j0 = it.index();
        let keys = keys_of(&wd.word, src);
        let ghost ks = strings_view(keys@);
        let mut m: usize = 0;
        while m < keys.len()
            invariant
                m <= keys@.len(),
                ks == strings_view(keys@),
                ks == source_keys(*src, pairs[j0].1.word@),
                *pairs[j0].0 == *id,
                0 <= j0 < pairs.len(),
                ix.wf(),
                forall|k: Seq<char>, x: u128|
                    #[trigger] holds(ix.spec_entries(), k, x) <==> (exists|j: int|
                        0 <= j < j0 && *pairs[j].0 == x && source_keys(
                            *src,
                            pairs[j].1.word@,
                        ).contains(k)) || (x == *id && ks.take(m as int).contains(k)),
            decreases keys@.len() - m,
        {
            let kc = chars_of(keys[m].as_str());
            ix.add(&kc, *id);
            proof {
                assert(ks[m as int] == kc@);
                assert(ks.take(m + 1) =~= ks.take(m as int).push(kc@));
                broadcast use vstd::seq_lib::lemma_seq_contains_after_push;
            }
            m = m + 1;
        }
        proof {
            assert(ks.take(m as int) =~= ks);
            assert forall|k: Seq<char>, x: u128| #[trigger] holds(ix.spec_entries(), k, x) <==> exists|j: int|
                0 <= j < j0 + 1 && *pairs[j].0 == x && source_keys(*src, pairs[j].1.word@).contains(k) by {
                if x == *id && ks.contains(k) {
                    assert(*pairs[j0].0 == x && source_keys(*src, pairs[j0].1.word@).contains(k));
                }
                if exists|j: int| 0 <= j < j0 + 1 && *pairs[j].0 == x && source_keys(*src, pairs[j].1.word@).contains(k) {
                    let j = choose|j: int| 0 <= j < j0 + 1 && *pairs[j].0 == x && source_keys(*src, pairs[j].1.word@).contains(k);
                    if j < j0 {
                    } else {
                        assert(x == *id);
                    }
                }
            }
        }
    }
    proof {
        assert forall|k: Seq<char>, x: u128| #[trigger] holds(ix.spec_entries(), k, x) <==> (data@.contains_key(x) && source_keys(*src, data@[x].word@).contains(k)) by {
            if data@.contains_key(x) && source_keys(*src, data@[x].word@).contains(k) {
                let j = choose|j: int| 0 <= j < pairs.len() && pairs[j] == (&x, &data@[x]);
                assert(*pairs[j].0 == x);
            }
        }
    }
    ix
}

/// The working copy of the dictionary: the words, an index of phones and an
/// index of variants (each built when first asked for), and the settings
/// under which phones are indexed.
#[allow(non_snake_case)]
pub struct WorkingDatabase {
    db: Database,
    phones: Option<KeyIndex>,
    words: Option<KeyIndex>,
    ignore_terminal_Y: bool,
    ignore_H: bool,
}

/// Why a regular expression was refused, in the words of the `regex` crate.
#[derive(Debug, Clone)]
pub struct RegexError {
    pub message: String,
}

impl From<Database> for WorkingDatabase {
    fn from(db: Database) -> (w: WorkingDatabase) {
        WorkingDatabase::from_database(db)
    }
}

impl vstd::std_specs::convert::FromSpecImpl<Database> for WorkingDatabase {
    open spec fn obeys_from_spec() -> bool {
        true
    }

    open spec fn from_spec(db: Database) -> WorkingDatabase {
        working_copy(db)
    }
}

impl From<WorkingDatabase> for Database {
    fn from(w: WorkingDatabase) -> (db: Database) {
        w.into_database()
    }
}

impl vstd::std_specs::convert::FromSpecImpl<WorkingDatabase> for Database {
    open spec fn obeys_from_spec() -> bool {
        true
    }

    open spec fn from_spec(w: WorkingDatabase) -> Database {
        w.spec_db()
    }
}

impl core::ops::Deref for WorkingDatabase {
    type Target = Database;

    fn deref(&self) -> (db: &Database)
        ensures
            *db == self.spec_db(),
    {
        &self.db
    }
}

/// A working copy of `db`, with no index built, terminal Y ignored and H
/// kept.
pub closed spec fn working_copy(db: Database) -> WorkingDatabase {
    WorkingDatabase { db, phones: None, words: None, ignore_terminal_Y: true, ignore_H: false }
}

/// Making a working copy of a database and taking the words back out of it
/// loses nothing: the same version and the same words under the same ids.
pub proof fn lemma_working_copy_round_trip(db: Database)
    ensures
        working_copy(db).spec_db() == db,
        working_copy(db).spec_data() == db.spec_data(),
        working_copy(db).spec_version() == db.spec_version(),
{
}

impl WorkingDatabase {
    /// The stored words by id.
    pub closed spec fn spec_data(&self) -> Map<u128, WordData> {
        self.db.spec_data()
    }

    /// The words, without the indexes.
    pub closed spec fn spec_db(&self) -> Database {
        self.db
    }

    /// The version of the stored format.
    pub closed spec fn spec_version(&self) -> u8 {
        self.db.spec_version()
    }

    /// The phone index, if it has been built since the last change.
    pub closed spec fn spec_phones(&self) -> Option<KeyIndex> {
        self.phones
    }

    /// The variant index, if it has been built.
    pub closed spec fn spec_words(&self) -> Option<KeyIndex> {
        self.words
    }

    /// Whether a final 'Y' is dropped from phones.
    pub closed spec fn spec_ignore_terminal_y(&self) -> bool {
        self.ignore_terminal_Y
    }

    /// Whether every 'H' is dropped from phones.
    pub closed spec fn spec_ignore_h(&self) -> bool {
        self.ignore_H
    }

    /// Where the keys of the phone index come from.
    pub open spec fn phone_source(&self) -> KeySource {
        KeySource::Phones {
            ignore_terminal_y: self.spec_ignore_terminal_y(),
            ignore_h: self.spec_ignore_h(),
        }
    }

    /// The phone index, when there is one, indexes the stored words under
    /// the current settings; the variant index, when there is one, is well
    /// formed and names only stored words.
    pub open spec fn wf(&self) -> bool {
        &&& (self.spec_phones() matches Some(ix) ==> indexes(
            ix.spec_entries(),
            self.spec_data(),
            self.phone_source(),
        ))
        &&& (self.spec_words() matches Some(ix) ==> {
            &&& ix.wf()
            &&& forall|k: Seq<char>, x: u128|
                #[trigger] holds(ix.spec_entries(), k, x) ==> self.spec_data().contains_key(x)
        })
    }

    /// The variant index, when there is one, indexes the stored words.
    pub open spec fn words_fresh(&self) -> bool {
        self.spec_words() matches Some(ix) ==> indexes(
            ix.spec_entries(),
            self.spec_data(),
            KeySource::Variants,
        )
    }

    /// A working copy of `db`, with no index built, terminal Y ignored and H
    /// kept.
    pub fn from_database(db: Database) -> (w: WorkingDatabase)
        ensures
            w == working_copy(db),
            w.wf(),
            w.words_fresh(),
            w.spec_data() == db.spec_data(),
            w.spec_version() == db.spec_version(),
            w.spec_phones() is None,
            w.spec_words() is None,
            w.spec_ignore_terminal_y(),
            !w.spec_ignore_h(),
    {
        WorkingDatabase { db, phones: None, words: None, ignore_terminal_Y: true, ignore_H: false }
    }

    /// The words, without the indexes.
    pub fn into_database(self) -> (db: Database)
        ensures
            db == self.spec_db(),
            db.spec_data() == self.spec_data(),
            db.spec_version() == self.spec_version(),
    {
        self.db
    }

    /// The words.
    pub fn database(&self) -> (db: &Database)
        ensures
            db.spec_data() == self.spec_data(),
            db.spec_version() == self.spec_version(),
    {
        &self.db
    }

    /// The word filed under `uuid`, if there is one.
    pub fn fetch(&self, uuid: u128) -> (r: Option<&WordData>)
        ensures
            match r {
                Some(w) => self.spec_data().contains_key(uuid) && *w == self.spec_data()[uuid],
                None => !self.spec_data().contains_key(uuid),
            },
    {
        self.db.fetch(uuid)
    }

    /// Whether a final 'Y' is dropped from phones.
    pub fn ignore_terminal_y(&self) -> (b: bool)
        ensures
            b == self.spec_ignore_terminal_y(),
    {
        self.ignore_terminal_Y
    }

    /// Whether every 'H' is dropped from phones.
    pub fn ignore_h(&self) -> (b: bool)
        ensures
            b == self.spec_ignore_h(),
    {
        self.ignore_H
    }

    /// Builds the phone index.
    fn generate_phones(&mut self)
        requires
            old(self).wf(),
        ensures
            final(self).wf(),
            final(self).spec_data() == old(self).spec_data(),
            final(self).spec_version() == old(self).spec_version(),
            final(self).spec_words() == old(self).spec_words(),
            final(self).spec_ignore_terminal_y() == old(self).spec_ignore_terminal_y(),
            final(self).spec_ignore_h() == old(self).spec_ignore_h(),
            final(self).spec_phones() is Some,
    {
        let src = KeySource::Phones {
            ignore_terminal_y: self.ignore_terminal_Y,
            ignore_h: self.ignore_H,
        };
        let ix = build_index(&self.db.data, &src);
        self.phones = Some(ix);
    }

    /// Builds the variant index.
    fn generate_words(&mut self)
        requires
            old(self).wf(),
        ensures
            final(self).wf(),
            final(self).words_fresh(),
            final(self).spec_data() == old(self).spec_data(),
            final(self).spec_version() == old(self).spec_version(),
            final(self).spec_phones() == old(self).spec_phones(),
            final(self).spec_ignore_terminal_y() == old(self).spec_ignore_terminal_y(),
            final(self).spec_ignore_h() == old(self).spec_ignore_h(),
            final(self).spec_words() is Some,
    {
        let ix = build_index(&self.db.data, &KeySource::Variants);
        self.words = Some(ix);
    }
}

/// Whether the key of entry `i` is picked by the pattern: an equal key for
/// a standard match, a key the regular expression matches for a regex
/// match, and the entry's verdict in `hits` for a fuzzy match.
pub open spec fn key_selected(key: Seq<char>, i: int, pattern: Seq<char>, mt: MatchType, hits: Seq<bool>) -> bool {
    match mt {
        MatchType::Standard => key == pattern,
        MatchType::Regex => regex_matches(pattern, key),
        MatchType::Fuzzy => hits[i],
    }
}

/// The ids of the first `n` entries whose keys the pattern picks, entry
/// after entry.
pub open spec fn found_ids(
    es: Seq<(Seq<char>, Seq<u128>)>,
    pattern: Seq<char>,
    mt: MatchType,
    hits: Seq<bool>,
    n: int,
) -> Seq<u128>
    decreases n,
{
    if n <= 0 {
        Seq::empty()
    } else {
        found_ids(es, pattern, mt, hits, n - 1) + if key_selected(es[n - 1].0, n - 1, pattern, mt, hits) {
            es[n - 1].1
        } else {
            Seq::empty()
        }
    }
}

/// The ids whose words are of a kind in `guards`, all of them when
/// `guards` holds every kind.
pub open spec fn guarded(ids: Seq<u128>, guards: POSTypeFlags, data: Map<u128, WordData>) -> Seq<u128> {
    if guards == flags_every() {
        ids
    } else {
        ids.filter(|x: u128| guards@.contains(pos_kind(data[x].word@.pos)))
    }
}

/// The ids filed under the keys that the pattern picks, entry after entry.
fn seek_matches(map: &KeyIndex, pattern: &str, match_type: MatchType, fuzzy_hits: &Vec<bool>) -> (r: Result<
    Vec<u128>,
    RegexError,
>)
    requires
        match_type == MatchType::Fuzzy ==> fuzzy_hits@.len() == map.spec_entries().len(),
    ensures
        r is Err <==> (match_type == MatchType::Regex && !regex_compiles(pattern@)),
        r matches Err(e) ==> e.message@ == regex_error_message(pattern@),
        r matches Ok(v) ==> v@ == found_ids(
            map.spec_entries(),
            pattern@,
            match_type,
            fuzzy_hits@,
            map.spec_entries().len() as int,
        ),
{
    let compiled = match match_type {
        MatchType::Regex => match Pattern::compile(pattern) {
            Ok(p) => Some(p),
            Err(message) => {
                return Err(RegexError { message });
            },
        },
        _ => None,
    };
    let pc = chars_of(pattern);
    let ghost es = map.spec_entries();
    let mut variants: Vec<u128> = Vec::new();
    let mut i: usize = 0;
    while i < map.len()
        invariant
            es == map.spec_entries(),
            i <= es.len(),
            pc@ == pattern@,
            match_type == MatchType::Fuzzy ==> fuzzy_hits@.len() == es.len(),
            match_type == MatchType::Regex ==> (compiled matches Some(p) && p@ == pattern@),
            variants@ == found_ids(es, pattern@, match_type, fuzzy_hits@, i as int),
        decreases es.len() - i,
    {
        let key = map.key(i);
        let picked = match match_type {
            MatchType::Standard => {
                let kc = chars_of(key.as_str());
                chars_eq(&kc, &pc)
            },
            MatchType::Regex => match &compiled {
                Some(p) => p.is_match(key.as_str()),
                None => false,
            },
            MatchType::Fuzzy => fuzzy_hits[i],
        };
        if picked {
            let ids = map.ids(i);
            let mut j: usize = 0;
            let ghost before = variants@;
            while j < ids.len()
                invariant
                    j <= ids@.len(),
                    variants@ == before + ids@.take(j as int),
                decreases ids@.len() - j,
            {
                variants.push(ids[j]);
                j = j + 1;
                assert(variants@ =~= before + ids@.take(j as int));
            }
            assert(ids@.take(ids@.len() as int) =~= ids@);
        }
        i = i + 1;
        assert(variants@ =~= found_ids(es, pattern@, match_type, fuzzy_hits@, i as int));
    }
    Ok(variants)
}

impl WorkingDatabase {
    /// The variant index, built first if there is none.
    pub fn get_word_map(&mut self) -> (m: &KeyIndex)
        requires
            old(self).wf(),
        ensures
            final(self).wf(),
            final(self).spec_data() == old(self).spec_data(),
            final(self).spec_version() == old(self).spec_version(),
            final(self).spec_phones() == old(self).spec_phones(),
            final(self).spec_ignore_terminal_y() == old(self).spec_ignore_terminal_y(),
            final(self).spec_ignore_h() == old(self).spec_ignore_h(),
            final(self).spec_words() == Some(*m),
            old(self).spec_words() is Some ==> final(self).spec_words() == old(self).spec_words(),
            old(self).words_fresh() ==> final(self).words_fresh(),
            m.wf(),
    {
        if self.words.is_none() {
            self.generate_words();
        }
        self.words.as_ref().unwrap()
    }

    /// The phone index, built first if there is none.
    pub fn get_phone_map(&mut self) -> (m: &KeyIndex)
        requires
            old(self).wf(),
        ensures
            final(self).wf(),
            final(self).spec_data() == old(self).spec_data(),
            final(self).spec_version() == old(self).spec_version(),
            final(self).spec_words() == old(self).spec_words(),
            final(self).spec_ignore_terminal_y() == old(self).spec_ignore_terminal_y(),
            final(self).spec_ignore_h() == old(self).spec_ignore_h(),
            final(self).spec_phones() == Some(*m),
            old(self).spec_phones() is Some ==> final(self).spec_phones() == old(self).spec_phones(),
            indexes(m.spec_entries(), final(self).spec_data(), final(self).phone_source()),
    {
        if self.phones.is_none() {
            self.generate_phones();
        }
        self.phones.as_ref().unwrap()
    }

    /// The phone index; there must be one.
    pub fn unwrap_phone_map(&self) -> (m: &KeyIndex)
        requires
            self.wf(),
            self.spec_phones() is Some,
        ensures
            self.spec_phones() == Some(*m),
            indexes(m.spec_entries(), self.spec_data(), self.phone_source()),
    {
        self.phones.as_ref().unwrap()
    }

    /// The ids filed in the variant index under the keys that `word` picks
    /// (see `key_selected`), entry after entry, keeping only words of a
    /// kind in `pos_guards`. The variant index is built first if there is
    /// none. A fuzzy match takes its verdicts from `fuzzy_hits`, one for
    /// each entry of the variant index.
    pub fn find_word(
        &mut self,
        word: &str,
        match_type: MatchType,
        pos_guards: POSTypeFlags,
        fuzzy_hits: &Vec<bool>,
    ) -> (r: Result<Vec<u128>, RegexError>)
        requires
            old(self).wf(),
            match_type == MatchType::Fuzzy ==> (old(self).spec_words() matches Some(ix)
                && fuzzy_hits@.len() == ix.spec_entries().len()),
        ensures
            final(self).wf(),
            final(self).spec_data() == old(self).spec_data(),
            final(self).spec_version() == old(self).spec_version(),
            final(self).spec_phones() == old(self).spec_phones(),
            final(self).spec_ignore_terminal_y() == old(self).spec_ignore_terminal_y(),
            final(self).spec_ignore_h() == old(self).spec_ignore_h(),
            final(self).spec_words() is Some,
            old(self).spec_words() is Some ==> final(self).spec_words() == old(self).spec_words(),
            old(self).words_fresh() ==> final(self).words_fresh(),
            r is Err <==> (match_type == MatchType::Regex && !regex_compiles(word@)),
            r matches Err(e) ==> e.message@ == regex_error_message(word@),
            r matches Ok(v) ==> v@ == guarded(
                found_ids(
                    final(self).spec_words().unwrap().spec_entries(),
                    word@,
                    match_type,
                    fuzzy_hits@,
                    final(self).spec_words().unwrap().spec_entries().len() as int,
                ),
                pos_guards,
                final(self).spec_data(),
            ),
    {
        let map = self.get_word_map();
        let matches = seek_matches(map, word, match_type, fuzzy_hits);
        let matches = match matches {
            Ok(m) => m,
            Err(e) => {
                return Err(e);
            },
        };
        if pos_guards.is_all() {
            return Ok(matches);
        }
        let ghost es = self.words.unwrap().spec_entries();
        proof {
            lemma_found_ids_stored(es, word@, match_type, fuzzy_hits@, es.len() as int, self.spec_data());
        }
        let mut kept: Vec<u128> = Vec::new();
        let mut i: usize = 0;
        while i < matches.len()
            invariant
                i <= matches@.len(),
                forall|m: int| 0 <= m < matches@.len() ==> self.spec_data().contains_key(#[trigger] matches@[m]),
                kept@ == matches@.take(i as int).filter(
                    |x: u128| pos_guards@.contains(pos_kind(self.spec_data()[x].word@.pos)),
                ),
            decreases matches@.len() - i,
        {
            let id = matches[i];
            let wd = self.fetch(id).unwrap();
            let keep = pos_guards.has(wd.word.pos.ty());
            if keep {
                kept.push(id);
            }
            proof {
                let q = matches@.take(i + 1);
                assert(q.drop_last() =~= matches@.take(i as int));
                reveal_with_fuel(Seq::filter, 1);
            }
            i = i + 1;
            assert(kept@ =~= matches@.take(i as int).filter(
                |x: u128| pos_guards@.contains(pos_kind(self.spec_data()[x].word@.pos)),
            ));
        }
        assert(matches@.take(matches@.len() as int) =~= matches@);
        Ok(kept)
    }
}

/// An id is among those found exactly when some entry among the first `n`
/// whose key the pattern picks holds it.
pub proof fn lemma_found_ids_contains(
    es: Seq<(Seq<char>, Seq<u128>)>,
    pattern: Seq<char>,
    mt: MatchType,
    hits: Seq<bool>,
    n: int,
    x: u128,
)
    requires
        0 <= n <= es.len(),
    ensures
        found_ids(es, pattern, mt, hits, n).contains(x) <==> exists|i: int|
            0 <= i < n && key_selected(es[i].0, i, pattern, mt, hits) && (#[trigger] es[i]).1.contains(x),
    decreases n,
{
    if n > 0 {
        lemma_found_ids_contains(es, pattern, mt, hits, n - 1, x);
        let prev = found_ids(es, pattern, mt, hits, n - 1);
        let e = es[n - 1];
        let added = if key_selected(e.0, n - 1, pattern, mt, hits) {
            e.1
        } else {
            Seq::<u128>::empty()
        };
        let all = found_ids(es, pattern, mt, hits, n);
        assert(all =~= prev + added);
        if all.contains(x) {
            let m = choose|m: int| 0 <= m < all.len() && all[m] == x;
            if m < prev.len() {
                assert(prev[m] == x);
            } else {
                assert(added[m - prev.len()] == x);
                assert(key_selected(es[n - 1].0, n - 1, pattern, mt, hits) && es[n - 1].1.contains(x));
            }
        }
        if exists|i: int|
            0 <= i < n && key_selected(es[i].0, i, pattern, mt, hits) && (#[trigger] es[i]).1.contains(x) {
            let i = choose|i: int|
                0 <= i < n && key_selected(es[i].0, i, pattern, mt, hits) && (#[trigger] es[i]).1.contains(x);
            if i < n - 1 {
                let m = choose|m: int| 0 <= m < prev.len() && prev[m] == x;
                assert(all[m] == x);
            } else {
                let m = choose|m: int| 0 <= m < e.1.len() && e.1[m] == x;
                assert(all[prev.len() + m] == x);
            }
        }
    }
}

/// A standard lookup in an index of the variants finds a word by any of its
/// variants, and nothing else: an id is found exactly when a stored word
/// with that id has the variant sought.
pub proof fn lemma_lookup_by_variant(
    es: Seq<(Seq<char>, Seq<u128>)>,
    data: Map<u128, WordData>,
    variant: Seq<char>,
    hits: Seq<bool>,
    x: u128,
)
    requires
        indexes(es, data, KeySource::Variants),
    ensures
        found_ids(es, variant, MatchType::Standard, hits, es.len() as int).contains(x) <==> (
        data.contains_key(x) && data[x].word@.variants.contains(variant)),
{
    lemma_found_ids_contains(es, variant, MatchType::Standard, hits, es.len() as int, x);
    if holds(es, variant, x) {
        let i = choose|i: int| 0 <= i < es.len() && (#[trigger] es[i]).0 == variant && es[i].1.contains(x);
        assert(key_selected(es[i].0, i, variant, MatchType::Standard, hits));
    }
}

/// A standard lookup in an index of the phones finds the words that have
/// the phone sought, as the index makes phones (see `process_phone_spec`),
/// and nothing else; at most one entry is found.
pub proof fn lemma_lookup_by_phone(
    es: Seq<(Seq<char>, Seq<u128>)>,
    data: Map<u128, WordData>,
    ignore_terminal_y: bool,
    ignore_h: bool,
    phone: Seq<char>,
    hits: Seq<bool>,
    bounds: Option<PopularityBounds>,
    x: u128,
)
    requires
        indexes(es, data, KeySource::Phones { ignore_terminal_y, ignore_h }),
    ensures
        found_phones(es, Some((phone, MatchType::Standard)), hits, bounds, es.len() as int).len() <= 1,
        found_phones(es, Some((phone, MatchType::Standard)), hits, None, es.len() as int).len() == 1
            ==> found_phones(es, Some((phone, MatchType::Standard)), hits, None, es.len() as int)[0].0 == phone,
        holds(es, phone, x) <==> (data.contains_key(x) && data[x].word@.phones.map_values(
            |p: Seq<char>| process_phone_spec(ignore_terminal_y, ignore_h, p),
        ).contains(phone)),
{
    lemma_found_phones_standard(es, phone, hits, bounds, es.len() as int);
    lemma_found_phones_standard(es, phone, hits, None, es.len() as int);
}

/// A standard phone lookup among the first `n` entries finds at most the
/// one entry whose key is the phone.
proof fn lemma_found_phones_standard(
    es: Seq<(Seq<char>, Seq<u128>)>,
    phone: Seq<char>,
    hits: Seq<bool>,
    bounds: Option<PopularityBounds>,
    n: int,
)
    requires
        0 <= n <= es.len(),
        entries_wf(es),
    ensures
        found_phones(es, Some((phone, MatchType::Standard)), hits, bounds, n).len() <= 1,
        forall|i: int|
            0 <= i < found_phones(es, Some((phone, MatchType::Standard)), hits, bounds, n).len()
                ==> (#[trigger] found_phones(es, Some((phone, MatchType::Standard)), hits, bounds, n)[i]).0
                == phone,
        found_phones(es, Some((phone, MatchType::Standard)), hits, bounds, n).len() == 1 ==> forall|j: int|
            n <= j < es.len() ==> (#[trigger] es[j]).0 != phone,
    decreases n,
{
    if n > 0 {
        lemma_found_phones_standard(es, phone, hits, bounds, n - 1);
        let pat = Some((phone, MatchType::Standard));
        let prev = found_phones(es, pat, hits, bounds, n - 1);
        let all = found_phones(es, pat, hits, bounds, n);
        if phone_selected(es, n - 1, pat, hits, bounds) {
            assert(all =~= prev + seq![es[n - 1]]);
            if prev.len() == 1 {
                assert(es[n - 1].0 != phone);
                assert(false);
            }
            assert forall|j: int| n <= j < es.len() implies (#[trigger] es[j]).0 != phone by {
                assert(es[n - 1].0 != es[j].0);
            }
        } else {
            assert(all =~= prev);
        }
    }
}

/// The ids kept by a filter are among those filtered.
proof fn lemma_filter_stored(ids: Seq<u128>, pred: spec_fn(u128) -> bool, data: Map<u128, WordData>)
    requires
        forall|m: int| 0 <= m < ids.len() ==> data.contains_key(#[trigger] ids[m]),
    ensures
        forall|m: int| 0 <= m < ids.filter(pred).len() ==> data.contains_key(#[trigger] ids.filter(pred)[m]),
    decreases ids.len(),
{
    reveal(Seq::filter);
    if ids.len() > 0 {
        let rest = ids.drop_last();
        lemma_filter_stored(rest, pred, data);
        assert forall|m: int| 0 <= m < ids.filter(pred).len() implies data.contains_key(
            #[trigger] ids.filter(pred)[m],
        ) by {
            if m < rest.filter(pred).len() {
                assert(ids.filter(pred)[m] == rest.filter(pred)[m]);
            } else {
                assert(ids.filter(pred)[m] == ids.last());
            }
        }
    }
}

/// The ids that the guards keep name stored words when all ids do.
pub proof fn lemma_guarded_stored(ids: Seq<u128>, guards: POSTypeFlags, data: Map<u128, WordData>)
    requires
        forall|m: int| 0 <= m < ids.len() ==> data.contains_key(#[trigger] ids[m]),
    ensures
        forall|m: int|
            0 <= m < guarded(ids, guards, data).len() ==> data.contains_key(#[trigger] guarded(ids, guards, data)[m]),
{
    if guards != flags_every() {
        lemma_filter_stored(ids, |x: u128| guards@.contains(pos_kind(data[x].word@.pos)), data);
    }
}

/// Every id that a pattern finds is filed under some key, so names a
/// stored word when every filed id does.
pub proof fn lemma_found_ids_stored(
    es: Seq<(Seq<char>, Seq<u128>)>,
    pattern: Seq<char>,
    mt: MatchType,
    hits: Seq<bool>,
    n: int,
    data: Map<u128, WordData>,
)
    requires
        0 <= n <= es.len(),
        forall|k: Seq<char>, x: u128| #[trigger] holds(es, k, x) ==> data.contains_key(x),
    ensures
        forall|m: int|
            0 <= m < found_ids(es, pattern, mt, hits, n).len() ==> data.contains_key(
                #[trigger] found_ids(es, pattern, mt, hits, n)[m],
            ),
    decreases n,
{
    if n > 0 {
        lemma_found_ids_stored(es, pattern, mt, hits, n - 1, data);
        let prev = found_ids(es, pattern, mt, hits, n - 1);
        let all = found_ids(es, pattern, mt, hits, n);
        let e = es[n - 1];
        let added = if key_selected(e.0, n - 1, pattern, mt, hits) {
            e.1
        } else {
            Seq::<u128>::empty()
        };
        assert(all =~= prev + added);
        assert forall|m: int| 0 <= m < all.len() implies data.contains_key(#[trigger] all[m]) by {
            if m < prev.len() {
                assert(all[m] == prev[m]);
                assert(data.contains_key(prev[m]));
            } else {
                assert(all[m] == e.1[m - prev.len()]);
                assert(e.1.contains(all[m]));
                assert(holds(es, e.0, all[m]));
            }
        }
    }
}
impl WorkingDatabase {
    /// Replaces the word filed under `target`, if there is one, and drops
    /// both indexes; without such a word nothing changes.
    pub fn update_word(&mut self, target: u128, word: Word) -> (b: bool)
        requires
            old(self).wf(),
        ensures
            final(self).wf(),
            old(self).words_fresh() ==> final(self).words_fresh(),
            b == old(self).spec_data().contains_key(target),
            b ==> {
                &&& final(self).spec_data() == old(self).spec_data().insert(target, WordData { word })
                &&& final(self).spec_phones() is None
                &&& final(self).spec_words() is None
            },
            !b ==> *final(self) == *old(self),
            final(self).spec_version() == old(self).spec_version(),
            final(self).spec_ignore_terminal_y() == old(self).spec_ignore_terminal_y(),
            final(self).spec_ignore_h() == old(self).spec_ignore_h(),
    {
        if !self.db.data.contains_key(&target) {
            return false;
        }
        self.phones = None;
        self.words = None;
        self.db.data.insert(target, WordData { word });
        true
    }

    /// Files `word` under a fresh version 7 id (`uuid::Uuid::now_v7`),
    /// drops both indexes, and gives the id.
    pub fn new_word(&mut self, word: Word) -> (id: u128)
        requires
            old(self).wf(),
        ensures
            is_version_seven(id),
            final(self).wf(),
            final(self).words_fresh(),
            final(self).spec_data() == old(self).spec_data().insert(id, WordData { word }),
            final(self).spec_phones() is None,
            final(self).spec_words() is None,
            final(self).spec_version() == old(self).spec_version(),
            final(self).spec_ignore_terminal_y() == old(self).spec_ignore_terminal_y(),
            final(self).spec_ignore_h() == old(self).spec_ignore_h(),
    {
        let uuid = fresh_word_id();
        self.phones = None;
        self.words = None;
        self.db.data.insert(uuid, WordData { word });
        uuid
    }
}

/// Whether a number of ids is within the bounds: exactly one for unique,
/// and at least `low` and at most `high` for those that are given.
pub open spec fn within_bounds(n: nat, bounds: Option<PopularityBounds>) -> bool {
    match bounds {
        None => true,
        Some(PopularityBounds::Unique) => n == 1,
        Some(PopularityBounds::LowHigh { low, high }) => (match low {
            Some(l) => n >= l,
            None => true,
        }) && (match high {
            Some(h) => n <= h,
            None => true,
        }),
    }
}

/// Whether entry `i` is among the phones found: its key is picked by the
/// pattern (every key when there is none), and its number of ids is within
/// the bounds.
pub open spec fn phone_selected(
    es: Seq<(Seq<char>, Seq<u128>)>,
    i: int,
    pattern: Option<(Seq<char>, MatchType)>,
    hits: Seq<bool>,
    bounds: Option<PopularityBounds>,
) -> bool {
    &&& match pattern {
        None => true,
        Some((p, mt)) => key_selected(es[i].0, i, p, mt, hits),
    }
    &&& within_bounds(es[i].1.len(), bounds)
}

/// The first `n` entries that `phone_selected` picks, in order.
pub open spec fn found_phones(
    es: Seq<(Seq<char>, Seq<u128>)>,
    pattern: Option<(Seq<char>, MatchType)>,
    hits: Seq<bool>,
    bounds: Option<PopularityBounds>,
    n: int,
) -> Seq<(Seq<char>, Seq<u128>)>
    decreases n,
{
    if n <= 0 {
        Seq::empty()
    } else {
        found_phones(es, pattern, hits, bounds, n - 1) + if phone_selected(es, n - 1, pattern, hits, bounds) {
            seq![es[n - 1]]
        } else {
            Seq::empty()
        }
    }
}

/// An entry that the lookup picks among the first `n` is among those it
/// finds.
proof fn lemma_found_phones_has(
    es: Seq<(Seq<char>, Seq<u128>)>,
    pattern: Option<(Seq<char>, MatchType)>,
    hits: Seq<bool>,
    bounds: Option<PopularityBounds>,
    n: int,
    j: int,
)
    requires
        0 <= j < n <= es.len(),
        phone_selected(es, j, pattern, hits, bounds),
    ensures
        found_phones(es, pattern, hits, bounds, n).contains(es[j]),
    decreases n,
{
    let f = found_phones(es, pattern, hits, bounds, n - 1);
    if j == n - 1 {
        assert(found_phones(es, pattern, hits, bounds, n) == f + seq![es[j]]);
        assert((f + seq![es[j]])[f.len() as int] == es[j]);
    } else {
        lemma_found_phones_has(es, pattern, hits, bounds, n - 1, j);
        let k = choose|k: int| 0 <= k < f.len() && f[k] == es[j];
        let g = found_phones(es, pattern, hits, bounds, n);
        assert(g[k] == f[k]);
    }
}

/// Whatever the lookup finds among the first `n` entries is one of them
/// that it picks.
proof fn lemma_found_phones_from(
    es: Seq<(Seq<char>, Seq<u128>)>,
    pattern: Option<(Seq<char>, MatchType)>,
    hits: Seq<bool>,
    bounds: Option<PopularityBounds>,
    n: int,
    x: (Seq<char>, Seq<u128>),
)
    requires
        0 <= n <= es.len(),
        found_phones(es, pattern, hits, bounds, n).contains(x),
    ensures
        exists|j: int| 0 <= j < n && es[j] == x && phone_selected(es, j, pattern, hits, bounds),
    decreases n,
{
    if n > 0 {
        let f = found_phones(es, pattern, hits, bounds, n - 1);
        let g = found_phones(es, pattern, hits, bounds, n);
        let k = choose|k: int| 0 <= k < g.len() && g[k] == x;
        if k < f.len() {
            assert(f[k] == x);
            lemma_found_phones_from(es, pattern, hits, bounds, n - 1, x);
        } else {
            assert(phone_selected(es, n - 1, pattern, hits, bounds) && es[n - 1] == x);
        }
    }
}

/// A phone lookup without a pattern and with the bounds `low` and `high`
/// finds exactly the entries of the index whose number of ids is at least
/// `low` and at most `high`, both ends included (a bound that is not given
/// does not count).
pub proof fn lemma_phones_within_bounds(
    es: Seq<(Seq<char>, Seq<u128>)>,
    hits: Seq<bool>,
    low: Option<usize>,
    high: Option<usize>,
)
    ensures
        forall|i: int|
            0 <= i < es.len() && (low matches Some(l) ==> l <= es[i].1.len()) && (high matches Some(h)
                ==> es[i].1.len() <= h) ==> #[trigger] found_phones(
                es,
                None,
                hits,
                Some(PopularityBounds::LowHigh { low, high }),
                es.len() as int,
            ).contains(es[i]),
        forall|x: (Seq<char>, Seq<u128>)|
            #[trigger] found_phones(
                es,
                None,
                hits,
                Some(PopularityBounds::LowHigh { low, high }),
                es.len() as int,
            ).contains(x) ==> es.contains(x) && (low matches Some(l) ==> l <= x.1.len()) && (high matches Some(
                h,
            ) ==> x.1.len() <= h),
{
    let b = Some(PopularityBounds::LowHigh { low, high });
    assert forall|i: int|
        0 <= i < es.len() && (low matches Some(l) ==> l <= es[i].1.len()) && (high matches Some(h)
            ==> es[i].1.len() <= h) implies #[trigger] found_phones(es, None, hits, b, es.len() as int).contains(
        es[i],
    ) by {
        lemma_found_phones_has(es, None, hits, b, es.len() as int, i);
    }
    assert forall|x: (Seq<char>, Seq<u128>)|
        #[trigger] found_phones(es, None, hits, b, es.len() as int).contains(x) implies es.contains(x) && (
        low matches Some(l) ==> l <= x.1.len()) && (high matches Some(h) ==> x.1.len() <= h) by {
        lemma_found_phones_from(es, None, hits, b, es.len() as int, x);
        let j = choose|j: int| 0 <= j < es.len() && es[j] == x && phone_selected(es, j, None, hits, b);
        assert(es[j] == x);
    }
}

/// A phone lookup without a pattern that asks for unique phones finds
/// exactly the entries of the index with one id.
pub proof fn lemma_phones_unique(es: Seq<(Seq<char>, Seq<u128>)>, hits: Seq<bool>)
    ensures
        forall|i: int|
            0 <= i < es.len() && es[i].1.len() == 1 ==> #[trigger] found_phones(
                es,
                None,
                hits,
                Some(PopularityBounds::Unique),
                es.len() as int,
            ).contains(es[i]),
        forall|x: (Seq<char>, Seq<u128>)|
            #[trigger] found_phones(es, None, hits, Some(PopularityBounds::Unique), es.len() as int).contains(
                x,
            ) ==> es.contains(x) && x.1.len() == 1,
{
    let b = Some(PopularityBounds::Unique);
    assert forall|i: int| 0 <= i < es.len() && es[i].1.len() == 1 implies #[trigger] found_phones(
        es,
        None,
        hits,
        b,
        es.len() as int,
    ).contains(es[i]) by {
        lemma_found_phones_has(es, None, hits, b, es.len() as int, i);
    }
    assert forall|x: (Seq<char>, Seq<u128>)|
        #[trigger] found_phones(es, None, hits, b, es.len() as int).contains(x) implies es.contains(x)
        && x.1.len() == 1 by {
        lemma_found_phones_from(es, None, hits, b, es.len() as int, x);
        let j = choose|j: int| 0 <= j < es.len() && es[j] == x && phone_selected(es, j, None, hits, b);
        assert(es[j] == x);
    }
}

/// The ids of an entry that the pattern picks among the first `n` are all
/// among those found.
proof fn lemma_found_ids_has(
    es: Seq<(Seq<char>, Seq<u128>)>,
    pattern: Seq<char>,
    mt: MatchType,
    hits: Seq<bool>,
    n: int,
    j: int,
    x: u128,
)
    requires
        0 <= j < n <= es.len(),
        key_selected(es[j].0, j, pattern, mt, hits),
        es[j].1.contains(x),
    ensures
        found_ids(es, pattern, mt, hits, n).contains(x),
    decreases n,
{
    let f = found_ids(es, pattern, mt, hits, n - 1);
    let g = found_ids(es, pattern, mt, hits, n);
    if j == n - 1 {
        let k = choose|k: int| 0 <= k < es[j].1.len() && es[j].1[k] == x;
        assert(g == f + es[j].1);
        assert(g[f.len() + k] == x);
    } else {
        lemma_found_ids_has(es, pattern, mt, hits, n - 1, j, x);
        let k = choose|k: int| 0 <= k < f.len() && f[k] == x;
        assert(g[k] == f[k]);
    }
}

/// Every id found among the first `n` entries is an id of one of them
/// that the pattern picks.
proof fn lemma_found_ids_from(
    es: Seq<(Seq<char>, Seq<u128>)>,
    pattern: Seq<char>,
    mt: MatchType,
    hits: Seq<bool>,
    n: int,
    x: u128,
)
    requires
        0 <= n <= es.len(),
        found_ids(es, pattern, mt, hits, n).contains(x),
    ensures
        exists|j: int| 0 <= j < n && key_selected(es[j].0, j, pattern, mt, hits) && es[j].1.contains(x),
    decreases n,
{
    if n > 0 {
        let f = found_ids(es, pattern, mt, hits, n - 1);
        let g = found_ids(es, pattern, mt, hits, n);
        let k = choose|k: int| 0 <= k < g.len() && g[k] == x;
        if k < f.len() {
            assert(f[k] == x);
            lemma_found_ids_from(es, pattern, mt, hits, n - 1, x);
        } else {
            assert(key_selected(es[n - 1].0, n - 1, pattern, mt, hits));
            assert(es[n - 1].1[k - f.len()] == x);
        }
    }
}

/// A word lookup finds exactly the ids filed under the keys that its
/// pattern picks: a standard match picks the key equal to the pattern, a
/// regular expression the keys it matches, and a fuzzy match the keys whose
/// verdict is true.
pub proof fn lemma_found_ids_picks(
    es: Seq<(Seq<char>, Seq<u128>)>,
    pattern: Seq<char>,
    mt: MatchType,
    hits: Seq<bool>,
)
    ensures
        forall|i: int, x: u128|
            0 <= i < es.len() && (match mt {
                MatchType::Standard => es[i].0 == pattern,
                MatchType::Regex => regex_matches(pattern, es[i].0),
                MatchType::Fuzzy => hits[i],
            }) && #[trigger] es[i].1.contains(x) ==> found_ids(es, pattern, mt, hits, es.len() as int).contains(x),
        forall|x: u128|
            #[trigger] found_ids(es, pattern, mt, hits, es.len() as int).contains(x) ==> exists|i: int|
                0 <= i < es.len() && (match mt {
                    MatchType::Standard => es[i].0 == pattern,
                    MatchType::Regex => regex_matches(pattern, es[i].0),
                    MatchType::Fuzzy => hits[i],
                }) && #[trigger] es[i].1.contains(x),
{
    assert forall|i: int, x: u128|
        0 <= i < es.len() && (match mt {
            MatchType::Standard => es[i].0 == pattern,
            MatchType::Regex => regex_matches(pattern, es[i].0),
            MatchType::Fuzzy => hits[i],
        }) && #[trigger] es[i].1.contains(x) implies found_ids(es, pattern, mt, hits, es.len() as int).contains(x) by {
        lemma_found_ids_has(es, pattern, mt, hits, es.len() as int, i, x);
    }
    assert forall|x: u128| #[trigger] found_ids(es, pattern, mt, hits, es.len() as int).contains(x) implies exists|i: int|
        0 <= i < es.len() && (match mt {
            MatchType::Standard => es[i].0 == pattern,
            MatchType::Regex => regex_matches(pattern, es[i].0),
            MatchType::Fuzzy => hits[i],
        }) && #[trigger] es[i].1.contains(x) by {
        lemma_found_ids_from(es, pattern, mt, hits, es.len() as int, x);
    }
}

/// How a phone is indexed: unchanged without either setting; with terminal
/// Y ignored a final 'Y' is dropped and nothing else; with H ignored every
/// 'H' is dropped and the other characters are kept in order.
pub proof fn lemma_process_phone(p: Seq<char>, y: bool, h: bool)
    ensures
        process_phone_spec(false, false, p) == p,
        process_phone_spec(true, false, p.push('Y')) == p,
        !(p.len() > 0 && p.last() == 'Y') ==> process_phone_spec(true, h, p) == process_phone_spec(false, h, p),
        process_phone_spec(y, true, p) == process_phone_spec(y, false, p).filter(|c: char| c != 'H'),
        !process_phone_spec(y, true, p).contains('H'),
{
    assert(p.push('Y').drop_last() =~= p);
    let q = process_phone_spec(y, false, p);
    let r = q.filter(|c: char| c != 'H');
    if r.contains('H') {
        let k = choose|k: int| 0 <= k < r.len() && r[k] == 'H';
        q.lemma_filter_pred(|c: char| c != 'H', k);
    }
}

/// The kinds filter of a word lookup keeps exactly the ids whose words
/// are of a kind in the guards, and every id when the guards hold every
/// kind.
pub proof fn lemma_guarded_keeps(ids: Seq<u128>, guards: POSTypeFlags, data: Map<u128, WordData>)
    ensures
        forall|x: u128|
            #[trigger] guarded(ids, guards, data).contains(x) <==> ids.contains(x) && (guards == flags_every()
                || guards@.contains(pos_kind(data[x].word@.pos))),
{
    let pred = |x: u128| guards@.contains(pos_kind(data[x].word@.pos));
    assert forall|x: u128|
        #[trigger] guarded(ids, guards, data).contains(x) <==> ids.contains(x) && (guards == flags_every()
            || guards@.contains(pos_kind(data[x].word@.pos))) by {
        if guards != flags_every() {
            let r = ids.filter(pred);
            if r.contains(x) {
                let k = choose|k: int| 0 <= k < r.len() && r[k] == x;
                ids.lemma_filter_pred(pred, k);
                ids.lemma_filter_contains_rev(pred, x);
            }
            if ids.contains(x) && pred(x) {
                let k = choose|k: int| 0 <= k < ids.len() && ids[k] == x;
                ids.lemma_filter_contains(pred, k);
            }
        }
    }
}

/// A copy of a list of ids.
pub fn copy_ids(v: &Vec<u128>) -> (r: Vec<u128>)
    ensures
        r@ == v@,
{
    let mut r: Vec<u128> = Vec::new();
    let mut i: usize = 0;
    while i < v.len()
        invariant
            i <= v@.len(),
            r@ == v@.take(i as int),
        decreases v@.len() - i,
    {
        r.push(v[i]);
        i = i + 1;
        assert(r@ =~= v@.take(i as int));
    }
    assert(v@.take(v@.len() as int) =~= v@);
    r
}

/// The phones of the index that the pattern picks (every phone when there
/// is none; see `key_selected`) and whose numbers of words are within the
/// bounds, each with its ids, in index order. A fuzzy match takes its
/// verdicts from `fuzzy_hits`, one for each entry of the index.
pub fn find_phone(
    phone_map: &KeyIndex,
    pattern: Option<(&str, MatchType)>,
    fuzzy_hits: &Vec<bool>,
    bounds: Option<PopularityBounds>,
) -> (r: Result<Vec<(String, Vec<u128>)>, RegexError>)
    requires
        pattern matches Some((_, MatchType::Fuzzy)) ==> fuzzy_hits@.len() == phone_map.spec_entries().len(),
    ensures
        r is Err <==> (pattern matches Some((p, MatchType::Regex)) && !regex_compiles(p@)),
        r matches Err(e) ==> (pattern matches Some((p, _)) && e.message@ == regex_error_message(p@)),
        r matches Ok(v) ==> crate::index::entries_view(v@) == found_phones(
            phone_map.spec_entries(),
            match pattern {
                Some((p, m)) => Some((p@, m)),
                None => None,
            },
            fuzzy_hits@,
            bounds,
            phone_map.spec_entries().len() as int,
        ),
{
    let ghost pat = match pattern {
        Some((p, m)) => Some((p@, m)),
        None => None,
    };
    let compiled = match pattern {
        Some((p, MatchType::Regex)) => match Pattern::compile(p) {
            Ok(c) => Some(c),
            Err(message) => {
                return Err(RegexError { message });
            },
        },
        _ => None,
    };
    let pc = match pattern {
        Some((p, _)) => chars_of(p),
        None => Vec::new(),
    };
    let ghost es = phone_map.spec_entries();
    let mut out: Vec<(String, Vec<u128>)> = Vec::new();
    let mut i: usize = 0;
    while i < phone_map.len()
        invariant
            es == phone_map.spec_entries(),
            i <= es.len(),
            pattern matches Some((p, _)) ==> pc@ == p@,
            pattern matches Some((_, MatchType::Fuzzy)) ==> fuzzy_hits@.len() == es.len(),
            pattern matches Some((p, MatchType::Regex)) ==> (compiled matches Some(c) && c@ == p@),
            pat == match pattern {
                Some((p, m)) => Some((p@, m)),
                None => None,
            },
            crate::index::entries_view(out@) == found_phones(es, pat, fuzzy_hits@, bounds, i as int),
        decreases es.len() - i,
    {
        let key = phone_map.key(i);
        let picked = match pattern {
            None => true,
            Some((_, MatchType::Standard)) => {
                let kc = chars_of(key.as_str());
                chars_eq(&kc, &pc)
            },
            Some((_, MatchType::Regex)) => match &compiled {
                Some(c) => c.is_match(key.as_str()),
                None => false,
            },
            Some((_, MatchType::Fuzzy)) => fuzzy_hits[i],
        };
        let ids = phone_map.ids(i);
        let len = ids.len();
        let in_bounds = match bounds {
            None => true,
            Some(PopularityBounds::Unique) => len == 1,
            Some(PopularityBounds::LowHigh { low, high }) => (match low {
                Some(l) => len >= l,
                None => true,
            }) && (match high {
                Some(h) => len <= h,
                None => true,
            }),
        };
        if picked && in_bounds {
            out.push((key.clone(), copy_ids(ids)));
        }
        i = i + 1;
        assert(crate::index::entries_view(out@) =~= found_phones(es, pat, fuzzy_hits@, bounds, i as int));
    }
    Ok(out)
}

// ----- what is shown -----

/// Bold blue, for the variants at the head of a word.
pub open spec fn heading_style() -> SpanStyle {
    SpanStyle { bold: true, italic: false, tint: Some(Tint::Blue) }
}

/// Italic.
pub open spec fn italic_style() -> SpanStyle {
    SpanStyle { bold: false, italic: true, tint: None }
}

/// Bold.
pub open spec fn bold_style() -> SpanStyle {
    SpanStyle { bold: true, italic: false, tint: None }
}

/// The phones of a word as indexed, in bold, separated by ", ".
pub open spec fn phone_spans(y: bool, h: bool, ps: Seq<Seq<char>>) -> Seq<SpanView>
    decreases ps.len(),
{
    if ps.len() == 0 {
        Seq::empty()
    } else if ps.len() == 1 {
        seq![span(process_phone_spec(y, h, ps[0]), bold_style())]
    } else {
        phone_spans(y, h, ps.drop_last()) + seq![
            span(", "@, plain()),
            span(process_phone_spec(y, h, ps.last()), bold_style()),
        ]
    }
}

/// A labelled form: the label padded to 14 characters, then the form in
/// bold.
pub open spec fn form_line(label: Seq<char>, value: Seq<char>) -> Seq<SpanView> {
    seq![span(pad_right(label, 14), plain()), span(value, bold_style())]
}

/// The lines that show the forms of a part of speech.
pub open spec fn pos_lines(p: POSView) -> Seq<Seq<SpanView>> {
    match p {
        POSView::Noun { plural, definite, definite_plural } => seq![
            form_line("Plural:"@, plural),
            form_line("Definite:"@, definite),
            form_line("Def. Plural:"@, definite_plural),
        ],
        POSView::Descriptor { plural, adverbial } => seq![
            form_line("Plural:"@, plural),
            form_line("Adverbial:"@, adverbial),
        ],
        POSView::Verb { present, past } => seq![
            form_line("Present:"@, present),
            form_line("Past:"@, past),
        ],
        POSView::Particle { .. } => Seq::empty(),
    }
}

/// How a word is shown: its variants, its part of speech, its definition,
/// its phones as indexed under the settings `y` and `h`, a mark when it is
/// irregular, and its forms, with blank lines between.
pub open spec fn word_lines(y: bool, h: bool, w: WordView) -> Seq<Seq<SpanView>> {
    let blank = Seq::<SpanView>::empty();
    seq![
        seq![span("%% "@ + join(w.variants, ","@) + " %%"@, heading_style())],
        seq![span("> "@ + pos_description(w.pos), italic_style())],
        blank,
        seq![span(w.definition, plain())],
        blank,
        seq![span("Phones: "@, plain())] + phone_spans(y, h, w.phones),
        blank,
    ] + (if !w.standard {
        seq![seq![span(" * Irregular"@, italic_style())], blank]
    } else {
        Seq::empty()
    }) + pos_lines(w.pos) + seq![blank, blank]
}

/// A labelled form, as a line.
fn form_styled_line(label: &str, value: &String) -> (l: StyledLine)
    ensures
        l@ == form_line(label@, value@),
{
    let mut l = StyledLine::new();
    l.push_span(padded(label, 14), SpanStyle { bold: false, italic: false, tint: None });
    l.push_span(value.clone(), SpanStyle { bold: true, italic: false, tint: None });
    assert(l@ =~= form_line(label@, value@));
    l
}

/// The text that shows `word`, with its phones as `db` indexes them.
pub fn format_word(db: &WorkingDatabase, word: &Word) -> (t: StyledText)
    ensures
        t@ == word_lines(db.spec_ignore_terminal_y(), db.spec_ignore_h(), word@),
{
    let y = db.ignore_terminal_Y;
    let h = db.ignore_H;
    let plain_style = SpanStyle { bold: false, italic: false, tint: None };
    let italic = SpanStyle { bold: false, italic: true, tint: None };
    let bold = SpanStyle { bold: true, italic: false, tint: None };
    let mut text = StyledText::new();
    let mut head = String::new();
    push_str(&mut head, "%% ");
    let joined = join_strings(&word.variants, ",");
    push_str(&mut head, joined.as_str());
    push_str(&mut head, " %%");
    text.push_span_line(head, SpanStyle { bold: true, italic: false, tint: Some(Tint::Blue) });
    let mut kind = String::new();
    push_str(&mut kind, "> ");
    let ty = word.pos.ty_str();
    push_str(&mut kind, ty.as_str());
    text.push_span_line(kind, italic);
    text.push_blank();
    text.push_span_line(word.definition.clone(), plain_style);
    text.push_blank();
    let mut phones = StyledLine::new();
    phones.push_span("Phones: ".to_owned(), plain_style);
    let ghost ps = strings_view(word.phones@);
    let mut i: usize = 0;
    while i < word.phones.len()
        invariant
            i <= word.phones@.len(),
            ps == strings_view(word.phones@),
            phones@ == seq![span("Phones: "@, plain())] + phone_spans(y, h, ps.take(i as int)),
            bold == bold_style(),
            plain_style == plain(),
        decreases word.phones@.len() - i,
    {
        if i != 0 {
            phones.push_span(", ".to_owned(), plain_style);
        }
        phones.push_span(process_phone_with(y, h, word.phones[i].as_str()), bold);
        proof {
            let q = ps.take(i + 1);
            assert(q.drop_last() =~= ps.take(i as int));
            if i == 0 {
                assert(ps.take(0) =~= Seq::<Seq<char>>::empty());
            }
        }
        i = i + 1;
        assert(phones@ =~= seq![span("Phones: "@, plain())] + phone_spans(y, h, ps.take(i as int)));
    }
    assert(ps.take(word.phones@.len() as int) =~= ps);
    text.push_line(phones);
    text.push_blank();
    if !word.standard {
        text.push_span_line(" * Irregular".to_owned(), italic);
        text.push_blank();
    }
    let ghost before_forms = text@;
    match &word.pos {
        POS::Noun { plural, definite, definite_plural } => {
            text.push_line(form_styled_line("Plural:", plural));
            text.push_line(form_styled_line("Definite:", definite));
            text.push_line(form_styled_line("Def. Plural:", definite_plural));
        },
        POS::Descriptor { plural, adverbial } => {
            text.push_line(form_styled_line("Plural:", plural));
            text.push_line(form_styled_line("Adverbial:", adverbial));
        },
        POS::Verb { present, past } => {
            text.push_line(form_styled_line("Present:", present));
            text.push_line(form_styled_line("Past:", past));
        },
        POS::Particle { .. } => {},
    }
    assert(text@ =~= before_forms + pos_lines(word.pos@));
    text.push_blank();
    text.push_blank();
    assert(text@ =~= word_lines(y, h, word@));
    text
}

/// The text for the words among `ws` whose definitions contain `content`,
/// one after another.
pub open spec fn search_lines(y: bool, h: bool, ws: Seq<WordView>, content: Seq<char>) -> Seq<Seq<SpanView>>
    decreases ws.len(),
{
    if ws.len() == 0 {
        Seq::empty()
    } else {
        search_lines(y, h, ws.drop_last(), content) + if contains_seq(ws.last().definition, content) {
            word_lines(y, h, ws.last())
        } else {
            Seq::empty()
        }
    }
}

/// The words whose definitions contain `content`, shown one after another,
/// in the order the map of words yields them: for some listing of all
/// stored ids, each once, the result is `search_lines` of their words.
pub fn search_english(db: &WorkingDatabase, content: &str) -> (t: StyledText)
    ensures
        exists|ids: Seq<u128>|
            {
                &&& ids.no_duplicates()
                &&& ids.to_set() == db.spec_data().dom()
                &&& t@ == search_lines(
                    db.spec_ignore_terminal_y(),
                    db.spec_ignore_h(),
                    ids.map_values(|id: u128| db.spec_data()[id].word@),
                    content@,
                )
            },
{
    let y = db.ignore_terminal_Y;
    let h = db.ignore_H;
    let entries = db.db.entries();
    let cc = chars_of(content);
    let ghost ids = entries@.map_values(|e: (u128, Word)| e.0);
    let ghost ws = ids.map_values(|id: u128| db.spec_data()[id].word@);
    let mut text = StyledText::new();
    let mut i: usize = 0;
    while i < entries.len()
        invariant
            i <= entries@.len(),
            ids == entries@.map_values(|e: (u128, Word)| e.0),
            ws == ids.map_values(|id: u128| db.spec_data()[id].word@),
            forall|j: int|
                0 <= j < entries@.len() ==> db.spec_data().contains_key((#[trigger] entries@[j]).0)
                    && entries@[j].1@ == db.spec_data()[entries@[j].0].word@,
            cc@ == content@,
            y == db.spec_ignore_terminal_y(),
            h == db.spec_ignore_h(),
            text@ == search_lines(y, h, ws.take(i as int), content@),
        decreases entries@.len() - i,
    {
        let w = &entries[i].1;
        let dc = chars_of(w.definition.as_str());
        proof {
            assert(ws[i as int] == w@);
            assert(ws.take(i + 1).drop_last() =~= ws.take(i as int));
        }
        if crate::text::contains(&dc, &cc) {
            let part = format_word(db, w);
            text.extend(part);
        }
        i = i + 1;
        assert(text@ =~= search_lines(y, h, ws.take(i as int), content@));
    }
    proof {
        assert(ws.take(entries@.len() as int) =~= ws);
        assert(ids.to_set() =~= db.spec_data().dom()) by {
            assert forall|id: u128| ids.to_set().contains(id) implies db.spec_data().dom().contains(id) by {
                let j = choose|j: int| 0 <= j < ids.len() && ids[j] == id;
                assert(entries@[j].0 == id);
            }
            assert forall|id: u128| db.spec_data().dom().contains(id) implies ids.to_set().contains(id) by {
                let j = choose|j: int| 0 <= j < entries@.len() && (#[trigger] entries@[j]).0 == id;
                assert(ids[j] == id);
            }
        }
    }
    text
}

/// "On" or "Off".
pub open spec fn on_off_text(b: bool) -> Seq<char> {
    if b {
        "On"@
    } else {
        "Off"@
    }
}

/// The report of the phone settings.
pub open spec fn flags_report(y: bool, h: bool) -> Seq<char> {
    "Current flags:\n\n"@ + pad_right("Ignore terminal Y:"@, 25) + " "@ + on_off_text(y) + "\n"@
        + pad_right("Ignore H:"@, 25) + " "@ + on_off_text(h) + "\n"@
}

/// Changes the phone settings that are given, drops both indexes, and
/// reports the settings.
#[allow(non_snake_case)]
pub fn set_flags(db: &mut WorkingDatabase, ignore_terminal_Y: Option<bool>, ignore_H: Option<bool>) -> (s: String)
    requires
        old(db).wf(),
    ensures
        final(db).wf(),
        final(db).words_fresh(),
        final(db).spec_data() == old(db).spec_data(),
        final(db).spec_version() == old(db).spec_version(),
        final(db).spec_phones() is None,
        final(db).spec_words() is None,
        final(db).spec_ignore_terminal_y() == match ignore_terminal_Y {
            Some(v) => v,
            None => old(db).spec_ignore_terminal_y(),
        },
        final(db).spec_ignore_h() == match ignore_H {
            Some(v) => v,
            None => old(db).spec_ignore_h(),
        },
        s@ == flags_report(final(db).spec_ignore_terminal_y(), final(db).spec_ignore_h()),
{
    db.words = None;
    db.phones = None;
    if let Some(v) = ignore_terminal_Y {
        db.ignore_terminal_Y = v;
    }
    if let Some(v) = ignore_H {
        db.ignore_H = v;
    }
    let mut buf = String::new();
    push_str(&mut buf, "Current flags:\n\n");
    let l1 = padded("Ignore terminal Y:", 25);
    push_str(&mut buf, l1.as_str());
    push_str(&mut buf, " ");
    push_str(&mut buf, if db.ignore_terminal_Y {
        "On"
    } else {
        "Off"
    });
    push_str(&mut buf, "\n");
    let l2 = padded("Ignore H:", 25);
    push_str(&mut buf, l2.as_str());
    push_str(&mut buf, " ");
    push_str(&mut buf, if db.ignore_H {
        "On"
    } else {
        "Off"
    });
    push_str(&mut buf, "\n");
    buf
}

/// A phone as `db` indexes it.
pub fn process_phone(db: &WorkingDatabase, phone: &str) -> (s: String)
    ensures
        s@ == process_phone_spec(db.spec_ignore_terminal_y(), db.spec_ignore_h(), phone@),
{
    process_phone_with(db.ignore_terminal_Y, db.ignore_H, phone)
}

// ----- word lists -----

/// Why a line of a word list was refused.
#[derive(Debug, Clone)]
pub enum SheetError {
    /// A column is missing.
    Malformed,
    /// A particle's category is not one of the known names.
    UnknownCategory(String),
}

/// Why a line of a word list was refused, as a spec value.
pub enum SheetErrorView {
    Malformed,
    UnknownCategory(Seq<char>),
}

impl View for SheetError {
    type V = SheetErrorView;

    open spec fn view(&self) -> SheetErrorView {
        match self {
            SheetError::Malformed => SheetErrorView::Malformed,
            SheetError::UnknownCategory(c) => SheetErrorView::UnknownCategory(c@),
        }
    }
}

/// The message for a refused line.
pub open spec fn sheet_error_message(e: SheetErrorView) -> Seq<char> {
    match e {
        SheetErrorView::Malformed => "malformed sheet"@,
        SheetErrorView::UnknownCategory(c) => "unknown particle category "@ + c,
    }
}

impl SheetError {
    /// The message for the refused line.
    pub fn message(&self) -> (s: String)
        ensures
            s@ == sheet_error_message(self@),
    {
        let mut s = String::new();
        match self {
            SheetError::Malformed => push_str(&mut s, "malformed sheet"),
            SheetError::UnknownCategory(c) => {
                push_str(&mut s, "unknown particle category ");
                push_str(&mut s, c.as_str());
            },
        }
        s
    }
}

/// A form given in the list, or the regular one when the column is empty.
pub open spec fn form_or(given: Seq<char>, regular: Seq<char>) -> Seq<char> {
    if given.len() == 0 {
        regular
    } else {
        given
    }
}

/// The word that a line of a word list describes. The columns are
/// separated by tabs: variants (separated by commas), phones (separated by
/// commas), definition, then for nouns the plural, definite and definite
/// plural, for descriptors the plural and adverbial, and for verbs the
/// present and past, each empty for the regular form; for particles the
/// third column is the category and the fourth the definition. A word with
/// any form given is irregular.
pub open spec fn sheet_word(line: Seq<char>, ty: SheetType) -> Result<WordView, SheetErrorView> {
    let parts = split_on(line, '\t');
    if parts.len() < 3 {
        Err(SheetErrorView::Malformed)
    } else {
        let variants = split_on(parts[0], ',');
        let phones = split_on(parts[1], ',');
        let key = variants[0];
        match ty {
            SheetType::Nouns => if parts.len() < 6 {
                Err(SheetErrorView::Malformed)
            } else {
                Ok(
                    WordView {
                        variants,
                        phones,
                        definition: parts[2],
                        standard: parts[3].len() == 0 && parts[4].len() == 0 && parts[5].len() == 0,
                        pos: POSView::Noun {
                            plural: form_or(parts[3], noun_plural(key)),
                            definite: form_or(parts[4], noun_definite(key)),
                            definite_plural: form_or(parts[5], noun_definite_plural(key)),
                        },
                    },
                )
            },
            SheetType::Descriptors => if parts.len() < 5 {
                Err(SheetErrorView::Malformed)
            } else {
                Ok(
                    WordView {
                        variants,
                        phones,
                        definition: parts[2],
                        standard: parts[3].len() == 0 && parts[4].len() == 0,
                        pos: POSView::Descriptor {
                            plural: form_or(parts[3], descriptor_plural(key)),
                            adverbial: form_or(parts[4], descriptor_adverbial(key)),
                        },
                    },
                )
            },
            SheetType::Verbs => if parts.len() < 5 {
                Err(SheetErrorView::Malformed)
            } else {
                Ok(
                    WordView {
                        variants,
                        phones,
                        definition: parts[2],
                        standard: parts[3].len() == 0 && parts[4].len() == 0,
                        pos: POSView::Verb {
                            present: form_or(parts[3], verb_present(key)),
                            past: form_or(parts[4], verb_past(key)),
                        },
                    },
                )
            },
            SheetType::Particles => match category_from_name(parts[2]) {
                None => Err(SheetErrorView::UnknownCategory(parts[2])),
                Some(category) => if parts.len() < 4 {
                    Err(SheetErrorView::Malformed)
                } else {
                    Ok(
                        WordView {
                            variants,
                            phones,
                            definition: parts[3],
                            standard: true,
                            pos: POSView::Particle { category },
                        },
                    )
                },
            },
        }
    }
}

/// A form from a column, or the regular one when the column is empty.
fn form_from(given: &String, regular: String, standard: &mut bool) -> (s: String)
    ensures
        s@ == form_or(given@, regular@),
        *final(standard) == (*old(standard) && given@.len() == 0),
{
    let gc = chars_of(given.as_str());
    if gc.len() == 0 {
        regular
    } else {
        *standard = false;
        given.clone()
    }
}

/// Reads the word that a line of a word list describes.
pub fn parse_sheet_line(line: &str, sheet_ty: SheetType) -> (r: Result<Word, SheetError>)
    ensures
        match (r, sheet_word(line@, sheet_ty)) {
            (Ok(w), Ok(v)) => w@ == v,
            (Err(e), Err(v)) => e@ == v,
            _ => false,
        },
{
    let lc = chars_of(line);
    let parts = split(&lc, '\t');
    assert(forall|k: int| 0 <= k < parts@.len() ==> #[trigger] strings_view(parts@)[k] == parts@[k]@);
    if parts.len() < 3 {
        return Err(SheetError::Malformed);
    }
    let v0 = chars_of(parts[0].as_str());
    let variants = split(&v0, ',');
    let p1 = chars_of(parts[1].as_str());
    let phones = split(&p1, ',');
    proof {
        lemma_split_on_len(v0@, ',');
        assert(strings_view(variants@).len() == variants@.len());
        assert(strings_view(parts@)[0] == parts@[0]@);
        assert(strings_view(parts@)[1] == parts@[1]@);
        assert(strings_view(parts@)[2] == parts@[2]@);
        assert(strings_view(variants@)[0] == variants@[0]@);
    }
    let key_variant = variants[0].as_str();
    let mut standard = true;
    let pos = match sheet_ty {
        SheetType::Nouns => {
            if parts.len() < 6 {
                return Err(SheetError::Malformed);
            }
            let plural = form_from(&parts[3], generate_noun_plural(key_variant), &mut standard);
            let definite = form_from(&parts[4], generate_noun_definite(key_variant), &mut standard);
            let definite_plural = form_from(
                &parts[5],
                generate_noun_definite_plural(key_variant),
                &mut standard,
            );
            POS::Noun { plural, definite, definite_plural }
        },
        SheetType::Descriptors => {
            if parts.len() < 5 {
                return Err(SheetError::Malformed);
            }
            let plural = form_from(&parts[3], generate_descriptor_plural(key_variant), &mut standard);
            let adverbial = form_from(
                &parts[4],
                generate_descriptor_adverbial(key_variant),
                &mut standard,
            );
            POS::Descriptor { plural, adverbial }
        },
        SheetType::Verbs => {
            if parts.len() < 5 {
                return Err(SheetError::Malformed);
            }
            let present = form_from(&parts[3], generate_verb_present(key_variant), &mut standard);
            let past = form_from(&parts[4], generate_verb_past(key_variant), &mut standard);
            POS::Verb { present, past }
        },
        SheetType::Particles => {
            let category = match ParticleCategory::from_str(parts[2].as_str()) {
                Ok(c) => c,
                Err(_) => {
                    return Err(SheetError::UnknownCategory(parts[2].clone()));
                },
            };
            if parts.len() < 4 {
                return Err(SheetError::Malformed);
            }
            POS::Particle { category }
        },
    };
    let definition = match sheet_ty {
        SheetType::Particles => parts[3].clone(),
        _ => parts[2].clone(),
    };
    Ok(Word { variants, phones, definition, standard, pos })
}

/// What reading a word list gave: the words added, each with its id, and
/// the reason reading stopped early, if it did.
pub struct UpdateOutcome {
    pub added: Vec<(u128, Word)>,
    pub error: Option<SheetError>,
}

/// Reads a word list, line by line after the first (the header), and files
/// each word it describes under a fresh version 7 id (`uuid::Uuid::now_v7`); at the
/// first line that is refused it stops, keeping the words added before it.
/// The phone index is dropped; the variant index is left as it was.
pub fn update(db: &mut WorkingDatabase, sheet_ty: SheetType, lines: &Vec<String>) -> (o: UpdateOutcome)
    requires
        old(db).wf(),
    ensures
        final(db).wf(),
        final(db).spec_phones() is None,
        final(db).spec_words() == old(db).spec_words(),
        final(db).spec_version() == old(db).spec_version(),
        final(db).spec_ignore_terminal_y() == old(db).spec_ignore_terminal_y(),
        final(db).spec_ignore_h() == old(db).spec_ignore_h(),
        words_of(final(db).spec_data()) == words_of(old(db).spec_data()).union_prefer_right(
            entries_map(o.added@),
        ),
        o.added@.len() <= sheet_body(strings_view(lines@)).len(),
        forall|i: int| 0 <= i < o.added@.len() ==> is_version_seven((#[trigger] o.added@[i]).0),
        forall|i: int|
            0 <= i < o.added@.len() ==> sheet_word(sheet_body(strings_view(lines@))[i], sheet_ty)
                == Ok::<WordView, SheetErrorView>((#[trigger] o.added@[i]).1@),
        o.error is None ==> o.added@.len() == sheet_body(strings_view(lines@)).len(),
        o.error matches Some(e) ==> o.added@.len() < sheet_body(strings_view(lines@)).len()
            && sheet_word(sheet_body(strings_view(lines@))[o.added@.len() as int], sheet_ty) == Err::<
            WordView,
            SheetErrorView,
        >(e@),
{
    db.phones = None;
    let ghost body = sheet_body(strings_view(lines@));
    let ghost start = words_of(db.spec_data());
    let mut added: Vec<(u128, Word)> = Vec::new();
    let mut i: usize = 1;
    while i < lines.len()
        invariant
            1 <= i,
            lines@.len() > 0 ==> i <= lines@.len(),
            body == sheet_body(strings_view(lines@)),
            lines@.len() > 0 ==> added@.len() == i - 1,
            lines@.len() == 0 ==> added@.len() == 0,
            db.wf(),
            db.spec_phones() is None,
            db.spec_words() == old(db).spec_words(),
            db.spec_version() == old(db).spec_version(),
            db.spec_ignore_terminal_y() == old(db).spec_ignore_terminal_y(),
            db.spec_ignore_h() == old(db).spec_ignore_h(),
            old(db).spec_data().dom().subset_of(db.spec_data().dom()),
            start == words_of(old(db).spec_data()),
            words_of(db.spec_data()) == start.union_prefer_right(entries_map(added@)),
            forall|j: int|
                0 <= j < added@.len() ==> sheet_word(body[j], sheet_ty) == Ok::<WordView, SheetErrorView>(
                    (#[trigger] added@[j]).1@,
                ),
            forall|j: int| 0 <= j < added@.len() ==> is_version_seven((#[trigger] added@[j]).0),
        decreases lines@.len() - i,
    {
        assert(body[i - 1] == lines@[i as int]@);
        match parse_sheet_line(lines[i].as_str(), sheet_ty) {
            Err(e) => {
                return UpdateOutcome { added, error: Some(e) };
            },
            Ok(word) => {
                let id = fresh_word_id();
                let copy = word.copy();
                let ghost before = added@;
                let ghost data0 = db.spec_data();
                let ghost wv = word@;
                db.db.data.insert(id, WordData { word });
                added.push((id, copy));
                proof {
                    assert(added@.drop_last() =~= before);
                    assert(entries_map(added@) == entries_map(before).insert(id, wv));
                    assert(db.spec_data() == data0.insert(id, WordData { word }));
                    assert(words_of(db.spec_data()) =~= words_of(data0).insert(id, wv));
                    assert(start.union_prefer_right(entries_map(added@)) =~= start.union_prefer_right(
                        entries_map(before),
                    ).insert(id, wv));
                }
            },
        }
        i = i + 1;
    }
    UpdateOutcome { added, error: None }
}

/// How a word shows its forms: the last lines before the two closing blank
/// lines give each form of its part of speech under its label, padded to 14
/// columns, with the form in bold: for a verb "Present:" then "Past:", for a
/// noun "Plural:", "Definite:" then "Def. Plural:", for a descriptor
/// "Plural:" then "Adverbial:".
pub proof fn lemma_word_lines_forms(y: bool, h: bool, w: WordView)
    ensures
        ({
            let ls = word_lines(y, h, w);
            let n = ls.len() as int;
            &&& ls[n - 1].len() == 0
            &&& ls[n - 2].len() == 0
            &&& (w.pos matches POSView::Verb { present, past } ==> {
                &&& ls[n - 4] == seq![span("Present:      "@, plain()), span(present, bold_style())]
                &&& ls[n - 3] == seq![span("Past:         "@, plain()), span(past, bold_style())]
            })
            &&& (w.pos matches POSView::Noun { plural, definite, definite_plural } ==> {
                &&& ls[n - 5] == seq![span("Plural:       "@, plain()), span(plural, bold_style())]
                &&& ls[n - 4] == seq![span("Definite:     "@, plain()), span(definite, bold_style())]
                &&& ls[n - 3] == seq![span("Def. Plural:  "@, plain()), span(definite_plural, bold_style())]
            })
            &&& (w.pos matches POSView::Descriptor { plural, adverbial } ==> {
                &&& ls[n - 4] == seq![span("Plural:       "@, plain()), span(plural, bold_style())]
                &&& ls[n - 3] == seq![span("Adverbial:    "@, plain()), span(adverbial, bold_style())]
            })
        }),
{
    reveal_strlit("Present:");
    reveal_strlit("Past:");
    reveal_strlit("Plural:");
    reveal_strlit("Definite:");
    reveal_strlit("Def. Plural:");
    reveal_strlit("Adverbial:");
    reveal_strlit("Present:      ");
    reveal_strlit("Past:         ");
    reveal_strlit("Plural:       ");
    reveal_strlit("Definite:     ");
    reveal_strlit("Def. Plural:  ");
    reveal_strlit("Adverbial:    ");
    assert(pad_right("Present:"@, 14) =~= "Present:      "@);
    assert(pad_right("Past:"@, 14) =~= "Past:         "@);
    assert(pad_right("Plural:"@, 14) =~= "Plural:       "@);
    assert(pad_right("Definite:"@, 14) =~= "Definite:     "@);
    assert(pad_right("Def. Plural:"@, 14) =~= "Def. Plural:  "@);
    assert(pad_right("Adverbial:"@, 14) =~= "Adverbial:    "@);
}

/// How a word opens when shown: a heading with its variants joined by
/// commas between "%% " and " %%", its part of speech after "> ", a blank
/// line, its definition, a blank line, its phones after "Phones: ", a
/// blank line, and then the mark " * Irregular" exactly when the word is
/// irregular.
pub proof fn lemma_word_lines_head(y: bool, h: bool, w: WordView)
    ensures
        ({
            let ls = word_lines(y, h, w);
            &&& ls[0] == seq![span("%% "@ + join(w.variants, ","@) + " %%"@, heading_style())]
            &&& ls[1] == seq![span("> "@ + pos_description(w.pos), italic_style())]
            &&& ls[2].len() == 0
            &&& ls[3] == seq![span(w.definition, plain())]
            &&& ls[4].len() == 0
            &&& ls[5][0] == span("Phones: "@, plain())
            &&& ls[6].len() == 0
            &&& (ls[7] == seq![span(" * Irregular"@, italic_style())] <==> !w.standard)
        }),
{
    let ls = word_lines(y, h, w);
    if w.standard && ls[7] == seq![span(" * Irregular"@, italic_style())] {
        assert(ls[7].len() == 1);
    }
}

/// A line of a word list is read column by column, the columns split at
/// tabs: the variants and the phones (each split at commas), the
/// definition, then the forms; a form column left empty takes the regular
/// form of the first variant, and the word is regular when every form
/// column is empty. Nouns give the plural, definite and definite plural
/// from the fourth, fifth and sixth columns, descriptors the plural and
/// adverbial from the fourth and fifth, verbs the present and past from the
/// fourth and fifth.
pub proof fn lemma_sheet_columns(cols: Seq<Seq<char>>)
    requires
        cols.len() >= 3,
        forall|i: int| 0 <= i < cols.len() ==> !(#[trigger] cols[i]).contains('\t'),
    ensures
        ({
            let line = join(cols, seq!['\t']);
            let variants = split_on(cols[0], ',');
            let phones = split_on(cols[1], ',');
            let key = variants[0];
            &&& cols.len() >= 6 ==> sheet_word(line, SheetType::Nouns) == Ok::<WordView, SheetErrorView>(
                WordView {
                    variants,
                    phones,
                    definition: cols[2],
                    standard: cols[3].len() == 0 && cols[4].len() == 0 && cols[5].len() == 0,
                    pos: POSView::Noun {
                        plural: if cols[3].len() > 0 { cols[3] } else { noun_plural(key) },
                        definite: if cols[4].len() > 0 { cols[4] } else { noun_definite(key) },
                        definite_plural: if cols[5].len() > 0 { cols[5] } else { noun_definite_plural(key) },
                    },
                },
            )
            &&& cols.len() >= 5 ==> sheet_word(line, SheetType::Descriptors) == Ok::<WordView, SheetErrorView>(
                WordView {
                    variants,
                    phones,
                    definition: cols[2],
                    standard: cols[3].len() == 0 && cols[4].len() == 0,
                    pos: POSView::Descriptor {
                        plural: if cols[3].len() > 0 { cols[3] } else { descriptor_plural(key) },
                        adverbial: if cols[4].len() > 0 { cols[4] } else { descriptor_adverbial(key) },
                    },
                },
            )
            &&& cols.len() >= 5 ==> sheet_word(line, SheetType::Verbs) == Ok::<WordView, SheetErrorView>(
                WordView {
                    variants,
                    phones,
                    definition: cols[2],
                    standard: cols[3].len() == 0 && cols[4].len() == 0,
                    pos: POSView::Verb {
                        present: if cols[3].len() > 0 { cols[3] } else { verb_present(key) },
                        past: if cols[4].len() > 0 { cols[4] } else { verb_past(key) },
                    },
                },
            )
            &&& cols.len() >= 4 && category_from_name(cols[2]) is Some ==> sheet_word(line, SheetType::Particles)
                == Ok::<WordView, SheetErrorView>(
                WordView {
                    variants,
                    phones,
                    definition: cols[3],
                    standard: true,
                    pos: POSView::Particle { category: category_from_name(cols[2]).unwrap() },
                },
            )
        }),
{
    crate::edit::lemma_split_join(cols, '\t');
}

/// The lines of a word list after the header.
pub open spec fn sheet_body(lines: Seq<Seq<char>>) -> Seq<Seq<char>> {
    if lines.len() == 0 {
        lines
    } else {
        lines.drop_first()
    }
}

} // verus!

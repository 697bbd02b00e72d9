//! The command line of the dictionary: a small language of commands with
//! flags, read character by character, whose errors point at the byte of the
//! input where reading went wrong.
use vstd::prelude::*;
use crate::lang::{POSType, pos_type_from_name};
use crate::text::{
    byte_len, char_width, chars_eq_str, chars_of, is_whitespace, is_ws, lemma_byte_len_prefix,
    lemma_byte_len_push, push_str, string_of, utf8_width,
};

verus! {

/// The kind of word list that an `update` reads.
#[derive(Clone, Copy, Debug, PartialEq, Eq, Structural)]
pub enum SheetType {
    Nouns,
    Verbs,
    Descriptors,
    Particles,
}

/// How a pattern is compared with the keys it is matched against.
#[derive(Debug, Clone, Copy, PartialEq, Eq, Structural)]
pub enum MatchType {
    Standard,
    Fuzzy,
    Regex,
}

impl Default for MatchType {
    fn default() -> (m: MatchType)
        ensures
            m == MatchType::Standard,
    {
        MatchType::Standard
    }
}

/// Bounds on how many words share a phone.
#[derive(Debug, Clone, Copy, PartialEq, Eq, Structural)]
pub enum PopularityBounds {
    Unique,
    LowHigh { low: Option<usize>, high: Option<usize> },
}

/// A set of kinds of part of speech.
#[derive(Debug, Clone, Copy, PartialEq, Eq, Structural)]
pub struct POSTypeFlags {
    pub noun: bool,
    pub descriptor: bool,
    pub verb: bool,
    pub particle: bool,
}

/// Whether a set of kinds holds `t`.
pub open spec fn flags_has(f: POSTypeFlags, t: POSType) -> bool {
    match t {
        POSType::Noun => f.noun,
        POSType::Descriptor => f.descriptor,
        POSType::Verb => f.verb,
        POSType::Particle => f.particle,
    }
}

/// `f` with `t` added.
pub open spec fn flags_with(f: POSTypeFlags, t: POSType) -> POSTypeFlags {
    match t {
        POSType::Noun => POSTypeFlags { noun: true, ..f },
        POSType::Descriptor => POSTypeFlags { descriptor: true, ..f },
        POSType::Verb => POSTypeFlags { verb: true, ..f },
        POSType::Particle => POSTypeFlags { particle: true, ..f },
    }
}

/// The set holding no kind.
pub open spec fn flags_none() -> POSTypeFlags {
    POSTypeFlags { noun: false, descriptor: false, verb: false, particle: false }
}

/// The set holding every kind.
pub open spec fn flags_every() -> POSTypeFlags {
    POSTypeFlags { noun: true, descriptor: true, verb: true, particle: true }
}

impl View for POSTypeFlags {
    type V = Set<POSType>;

    open spec fn view(&self) -> Set<POSType> {
        Set::new(|t: POSType| flags_has(*self, t))
    }
}

impl POSTypeFlags {
    /// The set holding no kind.
    pub fn empty() -> (f: POSTypeFlags)
        ensures
            f == flags_none(),
    {
        POSTypeFlags { noun: false, descriptor: false, verb: false, particle: false }
    }

    /// The set holding every kind.
    pub fn all() -> (f: POSTypeFlags)
        ensures
            f == flags_every(),
    {
        POSTypeFlags { noun: true, descriptor: true, verb: true, particle: true }
    }

    /// The set holding only `t`.
    pub fn from_type(t: POSType) -> (f: POSTypeFlags)
        ensures
            f == flags_with(flags_none(), t),
    {
        let mut f = POSTypeFlags::empty();
        f.insert(t);
        f
    }

    /// Adds `t` to the set.
    pub fn insert(&mut self, t: POSType)
        ensures
            *final(self) == flags_with(*old(self), t),
    {
        match t {
            POSType::Noun => self.noun = true,
            POSType::Descriptor => self.descriptor = true,
            POSType::Verb => self.verb = true,
            POSType::Particle => self.particle = true,
        }
    }

    /// Whether every kind of `other` is in the set.
    pub fn contains(&self, other: POSTypeFlags) -> (b: bool)
        ensures
            b == other@.subset_of(self@),
    {
        let b = (!other.noun || self.noun) && (!other.descriptor || self.descriptor) && (
        !other.verb || self.verb) && (!other.particle || self.particle);
        proof {
            if !b {
                if other.noun && !self.noun {
                    assert(other@.contains(POSType::Noun));
                } else if other.descriptor && !self.descriptor {
                    assert(other@.contains(POSType::Descriptor));
                } else if other.verb && !self.verb {
                    assert(other@.contains(POSType::Verb));
                } else {
                    assert(other@.contains(POSType::Particle));
                }
            }
        }
        b
    }

    /// Whether the set holds `t`.
    pub fn has(&self, t: POSType) -> (b: bool)
        ensures
            b == self@.contains(t),
    {
        match t {
            POSType::Noun => self.noun,
            POSType::Descriptor => self.descriptor,
            POSType::Verb => self.verb,
            POSType::Particle => self.particle,
        }
    }

    /// Whether the set holds every kind.
    pub fn is_all(&self) -> (b: bool)
        ensures
            b == (*self == flags_every()),
    {
        self.noun && self.descriptor && self.verb && self.particle
    }

    /// The set as bits: noun 1, descriptor 2, verb 4, particle 8.
    pub fn bits(&self) -> (b: u8)
        ensures
            b == (if self.noun { 1u8 } else { 0u8 }) + (if self.descriptor { 2u8 } else { 0u8 })
                + (if self.verb { 4u8 } else { 0u8 }) + (if self.particle { 8u8 } else { 0u8 }),
    {
        let mut b: u8 = 0;
        if self.noun {
            b = b + 1;
        }
        if self.descriptor {
            b = b + 2;
        }
        if self.verb {
            b = b + 4;
        }
        if self.particle {
            b = b + 8;
        }
        b
    }
}

impl POSType {
    /// The set holding only this kind.
    pub fn into_flags(self) -> (f: POSTypeFlags)
        ensures
            f == flags_with(flags_none(), self),
    {
        POSTypeFlags::from_type(self)
    }
}

/// A command of the dictionary.
#[allow(non_snake_case)]
#[derive(Debug, Clone, PartialEq, Eq)]
pub enum Commands {
    Update { sheet_ty: SheetType, sheet_file: String },
    Dump,
    Phone { phone_matching: Option<(String, MatchType)>, bounds: Option<PopularityBounds> },
    Word { word: String, match_type: MatchType, pos_guards: POSTypeFlags, edit: bool },
    Search { content: String },
    Choose,
    New,
    Flags { ignore_terminal_Y: Option<bool>, ignore_H: Option<bool> },
    Quit,
}

/// A command, with its text as character sequences.
#[allow(non_snake_case)]
pub enum CommandView {
    Update { sheet_ty: SheetType, sheet_file: Seq<char> },
    Dump,
    Phone { phone_matching: Option<(Seq<char>, MatchType)>, bounds: Option<PopularityBounds> },
    Word { word: Seq<char>, match_type: MatchType, pos_guards: POSTypeFlags, edit: bool },
    Search { content: Seq<char> },
    Choose,
    New,
    Flags { ignore_terminal_Y: Option<bool>, ignore_H: Option<bool> },
    Quit,
}

impl View for Commands {
    type V = CommandView;

    open spec fn view(&self) -> CommandView {
        match self {
            Commands::Update { sheet_ty, sheet_file } => CommandView::Update {
                sheet_ty: *sheet_ty,
                sheet_file: sheet_file@,
            },
            Commands::Dump => CommandView::Dump,
            Commands::Phone { phone_matching, bounds } => CommandView::Phone {
                phone_matching: match phone_matching {
                    Some((p, m)) => Some((p@, *m)),
                    None => None,
                },
                bounds: *bounds,
            },
            Commands::Word { word, match_type, pos_guards, edit } => CommandView::Word {
                word: word@,
                match_type: *match_type,
                pos_guards: *pos_guards,
                edit: *edit,
            },
            Commands::Search { content } => CommandView::Search { content: content@ },
            Commands::Choose => CommandView::Choose,
            Commands::New => CommandView::New,
            Commands::Flags { ignore_terminal_Y, ignore_H } => CommandView::Flags {
                ignore_terminal_Y: *ignore_terminal_Y,
                ignore_H: *ignore_H,
            },
            Commands::Quit => CommandView::Quit,
        }
    }
}

/// Why a command line was refused: the offset in the input where the problem
/// lies (in bytes, not counting the '-' of the flags read before it), the
/// input itself, and a message.
pub struct ParseError {
    pos: usize,
    inp: String,
    error: String,
}

impl ParseError {
    /// The offset in the input where the problem lies.
    pub fn pos(&self) -> (p: usize)
        ensures
            p == self.spec_pos(),
    {
        self.pos
    }

    /// The offset, as a spec value.
    pub closed spec fn spec_pos(&self) -> usize {
        self.pos
    }

    /// The input, as a spec value.
    pub closed spec fn spec_input(&self) -> Seq<char> {
        self.inp@
    }

    /// The message, as a spec value.
    pub closed spec fn spec_message(&self) -> Seq<char> {
        self.error@
    }

    /// The input that was refused.
    pub fn input(&self) -> (s: &str)
        ensures
            s@ == self.spec_input(),
    {
        self.inp.as_str()
    }

    /// The message.
    pub fn message(&self) -> (s: &str)
        ensures
            s@ == self.spec_message(),
    {
        self.error.as_str()
    }

    /// The report shown to the user: the message and a colon, a blank line,
    /// the input indented by two spaces, and under it a caret at the offset.
    pub fn render(&self) -> (s: String)
        ensures
            s@ == render_spec(self.spec_message(), self.spec_input(), self.spec_pos() as nat),
    {
        let mut s = String::new();
        push_str(&mut s, self.error.as_str());
        push_str(&mut s, ":\n\n  ");
        push_str(&mut s, self.inp.as_str());
        push_str(&mut s, "\n  ");
        let ghost before = s@;
        let mut i: usize = 0;
        while i < self.pos
            invariant
                i <= self.pos,
                s@ == before + spaces(i as nat),
            decreases self.pos - i,
        {
            s.push(' ');
            i = i + 1;
            assert(spaces(i as nat) =~= spaces((i - 1) as nat).push(' '));
        }
        push_str(&mut s, "^\n\n");
        s
    }
}

/// `n` spaces.
pub open spec fn spaces(n: nat) -> Seq<char> {
    Seq::new(n, |i: int| ' ')
}

/// The report of a parse error: `{error}:\n\n  {inp}\n  {caret at pos}\n\n`.
pub open spec fn render_spec(error: Seq<char>, inp: Seq<char>, pos: nat) -> Seq<char> {
    error + ":\n\n  "@ + inp + "\n  "@ + spaces(pos) + "^\n\n"@
}

// ----- reading the input -----

/// The index of the first whitespace character at or after `i`, or the end.
pub open spec fn word_end(s: Seq<char>, i: int) -> int
    decreases s.len() - i,
{
    if i < 0 || i >= s.len() || is_ws(s[i]) {
        i
    } else {
        word_end(s, i + 1)
    }
}

/// The index of the first non-whitespace character at or after `i`, or the end.
pub open spec fn space_end(s: Seq<char>, i: int) -> int
    decreases s.len() - i,
{
    if i < 0 || i >= s.len() || !is_ws(s[i]) {
        i
    } else {
        space_end(s, i + 1)
    }
}

/// The byte offset of character index `i`.
pub open spec fn bpos(s: Seq<char>, i: int) -> nat {
    byte_len(s.take(i))
}

/// The offset that the reader reports at character index `i` once it has
/// read `lag` flags: the '-' that opens a flag is skipped without being
/// counted, so each flag read before `i` lowers the offset by one.
pub open spec fn read_pos(s: Seq<char>, i: int, lag: nat) -> nat {
    if bpos(s, i) >= lag {
        (bpos(s, i) - lag) as nat
    } else {
        0
    }
}

/// The run of non-whitespace characters starting at `i`.
pub open spec fn token(s: Seq<char>, i: int) -> Seq<char> {
    s.subrange(i, word_end(s, i))
}

/// A token runs from `i` up to the first whitespace character or the end.
pub proof fn lemma_word_end(s: Seq<char>, i: int)
    requires
        0 <= i <= s.len(),
    ensures
        i <= word_end(s, i) <= s.len(),
        forall|k: int| i <= k < word_end(s, i) ==> !is_ws(#[trigger] s[k]),
        word_end(s, i) < s.len() ==> is_ws(s[word_end(s, i)]),
    decreases s.len() - i,
{
    if i < s.len() && !is_ws(s[i]) {
        lemma_word_end(s, i + 1);
    }
}

/// Skipping whitespace from `i` stops at the first other character or the
/// end.
pub proof fn lemma_space_end(s: Seq<char>, i: int)
    requires
        0 <= i <= s.len(),
    ensures
        i <= space_end(s, i) <= s.len(),
        forall|k: int| i <= k < space_end(s, i) ==> is_ws(#[trigger] s[k]),
        space_end(s, i) < s.len() ==> !is_ws(s[space_end(s, i)]),
    decreases s.len() - i,
{
    if i < s.len() && is_ws(s[i]) {
        lemma_space_end(s, i + 1);
    }
}

/// A cursor over the characters of a command line that counts the bytes it
/// has consumed, leaving out the '-' of each flag it has read.
struct ParsingIter {
    chrs: Vec<char>,
    idx: usize,
    consumed: usize,
    skipped: Ghost<nat>,
}

impl ParsingIter {
    spec fn wf(&self) -> bool {
        &&& self.idx <= self.chrs@.len()
        &&& self.chrs@.len() <= usize::MAX
        &&& self.skipped@ <= bpos(self.chrs@, self.idx as int)
        &&& self.consumed == bpos(self.chrs@, self.idx as int) - self.skipped@
        &&& byte_len(self.chrs@) <= usize::MAX
    }

    /// The number of flags read so far.
    spec fn lag(&self) -> nat {
        self.skipped@
    }

    spec fn s(&self) -> Seq<char> {
        self.chrs@
    }

    spec fn at(&self) -> int {
        self.idx as int
    }

    fn new(inp: &str) -> (p: ParsingIter)
        ensures
            p.wf(),
            p.s() == inp@,
            p.at() == 0,
            p.lag() == 0,
    {
        let total = inp.as_bytes().len();
        let chrs = chars_of(inp);
        let _n = chrs.len();
        assert(chrs@.take(0) =~= Seq::<char>::empty());
        ParsingIter { chrs, idx: 0, consumed: 0, skipped: Ghost(0) }
    }

    fn is_empty(&self) -> (b: bool)
        requires
            self.wf(),
        ensures
            b == (self.at() >= self.s().len()),
    {
        self.idx >= self.chrs.len()
    }

    fn get_pos(&self) -> (p: usize)
        requires
            self.wf(),
        ensures
            p == read_pos(self.s(), self.at(), self.lag()),
    {
        self.consumed
    }

    /// Consumes one character.
    fn advance(&mut self)
        requires
            old(self).wf(),
            old(self).at() < old(self).s().len(),
        ensures
            final(self).wf(),
            final(self).s() == old(self).s(),
            final(self).at() == old(self).at() + 1,
            final(self).lag() == old(self).lag(),
    {
        let c = self.chrs[self.idx];
        let w = utf8_width(c);
        proof {
            let s = self.chrs@;
            let i = self.idx as int;
            assert(s.take(i + 1) =~= s.take(i).push(s[i]));
            lemma_byte_len_push(s.take(i), s[i]);
            lemma_byte_len_prefix(s, i + 1, s.len() as int);
            assert(s.take(s.len() as int) =~= s);
        }
        self.consumed = self.consumed + w;
        self.idx = self.idx + 1;
    }

    /// Reads the run of non-whitespace characters at the cursor, with the
    /// offset where it starts.
    fn read_until_space(&mut self) -> (r: (usize, Vec<char>))
        requires
            old(self).wf(),
        ensures
            final(self).wf(),
            final(self).s() == old(self).s(),
            final(self).at() == word_end(old(self).s(), old(self).at()),
            final(self).lag() == old(self).lag(),
            r.0 == read_pos(old(self).s(), old(self).at(), old(self).lag()),
            r.1@ == token(old(self).s(), old(self).at()),
    {
        let pos = self.consumed;
        let ghost lag = self.lag();
        let ghost s = self.chrs@;
        let ghost start = self.idx as int;
        proof {
            lemma_word_end(s, start);
        }
        let mut buf: Vec<char> = Vec::new();
        while self.idx < self.chrs.len() && !is_whitespace(self.chrs[self.idx])
            invariant
                self.wf(),
                self.s() == s,
                self.lag() == lag,
                start <= self.at() <= word_end(s, start),
                word_end(s, self.at()) == word_end(s, start),
                buf@ == s.subrange(start, self.at()),
            decreases s.len() - self.at(),
        {
            let c = self.chrs[self.idx];
            buf.push(c);
            self.advance();
            proof {
                lemma_word_end(s, self.at());
            }
            assert(buf@ =~= s.subrange(start, self.at()));
        }
        (pos, buf)
    }

    /// Skips whitespace.
    fn skip_space(&mut self)
        requires
            old(self).wf(),
        ensures
            final(self).wf(),
            final(self).s() == old(self).s(),
            final(self).at() == space_end(old(self).s(), old(self).at()),
            final(self).lag() == old(self).lag(),
    {
        let ghost s = self.chrs@;
        let ghost start = self.idx as int;
        let ghost lag = self.lag();
        while self.idx < self.chrs.len() && is_whitespace(self.chrs[self.idx])
            invariant
                self.wf(),
                self.s() == s,
                self.lag() == lag,
                start <= self.at(),
                space_end(s, self.at()) == space_end(s, start),
            decreases s.len() - self.at(),
        {
            self.advance();
        }
    }

    /// Reads a flag: a '-' followed by a run of non-whitespace characters.
    /// The offset given is one past the offset at the cursor; the '-' itself
    /// is not counted in the offsets reported after it.
    fn read_flag(&mut self) -> (r: (usize, Option<Vec<char>>))
        requires
            old(self).wf(),
            old(self).at() < old(self).s().len(),
        ensures
            final(self).wf(),
            final(self).s() == old(self).s(),
            r.0 == read_pos(old(self).s(), old(self).at(), old(self).lag()) + 1,
            old(self).s()[old(self).at()] == '-' ==> {
                &&& final(self).at() == word_end(old(self).s(), old(self).at() + 1)
                &&& final(self).lag() == old(self).lag() + 1
                &&& r.1 matches Some(f) && f@ == token(old(self).s(), old(self).at() + 1)
            },
            old(self).s()[old(self).at()] != '-' ==> final(self).at() == old(self).at()
                && final(self).lag() == old(self).lag() && r.1 is None,
    {
        proof {
            let s = self.chrs@;
            let i = self.idx as int;
            assert(s.take(i + 1) =~= s.take(i).push(s[i]));
            lemma_byte_len_push(s.take(i), s[i]);
            lemma_byte_len_prefix(s, i + 1, s.len() as int);
            assert(s.take(s.len() as int) =~= s);
        }
        let pos = self.consumed + 1;
        if self.chrs[self.idx] == '-' {
            assert(char_width('-') == 1);
            self.idx = self.idx + 1;
            self.skipped = Ghost(self.skipped@ + 1);
            let (_, out) = self.read_until_space();
            (pos, Some(out))
        } else {
            (pos, None)
        }
    }

    fn is_flag(&self) -> (b: bool)
        requires
            self.wf(),
        ensures
            b == (self.at() < self.s().len() && self.s()[self.at()] == '-'),
    {
        self.idx < self.chrs.len() && self.chrs[self.idx] == '-'
    }

    /// Reads "on" or "off".
    fn read_onoff(&mut self) -> (r: (usize, Option<bool>))
        requires
            old(self).wf(),
        ensures
            final(self).wf(),
            final(self).s() == old(self).s(),
            final(self).at() == word_end(old(self).s(), old(self).at()),
            final(self).lag() == old(self).lag(),
            r.0 == read_pos(old(self).s(), old(self).at(), old(self).lag()),
            r.1 == onoff(token(old(self).s(), old(self).at())),
    {
        let (pos, val) = self.read_until_space();
        let b = if chars_eq_str(&val, "on") {
            Some(true)
        } else if chars_eq_str(&val, "off") {
            Some(false)
        } else {
            None
        };
        (pos, b)
    }

    /// Consumes and returns everything that is left.
    fn rest(&mut self) -> (r: Vec<char>)
        requires
            old(self).wf(),
        ensures
            final(self).wf(),
            final(self).s() == old(self).s(),
            final(self).at() == old(self).s().len(),
            final(self).lag() == old(self).lag(),
            r@ == old(self).s().subrange(old(self).at(), old(self).s().len() as int),
    {
        let ghost s = self.chrs@;
        let ghost start = self.idx as int;
        let ghost lag = self.lag();
        let mut buf: Vec<char> = Vec::new();
        assert(buf@ =~= s.subrange(start, start));
        while self.idx < self.chrs.len()
            invariant
                self.wf(),
                self.s() == s,
                self.lag() == lag,
                0 <= start <= self.at(),
                buf@ == s.subrange(start, self.at()),
            decreases s.len() - self.at(),
        {
            let c = self.chrs[self.idx];
            buf.push(c);
            self.advance();
            assert(buf@ =~= s.subrange(start, self.at()));
        }
        buf
    }
}

/// What "on" and "off" stand for.
pub open spec fn onoff(t: Seq<char>) -> Option<bool> {
    if t == "on"@ {
        Some(true)
    } else if t == "off"@ {
        Some(false)
    } else {
        None
    }
}

// ----- numbers -----

/// Whether `c` is an ASCII decimal digit.
pub open spec fn is_digit(c: char) -> bool {
    '0' <= c && c <= '9'
}

/// The value of a run of decimal digits.
pub open spec fn digits_value(d: Seq<char>) -> nat
    decreases d.len(),
{
    if d.len() == 0 {
        0
    } else {
        digits_value(d.drop_last()) * 10 + ((d.last() as u32) - ('0' as u32)) as nat
    }
}

/// The digits of a number: without a leading '+' when more follows it.
pub open spec fn unsigned_digits(t: Seq<char>) -> Seq<char> {
    if t.len() >= 2 && t[0] == '+' {
        t.drop_first()
    } else {
        t
    }
}

/// Whether every character is a decimal digit.
pub open spec fn all_digits(d: Seq<char>) -> bool {
    forall|k: int| 0 <= k < d.len() ==> is_digit(#[trigger] d[k])
}

/// What `str::parse::<usize>` gives: an optional '+' then one or more
/// decimal digits whose value fits in a `usize`.
pub open spec fn usize_from_str(t: Seq<char>) -> Option<usize> {
    let d = unsigned_digits(t);
    if d.len() > 0 && all_digits(d) && digits_value(d) <= usize::MAX {
        Some(digits_value(d) as usize)
    } else {
        None
    }
}

/// Reads a `usize` the way `str::parse::<usize>` does.
pub fn parse_usize(t: &[char]) -> (r: Option<usize>)
    ensures
        r == usize_from_str(t@),
{
    let start: usize = if t.len() >= 2 && t[0] == '+' {
        1
    } else {
        0
    };
    let ghost d = unsigned_digits(t@);
    assert(d =~= t@.subrange(start as int, t@.len() as int));
    if start >= t.len() {
        return None;
    }
    let mut value: usize = 0;
    let mut i: usize = start;
    while i < t.len()
        invariant
            start <= i <= t@.len(),
            d == t@.subrange(start as int, t@.len() as int),
            d == unsigned_digits(t@),
            forall|k: int| start <= k < i ==> is_digit(#[trigger] t@[k]),
            value == digits_value(t@.subrange(start as int, i as int)),
        decreases t@.len() - i,
    {
        let c = t[i];
        if !('0' <= c && c <= '9') {
            assert(d[i - start] == c);
            assert(!is_digit(d[i - start]));
            assert(!all_digits(d));
            return None;
        }
        let digit = (c as u32 - '0' as u32) as usize;
        assert(t@.subrange(start as int, i + 1).drop_last() =~= t@.subrange(start as int, i as int));
        if value > (usize::MAX - digit) / 10 {
            proof {
                assert(t@.subrange(start as int, i + 1) =~= d.take(i + 1 - start));
                let pre = t@.subrange(start as int, i + 1);
                assert(digits_value(pre) == value * 10 + digit);
                if all_digits(d) {
                    lemma_digits_value_grows(pre, d);
                }
                assert(value * 10 + digit > usize::MAX) by (nonlinear_arith)
                    requires
                        value > (usize::MAX - digit) / 10,
                        digit <= 9,
                ;
            }
            return None;
        }
        assert(value * 10 + digit <= usize::MAX) by (nonlinear_arith)
            requires
                value <= (usize::MAX - digit) / 10,
                digit <= 9,
        ;
        value = value * 10 + digit;
        i = i + 1;
    }
    assert(t@.subrange(start as int, i as int) =~= d);
    Some(value)
}

/// A longer run of digits never has a smaller value.
proof fn lemma_digits_value_grows(p: Seq<char>, d: Seq<char>)
    requires
        p.len() <= d.len(),
        p == d.take(p.len() as int),
        all_digits(d),
    ensures
        digits_value(p) <= digits_value(d),
    decreases d.len() - p.len(),
{
    if p.len() < d.len() {
        let q = d.take(p.len() + 1 as int);
        assert(q.drop_last() =~= p);
        assert(is_digit(d[p.len() as int]));
        let dv = ((q.last() as u32) - ('0' as u32)) as nat;
        assert(digits_value(q) == digits_value(p) * 10 + dv);
        assert(digits_value(p) * 10 + dv >= digits_value(p)) by (nonlinear_arith);
        lemma_digits_value_grows(q, d);
    } else {
        assert(p =~= d);
    }
}

// ----- the language of commands -----

/// A refusal: the offset and the message.
pub type SpecError = (nat, Seq<char>);

/// A command that must be followed by nothing.
pub open spec fn end_spec(s: Seq<char>, i: int, c: CommandView) -> Result<CommandView, SpecError> {
    if i < s.len() {
        Err((bpos(s, i), "expected end of command"@))
    } else {
        Ok(c)
    }
}

/// The rest of a `search`: everything after the spaces that follow it.
pub open spec fn search_spec(s: Seq<char>, i: int) -> Result<CommandView, SpecError> {
    let j = space_end(s, i);
    if j >= s.len() {
        Err((bpos(s, j), "expected search terms"@))
    } else {
        Ok(CommandView::Search { content: s.subrange(j, s.len() as int) })
    }
}

/// The sheet type that a name stands for.
pub open spec fn sheet_from_name(t: Seq<char>) -> Option<SheetType> {
    if t == "n"@ || t == "noun"@ || t == "nouns"@ {
        Some(SheetType::Nouns)
    } else if t == "v"@ || t == "verb"@ || t == "verbs"@ {
        Some(SheetType::Verbs)
    } else if t == "d"@ || t == "descriptor"@ || t == "descriptors"@ {
        Some(SheetType::Descriptors)
    } else if t == "p"@ || t == "particle"@ || t == "particles"@ {
        Some(SheetType::Particles)
    } else {
        None
    }
}

/// The rest of an `update`: a sheet type, a file path, and nothing more.
pub open spec fn update_spec(s: Seq<char>, i: int) -> Result<CommandView, SpecError> {
    let j = space_end(s, i);
    let raw = token(s, j);
    let k = word_end(s, j);
    match sheet_from_name(raw) {
        None => if raw.len() == 0 {
            Err((bpos(s, j), "expected sheet type"@))
        } else {
            Err((bpos(s, j), "unknown sheet type "@ + raw))
        },
        Some(sheet_ty) => {
            let m = space_end(s, k);
            let path = token(s, m);
            let n = word_end(s, m);
            if path.len() == 0 {
                Err((bpos(s, m), "expected sheet filepath"@))
            } else if n < s.len() {
                Err((bpos(s, n), "expected end of command"@))
            } else {
                Ok(CommandView::Update { sheet_ty, sheet_file: path })
            }
        },
    }
}

/// The pattern and match type read so far by `phones`.
pub type PhoneMatching = Option<(Option<Seq<char>>, MatchType)>;

/// The end of `phones`: a match type without a pattern is refused.
pub open spec fn phones_finish(
    s: Seq<char>,
    pm: PhoneMatching,
    bounds: Option<PopularityBounds>,
    lag: nat,
) -> Result<
    CommandView,
    SpecError,
> {
    match pm {
        Some((Some(p), m)) => Ok(CommandView::Phone { phone_matching: Some((p, m)), bounds }),
        Some((None, _)) => Err((read_pos(s, s.len() as int, lag), "expected phone pattern"@)),
        None => Ok(CommandView::Phone { phone_matching: None, bounds }),
    }
}

/// The flags and pattern of `phones`, from character index `i` on.
pub open spec fn phones_spec(
    s: Seq<char>,
    i: int,
    pm: PhoneMatching,
    bounds: Option<PopularityBounds>,
    lag: nat,
) -> Result<CommandView, SpecError>
    decreases s.len() - i,
    when 0 <= i <= s.len()
{
    let j = space_end(s, i);
    proof {
        lemma_space_end(s, i);
    }
    if j >= s.len() {
        phones_finish(s, pm, bounds, lag)
    } else if s[j] == '-' {
        let pos = read_pos(s, j, lag) + 1;
        let flag = token(s, j + 1);
        let k = word_end(s, j + 1);
        proof {
            lemma_word_end(s, j + 1);
        }
        if flag == "f"@ || flag == "fuzzy"@ {
            match pm {
                Some((p, MatchType::Standard)) => phones_spec(s, k, Some((p, MatchType::Fuzzy)), bounds, lag + 1),
                None => phones_spec(s, k, Some((None, MatchType::Fuzzy)), bounds, lag + 1),
                _ => Err((pos, "match type already set"@)),
            }
        } else if flag == "r"@ || flag == "regex"@ {
            match pm {
                Some((p, MatchType::Standard)) => phones_spec(s, k, Some((p, MatchType::Regex)), bounds, lag + 1),
                None => phones_spec(s, k, Some((None, MatchType::Regex)), bounds, lag + 1),
                _ => Err((pos, "match type already set"@)),
            }
        } else if flag == "u"@ || flag == "unique"@ {
            match bounds {
                Some(PopularityBounds::Unique) => Err((pos, "duplicate flag u"@)),
                Some(PopularityBounds::LowHigh { .. }) => Err(
                    (pos, "unique bounds are incompatible with popularity bounds"@),
                ),
                None => phones_spec(s, k, pm, Some(PopularityBounds::Unique), lag + 1),
            }
        } else if flag == "l"@ || flag == "low"@ || flag == "h"@ || flag == "high"@ {
            let m = space_end(s, k);
            let n = word_end(s, m);
            let vpos = read_pos(s, m, lag + 1);
            proof {
                lemma_space_end(s, k);
                lemma_word_end(s, m);
            }
            let is_low = flag == "l"@ || flag == "low"@;
            match usize_from_str(token(s, m)) {
                None => Err((vpos, "expected number"@)),
                Some(value) => match bounds {
                    Some(PopularityBounds::Unique) => Err(
                        (vpos, "popularity bounds are incompatible with unique bounds"@),
                    ),
                    Some(PopularityBounds::LowHigh { low, high }) => if is_low {
                        if low is Some {
                            Err((vpos, "low popularity bound already defined"@))
                        } else {
                            phones_spec(s, n, pm, Some(PopularityBounds::LowHigh { low: Some(value), high }), lag + 1)
                        }
                    } else {
                        if high is Some {
                            Err((vpos, "high popularity bound already defined"@))
                        } else {
                            phones_spec(s, n, pm, Some(PopularityBounds::LowHigh { low, high: Some(value) }), lag + 1)
                        }
                    },
                    // a first `-h` sets the low bound, as a first `-l` does
                    None => phones_spec(
                        s,
                        n,
                        pm,
                        Some(PopularityBounds::LowHigh { low: Some(value), high: None }),
                        lag + 1,
                    ),
                },
            }
        } else {
            Err((pos, "unknown flag "@ + flag))
        }
    } else {
        let k = word_end(s, j);
        let value = token(s, j);
        proof {
            lemma_word_end(s, j);
        }
        match pm {
            Some((Some(_), _)) => Err((read_pos(s, j, lag), "expected flag"@)),
            Some((None, m)) => phones_spec(s, k, Some((Some(value), m)), bounds, lag),
            None => phones_spec(s, k, Some((Some(value), MatchType::Standard)), bounds, lag),
        }
    }
}

/// The flags of `flags`, from character index `i` on.
#[allow(non_snake_case)]
pub open spec fn flags_spec(
    s: Seq<char>,
    i: int,
    ignore_terminal_Y: Option<bool>,
    ignore_H: Option<bool>,
    lag: nat,
) -> Result<CommandView, SpecError>
    decreases s.len() - i,
    when 0 <= i <= s.len()
{
    let j = space_end(s, i);
    proof {
        lemma_space_end(s, i);
    }
    if j >= s.len() {
        Ok(CommandView::Flags { ignore_terminal_Y, ignore_H })
    } else {
        let pos = read_pos(s, j, lag) + 1;
        if s[j] != '-' {
            Err((pos, "expected flag"@))
        } else {
            let flag = token(s, j + 1);
            let k = word_end(s, j + 1);
            let m = space_end(s, k);
            let n = word_end(s, m);
            proof {
                lemma_word_end(s, j + 1);
                lemma_space_end(s, k);
                lemma_word_end(s, m);
            }
            if flag == "Y"@ {
                if ignore_terminal_Y is Some {
                    Err((pos, "already seen flag Y"@))
                } else {
                    match onoff(token(s, m)) {
                        None => Err((read_pos(s, m, lag + 1), "expected on/off"@)),
                        Some(v) => flags_spec(s, n, Some(v), ignore_H, lag + 1),
                    }
                }
            } else if flag == "H"@ {
                if ignore_H is Some {
                    Err((pos, "already seen flag H"@))
                } else {
                    match onoff(token(s, m)) {
                        None => Err((read_pos(s, m, lag + 1), "expected on/off"@)),
                        Some(v) => flags_spec(s, n, ignore_terminal_Y, Some(v), lag + 1),
                    }
                }
            } else {
                Err((pos, "unknown flag "@ + flag))
            }
        }
    }
}

/// The index of the first ',' at or after `i` and before `end`, or `end`.
pub open spec fn comma_at_or_after(s: Seq<char>, i: int, end: int) -> int
    decreases end - i,
{
    if i >= end || s[i] == ',' {
        i
    } else {
        comma_at_or_after(s, i + 1, end)
    }
}

/// The kinds named by the comma-separated list in `s[i..end]`, added to
/// `acc`; a name that is not a kind is refused with the offset where it
/// starts, as the reader reports it after `lag` flags.
pub open spec fn pos_list_spec(s: Seq<char>, i: int, end: int, acc: POSTypeFlags, lag: nat) -> Result<
    POSTypeFlags,
    nat,
>
    decreases end - i,
    when 0 <= i <= end
{
    let c = comma_at_or_after(s, i, end);
    proof {
        lemma_comma(s, i, end);
    }
    match pos_type_from_name(s.subrange(i, c)) {
        None => Err(read_pos(s, i, lag)),
        Some(t) => if c >= end {
            Ok(flags_with(acc, t))
        } else {
            pos_list_spec(s, c + 1, end, flags_with(acc, t), lag)
        },
    }
}

/// The comma search stops at the first comma before `end`, or at `end`.
pub proof fn lemma_comma(s: Seq<char>, i: int, end: int)
    requires
        i <= end,
    ensures
        i <= comma_at_or_after(s, i, end) <= end,
        forall|k: int| i <= k < comma_at_or_after(s, i, end) ==> #[trigger] s[k] != ',',
        comma_at_or_after(s, i, end) < end ==> s[comma_at_or_after(s, i, end)] == ',',
    decreases end - i,
{
    if i < end && s[i] != ',' {
        lemma_comma(s, i + 1, end);
    }
}

/// What `word` has read so far.
pub struct WordState {
    pub word: Option<Seq<char>>,
    pub match_type: MatchType,
    pub pos_guards: Option<POSTypeFlags>,
    pub edit: bool,
}

/// The end of `word`: the word itself must be there.
pub open spec fn word_finish(s: Seq<char>, st: WordState, lag: nat) -> Result<CommandView, SpecError> {
    match st.word {
        None => Err((read_pos(s, s.len() as int, lag), "expected word argument"@)),
        Some(w) => Ok(
            CommandView::Word {
                word: w,
                match_type: st.match_type,
                pos_guards: match st.pos_guards {
                    Some(f) => f,
                    None => flags_every(),
                },
                edit: st.edit,
            },
        ),
    }
}

/// The flags and word of `word`, from character index `i` on.
pub open spec fn word_spec(s: Seq<char>, i: int, st: WordState, lag: nat) -> Result<CommandView, SpecError>
    decreases s.len() - i,
    when 0 <= i <= s.len()
{
    let j = space_end(s, i);
    proof {
        lemma_space_end(s, i);
    }
    if j >= s.len() {
        word_finish(s, st, lag)
    } else if s[j] == '-' {
        let pos = read_pos(s, j, lag) + 1;
        let flag = token(s, j + 1);
        let k = word_end(s, j + 1);
        proof {
            lemma_word_end(s, j + 1);
        }
        if flag == "p"@ || flag == "pos"@ {
            if st.pos_guards is Some {
                Err((pos, "pos guards already set"@))
            } else {
                let m = space_end(s, k);
                let n = word_end(s, m);
                proof {
                    lemma_space_end(s, k);
                    lemma_word_end(s, m);
                }
                match pos_list_spec(s, m, n, flags_none(), lag + 1) {
                    Err(p) => Err((p, "expected valid POS specifier"@)),
                    Ok(f) => word_spec(s, n, WordState { pos_guards: Some(f), ..st }, lag + 1),
                }
            }
        } else if flag == "f"@ || flag == "fuzzy"@ {
            if st.match_type != MatchType::Standard {
                Err((pos, "match type already set"@))
            } else {
                word_spec(s, k, WordState { match_type: MatchType::Fuzzy, ..st }, lag + 1)
            }
        } else if flag == "r"@ || flag == "regex"@ {
            if st.match_type != MatchType::Standard {
                Err((pos, "match type already set"@))
            } else {
                word_spec(s, k, WordState { match_type: MatchType::Regex, ..st }, lag + 1)
            }
        } else if flag == "e"@ || flag == "edit"@ {
            if st.edit {
                Err((pos, "duplicate edit flag"@))
            } else {
                word_spec(s, k, WordState { edit: true, ..st }, lag + 1)
            }
        } else {
            Err((pos, "unknown flag "@ + flag))
        }
    } else {
        let k = word_end(s, j);
        let proposed = token(s, j);
        proof {
            lemma_word_end(s, j);
        }
        if st.word is Some {
            Err((read_pos(s, j, lag), "unexpected argument "@ + proposed))
        } else {
            word_spec(s, k, WordState { word: Some(proposed), ..st }, lag)
        }
    }
}

/// Byte offsets at character places of `s` lie within it, and one past a
/// character still does.
proof fn lemma_bpos_within(s: Seq<char>, j: int)
    requires
        0 <= j <= s.len(),
    ensures
        bpos(s, j) <= byte_len(s),
        j < s.len() ==> bpos(s, j) + 1 <= byte_len(s),
{
    lemma_byte_len_prefix(s, j, s.len() as int);
    assert(s.take(s.len() as int) =~= s);
    if j < s.len() {
        assert(s.take(j + 1) =~= s.take(j).push(s[j]));
        lemma_byte_len_push(s.take(j), s[j]);
        lemma_byte_len_prefix(s, j + 1, s.len() as int);
    }
}

proof fn lemma_phones_error_within(
    s: Seq<char>,
    i: int,
    pm: PhoneMatching,
    bounds: Option<PopularityBounds>,
    lag: nat,
)
    requires
        0 <= i <= s.len(),
    ensures
        phones_spec(s, i, pm, bounds, lag) matches Err((p, _)) ==> p <= byte_len(s),
    decreases s.len() - i,
{
    let j = space_end(s, i);
    lemma_space_end(s, i);
    lemma_bpos_within(s, s.len() as int);
    if j < s.len() {
        lemma_bpos_within(s, j);
        if s[j] == '-' {
            let k = word_end(s, j + 1);
            lemma_word_end(s, j + 1);
            let m = space_end(s, k);
            lemma_space_end(s, k);
            let n = word_end(s, m);
            lemma_word_end(s, m);
            lemma_bpos_within(s, m);
            lemma_phones_error_within(s, k, pm, bounds, lag + 1);
            lemma_phones_error_within(s, k, Some((None, MatchType::Fuzzy)), bounds, lag + 1);
            lemma_phones_error_within(s, k, Some((None, MatchType::Regex)), bounds, lag + 1);
            if let Some((p, _)) = pm {
                lemma_phones_error_within(s, k, Some((p, MatchType::Fuzzy)), bounds, lag + 1);
                lemma_phones_error_within(s, k, Some((p, MatchType::Regex)), bounds, lag + 1);
            }
            lemma_phones_error_within(s, k, pm, Some(PopularityBounds::Unique), lag + 1);
            if let Some(value) = usize_from_str(token(s, m)) {
                lemma_phones_error_within(s, n, pm, Some(PopularityBounds::LowHigh { low: Some(value), high: None }), lag + 1);
                if let Some(PopularityBounds::LowHigh { low, high }) = bounds {
                    lemma_phones_error_within(s, n, pm, Some(PopularityBounds::LowHigh { low: Some(value), high }), lag + 1);
                    lemma_phones_error_within(s, n, pm, Some(PopularityBounds::LowHigh { low, high: Some(value) }), lag + 1);
                }
            }
        } else {
            let k = word_end(s, j);
            lemma_word_end(s, j);
            let value = token(s, j);
            lemma_phones_error_within(s, k, Some((Some(value), MatchType::Standard)), bounds, lag);
            if let Some((None, m)) = pm {
                lemma_phones_error_within(s, k, Some((Some(value), m)), bounds, lag);
            }
        }
    }
}

proof fn lemma_flags_error_within(s: Seq<char>, i: int, y: Option<bool>, h: Option<bool>, lag: nat)
    requires
        0 <= i <= s.len(),
    ensures
        flags_spec(s, i, y, h, lag) matches Err((p, _)) ==> p <= byte_len(s),
    decreases s.len() - i,
{
    let j = space_end(s, i);
    lemma_space_end(s, i);
    if j < s.len() {
        lemma_bpos_within(s, j);
        if s[j] == '-' {
            let k = word_end(s, j + 1);
            lemma_word_end(s, j + 1);
            let m = space_end(s, k);
            lemma_space_end(s, k);
            let n = word_end(s, m);
            lemma_word_end(s, m);
            lemma_bpos_within(s, m);
            if let Some(v) = onoff(token(s, m)) {
                lemma_flags_error_within(s, n, Some(v), h, lag + 1);
                lemma_flags_error_within(s, n, y, Some(v), lag + 1);
            }
        }
    }
}

proof fn lemma_pos_list_error_within(s: Seq<char>, i: int, end: int, acc: POSTypeFlags, lag: nat)
    requires
        0 <= i <= end <= s.len(),
    ensures
        pos_list_spec(s, i, end, acc, lag) matches Err(p) ==> p <= byte_len(s),
    decreases end - i,
{
    let c = comma_at_or_after(s, i, end);
    lemma_comma(s, i, end);
    lemma_bpos_within(s, i);
    if let Some(t) = pos_type_from_name(s.subrange(i, c)) {
        if c < end {
            lemma_pos_list_error_within(s, c + 1, end, flags_with(acc, t), lag);
        }
    }
}

proof fn lemma_word_error_within(s: Seq<char>, i: int, st: WordState, lag: nat)
    requires
        0 <= i <= s.len(),
    ensures
        word_spec(s, i, st, lag) matches Err((p, _)) ==> p <= byte_len(s),
    decreases s.len() - i,
{
    let j = space_end(s, i);
    lemma_space_end(s, i);
    lemma_bpos_within(s, s.len() as int);
    if j < s.len() {
        lemma_bpos_within(s, j);
        if s[j] == '-' {
            let k = word_end(s, j + 1);
            lemma_word_end(s, j + 1);
            let m = space_end(s, k);
            lemma_space_end(s, k);
            let n = word_end(s, m);
            lemma_word_end(s, m);
            lemma_pos_list_error_within(s, m, n, flags_none(), lag + 1);
            if let Ok(f) = pos_list_spec(s, m, n, flags_none(), lag + 1) {
                lemma_word_error_within(s, n, WordState { pos_guards: Some(f), ..st }, lag + 1);
            }
            lemma_word_error_within(s, k, WordState { match_type: MatchType::Fuzzy, ..st }, lag + 1);
            lemma_word_error_within(s, k, WordState { match_type: MatchType::Regex, ..st }, lag + 1);
            lemma_word_error_within(s, k, WordState { edit: true, ..st }, lag + 1);
        } else {
            let k = word_end(s, j);
            lemma_word_end(s, j);
            lemma_word_error_within(s, k, WordState { word: Some(token(s, j)), ..st }, lag);
        }
    }
}

/// Every refusal points into the command line or just past its end: its
/// offset is at most the length of the line in bytes.
pub proof fn lemma_parse_error_within(s: Seq<char>)
    ensures
        parse_spec(s) matches Err((p, _)) ==> p <= byte_len(s),
{
    let e = word_end(s, 0);
    lemma_word_end(s, 0);
    lemma_bpos_within(s, e);
    lemma_phones_error_within(s, e, None, None, 0);
    lemma_flags_error_within(s, e, None, None, 0);
    lemma_word_error_within(
        s,
        e,
        WordState { word: None, match_type: MatchType::Standard, pos_guards: None, edit: false },
        0,
    );
    let j = space_end(s, e);
    lemma_space_end(s, e);
    lemma_bpos_within(s, j);
    let k = word_end(s, j);
    lemma_word_end(s, j);
    let m = space_end(s, k);
    lemma_space_end(s, k);
    lemma_bpos_within(s, m);
    let n = word_end(s, m);
    lemma_word_end(s, m);
    lemma_bpos_within(s, n);
}

/// A token that runs from `i` to `j` ends at `j`.
proof fn lemma_word_end_at(s: Seq<char>, i: int, j: int)
    requires
        0 <= i <= j <= s.len(),
        forall|k: int| i <= k < j ==> !is_ws(#[trigger] s[k]),
        j == s.len() || is_ws(s[j]),
    ensures
        word_end(s, i) == j,
    decreases j - i,
{
    if i < j {
        lemma_word_end_at(s, i + 1, j);
    }
}

/// Whitespace that runs from `i` to `j` ends at `j`.
proof fn lemma_space_end_at(s: Seq<char>, i: int, j: int)
    requires
        0 <= i <= j <= s.len(),
        forall|k: int| i <= k < j ==> is_ws(#[trigger] s[k]),
        j == s.len() || !is_ws(s[j]),
    ensures
        space_end(s, i) == j,
    decreases j - i,
{
    if i < j {
        lemma_space_end_at(s, i + 1, j);
    }
}

/// What a match-type or edit flag asks of the word command, as a command:
/// "-r" or "-regex" asks for a regular expression, "-f" or "-fuzzy" for a
/// fuzzy match, "-e" or "-edit" to edit the word.
pub open spec fn word_flag_command(w: Seq<char>, flag: Seq<char>) -> CommandView {
    CommandView::Word {
        word: w,
        match_type: if flag == seq!['r'] || flag == seq!['r', 'e', 'g', 'e', 'x'] {
            MatchType::Regex
        } else if flag == seq!['f'] || flag == seq!['f', 'u', 'z', 'z', 'y'] {
            MatchType::Fuzzy
        } else {
            MatchType::Standard
        },
        pos_guards: flags_every(),
        edit: flag == seq!['e'] || flag == seq!['e', 'd', 'i', 't'],
    }
}

/// A line that starts with "word " is read as the word command.
proof fn lemma_parse_word_command(s: Seq<char>)
    requires
        s.len() >= 5,
        s[0] == 'w' && s[1] == 'o' && s[2] == 'r' && s[3] == 'd' && s[4] == ' ',
    ensures
        parse_spec(s) == word_spec(
            s,
            4,
            WordState { word: None, match_type: MatchType::Standard, pos_guards: None, edit: false },
            0,
        ),
{
    assert(forall|k: int| 0 <= k < 4 ==> !is_ws(#[trigger] s[k]));
    lemma_word_end_at(s, 0, 4);
    reveal_strlit("word");
    assert(token(s, 0) =~= "word"@);
    reveal_strlit("dump");
    reveal_strlit("phones");
    reveal_strlit("choice");
    reveal_strlit("search");
    reveal_strlit("flags");
}

/// The names of the flags of the word command, character by character.
proof fn lemma_word_flag_names()
    ensures
        "p"@ == seq!['p'],
        "pos"@ == seq!['p', 'o', 's'],
        "f"@ == seq!['f'],
        "fuzzy"@ == seq!['f', 'u', 'z', 'z', 'y'],
        "r"@ == seq!['r'],
        "regex"@ == seq!['r', 'e', 'g', 'e', 'x'],
        "e"@ == seq!['e'],
        "edit"@ == seq!['e', 'd', 'i', 't'],
        "p"@.len() == 1 && "p"@[0] == 'p',
        "pos"@.len() == 3 && "pos"@[0] == 'p',
        "f"@.len() == 1 && "f"@[0] == 'f',
        "fuzzy"@.len() == 5 && "fuzzy"@[0] == 'f',
        "r"@.len() == 1 && "r"@[0] == 'r',
        "regex"@.len() == 5 && "regex"@[0] == 'r',
        "e"@.len() == 1 && "e"@[0] == 'e',
        "edit"@.len() == 4 && "edit"@[0] == 'e',
{
    reveal_strlit("p");
    reveal_strlit("pos");
    reveal_strlit("f");
    reveal_strlit("fuzzy");
    reveal_strlit("r");
    reveal_strlit("regex");
    reveal_strlit("e");
    reveal_strlit("edit");
    assert("p"@ =~= seq!['p']);
    assert("pos"@ =~= seq!['p', 'o', 's']);
    assert("f"@ =~= seq!['f']);
    assert("fuzzy"@ =~= seq!['f', 'u', 'z', 'z', 'y']);
    assert("r"@ =~= seq!['r']);
    assert("regex"@ =~= seq!['r', 'e', 'g', 'e', 'x']);
    assert("e"@ =~= seq!['e']);
    assert("edit"@ =~= seq!['e', 'd', 'i', 't']);
}

/// Reading a flag of the word command that sets the match type or the edit
/// mark, at the end of the line, finishes the command.
proof fn lemma_word_last_flag(s: Seq<char>, a: int, flag: Seq<char>, w: Seq<char>)
    requires
        0 <= a,
        a + 2 + flag.len() == s.len(),
        s[a] == ' ' && s[a + 1] == '-',
        forall|k: int| 0 <= k < flag.len() ==> s[a + 2 + k] == flag[k],
        flag == seq!['r'] || flag == seq!['r', 'e', 'g', 'e', 'x'] || flag == seq!['f'] || flag == seq![
            'f',
            'u',
            'z',
            'z',
            'y',
        ] || flag == seq!['e'] || flag == seq!['e', 'd', 'i', 't'],
    ensures
        word_spec(
            s,
            a,
            WordState { word: Some(w), match_type: MatchType::Standard, pos_guards: None, edit: false },
            0,
        ) == Ok::<CommandView, SpecError>(word_flag_command(w, flag)),
{
    let n = s.len() as int;
    assert(forall|k: int| 0 <= k < flag.len() ==> !is_ws(#[trigger] flag[k]));
    assert(forall|k: int| a + 2 <= k < n ==> !is_ws(#[trigger] s[k])) by {
        assert forall|k: int| a + 2 <= k < n implies !is_ws(#[trigger] s[k]) by {
            assert(s[a + 2 + (k - a - 2)] == flag[k - a - 2]);
        }
    }
    lemma_space_end_at(s, a, a + 1);
    lemma_word_end_at(s, a + 2, n);
    assert(s.subrange(a + 2, n) =~= flag);
    lemma_space_end_at(s, n, n);
    lemma_word_flag_names();
    assert(token(s, a + 2) == flag);
    assert(flag.len() >= 1);
    assert(flag[0] == 'r' || flag[0] == 'f' || flag[0] == 'e');
    let st1 = WordState { word: Some(w), match_type: MatchType::Standard, pos_guards: None, edit: false };
    let st2 = if flag == seq!['r'] || flag == seq!['r', 'e', 'g', 'e', 'x'] {
        WordState { match_type: MatchType::Regex, ..st1 }
    } else if flag == seq!['f'] || flag == seq!['f', 'u', 'z', 'z', 'y'] {
        WordState { match_type: MatchType::Fuzzy, ..st1 }
    } else {
        WordState { edit: true, ..st1 }
    };
    assert(word_spec(s, n, st2, 1) == word_finish(s, st2, 1));
    assert(word_spec(s, a, st1, 0) == word_spec(s, n, st2, 1));
}

/// The word command with a word and one flag after it, "word W -F": the
/// word is W, and the flag sets the match type or the edit mark as
/// `word_flag_command` says; every kind of part of speech is let through.
pub proof fn lemma_word_then_flag(w: Seq<char>, flag: Seq<char>)
    requires
        w.len() > 0,
        w[0] != '-',
        forall|k: int| 0 <= k < w.len() ==> !is_ws(#[trigger] w[k]),
        flag == seq!['r'] || flag == seq!['r', 'e', 'g', 'e', 'x'] || flag == seq!['f'] || flag == seq![
            'f',
            'u',
            'z',
            'z',
            'y',
        ] || flag == seq!['e'] || flag == seq!['e', 'd', 'i', 't'],
    ensures
        parse_spec(seq!['w', 'o', 'r', 'd', ' '] + w + seq![' ', '-'] + flag) == Ok::<CommandView, SpecError>(
            word_flag_command(w, flag),
        ),
{
    let s = seq!['w', 'o', 'r', 'd', ' '] + w + seq![' ', '-'] + flag;
    let a = w.len() + 5int;
    assert(forall|k: int| 0 <= k < w.len() ==> s[5 + k] == w[k]);
    assert(forall|k: int| 0 <= k < flag.len() ==> s[a + 2 + k] == flag[k]);
    assert(s[4] == ' ' && s[a] == ' ' && s[a + 1] == '-');
    lemma_parse_word_command(s);
    assert(forall|k: int| 5 <= k < a ==> !is_ws(#[trigger] s[k])) by {
        assert forall|k: int| 5 <= k < a implies !is_ws(#[trigger] s[k]) by {
            assert(s[5 + (k - 5)] == w[k - 5]);
        }
    }
    lemma_space_end_at(s, 4, 5);
    lemma_word_end_at(s, 5, a);
    assert(s.subrange(5, a) =~= w);
    let st0 = WordState { word: None, match_type: MatchType::Standard, pos_guards: None, edit: false };
    let st1 = WordState { word: Some(w), ..st0 };
    assert(word_spec(s, 4, st0, 0) == word_spec(s, a, st1, 0));
    lemma_word_last_flag(s, a, flag, w);
}

/// The word command with one flag and then a word, "word -F W": the same
/// command as "word W -F" (see `word_flag_command`).
pub proof fn lemma_flag_then_word(flag: Seq<char>, w: Seq<char>)
    requires
        w.len() > 0,
        w[0] != '-',
        forall|k: int| 0 <= k < w.len() ==> !is_ws(#[trigger] w[k]),
        flag == seq!['r'] || flag == seq!['r', 'e', 'g', 'e', 'x'] || flag == seq!['f'] || flag == seq![
            'f',
            'u',
            'z',
            'z',
            'y',
        ] || flag == seq!['e'] || flag == seq!['e', 'd', 'i', 't'],
    ensures
        parse_spec(seq!['w', 'o', 'r', 'd', ' ', '-'] + flag + seq![' '] + w) == Ok::<CommandView, SpecError>(
            word_flag_command(w, flag),
        ),
{
    let s = seq!['w', 'o', 'r', 'd', ' ', '-'] + flag + seq![' '] + w;
    let k = flag.len() + 6int;
    let n = s.len() as int;
    assert(forall|i: int| 0 <= i < flag.len() ==> s[6 + i] == flag[i]);
    assert(forall|i: int| 0 <= i < w.len() ==> s[k + 1 + i] == w[i]);
    assert(s[4] == ' ' && s[5] == '-' && s[k] == ' ');
    lemma_parse_word_command(s);
    assert(forall|i: int| 0 <= i < flag.len() ==> !is_ws(#[trigger] flag[i]));
    assert(forall|i: int| 6 <= i < k ==> !is_ws(#[trigger] s[i])) by {
        assert forall|i: int| 6 <= i < k implies !is_ws(#[trigger] s[i]) by {
            assert(s[6 + (i - 6)] == flag[i - 6]);
        }
    }
    assert(forall|i: int| k + 1 <= i < n ==> !is_ws(#[trigger] s[i])) by {
        assert forall|i: int| k + 1 <= i < n implies !is_ws(#[trigger] s[i]) by {
            assert(s[k + 1 + (i - k - 1)] == w[i - k - 1]);
        }
    }
    lemma_space_end_at(s, 4, 5);
    lemma_word_end_at(s, 6, k);
    assert(s.subrange(6, k) =~= flag);
    lemma_space_end_at(s, k, k + 1);
    lemma_word_end_at(s, k + 1, n);
    assert(s.subrange(k + 1, n) =~= w);
    lemma_space_end_at(s, n, n);
    lemma_word_flag_names();
    assert(flag.len() >= 1);
    assert(flag[0] == 'r' || flag[0] == 'f' || flag[0] == 'e');
    let st0 = WordState { word: None, match_type: MatchType::Standard, pos_guards: None, edit: false };
    let st2 = if flag == seq!['r'] || flag == seq!['r', 'e', 'g', 'e', 'x'] {
        WordState { match_type: MatchType::Regex, ..st0 }
    } else if flag == seq!['f'] || flag == seq!['f', 'u', 'z', 'z', 'y'] {
        WordState { match_type: MatchType::Fuzzy, ..st0 }
    } else {
        WordState { edit: true, ..st0 }
    };
    let st3 = WordState { word: Some(w), ..st2 };
    assert(word_spec(s, n, st3, 1) == word_finish(s, st3, 1));
    assert(word_spec(s, k, st2, 1) == word_spec(s, n, st3, 1));
    assert(word_spec(s, 4, st0, 0) == word_spec(s, k, st2, 1));
}

/// A line that starts with "phones " is read as the phones command.
proof fn lemma_parse_phones_command(s: Seq<char>)
    requires
        s.len() >= 7,
        s[0] == 'p' && s[1] == 'h' && s[2] == 'o' && s[3] == 'n' && s[4] == 'e' && s[5] == 's' && s[6] == ' ',
    ensures
        parse_spec(s) == phones_spec(s, 6, None, None, 0),
{
    assert(forall|k: int| 0 <= k < 6 ==> !is_ws(#[trigger] s[k]));
    lemma_word_end_at(s, 0, 6);
    reveal_strlit("phones");
    assert(token(s, 0) =~= "phones"@);
    reveal_strlit("dump");
}

/// The names of the bound flags of the phones command, character by
/// character.
proof fn lemma_bound_flag_names()
    ensures
        "u"@.len() == 1 && "u"@[0] == 'u',
        "unique"@.len() == 6 && "unique"@[0] == 'u',
        "l"@.len() == 1 && "l"@[0] == 'l',
        "low"@.len() == 3 && "low"@[0] == 'l',
        "h"@.len() == 1 && "h"@[0] == 'h',
        "high"@.len() == 4 && "high"@[0] == 'h',
{
    reveal_strlit("u");
    reveal_strlit("unique");
    reveal_strlit("l");
    reveal_strlit("low");
    reveal_strlit("h");
    reveal_strlit("high");
}

/// The phones command with a match-type flag and then a pattern, "phones
/// -F P": "-r" or "-regex" looks the pattern up as a regular expression and
/// "-f" or "-fuzzy" as a fuzzy match, with no popularity bounds.
pub proof fn lemma_phones_flag_then_pattern(flag: Seq<char>, p: Seq<char>)
    requires
        p.len() > 0,
        p[0] != '-',
        forall|k: int| 0 <= k < p.len() ==> !is_ws(#[trigger] p[k]),
        flag == seq!['r'] || flag == seq!['r', 'e', 'g', 'e', 'x'] || flag == seq!['f'] || flag == seq![
            'f',
            'u',
            'z',
            'z',
            'y',
        ],
    ensures
        parse_spec(seq!['p', 'h', 'o', 'n', 'e', 's', ' ', '-'] + flag + seq![' '] + p) == Ok::<
            CommandView,
            SpecError,
        >(
            CommandView::Phone {
                phone_matching: Some(
                    (
                        p,
                        if flag == seq!['r'] || flag == seq!['r', 'e', 'g', 'e', 'x'] {
                            MatchType::Regex
                        } else {
                            MatchType::Fuzzy
                        },
                    ),
                ),
                bounds: None,
            },
        ),
{
    let s = seq!['p', 'h', 'o', 'n', 'e', 's', ' ', '-'] + flag + seq![' '] + p;
    let k = flag.len() + 8int;
    let n = s.len() as int;
    assert(forall|i: int| 0 <= i < flag.len() ==> s[8 + i] == flag[i]);
    assert(forall|i: int| 0 <= i < p.len() ==> s[k + 1 + i] == p[i]);
    assert(s[6] == ' ' && s[7] == '-' && s[k] == ' ');
    lemma_parse_phones_command(s);
    assert(forall|i: int| 0 <= i < flag.len() ==> !is_ws(#[trigger] flag[i]));
    assert(forall|i: int| 8 <= i < k ==> !is_ws(#[trigger] s[i])) by {
        assert forall|i: int| 8 <= i < k implies !is_ws(#[trigger] s[i]) by {
            assert(s[8 + (i - 8)] == flag[i - 8]);
        }
    }
    assert(forall|i: int| k + 1 <= i < n ==> !is_ws(#[trigger] s[i])) by {
        assert forall|i: int| k + 1 <= i < n implies !is_ws(#[trigger] s[i]) by {
            assert(s[k + 1 + (i - k - 1)] == p[i - k - 1]);
        }
    }
    lemma_space_end_at(s, 6, 7);
    lemma_word_end_at(s, 8, k);
    assert(s.subrange(8, k) =~= flag);
    lemma_space_end_at(s, k, k + 1);
    lemma_word_end_at(s, k + 1, n);
    assert(s.subrange(k + 1, n) =~= p);
    lemma_space_end_at(s, n, n);
    lemma_word_flag_names();
    lemma_bound_flag_names();
    assert(flag.len() >= 1);
    assert(flag[0] == 'r' || flag[0] == 'f');
    let m = if flag == seq!['r'] || flag == seq!['r', 'e', 'g', 'e', 'x'] {
        MatchType::Regex
    } else {
        MatchType::Fuzzy
    };
    let pm1: PhoneMatching = Some((None, m));
    let pm2: PhoneMatching = Some((Some(p), m));
    assert(phones_spec(s, n, pm2, None, 1) == phones_finish(s, pm2, None, 1));
    assert(phones_spec(s, k, pm1, None, 1) == phones_spec(s, n, pm2, None, 1));
    assert(phones_spec(s, 6, None, None, 0) == phones_spec(s, k, pm1, None, 1));
}

/// The flags command with one setting, "flags -Y V" or "flags -H V": "on"
/// turns the setting on and "off" off; the other setting is left unset.
pub proof fn lemma_flags_one_setting(is_y: bool, on: bool)
    ensures
        ({
            let line = seq!['f', 'l', 'a', 'g', 's', ' ', '-', if is_y { 'Y' } else { 'H' }, ' '] + (if on {
                seq!['o', 'n']
            } else {
                seq!['o', 'f', 'f']
            });
            parse_spec(line) == Ok::<CommandView, SpecError>(
                if is_y {
                    CommandView::Flags { ignore_terminal_Y: Some(on), ignore_H: None }
                } else {
                    CommandView::Flags { ignore_terminal_Y: None, ignore_H: Some(on) }
                },
            )
        }),
{
    let v = if on {
        seq!['o', 'n']
    } else {
        seq!['o', 'f', 'f']
    };
    let c = if is_y { 'Y' } else { 'H' };
    let s = seq!['f', 'l', 'a', 'g', 's', ' ', '-', c, ' '] + v;
    let n = s.len() as int;
    assert(forall|k: int| 0 <= k < 5 ==> !is_ws(#[trigger] s[k]));
    lemma_word_end_at(s, 0, 5);
    reveal_strlit("flags");
    reveal_strlit("dump");
    reveal_strlit("phones");
    reveal_strlit("choice");
    reveal_strlit("search");
    assert(token(s, 0) =~= "flags"@);
    lemma_space_end_at(s, 5, 6);
    lemma_word_end_at(s, 7, 8);
    assert(s.subrange(7, 8) =~= seq![c]);
    lemma_space_end_at(s, 8, 9);
    assert(forall|k: int| 9 <= k < n ==> !is_ws(#[trigger] s[k]));
    lemma_word_end_at(s, 9, n);
    assert(s.subrange(9, n) =~= v);
    lemma_space_end_at(s, n, n);
    reveal_strlit("Y");
    reveal_strlit("H");
    reveal_strlit("on");
    reveal_strlit("off");
    assert("Y"@ =~= seq!['Y']);
    assert("H"@ =~= seq!['H']);
    assert("on"@ =~= seq!['o', 'n']);
    assert("off"@ =~= seq!['o', 'f', 'f']);
    assert(onoff(v) == Some(on));
    let y1 = if is_y { Some(on) } else { None };
    let h1 = if is_y { None } else { Some(on) };
    assert(flags_spec(s, n, y1, h1, 1) == Ok::<CommandView, SpecError>(
        CommandView::Flags { ignore_terminal_Y: y1, ignore_H: h1 },
    ));
    assert(token(s, 7) == seq![c]);
    assert(seq![c][0] == c && seq!['Y'][0] == 'Y');
    assert(token(s, 9) == v);
    assert(flags_spec(s, 5, None, None, 0) == flags_spec(s, n, y1, h1, 1));
}

/// What a command line means: the command it names, or where and why it is
/// refused.
pub open spec fn parse_spec(s: Seq<char>) -> Result<CommandView, SpecError> {
    let e = word_end(s, 0);
    let cmd = token(s, 0);
    if cmd == "dump"@ {
        end_spec(s, e, CommandView::Dump)
    } else if cmd == "phones"@ {
        phones_spec(s, e, None, None, 0)
    } else if cmd == "choice"@ {
        end_spec(s, e, CommandView::Choose)
    } else if cmd == "search"@ {
        search_spec(s, e)
    } else if cmd == "flags"@ {
        flags_spec(s, e, None, None, 0)
    } else if cmd == "word"@ {
        word_spec(
            s,
            e,
            WordState { word: None, match_type: MatchType::Standard, pos_guards: None, edit: false },
            0,
        )
    } else if cmd == "new"@ {
        end_spec(s, e, CommandView::New)
    } else if cmd == "q"@ || cmd == "quit"@ {
        end_spec(s, e, CommandView::Quit)
    } else if cmd == "update"@ {
        update_spec(s, e)
    } else {
        Err((0, "unknown command "@ + cmd))
    }
}

/// Whether an outcome of `parse` is the one that `parse_spec` describes for
/// the input `inp`.
pub open spec fn parsed_as(
    r: Result<Commands, ParseError>,
    inp: Seq<char>,
    expected: Result<CommandView, SpecError>,
) -> bool {
    match (r, expected) {
        (Ok(c), Ok(v)) => c@ == v,
        (Err(e), Err((p, m))) => e.spec_pos() == p && e.spec_message() == m && e.spec_input() == inp,
        _ => false,
    }
}

// ----- reading commands -----

/// A refusal at `pos` with the message `msg`.
fn fail(pos: usize, inp: &str, msg: &str) -> (e: ParseError)
    ensures
        e.spec_pos() == pos,
        e.spec_input() == inp@,
        e.spec_message() == msg@,
{
    let mut error = String::new();
    push_str(&mut error, msg);
    let mut input = String::new();
    push_str(&mut input, inp);
    ParseError { pos, inp: input, error }
}

/// A refusal at `pos` with the message `msg` followed by `what`.
fn fail_with(pos: usize, inp: &str, msg: &str, what: &[char]) -> (e: ParseError)
    ensures
        e.spec_pos() == pos,
        e.spec_input() == inp@,
        e.spec_message() == msg@ + what@,
{
    let mut error = String::new();
    push_str(&mut error, msg);
    let rest = string_of(what);
    push_str(&mut error, rest.as_str());
    let mut input = String::new();
    push_str(&mut input, inp);
    ParseError { pos, inp: input, error }
}

/// The pattern and match type read so far by `phones`, as a spec value.
pub open spec fn pm_view(pm: Option<(Option<Vec<char>>, MatchType)>) -> PhoneMatching {
    match pm {
        Some((Some(v), m)) => Some((Some(v@), m)),
        Some((None, m)) => Some((None, m)),
        None => None,
    }
}

/// Reads the flags and pattern of `phones`.
fn parse_phones(p: &mut ParsingIter, inp: &str) -> (r: Result<Commands, ParseError>)
    requires
        old(p).wf(),
        old(p).s() == inp@,
    ensures
        parsed_as(r, inp@, phones_spec(inp@, old(p).at(), None, None, old(p).lag())),
{
    let ghost s = inp@;
    let ghost target = phones_spec(s, p.at(), None, None, p.lag());
    let mut phone_matching: Option<(Option<Vec<char>>, MatchType)> = None;
    let mut bounds: Option<PopularityBounds> = None;
    loop
        invariant
            p.wf(),
            p.s() == s,
            s == inp@,
            0 <= p.at() <= s.len(),
            phones_spec(s, p.at(), pm_view(phone_matching), bounds, p.lag()) == target,
            target == phones_spec(inp@, old(p).at(), None, None, old(p).lag()),
        decreases s.len() - p.at(),
    {
        let ghost i = p.at();
        p.skip_space();
        proof {
            lemma_space_end(s, i);
        }
        if p.is_empty() {
            return match phone_matching {
                Some((Some(phone), match_type)) => Ok(
                    Commands::Phone {
                        phone_matching: Some((string_of(&phone), match_type)),
                        bounds,
                    },
                ),
                Some((None, _)) => Err(fail(p.get_pos(), inp, "expected phone pattern")),
                None => Ok(Commands::Phone { phone_matching: None, bounds }),
            };
        }
        let ghost j = p.at();
        let (pos, flag) = p.read_flag();
        proof {
            lemma_word_end(s, j + 1);
        }
        if let Some(flag) = flag {
            if chars_eq_str(&flag, "f") || chars_eq_str(&flag, "fuzzy") {
                match phone_matching {
                    Some((pattern, MatchType::Standard)) => {
                        phone_matching = Some((pattern, MatchType::Fuzzy));
                    },
                    None => {
                        phone_matching = Some((None, MatchType::Fuzzy));
                    },
                    _ => {
                        return Err(fail(pos, inp, "match type already set"));
                    },
                }
            } else if chars_eq_str(&flag, "r") || chars_eq_str(&flag, "regex") {
                match phone_matching {
                    Some((pattern, MatchType::Standard)) => {
                        phone_matching = Some((pattern, MatchType::Regex));
                    },
                    None => {
                        phone_matching = Some((None, MatchType::Regex));
                    },
                    _ => {
                        return Err(fail(pos, inp, "match type already set"));
                    },
                }
            } else if chars_eq_str(&flag, "u") || chars_eq_str(&flag, "unique") {
                match bounds {
                    Some(PopularityBounds::Unique) => {
                        return Err(fail(pos, inp, "duplicate flag u"));
                    },
                    Some(PopularityBounds::LowHigh { .. }) => {
                        return Err(
                            fail(pos, inp, "unique bounds are incompatible with popularity bounds"),
                        );
                    },
                    None => {
                        bounds = Some(PopularityBounds::Unique);
                    },
                }
            } else if chars_eq_str(&flag, "l") || chars_eq_str(&flag, "low") || chars_eq_str(
                &flag,
                "h",
            ) || chars_eq_str(&flag, "high") {
                let is_low = chars_eq_str(&flag, "l") || chars_eq_str(&flag, "low");
                let ghost k = p.at();
                p.skip_space();
                proof {
                    lemma_space_end(s, k);
                    lemma_word_end(s, p.at());
                }
                let (vpos, value) = p.read_until_space();
                let value = match parse_usize(&value) {
                    Some(v) => v,
                    None => {
                        return Err(fail(vpos, inp, "expected number"));
                    },
                };
                match bounds {
                    Some(PopularityBounds::Unique) => {
                        return Err(
                            fail(vpos, inp, "popularity bounds are incompatible with unique bounds"),
                        );
                    },
                    Some(PopularityBounds::LowHigh { low, high }) => {
                        if is_low {
                            if low.is_some() {
                                return Err(fail(vpos, inp, "low popularity bound already defined"));
                            }
                            bounds = Some(PopularityBounds::LowHigh { low: Some(value), high });
                        } else {
                            if high.is_some() {
                                return Err(
                                    fail(vpos, inp, "high popularity bound already defined"),
                                );
                            }
                            bounds = Some(PopularityBounds::LowHigh { low, high: Some(value) });
                        }
                    },
                    None => {
                        bounds = Some(PopularityBounds::LowHigh { low: Some(value), high: None });
                    },
                }
            } else {
                return Err(fail_with(pos, inp, "unknown flag ", &flag));
            }
        } else {
            let (vpos, value) = p.read_until_space();
            proof {
                lemma_word_end(s, j);
            }
            phone_matching = match phone_matching {
                Some((Some(_), _)) => {
                    return Err(fail(vpos, inp, "expected flag"));
                },
                Some((None, match_type)) => Some((Some(value), match_type)),
                None => Some((Some(value), MatchType::Standard)),
            };
        }
    }
}

/// Reads the flags of `flags`.
#[allow(non_snake_case)]
fn parse_flags(p: &mut ParsingIter, inp: &str) -> (r: Result<Commands, ParseError>)
    requires
        old(p).wf(),
        old(p).s() == inp@,
    ensures
        parsed_as(r, inp@, flags_spec(inp@, old(p).at(), None, None, old(p).lag())),
{
    let ghost s = inp@;
    let ghost target = flags_spec(s, p.at(), None, None, p.lag());
    let mut ignore_terminal_Y: Option<bool> = None;
    let mut ignore_H: Option<bool> = None;
    loop
        invariant
            p.wf(),
            p.s() == s,
            s == inp@,
            0 <= p.at() <= s.len(),
            flags_spec(s, p.at(), ignore_terminal_Y, ignore_H, p.lag()) == target,
            target == flags_spec(inp@, old(p).at(), None, None, old(p).lag()),
        decreases s.len() - p.at(),
    {
        let ghost i = p.at();
        p.skip_space();
        proof {
            lemma_space_end(s, i);
        }
        if p.is_empty() {
            return Ok(Commands::Flags { ignore_terminal_Y, ignore_H });
        }
        let ghost j = p.at();
        let (pos, flag) = p.read_flag();
        let flag = match flag {
            Some(f) => f,
            None => {
                return Err(fail(pos, inp, "expected flag"));
            },
        };
        proof {
            lemma_word_end(s, j + 1);
        }
        let is_y = chars_eq_str(&flag, "Y");
        if !is_y && !chars_eq_str(&flag, "H") {
            return Err(fail_with(pos, inp, "unknown flag ", &flag));
        }
        if is_y && ignore_terminal_Y.is_some() {
            return Err(fail(pos, inp, "already seen flag Y"));
        }
        if !is_y && ignore_H.is_some() {
            return Err(fail(pos, inp, "already seen flag H"));
        }
        let ghost k = p.at();
        p.skip_space();
        proof {
            lemma_space_end(s, k);
            lemma_word_end(s, p.at());
        }
        let (vpos, val) = p.read_onoff();
        let val = match val {
            Some(v) => v,
            None => {
                return Err(fail(vpos, inp, "expected on/off"));
            },
        };
        if is_y {
            ignore_terminal_Y = Some(val);
        } else {
            ignore_H = Some(val);
        }
    }
}

/// Reads a comma-separated list of kinds held in `s[start..end]`.
fn parse_pos_list(
    chrs: &Vec<char>,
    start: usize,
    end: usize,
    start_pos: usize,
    Ghost(lag): Ghost<nat>,
) -> (r: Result<POSTypeFlags, usize>)
    requires
        start <= end <= chrs@.len(),
        lag <= bpos(chrs@, start as int),
        start_pos == read_pos(chrs@, start as int, lag),
        byte_len(chrs@) <= usize::MAX,
    ensures
        match (r, pos_list_spec(chrs@, start as int, end as int, flags_none(), lag)) {
            (Ok(f), Ok(g)) => f == g,
            (Err(p), Err(q)) => p == q,
            _ => false,
        },
{
    let ghost s = chrs@;
    let ghost target = pos_list_spec(s, start as int, end as int, flags_none(), lag);
    proof {
        lemma_byte_len_prefix(s, start as int, s.len() as int);
        assert(s.take(s.len() as int) =~= s);
    }
    let mut flags = POSTypeFlags::empty();
    let mut chunk_start: usize = start;
    let mut chunk_pos: usize = start_pos;
    loop
        invariant
            start <= chunk_start <= end <= s.len(),
            s == chrs@,
            lag <= bpos(s, chunk_start as int),
            chunk_pos + lag == bpos(s, chunk_start as int),
            byte_len(s) <= usize::MAX,
            pos_list_spec(s, chunk_start as int, end as int, flags, lag) == target,
            target == pos_list_spec(chrs@, start as int, end as int, flags_none(), lag),
        decreases end - chunk_start,
    {
        proof {
            lemma_comma(s, chunk_start as int, end as int);
        }
        let mut c: usize = chunk_start;
        let mut chunk: Vec<char> = Vec::new();
        let mut c_pos: usize = chunk_pos;
        while c < end && chrs[c] != ','
            invariant
                chunk_start <= c <= comma_at_or_after(s, chunk_start as int, end as int) <= end,
                end <= s.len(),
                s == chrs@,
                comma_at_or_after(s, c as int, end as int) == comma_at_or_after(
                    s,
                    chunk_start as int,
                    end as int,
                ),
                chunk@ == s.subrange(chunk_start as int, c as int),
                lag <= bpos(s, c as int),
                c_pos + lag == bpos(s, c as int),
                byte_len(s) <= usize::MAX,
            decreases end - c,
        {
            proof {
                let ci = c as int;
                assert(s.take(ci + 1) =~= s.take(ci).push(s[ci]));
                lemma_byte_len_push(s.take(ci), s[ci]);
                lemma_byte_len_prefix(s, ci + 1, s.len() as int);
                assert(s.take(s.len() as int) =~= s);
            }
            let ch = chrs[c];
            chunk.push(ch);
            c_pos = c_pos + utf8_width(ch);
            c = c + 1;
            proof {
                lemma_comma(s, c as int, end as int);
            }
            assert(chunk@ =~= s.subrange(chunk_start as int, c as int));
        }
        match POSType::from_chars(&chunk) {
            Err(_) => {
                return Err(chunk_pos);
            },
            Ok(ty) => {
                flags.insert(ty);
                if c >= end {
                    return Ok(flags);
                }
                proof {
                    let ci = c as int;
                    assert(s.take(ci + 1) =~= s.take(ci).push(s[ci]));
                    lemma_byte_len_push(s.take(ci), s[ci]);
                    lemma_byte_len_prefix(s, ci + 1, s.len() as int);
                    assert(s.take(s.len() as int) =~= s);
                }
                chunk_start = c + 1;
                chunk_pos = c_pos + 1;
            },
        }
    }
}

/// What `word` has read so far, as a spec value.
pub open spec fn word_state(
    word: Option<Vec<char>>,
    match_type: MatchType,
    pos_guards: Option<POSTypeFlags>,
    edit: bool,
) -> WordState {
    WordState {
        word: match word {
            Some(w) => Some(w@),
            None => None,
        },
        match_type,
        pos_guards,
        edit,
    }
}

/// Reads the flags and word of `word`.
fn parse_word(p: &mut ParsingIter, inp: &str) -> (r: Result<Commands, ParseError>)
    requires
        old(p).wf(),
        old(p).s() == inp@,
    ensures
        parsed_as(
            r,
            inp@,
            word_spec(
                inp@,
                old(p).at(),
                WordState {
                    word: None,
                    match_type: MatchType::Standard,
                    pos_guards: None,
                    edit: false,
                },
                old(p).lag(),
            ),
        ),
{
    let ghost s = inp@;
    let ghost target = word_spec(
        s,
        p.at(),
        WordState { word: None, match_type: MatchType::Standard, pos_guards: None, edit: false },
        p.lag(),
    );
    let mut word: Option<Vec<char>> = None;
    let mut match_type = MatchType::Standard;
    let mut postyflags: Option<POSTypeFlags> = None;
    let mut edit = false;
    loop
        invariant
            p.wf(),
            p.s() == s,
            s == inp@,
            0 <= p.at() <= s.len(),
            word_spec(s, p.at(), word_state(word, match_type, postyflags, edit), p.lag()) == target,
            target == word_spec(
                inp@,
                old(p).at(),
                WordState {
                    word: None,
                    match_type: MatchType::Standard,
                    pos_guards: None,
                    edit: false,
                },
                old(p).lag(),
            ),
        decreases s.len() - p.at(),
    {
        let ghost i = p.at();
        p.skip_space();
        proof {
            lemma_space_end(s, i);
        }
        if p.is_empty() {
            return match word {
                None => Err(fail(p.get_pos(), inp, "expected word argument")),
                Some(w) => Ok(
                    Commands::Word {
                        word: string_of(&w),
                        match_type,
                        pos_guards: match postyflags {
                            Some(f) => f,
                            None => POSTypeFlags::all(),
                        },
                        edit,
                    },
                ),
            };
        }
        let ghost j = p.at();
        if p.is_flag() {
            let (pos, flag) = p.read_flag();
            let flag = match flag {
                Some(f) => f,
                None => {
                    return Err(fail(pos, inp, "expected flag"));
                },
            };
            proof {
                lemma_word_end(s, j + 1);
            }
            if chars_eq_str(&flag, "p") || chars_eq_str(&flag, "pos") {
                if postyflags.is_some() {
                    return Err(fail(pos, inp, "pos guards already set"));
                }
                let ghost k = p.at();
                p.skip_space();
                proof {
                    lemma_space_end(s, k);
                    lemma_word_end(s, p.at());
                }
                let m = p.idx;
                let (ppos, _poses) = p.read_until_space();
                let n = p.idx;
                match parse_pos_list(&p.chrs, m, n, ppos, Ghost(p.lag())) {
                    Err(bad) => {
                        return Err(fail(bad, inp, "expected valid POS specifier"));
                    },
                    Ok(newflags) => {
                        postyflags = Some(newflags);
                    },
                }
            } else if chars_eq_str(&flag, "f") || chars_eq_str(&flag, "fuzzy") {
                if match_type != MatchType::Standard {
                    return Err(fail(pos, inp, "match type already set"));
                }
                match_type = MatchType::Fuzzy;
            } else if chars_eq_str(&flag, "r") || chars_eq_str(&flag, "regex") {
                if match_type != MatchType::Standard {
                    return Err(fail(pos, inp, "match type already set"));
                }
                match_type = MatchType::Regex;
            } else if chars_eq_str(&flag, "e") || chars_eq_str(&flag, "edit") {
                if edit {
                    return Err(fail(pos, inp, "duplicate edit flag"));
                }
                edit = true;
            } else {
                return Err(fail_with(pos, inp, "unknown flag ", &flag));
            }
        } else {
            let (pos, proposed) = p.read_until_space();
            proof {
                lemma_word_end(s, j);
            }
            if word.is_some() {
                return Err(fail_with(pos, inp, "unexpected argument ", &proposed));
            }
            word = Some(proposed);
        }
    }
}

/// Reads the sheet type and path of `update`.
fn parse_update(p: &mut ParsingIter, inp: &str) -> (r: Result<Commands, ParseError>)
    requires
        old(p).wf(),
        old(p).s() == inp@,
        old(p).lag() == 0,
    ensures
        parsed_as(r, inp@, update_spec(inp@, old(p).at())),
{
    let ghost s = inp@;
    let ghost i = p.at();
    p.skip_space();
    proof {
        lemma_space_end(s, i);
    }
    let (pos, raw) = p.read_until_space();
    let sheet_ty = if chars_eq_str(&raw, "n") || chars_eq_str(&raw, "noun") || chars_eq_str(
        &raw,
        "nouns",
    ) {
        SheetType::Nouns
    } else if chars_eq_str(&raw, "v") || chars_eq_str(&raw, "verb") || chars_eq_str(
        &raw,
        "verbs",
    ) {
        SheetType::Verbs
    } else if chars_eq_str(&raw, "d") || chars_eq_str(&raw, "descriptor") || chars_eq_str(
        &raw,
        "descriptors",
    ) {
        SheetType::Descriptors
    } else if chars_eq_str(&raw, "p") || chars_eq_str(&raw, "particle") || chars_eq_str(
        &raw,
        "particles",
    ) {
        SheetType::Particles
    } else if raw.len() == 0 {
        return Err(fail(pos, inp, "expected sheet type"));
    } else {
        return Err(fail_with(pos, inp, "unknown sheet type ", &raw));
    };
    let ghost k = p.at();
    p.skip_space();
    proof {
        lemma_word_end(s, space_end(s, i));
        lemma_space_end(s, k);
    }
    let (fpos, sheet_fpath) = p.read_until_space();
    if sheet_fpath.len() == 0 {
        return Err(fail(fpos, inp, "expected sheet filepath"));
    }
    if !p.is_empty() {
        Err(fail(p.get_pos(), inp, "expected end of command"))
    } else {
        Ok(Commands::Update { sheet_ty, sheet_file: string_of(&sheet_fpath) })
    }
}

/// Reads a command line: the first word names the command, and what follows
/// it is read as that command's flags and arguments. A refusal gives the
/// offset in the input where reading went wrong and why; the offset counts
/// bytes, leaving out the '-' of each flag read before that place.
pub fn parse(inp: &str) -> (r: Result<Commands, ParseError>)
    ensures
        parsed_as(r, inp@, parse_spec(inp@)),
{
    let mut parser = ParsingIter::new(inp);
    let ghost s = inp@;
    proof {
        lemma_word_end(s, 0);
    }
    let (pos, cmd_ty) = parser.read_until_space();
    if chars_eq_str(&cmd_ty, "dump") {
        if !parser.is_empty() {
            Err(fail(parser.get_pos(), inp, "expected end of command"))
        } else {
            Ok(Commands::Dump)
        }
    } else if chars_eq_str(&cmd_ty, "phones") {
        parse_phones(&mut parser, inp)
    } else if chars_eq_str(&cmd_ty, "choice") {
        if !parser.is_empty() {
            Err(fail(parser.get_pos(), inp, "expected end of command"))
        } else {
            Ok(Commands::Choose)
        }
    } else if chars_eq_str(&cmd_ty, "search") {
        let ghost e = parser.at();
        parser.skip_space();
        proof {
            lemma_space_end(s, e);
        }
        if parser.is_empty() {
            return Err(fail(parser.get_pos(), inp, "expected search terms"));
        }
        let content = parser.rest();
        Ok(Commands::Search { content: string_of(&content) })
    } else if chars_eq_str(&cmd_ty, "flags") {
        parse_flags(&mut parser, inp)
    } else if chars_eq_str(&cmd_ty, "word") {
        parse_word(&mut parser, inp)
    } else if chars_eq_str(&cmd_ty, "new") {
        if !parser.is_empty() {
            return Err(fail(parser.get_pos(), inp, "expected end of command"));
        }
        Ok(Commands::New)
    } else if chars_eq_str(&cmd_ty, "q") || chars_eq_str(&cmd_ty, "quit") {
        if !parser.is_empty() {
            return Err(fail(parser.get_pos(), inp, "expected end of command"));
        }
        Ok(Commands::Quit)
    } else if chars_eq_str(&cmd_ty, "update") {
        parse_update(&mut parser, inp)
    } else {
        Err(fail_with(pos, inp, "unknown command ", &cmd_ty))
    }
}

} // verus!

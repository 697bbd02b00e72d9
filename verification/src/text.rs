//! Character-level helpers shared by the command parser, the word forms and
//! the database: whitespace, UTF-8 widths, equality, suffixes, substrings,
//! splitting and lines, each stated over `Seq<char>`.
use vstd::prelude::*;
use vstd::utf8::encode_utf8;

verus! {

/// `String::push` appends one character at the end of the string.
pub assume_specification[ String::push ](s: &mut String, ch: char)
    ensures
        final(s)@ == old(s)@.push(ch),
;

/// The characters with the Unicode `White_Space` property, which is what
/// `char::is_whitespace` tests for.
pub open spec fn is_ws(c: char) -> bool {
    let u = c as u32;
    ||| 0x09 <= u <= 0x0D
    ||| u == 0x20
    ||| u == 0x85
    ||| u == 0xA0
    ||| u == 0x1680
    ||| 0x2000 <= u <= 0x200A
    ||| u == 0x2028
    ||| u == 0x2029
    ||| u == 0x202F
    ||| u == 0x205F
    ||| u == 0x3000
}

/// Whether `c` is Unicode whitespace.
pub fn is_whitespace(c: char) -> (b: bool)
    ensures
        b == is_ws(c),
{
    let u = c as u32;
    (0x09 <= u && u <= 0x0D) || u == 0x20 || u == 0x85 || u == 0xA0 || u == 0x1680 || (0x2000
        <= u && u <= 0x200A) || u == 0x2028 || u == 0x2029 || u == 0x202F || u == 0x205F || u
        == 0x3000
}

/// Number of bytes of the UTF-8 encoding of `s`.
pub open spec fn byte_len(s: Seq<char>) -> nat {
    encode_utf8(s).len()
}

/// Number of bytes of the UTF-8 encoding of one character.
pub open spec fn char_width(c: char) -> nat {
    let u = c as u32;
    if u <= 0x7F {
        1
    } else if u <= 0x7FF {
        2
    } else if u <= 0xFFFF {
        3
    } else {
        4
    }
}

/// `char::len_utf8`.
pub fn utf8_width(c: char) -> (w: usize)
    ensures
        w == char_width(c),
{
    let u = c as u32;
    if u <= 0x7F {
        1
    } else if u <= 0x7FF {
        2
    } else if u <= 0xFFFF {
        3
    } else {
        4
    }
}

proof fn lemma_encode_scalar_len(c: char)
    ensures
        vstd::utf8::encode_scalar(c as u32).len() == char_width(c),
{
    broadcast use vstd::utf8::char_is_scalar;

    let u = c as u32;
    assert(vstd::utf8::is_scalar(u));
}

/// The encoding of a concatenation is the concatenation of the encodings.
pub proof fn lemma_byte_len_append(a: Seq<char>, b: Seq<char>)
    ensures
        byte_len(a + b) == byte_len(a) + byte_len(b),
    decreases a.len(),
{
    if a.len() == 0 {
        assert(a + b =~= b);
    } else {
        assert((a + b).drop_first() =~= a.drop_first() + b);
        lemma_byte_len_append(a.drop_first(), b);
    }
}

/// One more character adds its width to the byte length.
pub proof fn lemma_byte_len_push(a: Seq<char>, c: char)
    ensures
        byte_len(a.push(c)) == byte_len(a) + char_width(c),
{
    lemma_byte_len_append(a, seq![c]);
    assert(a.push(c) =~= a + seq![c]);
    lemma_encode_scalar_len(c);
    assert(seq![c].drop_first() =~= Seq::<char>::empty());
    assert(encode_utf8(seq![c]) =~= vstd::utf8::encode_scalar(c as u32) + encode_utf8(
        Seq::<char>::empty(),
    ));
}

/// A prefix is never longer, in bytes, than the whole.
pub proof fn lemma_byte_len_prefix(s: Seq<char>, i: int, j: int)
    requires
        0 <= i <= j <= s.len(),
    ensures
        byte_len(s.take(i)) <= byte_len(s.take(j)),
    decreases j - i,
{
    if i < j {
        lemma_byte_len_prefix(s, i, j - 1);
        assert(s.take(j) =~= s.take(j - 1).push(s[j - 1]));
        lemma_byte_len_push(s.take(j - 1), s[j - 1]);
    }
}

/// The characters of `s`, in order.
pub fn chars_of(s: &str) -> (v: Vec<char>)
    ensures
        v@ == s@,
{
    let mut v: Vec<char> = Vec::new();
    for c in it: s.chars()
        invariant
            it.seq() == s@,
            v@ == s@.take(it.index() as int),
    {
        v.push(c);
    }
    assert(v@ =~= s@);
    v
}

/// A `String` holding the given characters.
pub fn string_of(v: &[char]) -> (s: String)
    ensures
        s@ == v@,
{
    let mut s = String::new();
    let mut i: usize = 0;
    while i < v.len()
        invariant
            i <= v@.len(),
            s@ == v@.take(i as int),
        decreases v@.len() - i,
    {
        s.push(v[i]);
        i = i + 1;
        assert(s@ =~= v@.take(i as int));
    }
    assert(v@.take(v@.len() as int) =~= v@);
    s
}

/// Appends the characters of `t` to `s`.
pub fn push_str(s: &mut String, t: &str)
    ensures
        final(s)@ == old(s)@ + t@,
{
    let v = chars_of(t);
    let ghost start = s@;
    let mut i: usize = 0;
    while i < v.len()
        invariant
            i <= v@.len(),
            v@ == t@,
            s@ == start + v@.take(i as int),
        decreases v@.len() - i,
    {
        s.push(v[i]);
        i = i + 1;
        assert(s@ =~= start + v@.take(i as int));
    }
    assert(v@.take(v@.len() as int) =~= v@);
}

/// Whether two character sequences are equal.
pub fn chars_eq(a: &[char], b: &[char]) -> (r: bool)
    ensures
        r == (a@ == b@),
{
    if a.len() != b.len() {
        return false;
    }
    let mut i: usize = 0;
    while i < a.len()
        invariant
            a@.len() == b@.len(),
            i <= a@.len(),
            forall|j: int| 0 <= j < i ==> a@[j] == b@[j],
        decreases a@.len() - i,
    {
        if a[i] != b[i] {
            return false;
        }
        i = i + 1;
    }
    assert(a@ =~= b@);
    true
}

/// Whether the characters `a` spell out the string `lit`.
pub fn chars_eq_str(a: &[char], lit: &str) -> (r: bool)
    ensures
        r == (a@ == lit@),
{
    let b = chars_of(lit);
    chars_eq(a, b.as_slice())
}

/// Whether `s` ends with `suf`.
pub open spec fn ends_with(s: Seq<char>, suf: Seq<char>) -> bool {
    suf.len() <= s.len() && s.skip(s.len() - suf.len()) == suf
}

/// Whether `s` ends with the character `c`.
pub open spec fn ends_with_char(s: Seq<char>, c: char) -> bool {
    s.len() > 0 && s.last() == c
}

/// Whether `s` holds `pat` as a contiguous run of characters.
pub open spec fn contains_at(s: Seq<char>, pat: Seq<char>, i: int) -> bool {
    0 <= i && i + pat.len() <= s.len() && s.subrange(i, i + pat.len()) == pat
}

/// Whether `s` contains `pat` (`str::contains` with a string pattern).
pub open spec fn contains_seq(s: Seq<char>, pat: Seq<char>) -> bool {
    exists|i: int| contains_at(s, pat, i)
}

/// Whether `s` holds `pat` at position `i`.
fn matches_at(s: &[char], pat: &[char], i: usize) -> (r: bool)
    requires
        i + pat@.len() <= s@.len(),
        s@.len() <= usize::MAX,
    ensures
        r == contains_at(s@, pat@, i as int),
{
    let mut j: usize = 0;
    while j < pat.len()
        invariant
            s@.len() <= usize::MAX,
            i + pat@.len() <= s@.len(),
            j <= pat@.len(),
            forall|k: int| 0 <= k < j ==> s@[i + k] == pat@[k],
        decreases pat@.len() - j,
    {
        if s[i + j] != pat[j] {
            assert(s@.subrange(i as int, i + pat@.len())[j as int] != pat@[j as int]);
            return false;
        }
        j = j + 1;
    }
    assert(s@.subrange(i as int, i + pat@.len()) =~= pat@);
    true
}

/// Whether `s` contains `pat` as a substring.
pub fn contains(s: &[char], pat: &[char]) -> (r: bool)
    ensures
        r == contains_seq(s@, pat@),
{
    if pat.len() > s.len() {
        return false;
    }
    let last = s.len() - pat.len();
    let mut i: usize = 0;
    loop
        invariant
            i <= last,
            last + pat@.len() == s@.len(),
            s@.len() <= usize::MAX,
            forall|k: int| 0 <= k < i ==> !contains_at(s@, pat@, k),
        decreases last - i,
    {
        if matches_at(s, pat, i) {
            return true;
        }
        if i == last {
            assert forall|k: int| !contains_at(s@, pat@, k) by {
                if 0 <= k && k + pat@.len() <= s@.len() {
                    assert(k <= last);
                }
            }
            return false;
        }
        i = i + 1;
    }
}

/// The index of the first `c` at or after `i`, or the end.
pub open spec fn index_of_from(s: Seq<char>, c: char, i: int) -> int
    decreases s.len() - i,
{
    if i < 0 || i >= s.len() || s[i] == c {
        i
    } else {
        index_of_from(s, c, i + 1)
    }
}

/// The search for `c` from `i` stops at the first `c`, or at the end.
pub proof fn lemma_index_of_from(s: Seq<char>, c: char, i: int)
    requires
        0 <= i <= s.len(),
    ensures
        i <= index_of_from(s, c, i) <= s.len(),
        index_of_from(s, c, i) < s.len() ==> s[index_of_from(s, c, i)] == c,
        forall|k: int| i <= k < index_of_from(s, c, i) ==> #[trigger] s[k] != c,
    decreases s.len() - i,
{
    if i < s.len() && s[i] != c {
        lemma_index_of_from(s, c, i + 1);
    }
}

/// The pieces of `s[start..]` between the separators `sep`
/// (`str::split` with a character).
pub open spec fn split_from(s: Seq<char>, sep: char, start: int) -> Seq<Seq<char>>
    decreases s.len() - start,
    when 0 <= start <= s.len()
{
    let i = index_of_from(s, sep, start);
    proof {
        lemma_index_of_from(s, sep, start);
    }
    if i >= s.len() {
        seq![s.subrange(start, s.len() as int)]
    } else {
        seq![s.subrange(start, i)] + split_from(s, sep, i + 1)
    }
}

/// The pieces of `s` between the separators `sep`; there is always at
/// least one.
pub open spec fn split_on(s: Seq<char>, sep: char) -> Seq<Seq<char>> {
    split_from(s, sep, 0)
}

/// Splitting always gives at least one piece.
pub proof fn lemma_split_on_len(s: Seq<char>, sep: char)
    ensures
        split_on(s, sep).len() >= 1,
{
    lemma_index_of_from(s, sep, 0);
}

/// A text without the separator is a single piece.
pub proof fn lemma_split_single(s: Seq<char>, sep: char)
    requires
        !s.contains(sep),
    ensures
        split_on(s, sep) == seq![s],
{
    lemma_index_of_from(s, sep, 0);
    if index_of_from(s, sep, 0) < s.len() {
        assert(s[index_of_from(s, sep, 0)] == sep);
    }
    assert(s.subrange(0, s.len() as int) =~= s);
}

proof fn lemma_index_in_joined(x: Seq<char>, y: Seq<char>, sep: char, start: int)
    requires
        0 <= start <= x.len(),
    ensures
        index_of_from(x + seq![sep] + y, sep, start) == if index_of_from(x, sep, start) < x.len() {
            index_of_from(x, sep, start)
        } else {
            x.len() as int
        },
    decreases x.len() - start,
{
    let s = x + seq![sep] + y;
    if start < x.len() {
        assert(s[start] == x[start]);
        if x[start] != sep {
            lemma_index_in_joined(x, y, sep, start + 1);
        }
    } else {
        assert(s[x.len() as int] == sep);
    }
}

proof fn lemma_index_shift(x: Seq<char>, y: Seq<char>, sep: char, j: int)
    requires
        0 <= j <= y.len(),
    ensures
        index_of_from(x + seq![sep] + y, sep, x.len() + 1 + j) == x.len() + 1 + index_of_from(y, sep, j),
    decreases y.len() - j,
{
    let s = x + seq![sep] + y;
    if j < y.len() {
        assert(s[x.len() + 1 + j] == y[j]);
        if y[j] != sep {
            lemma_index_shift(x, y, sep, j + 1);
        }
    }
}

proof fn lemma_split_shift(x: Seq<char>, y: Seq<char>, sep: char, j: int)
    requires
        0 <= j <= y.len(),
    ensures
        split_from(x + seq![sep] + y, sep, x.len() + 1 + j) == split_from(y, sep, j),
    decreases y.len() - j,
{
    let s = x + seq![sep] + y;
    let base = x.len() + 1;
    lemma_index_shift(x, y, sep, j);
    lemma_index_of_from(y, sep, j);
    let i = index_of_from(y, sep, j);
    if i < y.len() {
        lemma_split_shift(x, y, sep, i + 1);
        assert(s.subrange(base + j, base + i) =~= y.subrange(j, i));
    } else {
        assert(s.subrange(base + j, s.len() as int) =~= y.subrange(j, y.len() as int));
    }
}

proof fn lemma_split_prefix(x: Seq<char>, y: Seq<char>, sep: char, start: int)
    requires
        0 <= start <= x.len(),
    ensures
        split_from(x + seq![sep] + y, sep, start) == split_from(x, sep, start) + split_on(y, sep),
    decreases x.len() - start,
{
    let s = x + seq![sep] + y;
    lemma_index_in_joined(x, y, sep, start);
    lemma_index_of_from(x, sep, start);
    let i = index_of_from(x, sep, start);
    if i < x.len() {
        lemma_split_prefix(x, y, sep, i + 1);
        assert(s.subrange(start, i) =~= x.subrange(start, i));
        assert(split_from(s, sep, start) =~= seq![x.subrange(start, i)] + (split_from(x, sep, i + 1) + split_on(
            y,
            sep,
        )));
    } else {
        lemma_split_shift(x, y, sep, 0);
        assert(s.subrange(start, x.len() as int) =~= x.subrange(start, x.len() as int));
        assert(split_from(s, sep, start) =~= seq![x.subrange(start, x.len() as int)] + split_on(y, sep));
    }
}

/// Splitting `x`, a separator, then `y` gives the pieces of `x` then those
/// of `y`.
pub proof fn lemma_split_concat(x: Seq<char>, y: Seq<char>, sep: char)
    ensures
        split_on(x + seq![sep] + y, sep) == split_on(x, sep) + split_on(y, sep),
{
    lemma_split_prefix(x, y, sep, 0);
}

/// The pieces of `s` between the separators `sep`.
pub fn split(s: &[char], sep: char) -> (v: Vec<String>)
    ensures
        crate::lang::strings_view(v@) == split_on(s@, sep),
{
    let mut out: Vec<String> = Vec::new();
    let mut start: usize = 0;
    let n = s.len();
    loop
        invariant
            n == s@.len(),
            start <= n,
            crate::lang::strings_view(out@) + split_from(s@, sep, start as int) == split_on(s@, sep),
        decreases n - start,
    {
        proof {
            lemma_index_of_from(s@, sep, start as int);
        }
        let mut i: usize = start;
        while i < n && s[i] != sep
            invariant
                start <= i <= index_of_from(s@, sep, start as int) <= n,
                n == s@.len(),
                index_of_from(s@, sep, i as int) == index_of_from(s@, sep, start as int),
            decreases n - i,
        {
            i = i + 1;
            proof {
                lemma_index_of_from(s@, sep, i as int);
            }
        }
        let piece = string_of(&s[start..i]);
        let ghost before = crate::lang::strings_view(out@);
        out.push(piece);
        assert(crate::lang::strings_view(out@) =~= before.push(s@.subrange(start as int, i as int)));
        if i >= n {
            assert(crate::lang::strings_view(out@) =~= before + split_from(s@, sep, start as int));
            return out;
        }
        assert(crate::lang::strings_view(out@) + split_from(s@, sep, i + 1) =~= before + split_from(
            s@,
            sep,
            start as int,
        ));
        start = i + 1;
    }
}

/// A line without the carriage return that ended it, if there was one.
pub open spec fn strip_cr(l: Seq<char>) -> Seq<char> {
    if l.len() > 0 && l.last() == '\r' {
        l.drop_last()
    } else {
        l
    }
}

/// The lines of a text: the pieces between line feeds, each without a
/// carriage return before its line feed; a line feed at the very end does
/// not start another line.
pub open spec fn lines_of(s: Seq<char>) -> Seq<Seq<char>> {
    let pieces = split_on(s, '\n');
    let kept = if pieces.last().len() == 0 {
        pieces.drop_last()
    } else {
        pieces
    };
    Seq::new(
        kept.len(),
        |i: int|
            if i + 1 < pieces.len() {
                strip_cr(kept[i])
            } else {
                kept[i]
            },
    )
}

/// The lines of a text (see `lines_of`).
pub fn text_lines(s: &str) -> (v: Vec<String>)
    ensures
        crate::lang::strings_view(v@) == lines_of(s@),
{
    let cs = chars_of(s);
    let pieces = split(&cs, '\n');
    proof {
        lemma_split_on_len(s@, '\n');
    }
    let ghost pv = split_on(s@, '\n');
    let n = pieces.len();
    let last_empty = pieces[n - 1].as_str().is_empty();
    proof {
        assert(crate::lang::strings_view(pieces@)[n - 1] == pieces@[n - 1]@);
    }
    let kept = if last_empty {
        n - 1
    } else {
        n
    };
    let mut out: Vec<String> = Vec::new();
    let mut i: usize = 0;
    while i < kept
        invariant
            n == pieces@.len(),
            crate::lang::strings_view(pieces@) == pv,
            pv == split_on(s@, '\n'),
            kept <= n,
            kept == (if pv.last().len() == 0 {
                n - 1
            } else {
                n as int
            }),
            i <= kept,
            out@.len() == i,
            forall|j: int|
                0 <= j < i ==> (#[trigger] out@[j])@ == (if j + 1 < n {
                    strip_cr(pv[j])
                } else {
                    pv[j]
                }),
        decreases kept - i,
    {
        let piece = chars_of(pieces[i].as_str());
        assert(piece@ == pv[i as int]);
        let line = if i + 1 < n && piece.len() > 0 && piece[piece.len() - 1] == '\r' {
            string_of(&piece.as_slice()[0..piece.len() - 1])
        } else {
            string_of(piece.as_slice())
        };
        proof {
            if i + 1 < n && piece@.len() > 0 && piece@.last() == '\r' {
                assert(piece@.subrange(0, piece@.len() - 1) =~= piece@.drop_last());
            }
        }
        out.push(line);
        i = i + 1;
    }
    proof {
        let kv = if pv.last().len() == 0 {
            pv.drop_last()
        } else {
            pv
        };
        assert(crate::lang::strings_view(out@) =~= lines_of(s@));
    }
    out
}

} // verus!

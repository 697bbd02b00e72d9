//! Styled text: lines of spans, each span a string with a style. The
//! dictionary describes what it shows in these terms; the terminal front end
//! draws them.
use vstd::prelude::*;
use crate::parser::spaces;
use crate::text::{lines_of, push_str, string_of, text_lines};

verus! {

/// A foreground colour.
#[derive(Debug, Clone, Copy, PartialEq, Eq, Structural)]
pub enum Tint {
    Blue,
    Red,
}

/// How a span is drawn.
#[derive(Debug, Clone, Copy, PartialEq, Eq, Structural)]
pub struct SpanStyle {
    pub bold: bool,
    pub italic: bool,
    pub tint: Option<Tint>,
}

/// A run of text drawn in one style.
#[derive(Debug, Clone)]
pub struct StyledSpan {
    pub content: String,
    pub style: SpanStyle,
}

/// A line of spans.
#[derive(Debug, Clone)]
pub struct StyledLine {
    pub spans: Vec<StyledSpan>,
}

/// Lines of styled text.
#[derive(Debug, Clone)]
pub struct StyledText {
    pub lines: Vec<StyledLine>,
}

/// A span as a spec value.
pub struct SpanView {
    pub content: Seq<char>,
    pub style: SpanStyle,
}

impl View for StyledSpan {
    type V = SpanView;

    open spec fn view(&self) -> SpanView {
        SpanView { content: self.content@, style: self.style }
    }
}

impl View for StyledLine {
    type V = Seq<SpanView>;

    open spec fn view(&self) -> Seq<SpanView> {
        self.spans@.map_values(|s: StyledSpan| s@)
    }
}

impl View for StyledText {
    type V = Seq<Seq<SpanView>>;

    open spec fn view(&self) -> Seq<Seq<SpanView>> {
        self.lines@.map_values(|l: StyledLine| l@)
    }
}

/// The plain style.
pub open spec fn plain() -> SpanStyle {
    SpanStyle { bold: false, italic: false, tint: None }
}

/// A span of text in a style.
pub open spec fn span(content: Seq<char>, style: SpanStyle) -> SpanView {
    SpanView { content, style }
}

/// `parts` with `sep` between each two of them.
pub open spec fn join(parts: Seq<Seq<char>>, sep: Seq<char>) -> Seq<char>
    decreases parts.len(),
{
    if parts.len() == 0 {
        Seq::empty()
    } else if parts.len() == 1 {
        parts[0]
    } else {
        join(parts.drop_last(), sep) + sep + parts.last()
    }
}

/// `label` followed by spaces up to `width` characters.
pub open spec fn pad_right(label: Seq<char>, width: nat) -> Seq<char> {
    if label.len() < width {
        label + spaces((width - label.len()) as nat)
    } else {
        label
    }
}

impl StyledText {
    /// No lines.
    pub fn new() -> (t: StyledText)
        ensures
            t@ == Seq::<Seq<SpanView>>::empty(),
    {
        let t = StyledText { lines: Vec::new() };
        assert(t@ =~= Seq::<Seq<SpanView>>::empty());
        t
    }

    /// Adds a line at the end.
    pub fn push_line(&mut self, line: StyledLine)
        ensures
            final(self)@ == old(self)@.push(line@),
    {
        self.lines.push(line);
        assert(self@ =~= old(self)@.push(line@));
    }

    /// Adds an empty line at the end.
    pub fn push_blank(&mut self)
        ensures
            final(self)@ == old(self)@.push(Seq::<SpanView>::empty()),
    {
        let l = StyledLine::new();
        self.push_line(l);
    }

    /// Adds a line of one span at the end.
    pub fn push_span_line(&mut self, content: String, style: SpanStyle)
        ensures
            final(self)@ == old(self)@.push(seq![span(content@, style)]),
    {
        let mut l = StyledLine::new();
        l.push_span(content, style);
        assert(l@ =~= seq![span(content@, style)]);
        self.push_line(l);
    }

    /// Adds the lines of `other` at the end.
    pub fn extend(&mut self, other: StyledText)
        ensures
            final(self)@ == old(self)@ + other@,
    {
        let ghost added = other@;
        let mut other = other;
        self.lines.append(&mut other.lines);
        assert(self@ =~= old(self)@ + added);
    }
}

impl StyledLine {
    /// No spans.
    pub fn new() -> (l: StyledLine)
        ensures
            l@ == Seq::<SpanView>::empty(),
    {
        let l = StyledLine { spans: Vec::new() };
        assert(l@ =~= Seq::<SpanView>::empty());
        l
    }

    /// Adds a span at the end.
    pub fn push_span(&mut self, content: String, style: SpanStyle)
        ensures
            final(self)@ == old(self)@.push(span(content@, style)),
    {
        self.spans.push(StyledSpan { content, style });
        assert(self@ =~= old(self)@.push(span(content@, style)));
    }
}

/// The strings of `parts`, with `sep` between each two of them.
pub fn join_strings(parts: &Vec<String>, sep: &str) -> (s: String)
    ensures
        s@ == join(parts@.map_values(|p: String| p@), sep@),
{
    let ghost all = parts@.map_values(|p: String| p@);
    let mut s = String::new();
    let mut i: usize = 0;
    while i < parts.len()
        invariant
            all == parts@.map_values(|p: String| p@),
            i <= parts@.len(),
            s@ == join(all.take(i as int), sep@),
        decreases parts@.len() - i,
    {
        if i != 0 {
            push_str(&mut s, sep);
        }
        push_str(&mut s, parts[i].as_str());
        proof {
            let t = all.take(i + 1);
            assert(t.drop_last() =~= all.take(i as int));
            if i == 0 {
                assert(all.take(0) =~= Seq::<Seq<char>>::empty());
            }
        }
        i = i + 1;
    }
    assert(all.take(parts@.len() as int) =~= all);
    s
}

/// `label` padded with spaces to `width` characters.
pub fn padded(label: &str, width: usize) -> (s: String)
    ensures
        s@ == pad_right(label@, width as nat),
{
    let v = crate::text::chars_of(label);
    let mut s = string_of(&v);
    let mut n = v.len();
    if n < width {
        let ghost start = s@;
        while n < width
            invariant
                v@.len() <= n <= width,
                s@ == start + spaces((n - v@.len()) as nat),
            decreases width - n,
        {
            s.push(' ');
            n = n + 1;
            assert(spaces((n - v@.len()) as nat) =~= spaces((n - 1 - v@.len()) as nat).push(' '));
        }
    }
    s
}


/// The style of a warning: red.
pub open spec fn red() -> SpanStyle {
    SpanStyle { bold: false, italic: false, tint: Some(Tint::Red) }
}

/// Each line as a line of one span in `style`.
pub open spec fn styled_lines(lines: Seq<Seq<char>>, style: SpanStyle) -> Seq<Seq<SpanView>> {
    Seq::new(lines.len(), |i: int| seq![span(lines[i], style)])
}

/// The lines of `s` (see `lines_of`), each a span in `style`.
pub fn styled_text(s: &str, style: SpanStyle) -> (t: StyledText)
    ensures
        t@ == styled_lines(lines_of(s@), style),
{
    let lines = text_lines(s);
    let mut t = StyledText::new();
    let mut i: usize = 0;
    while i < lines.len()
        invariant
            i <= lines@.len(),
            crate::lang::strings_view(lines@) == lines_of(s@),
            t@ == styled_lines(lines_of(s@).take(i as int), style),
        decreases lines@.len() - i,
    {
        let ghost before = t@;
        t.push_span_line(lines[i].clone(), style);
        proof {
            assert(crate::lang::strings_view(lines@)[i as int] == lines@[i as int]@);
            assert(t@ =~= styled_lines(lines_of(s@).take(i + 1), style));
        }
        i = i + 1;
    }
    assert(lines_of(s@).take(lines@.len() as int) =~= lines_of(s@));
    t
}

} // verus!

//! The state behind the terminal widgets: keys, drop-down choices, which of
//! a form's inputs has the focus, and scrolling. Drawing is left to the
//! program; what is kept here is what a key press changes.
use vstd::prelude::*;
use crate::lang::{POSType, ParticleCategory, category_name, pos_type_name};
use crate::text::byte_len;
use vstd::laws_eq::obeys_concrete_eq;
use vstd::pervasive::cloned;
use vstd::std_specs::cmp::PartialEqSpec;

verus! {

/// The keys that the widgets tell apart.
#[derive(Debug, Clone, Copy, PartialEq, Eq, Structural)]
pub enum KeyName {
    Enter,
    Up,
    Down,
    PageUp,
    PageDown,
    Tab,
    BackTab,
    Char(char),
    Other,
}

/// The modifier bit of the shift key.
pub const SHIFT: u8 = 1;

/// The modifier bit of the control key.
pub const CONTROL: u8 = 2;

/// A key press: the key, and the modifier keys held, one bit each as the
/// terminal reports them.
#[derive(Debug, Clone, Copy, PartialEq, Eq, Structural)]
pub struct KeyPress {
    pub code: KeyName,
    pub modifiers: u8,
}

impl KeyPress {
    /// A key pressed with the given modifiers.
    pub fn new(code: KeyName, modifiers: u8) -> (k: KeyPress)
        ensures
            k.code == code,
            k.modifiers == modifiers,
    {
        KeyPress { code, modifiers }
    }
}

/// Whether `k` is the character `c` pressed with control and nothing else.
pub open spec fn is_ctrl_char(k: KeyPress, c: char) -> bool {
    k.code == KeyName::Char(c) && k.modifiers == CONTROL
}

/// A key press together with the event it came in, which is handed back
/// when the key is not used.
pub struct KeyInput<R> {
    pub key: KeyPress,
    pub raw: R,
}

/// Something that takes events, and hands back those it does not use.
pub trait EventfulState<E> {
    /// Whether, in this state, the input may answer `event` with `result`.
    /// An input that says nothing of its answers may give any.
    open spec fn answers(&self, event: E, result: Option<E>) -> bool {
        true
    }

    /// Takes an event; returns it when it was not used.
    fn handle_ev(&mut self, event: E) -> (r: Option<E>)
        ensures
            old(self).answers(event, r),
    ;
}

/// Something that carries a tag.
pub trait TaggedState<T> {
    /// The tag, as a spec value.
    spec fn tag_spec(&self) -> T;

    /// The tag.
    fn get_tag(&self) -> (t: &T)
        ensures
            *t == self.tag_spec(),
    ;
}

/// Something that carries a tag and takes events.
pub trait TaggedEventful<T, E>: TaggedState<T> + EventfulState<E> {

}

impl<T, E, F: TaggedState<T> + EventfulState<E>> TaggedEventful<T, E> for F {

}

/// A rectangle of the screen: its top left corner and its size, in cells.
#[derive(Debug, Clone, Copy, PartialEq, Eq)]
pub struct Area {
    pub x: u16,
    pub y: u16,
    pub width: u16,
    pub height: u16,
}

/// A widget that shows nothing and uses no event.
#[derive(Debug, Default, Clone, Copy)]
pub struct EmptyWidget {}

impl<E> EventfulState<E> for EmptyWidget {
    open spec fn answers(&self, event: E, result: Option<E>) -> bool {
        result == Some(event)
    }

    fn handle_ev(&mut self, event: E) -> (r: Option<E>)
        ensures
            r == Some(event),
    {
        Some(event)
    }
}

/// Something shown by a label.
pub trait Labelled {
    /// The label, as a spec value.
    spec fn label_spec(&self) -> Seq<char>;

    /// The label.
    fn label(&self) -> (s: String)
        ensures
            s@ == self.label_spec(),
    ;
}

impl Labelled for POSType {
    open spec fn label_spec(&self) -> Seq<char> {
        pos_type_name(*self)
    }

    fn label(&self) -> (s: String) {
        self.as_str().to_owned()
    }
}

impl Labelled for ParticleCategory {
    open spec fn label_spec(&self) -> Seq<char> {
        category_name(*self)
    }

    fn label(&self) -> (s: String) {
        self.as_str().to_owned()
    }
}

/// The greatest number of bytes of a label among the options, 0 when there
/// are none.
pub open spec fn widest_label<T: Labelled>(options: Seq<T>) -> nat
    decreases options.len(),
{
    if options.len() == 0 {
        0
    } else {
        let rest = widest_label(options.drop_last());
        let w = byte_len(options.last().label_spec());
        if w > rest {
            w
        } else {
            rest
        }
    }
}

/// Whether every answer that `cond` can give on `x` is yes.
pub open spec fn accepts<T, F: Fn(&T) -> bool>(cond: F, x: T) -> bool {
    forall|b: bool| #[trigger] cond.ensures((&x,), b) ==> b
}

/// The place after `c` among `n`, the first after the last.
pub open spec fn next_choice(c: int, n: int) -> int {
    (c + 1) % n
}

/// The place before `c` among `n`, the last before the first.
pub open spec fn prev_choice(c: int, n: int) -> int {
    (c + n - 1) % n
}

/// Moving the choice of a drop-down list down then up, or up then down,
/// comes back to where it was.
pub proof fn lemma_choice_round_trip(c: int, n: int)
    requires
        0 <= c < n,
    ensures
        prev_choice(next_choice(c, n), n) == c,
        next_choice(prev_choice(c, n), n) == c,
{
    lemma_wrap(c + 1, n);
    lemma_wrap(c + n - 1, n);
    let d = next_choice(c, n);
    lemma_wrap(d + n - 1, n);
    let e = prev_choice(c, n);
    lemma_wrap(e + 1, n);
}

/// A drop-down list: the options, which one is chosen, whether the list is
/// open, and whether the choice changed since it was last asked.
pub struct DropdownState<T> {
    options: Vec<T>,
    choice: usize,
    open: bool,
    changed: bool,
}

impl<T> DropdownState<T> {
    /// The options.
    pub closed spec fn spec_options(&self) -> Seq<T> {
        self.options@
    }

    /// The place of the chosen option.
    pub closed spec fn spec_choice(&self) -> nat {
        self.choice as nat
    }

    /// Whether the list is open.
    pub closed spec fn spec_open(&self) -> bool {
        self.open
    }

    /// Whether the choice changed since it was last asked.
    pub closed spec fn spec_changed(&self) -> bool {
        self.changed
    }

    /// The chosen option is one of the options, or there are none and the
    /// first place is chosen.
    pub open spec fn wf(&self) -> bool {
        ||| self.spec_choice() < self.spec_options().len()
        ||| (self.spec_options().len() == 0 && self.spec_choice() == 0)
    }

    /// A closed list of the options with the first chosen, counted as
    /// changed.
    pub fn new(options: Vec<T>) -> (d: DropdownState<T>)
        ensures
            d.wf(),
            d.spec_options() == options@,
            d.spec_choice() == 0,
            !d.spec_open(),
            d.spec_changed(),
    {
        DropdownState { options, choice: 0, open: false, changed: true }
    }

    /// Chooses the option after the chosen one, the first after the last.
    pub fn next(&mut self)
        requires
            old(self).wf(),
            old(self).spec_options().len() > 0,
        ensures
            final(self).wf(),
            final(self).spec_choice() == next_choice(old(self).spec_choice() as int, old(self).spec_options().len() as int),
            final(self).spec_options() == old(self).spec_options(),
            final(self).spec_open() == old(self).spec_open(),
            final(self).spec_changed(),
    {
        let n = self.options.len();
        self.choice = if self.choice + 1 < n {
            self.choice + 1
        } else {
            0
        };
        proof {
            let c = old(self).spec_choice() as int;
            if c + 1 < n {
                assert((c + 1) % (n as int) == c + 1) by (nonlinear_arith)
                    requires
                        0 <= c + 1 < n,
                ;
            } else {
                assert((c + 1) % (n as int) == 0) by (nonlinear_arith)
                    requires
                        c + 1 == n,
                        n > 0,
                ;
            }
        }
        self.changed = true;
    }

    /// Chooses the option before the chosen one, the last before the first.
    pub fn prev(&mut self)
        requires
            old(self).wf(),
            old(self).spec_options().len() > 0,
        ensures
            final(self).wf(),
            final(self).spec_choice() == prev_choice(old(self).spec_choice() as int, old(self).spec_options().len() as int),
            final(self).spec_options() == old(self).spec_options(),
            final(self).spec_open() == old(self).spec_open(),
            final(self).spec_changed(),
    {
        let n = self.options.len();
        self.choice = if self.choice == 0 {
            n - 1
        } else {
            self.choice - 1
        };
        proof {
            let c = old(self).spec_choice() as int;
            if c > 0 {
                assert((c + n - 1) % (n as int) == c - 1) by (nonlinear_arith)
                    requires
                        0 < c < n,
                ;
            } else {
                assert((n - 1) % (n as int) == n - 1) by (nonlinear_arith)
                    requires
                        0 < n,
                ;
            }
        }
        self.changed = true;
    }

    /// Whether the choice changed since it was last asked; asking clears it.
    pub fn changed(&mut self) -> (b: bool)
        ensures
            b == old(self).spec_changed(),
            !final(self).spec_changed(),
            final(self).spec_options() == old(self).spec_options(),
            final(self).spec_choice() == old(self).spec_choice(),
            final(self).spec_open() == old(self).spec_open(),
    {
        let res = self.changed;
        self.changed = false;
        res
    }

    /// The chosen option.
    pub fn get(&self) -> (t: &T)
        requires
            self.wf(),
            self.spec_options().len() > 0,
        ensures
            *t == self.spec_options()[self.spec_choice() as int],
    {
        &self.options[self.choice]
    }

    /// Whether the list is open.
    pub fn is_open(&self) -> (b: bool)
        ensures
            b == self.spec_open(),
    {
        self.open
    }

    /// Closes the list unless `focused`; the program does this before
    /// drawing it.
    pub fn close_unless(&mut self, focused: bool)
        ensures
            final(self).spec_open() == (old(self).spec_open() && focused),
            final(self).spec_options() == old(self).spec_options(),
            final(self).spec_choice() == old(self).spec_choice(),
            final(self).spec_changed() == old(self).spec_changed(),
    {
        self.open = self.open && focused;
    }

    /// The options, in order.
    pub fn options(&self) -> (v: &Vec<T>)
        ensures
            v@ == self.spec_options(),
    {
        &self.options
    }

    /// The place of the chosen option.
    pub fn choice(&self) -> (c: usize)
        ensures
            c == self.spec_choice(),
    {
        self.choice
    }

    /// The same list with the first option that `cond` accepts chosen; some
    /// option must be accepted.
    pub fn with_initial<F: Fn(&T) -> bool>(self, cond: F) -> (d: DropdownState<T>)
        requires
            forall|i: int| 0 <= i < self.spec_options().len() ==> cond.requires((&self.spec_options()[i],)),
            exists|i: int| 0 <= i < self.spec_options().len() && #[trigger] accepts(cond, self.spec_options()[i]),
        ensures
            d.wf(),
            d.spec_options() == self.spec_options(),
            d.spec_open() == self.spec_open(),
            d.spec_changed() == self.spec_changed(),
            d.spec_choice() < self.spec_options().len(),
            cond.ensures((&self.spec_options()[d.spec_choice() as int],), true),
            forall|j: int| 0 <= j < d.spec_choice() ==> cond.ensures((&self.spec_options()[j],), false),
    {
        let n = self.options.len();
        let mut i: usize = 0;
        while i < n
            invariant
                n == self.options@.len(),
                i <= n,
                forall|k: int| 0 <= k < n ==> cond.requires((&self.options@[k],)),
                exists|k: int| i <= k < n && #[trigger] accepts(cond, self.options@[k]),
                forall|j: int| 0 <= j < i ==> cond.ensures((&self.options@[j],), false),
            decreases n - i,
        {
            let hit = cond(&self.options[i]);
            if hit {
                return DropdownState { choice: i, ..self };
            }
            i = i + 1;
        }
        self
    }
}

impl<T: Labelled> DropdownState<T> {
    /// The number of columns a line of the list takes: the widest label in
    /// bytes, and two for the marker.
    pub fn line_width(&self) -> (w: u16)
        requires
            widest_label(self.spec_options()) + 2 <= u16::MAX,
        ensures
            w == widest_label(self.spec_options()) + 2,
    {
        let mut widest: u16 = 0;
        let mut i: usize = 0;
        while i < self.options.len()
            invariant
                i <= self.options@.len(),
                widest == widest_label(self.options@.take(i as int)),
                widest_label(self.options@) + 2 <= u16::MAX,
            decreases self.options@.len() - i,
        {
            proof {
                lemma_widest_label_prefix(self.options@, i as int, self.options@.len() as int);
                assert(self.options@.take(i + 1).drop_last() =~= self.options@.take(i as int));
            }
            let label = self.options[i].label();
            let w = label.as_str().len();
            proof {
                lemma_widest_label_prefix(self.options@, i as int, self.options@.len() as int);
                assert(self.options@.take(self.options@.len() as int) =~= self.options@);
            }
            if w as u16 > widest {
                widest = w as u16;
            }
            i = i + 1;
        }
        assert(self.options@.take(self.options@.len() as int) =~= self.options@);
        widest + 2
    }

    /// A width no larger than the lines of the list: the smaller of `width`
    /// and `line_width`.
    pub fn limit_width(&self, width: u16) -> (w: u16)
        requires
            widest_label(self.spec_options()) + 2 <= u16::MAX,
        ensures
            w == if width < widest_label(self.spec_options()) + 2 {
                width as int
            } else {
                widest_label(self.spec_options()) + 2 as int
            },
    {
        let line = self.line_width();
        if width < line {
            width
        } else {
            line
        }
    }

    /// The area of the list within `area`: the same place and height, and
    /// no wider than its lines (see `limit_width`).
    pub fn limit_area_width(&self, area: Area) -> (r: Area)
        requires
            widest_label(self.spec_options()) + 2 <= u16::MAX,
        ensures
            r.x == area.x,
            r.y == area.y,
            r.height == area.height,
            r.width == if area.width < widest_label(self.spec_options()) + 2 {
                area.width as int
            } else {
                widest_label(self.spec_options()) + 2 as int
            },
    {
        Area { width: self.limit_width(area.width), ..area }
    }
}

/// A prefix has no wider label than the whole.
pub proof fn lemma_widest_label_prefix<T: Labelled>(s: Seq<T>, i: int, j: int)
    requires
        0 <= i <= j <= s.len(),
    ensures
        widest_label(s.take(i)) <= widest_label(s.take(j)),
        i < j ==> byte_len(s[i].label_spec()) <= widest_label(s.take(j)),
    decreases j - i,
{
    if i < j {
        lemma_widest_label_prefix(s, i, j - 1);
        assert(s.take(j).drop_last() =~= s.take(j - 1));
        if i < j - 1 {
        } else {
            assert(s.take(j).last() == s[i]);
        }
    }
}

impl<T, R> EventfulState<KeyInput<R>> for DropdownState<T> {
    /// Enter and, while the list is closed, every key are used; while it is
    /// open, up and down are used and other keys handed back.
    open spec fn answers(&self, event: KeyInput<R>, result: Option<KeyInput<R>>) -> bool {
        if event.key.code == KeyName::Enter || !self.spec_open() || event.key.code == KeyName::Up
            || event.key.code == KeyName::Down {
            result is None
        } else {
            result == Some(event)
        }
    }

    /// Enter opens or closes the list; while it is open, up and down move the
    /// choice and other keys are handed back. Every key is used while the
    /// list is closed.
    fn handle_ev(&mut self, event: KeyInput<R>) -> (r: Option<KeyInput<R>>)
        ensures
            event.key.code == KeyName::Enter ==> r is None && final(self).spec_open() == !old(self).spec_open()
                && final(self).spec_choice() == old(self).spec_choice() && final(self).spec_changed()
                == old(self).spec_changed(),
            event.key.code != KeyName::Enter && !old(self).spec_open() ==> r is None && *final(self) == *old(self),
            event.key.code != KeyName::Enter && old(self).spec_open() && event.key.code != KeyName::Up
                && event.key.code != KeyName::Down ==> r == Some(event) && *final(self) == *old(self),
            old(self).wf() && old(self).spec_options().len() > 0 && old(self).spec_open()
                && event.key.code == KeyName::Up ==> r is None && final(self).spec_choice() == prev_choice(old(self).spec_choice() as int, old(self).spec_options().len() as int) && final(self).spec_changed() && final(self).spec_open(),
            old(self).wf() && old(self).spec_options().len() > 0 && old(self).spec_open()
                && event.key.code == KeyName::Down ==> r is None && final(self).spec_choice() == next_choice(old(self).spec_choice() as int, old(self).spec_options().len() as int) && final(self).spec_changed() && final(self).spec_open(),
            old(self).spec_options().len() == 0 && old(self).spec_open() && (event.key.code == KeyName::Up
                || event.key.code == KeyName::Down) ==> r is None && *final(self) == *old(self),
            final(self).spec_options() == old(self).spec_options(),
            old(self).wf() ==> final(self).wf(),
    {
        let key = event.key;
        match key.code {
            KeyName::Enter => {
                self.open = !self.open;
            },
            _ => {
                if self.open {
                    match key.code {
                        KeyName::Up => {
                            if self.options.len() > 0 && self.choice < self.options.len() {
                                self.prev();
                            }
                        },
                        KeyName::Down => {
                            if self.options.len() > 0 && self.choice < self.options.len() {
                                self.next();
                            }
                        },
                        _ => {
                            return Some(event);
                        },
                    }
                }
            },
        }
        None
    }
}


/// The place of the enabled entry that comes `k`-th (counting from 0) among
/// those at place `i` and after.
pub open spec fn nth_enabled_from(en: Seq<bool>, i: int, k: int) -> Option<int>
    decreases en.len() - i,
{
    if i < 0 || i >= en.len() {
        None
    } else if en[i] {
        if k == 0 {
            Some(i)
        } else {
            nth_enabled_from(en, i + 1, k - 1)
        }
    } else {
        nth_enabled_from(en, i + 1, k)
    }
}

/// The place of the enabled entry that comes `k`-th, counting from 0.
pub open spec fn nth_enabled(en: Seq<bool>, k: int) -> Option<int> {
    nth_enabled_from(en, 0, k)
}

/// The number of enabled entries at place `i` and after.
pub open spec fn count_enabled_from(en: Seq<bool>, i: int) -> nat
    decreases en.len() - i,
{
    if i < 0 || i >= en.len() {
        0
    } else {
        (if en[i] {
            1nat
        } else {
            0nat
        }) + count_enabled_from(en, i + 1)
    }
}

proof fn lemma_nth_enabled_from(en: Seq<bool>, i: int, k: int)
    requires
        0 <= i,
        0 <= k,
    ensures
        nth_enabled_from(en, i, k) is Some <==> k < count_enabled_from(en, i),
        nth_enabled_from(en, i, k) matches Some(p) ==> i <= p < en.len() && en[p],
    decreases en.len() - i,
{
    if i < en.len() {
        if en[i] && k > 0 {
            lemma_nth_enabled_from(en, i + 1, k - 1);
        } else if !en[i] {
            lemma_nth_enabled_from(en, i + 1, k);
        }
    }
}

/// The focus can be put on the `k`-th enabled input (from 0) exactly when
/// there are more than `k` of them, and it lands on an enabled input.
pub proof fn lemma_set_focus_reach(en: Seq<bool>, k: int)
    requires
        0 <= k,
    ensures
        nth_enabled(en, k) is Some <==> k < count_enabled_from(en, 0),
        nth_enabled(en, k) matches Some(p) ==> 0 <= p < en.len() && en[p],
{
    lemma_nth_enabled_from(en, 0, k);
}

/// The first enabled place among those `j`, `j + 1`, ... up to `en.len()`
/// steps after `idx`, going forward round the entries.
pub open spec fn forward_from(en: Seq<bool>, idx: int, j: int) -> Option<int>
    decreases en.len() + 1 - j,
{
    if j < 1 || j > en.len() {
        None
    } else if en[(idx + j) % (en.len() as int)] {
        Some((idx + j) % (en.len() as int))
    } else {
        forward_from(en, idx, j + 1)
    }
}

/// The first enabled place among those `j`, `j + 1`, ... up to `en.len()`
/// steps before `idx`, going backward round the entries.
pub open spec fn backward_from(en: Seq<bool>, idx: int, j: int) -> Option<int>
    decreases en.len() + 1 - j,
{
    if j < 1 || j > en.len() {
        None
    } else if en[(idx - j) % (en.len() as int)] {
        Some((idx - j) % (en.len() as int))
    } else {
        backward_from(en, idx, j + 1)
    }
}

/// Whether `targets` from the `i`-th on may hand back `result` when `event`
/// goes to those that carry the tag `focused`, in order, each getting what
/// the one before handed back, until one uses it.
pub open spec fn passed_along<'t, T, E>(
    targets: Seq<&'t mut dyn TaggedEventful<T, E>>,
    focused: Option<T>,
    i: int,
    event: E,
    result: Option<E>,
) -> bool
    decreases targets.len() - i,
{
    if i < 0 || i >= targets.len() {
        result == Some(event)
    } else if Some((*targets[i]).tag_spec()) != focused {
        passed_along(targets, focused, i + 1, event, result)
    } else {
        exists|o: Option<E>|
            #[trigger] (*targets[i]).answers(event, o) && match o {
                None => result is None,
                Some(e) => passed_along(targets, focused, i + 1, e, result),
            }
    }
}

/// With no tag to match, the targets from the `i`-th on hand the event back.
pub proof fn lemma_passed_along_unfocused<'t, T, E>(
    targets: Seq<&'t mut dyn TaggedEventful<T, E>>,
    i: int,
    event: E,
)
    requires
        0 <= i,
    ensures
        passed_along(targets, None, i, event, Some(event)),
    decreases targets.len() - i,
{
    if i < targets.len() {
        lemma_passed_along_unfocused(targets, i + 1, event);
    }
}

/// The first enabled entry after `idx`, going forward round the entries,
/// `idx` itself last.
pub open spec fn next_enabled(en: Seq<bool>, idx: int) -> Option<int> {
    forward_from(en, idx, 1)
}

/// The first enabled entry before `idx`, going backward round the entries,
/// `idx` itself last.
pub open spec fn prev_enabled(en: Seq<bool>, idx: int) -> Option<int> {
    backward_from(en, idx, 1)
}

/// The focus after the entries changed: the place held is read again as the
/// number of an enabled entry, and kept when there are not that many.
pub open spec fn refocus(en: Seq<bool>, active: Option<int>) -> Option<int> {
    match active {
        None => None,
        Some(f) => match nth_enabled(en, f) {
            Some(i) => Some(i),
            None => Some(f),
        },
    }
}

/// Whether `after` is `before` cleared when `cond` can answer yes on `tag`,
/// for some answer it can give.
pub open spec fn cleared_by<T, F: Fn(&T) -> bool>(cond: F, tag: T, before: bool, after: bool) -> bool {
    exists|b: bool| #[trigger] cond.ensures((&tag,), b) && after == (before && !b)
}

/// `a % n` for `a` in `[-n, 2n)`.
proof fn lemma_wrap(a: int, n: int)
    requires
        n > 0,
        -n <= a < 2 * n,
    ensures
        0 <= a < n ==> a % n == a,
        n <= a ==> a % n == a - n,
        a < 0 ==> a % n == a + n,
{
    if 0 <= a < n {
        vstd::arithmetic::div_mod::lemma_small_mod(a as nat, n as nat);
    } else if n <= a {
        vstd::arithmetic::div_mod::lemma_small_mod((a - n) as nat, n as nat);
        vstd::arithmetic::div_mod::lemma_mod_add_multiples_vanish(a - n, n);
    } else {
        vstd::arithmetic::div_mod::lemma_small_mod((a + n) as nat, n as nat);
        vstd::arithmetic::div_mod::lemma_mod_add_multiples_vanish(a, n);
    }
}

/// Whether the `k`-th step forward from `idx` is the first enabled one among
/// the steps from `j` on.
pub open spec fn first_forward(en: Seq<bool>, idx: int, j: int, k: int) -> bool {
    &&& j <= k <= en.len()
    &&& en[(idx + k) % (en.len() as int)]
    &&& forall|m: int| j <= m < k ==> !#[trigger] en[(idx + m) % (en.len() as int)]
}

/// Whether the `k`-th step backward from `idx` is the first enabled one
/// among the steps from `j` on.
pub open spec fn first_backward(en: Seq<bool>, idx: int, j: int, k: int) -> bool {
    &&& j <= k <= en.len()
    &&& en[(idx - k) % (en.len() as int)]
    &&& forall|m: int| j <= m < k ==> !#[trigger] en[(idx - m) % (en.len() as int)]
}

proof fn lemma_forward_some(en: Seq<bool>, idx: int, j: int, k: int)
    requires
        en.len() > 0,
        1 <= j,
        first_forward(en, idx, j, k),
    ensures
        forward_from(en, idx, j) == Some((idx + k) % (en.len() as int)),
    decreases k - j,
{
    if j < k {
        lemma_forward_some(en, idx, j + 1, k);
    }
}

proof fn lemma_backward_some(en: Seq<bool>, idx: int, j: int, k: int)
    requires
        en.len() > 0,
        1 <= j,
        first_backward(en, idx, j, k),
    ensures
        backward_from(en, idx, j) == Some((idx - k) % (en.len() as int)),
    decreases k - j,
{
    if j < k {
        lemma_backward_some(en, idx, j + 1, k);
    }
}

proof fn lemma_forward_shape(en: Seq<bool>, idx: int, j: int)
    requires
        en.len() > 0,
        1 <= j <= en.len() + 1,
    ensures
        forward_from(en, idx, j) matches Some(p) ==> exists|k: int|
            #[trigger] first_forward(en, idx, j, k) && p == (idx + k) % (en.len() as int),
        forward_from(en, idx, j) is None ==> forall|m: int|
            j <= m <= en.len() ==> !#[trigger] en[(idx + m) % (en.len() as int)],
    decreases en.len() + 1 - j,
{
    let n = en.len() as int;
    if j <= n && !en[(idx + j) % n] {
        lemma_forward_shape(en, idx, j + 1);
        if let Some(p) = forward_from(en, idx, j + 1) {
            let k = choose|k: int| #[trigger] first_forward(en, idx, j + 1, k) && p == (idx + k) % n;
            assert(first_forward(en, idx, j, k));
        }
    } else if j <= n {
        assert(first_forward(en, idx, j, j));
    }
}

proof fn lemma_backward_shape(en: Seq<bool>, idx: int, j: int)
    requires
        en.len() > 0,
        1 <= j <= en.len() + 1,
    ensures
        backward_from(en, idx, j) matches Some(p) ==> exists|k: int|
            #[trigger] first_backward(en, idx, j, k) && p == (idx - k) % (en.len() as int),
        backward_from(en, idx, j) is None ==> forall|m: int|
            j <= m <= en.len() ==> !#[trigger] en[(idx - m) % (en.len() as int)],
    decreases en.len() + 1 - j,
{
    let n = en.len() as int;
    if j <= n && !en[(idx - j) % n] {
        lemma_backward_shape(en, idx, j + 1);
        if let Some(p) = backward_from(en, idx, j + 1) {
            let k = choose|k: int| #[trigger] first_backward(en, idx, j + 1, k) && p == (idx - k) % n;
            assert(first_backward(en, idx, j, k));
        }
    } else if j <= n {
        assert(first_backward(en, idx, j, j));
    }
}

/// `((i + k) % n - m) % n` is `(i + k - m) % n`.
proof fn lemma_mod_diff(i: int, k: int, m: int, n: int)
    requires
        n > 0,
        0 <= i < n,
        0 <= k <= n,
    ensures
        ((i + k) % n - m) % n == (i + k - m) % n,
{
    lemma_wrap(i + k, n);
    if i + k >= n {
        vstd::arithmetic::div_mod::lemma_mod_add_multiples_vanish(i + k - n - m, n);
    }
}

/// `((i - k) % n + m) % n` is `(i - k + m) % n`.
proof fn lemma_mod_sum(i: int, k: int, m: int, n: int)
    requires
        n > 0,
        0 <= i < n,
        0 <= k <= n,
    ensures
        ((i - k) % n + m) % n == (i - k + m) % n,
{
    lemma_wrap(i - k, n);
    if i - k < 0 {
        vstd::arithmetic::div_mod::lemma_mod_add_multiples_vanish(i - k + m, n);
    }
}

/// From an enabled input, moving the focus forward then back comes back to
/// it.
pub proof fn lemma_prev_undoes_next(en: Seq<bool>, i: int)
    requires
        0 <= i < en.len(),
        en[i],
    ensures
        next_enabled(en, i) matches Some(j) && prev_enabled(en, j) == Some(i),
{
    let n = en.len() as int;
    lemma_wrap(i + n, n);
    lemma_forward_shape(en, i, 1);
    assert(en[(i + n) % n]);
    let p = next_enabled(en, i).unwrap();
    let k = choose|k: int| #[trigger] first_forward(en, i, 1, k) && p == (i + k) % n;
    assert forall|m: int| 1 <= m < k implies !#[trigger] en[(p - m) % n] by {
        lemma_mod_diff(i, k, m, n);
        assert(first_forward(en, i, 1, k));
        assert(!en[(i + (k - m)) % n]);
    }
    lemma_mod_diff(i, k, k, n);
    lemma_wrap(i, n);
    assert(first_backward(en, p, 1, k));
    lemma_backward_some(en, p, 1, k);
}

/// From an enabled input, moving the focus back then forward comes back to
/// it.
pub proof fn lemma_next_undoes_prev(en: Seq<bool>, i: int)
    requires
        0 <= i < en.len(),
        en[i],
    ensures
        prev_enabled(en, i) matches Some(j) && next_enabled(en, j) == Some(i),
{
    let n = en.len() as int;
    lemma_wrap(i - n, n);
    lemma_backward_shape(en, i, 1);
    assert(en[(i - n) % n]);
    let p = prev_enabled(en, i).unwrap();
    let k = choose|k: int| #[trigger] first_backward(en, i, 1, k) && p == (i - k) % n;
    assert forall|m: int| 1 <= m < k implies !#[trigger] en[(p + m) % n] by {
        lemma_mod_sum(i, k, m, n);
        assert(first_backward(en, i, 1, k));
        assert(!en[(i - (k - m)) % n]);
    }
    lemma_mod_sum(i, k, k, n);
    lemma_wrap(i, n);
    assert(first_forward(en, p, 1, k));
    lemma_forward_some(en, p, 1, k);
}

/// The inputs of a form, in order, each with its tag and whether it can
/// take the focus, and the place of the one that has it.
pub struct FocusManager<T> {
    tags: Vec<T>,
    enabled: Vec<bool>,
    active: Option<usize>,
}

impl<T> Default for FocusManager<T> {
    fn default() -> (f: FocusManager<T>)
        ensures
            f.wf(),
            f.spec_tags().len() == 0,
            f.spec_active() is None,
    {
        FocusManager { tags: Vec::new(), enabled: Vec::new(), active: None }
    }
}

impl<T> FocusManager<T> {
    /// The tags of the inputs, in order.
    pub closed spec fn spec_tags(&self) -> Seq<T> {
        self.tags@
    }

    /// Whether each input can take the focus.
    pub closed spec fn spec_enabled(&self) -> Seq<bool> {
        self.enabled@
    }

    /// The place of the input that has the focus.
    pub closed spec fn spec_active(&self) -> Option<int> {
        match self.active {
            Some(i) => Some(i as int),
            None => None,
        }
    }

    /// There is a flag for each input, and the focus is on one of them.
    pub open spec fn wf(&self) -> bool {
        &&& self.spec_tags().len() == self.spec_enabled().len()
        &&& self.spec_active() matches Some(i) ==> 0 <= i < self.spec_enabled().len()
    }

    /// The tag of the input that has the focus.
    pub open spec fn focused_tag(&self) -> Option<T> {
        match self.spec_active() {
            Some(i) => Some(self.spec_tags()[i]),
            None => None,
        }
    }

    /// The place of the input that has the focus.
    pub fn active(&self) -> (a: Option<usize>)
        ensures
            match a {
                Some(i) => self.spec_active() == Some(i as int),
                None => self.spec_active() is None,
            },
    {
        self.active
    }

    /// Puts the focus on the `focus`-th input (from 0) that can take it;
    /// false, and the focus left as it was, when there are not that many.
    pub fn set_focus(&mut self, focus: usize) -> (b: bool)
        requires
            old(self).wf(),
        ensures
            final(self).wf(),
            final(self).spec_tags() == old(self).spec_tags(),
            final(self).spec_enabled() == old(self).spec_enabled(),
            b == nth_enabled(old(self).spec_enabled(), focus as int) is Some,
            b ==> final(self).spec_active() == nth_enabled(old(self).spec_enabled(), focus as int),
            !b ==> final(self).spec_active() == old(self).spec_active(),
    {
        let n = self.enabled.len();
        let ghost en = self.enabled@;
        let mut seen: usize = 0;
        let mut i: usize = 0;
        while i < n
            invariant
                n == en.len(),
                en == self.enabled@,
                en == old(self).enabled@,
                self.tags@ == old(self).tags@,
                self.tags@.len() == n,
                self.active == old(self).active,
                old(self).wf(),
                i <= n,
                seen <= focus,
                nth_enabled_from(en, 0, focus as int) == nth_enabled_from(en, i as int, focus - seen),
            decreases n - i,
        {
            if self.enabled[i] {
                if seen == focus {
                    self.active = Some(i);
                    return true;
                }
                seen = seen + 1;
            }
            i = i + 1;
        }
        false
    }

    /// Moves the focus to the next input that can take it, going round to
    /// the first after the last; the focus is dropped, and false returned,
    /// when none can. Nothing happens without a focus.
    pub fn next(&mut self) -> (b: bool)
        requires
            old(self).wf(),
        ensures
            final(self).wf(),
            final(self).spec_tags() == old(self).spec_tags(),
            final(self).spec_enabled() == old(self).spec_enabled(),
            match old(self).spec_active() {
                None => !b && final(self).spec_active() is None,
                Some(i) => final(self).spec_active() == next_enabled(old(self).spec_enabled(), i)
                    && b == final(self).spec_active() is Some,
            },
    {
        match self.active {
            None => false,
            Some(idx) => {
                let n = self.enabled.len();
                let ghost en = self.enabled@;
                let mut j: usize = 0;
                while j < n
                    invariant
                        n == en.len(),
                        en == self.enabled@,
                        en == old(self).enabled@,
                        old(self).active == Some(idx),
                        self.tags@ == old(self).tags@,
                        self.tags@.len() == n,
                        idx < n,
                        j <= n,
                        next_enabled(en, idx as int) == forward_from(en, idx as int, j + 1),
                    decreases n - j,
                {
                    let step = j + 1;
                    let p = if step < n - idx {
                        idx + step
                    } else {
                        step - (n - idx)
                    };
                    proof {
                        lemma_wrap(idx + step, n as int);
                    }
                    if self.enabled[p] {
                        self.active = Some(p);
                        return true;
                    }
                    j = j + 1;
                }
                self.active = None;
                false
            },
        }
    }

    /// Moves the focus to the previous input that can take it, going round
    /// to the last before the first; the focus is dropped, and false
    /// returned, when none can. Nothing happens without a focus.
    pub fn prev(&mut self) -> (b: bool)
        requires
            old(self).wf(),
        ensures
            final(self).wf(),
            final(self).spec_tags() == old(self).spec_tags(),
            final(self).spec_enabled() == old(self).spec_enabled(),
            match old(self).spec_active() {
                None => !b && final(self).spec_active() is None,
                Some(i) => final(self).spec_active() == prev_enabled(old(self).spec_enabled(), i)
                    && b == final(self).spec_active() is Some,
            },
    {
        match self.active {
            None => false,
            Some(idx) => {
                let n = self.enabled.len();
                let ghost en = self.enabled@;
                let mut j: usize = 0;
                while j < n
                    invariant
                        n == en.len(),
                        en == self.enabled@,
                        en == old(self).enabled@,
                        old(self).active == Some(idx),
                        self.tags@ == old(self).tags@,
                        self.tags@.len() == n,
                        idx < n,
                        j <= n,
                        prev_enabled(en, idx as int) == backward_from(en, idx as int, j + 1),
                    decreases n - j,
                {
                    let step = j + 1;
                    let p = if step <= idx {
                        idx - step
                    } else {
                        n - (step - idx)
                    };
                    proof {
                        lemma_wrap(idx - step, n as int);
                    }
                    if self.enabled[p] {
                        self.active = Some(p);
                        return true;
                    }
                    j = j + 1;
                }
                self.active = None;
                false
            },
        }
    }
}


impl<T: PartialEq> FocusManager<T> {
    /// Whether the input that has the focus carries `tag`.
    pub fn is_focused(&self, tag: &T) -> (b: bool)
        requires
            self.wf(),
            obeys_concrete_eq::<T>(),
        ensures
            b == (self.focused_tag() == Some(*tag)),
    {
        proof {
            reveal(obeys_concrete_eq);
        }
        match self.active {
            Some(idx) => self.tags[idx] == *tag,
            None => false,
        }
    }

    /// Lets every input carrying `tag` take the focus, then reads the place
    /// of the focus again (see `refocus`).
    pub fn enable(&mut self, tag: &T)
        requires
            old(self).wf(),
            obeys_concrete_eq::<T>(),
        ensures
            final(self).wf(),
            final(self).spec_tags() == old(self).spec_tags(),
            final(self).spec_enabled().len() == old(self).spec_enabled().len(),
            forall|i: int|
                0 <= i < old(self).spec_enabled().len() ==> #[trigger] final(self).spec_enabled()[i]
                    == (old(self).spec_enabled()[i] || old(self).spec_tags()[i] == *tag),
            final(self).spec_active() == refocus(final(self).spec_enabled(), old(self).spec_active()),
    {
        self.set_all(tag, true);
        if let Some(focus) = self.active {
            self.set_focus(focus);
        }
    }

    /// Keeps every input carrying `tag` from taking the focus, then reads
    /// the place of the focus again (see `refocus`).
    pub fn disable(&mut self, tag: &T)
        requires
            old(self).wf(),
            obeys_concrete_eq::<T>(),
        ensures
            final(self).wf(),
            final(self).spec_tags() == old(self).spec_tags(),
            final(self).spec_enabled().len() == old(self).spec_enabled().len(),
            forall|i: int|
                0 <= i < old(self).spec_enabled().len() ==> #[trigger] final(self).spec_enabled()[i]
                    == (old(self).spec_enabled()[i] && old(self).spec_tags()[i] != *tag),
            final(self).spec_active() == refocus(final(self).spec_enabled(), old(self).spec_active()),
    {
        self.set_all(tag, false);
        if let Some(focus) = self.active {
            self.set_focus(focus);
        }
    }

    /// Sets the flag of every input carrying `tag` to `on`.
    fn set_all(&mut self, tag: &T, on: bool)
        requires
            old(self).wf(),
            obeys_concrete_eq::<T>(),
        ensures
            final(self).wf(),
            final(self).spec_tags() == old(self).spec_tags(),
            final(self).spec_active() == old(self).spec_active(),
            final(self).spec_enabled().len() == old(self).spec_enabled().len(),
            forall|i: int|
                0 <= i < old(self).spec_enabled().len() ==> #[trigger] final(self).spec_enabled()[i]
                    == if old(self).spec_tags()[i] == *tag {
                    on
                } else {
                    old(self).spec_enabled()[i]
                },
    {
        proof {
            reveal(obeys_concrete_eq);
        }
        let n = self.enabled.len();
        let mut i: usize = 0;
        while i < n
            invariant
                n == old(self).enabled@.len(),
                self.enabled@.len() == n,
                self.tags@ == old(self).tags@,
                self.active == old(self).active,
                old(self).wf(),
                T::obeys_eq_spec(),
                forall|t: T, u: T| t.eq_spec(&u) <==> t == u,
                i <= n,
                forall|k: int|
                    0 <= k < n ==> #[trigger] self.enabled@[k] == if k < i && old(self).tags@[k] == *tag {
                        on
                    } else {
                        old(self).enabled@[k]
                    },
            decreases n - i,
        {
            if self.tags[i] == *tag {
                self.enabled.set(i, on);
            }
            i = i + 1;
        }
    }

    /// Keeps every input whose tag `condition` accepts from taking the
    /// focus; the place of the focus stays as it is.
    pub fn disable_if<F: Fn(&T) -> bool>(&mut self, condition: F)
        requires
            old(self).wf(),
            forall|t: T| condition.requires((&t,)),
        ensures
            final(self).wf(),
            final(self).spec_tags() == old(self).spec_tags(),
            final(self).spec_active() == old(self).spec_active(),
            final(self).spec_enabled().len() == old(self).spec_enabled().len(),
            forall|i: int|
                0 <= i < old(self).spec_enabled().len() ==> cleared_by(
                    condition,
                    old(self).spec_tags()[i],
                    old(self).spec_enabled()[i],
                    #[trigger] final(self).spec_enabled()[i],
                ),
    {
        let n = self.enabled.len();
        let mut i: usize = 0;
        while i < n
            invariant
                n == old(self).enabled@.len(),
                self.enabled@.len() == n,
                self.tags@ == old(self).tags@,
                self.active == old(self).active,
                old(self).wf(),
                forall|t: T| condition.requires((&t,)),
                i <= n,
                forall|k: int|
                    i <= k < n ==> #[trigger] self.enabled@[k] == old(self).enabled@[k],
                forall|k: int|
                    0 <= k < i ==> cleared_by(
                        condition,
                        old(self).tags@[k],
                        old(self).enabled@[k],
                        #[trigger] self.enabled@[k],
                    ),
            decreases n - i,
        {
            let hit = condition(&self.tags[i]);
            if hit {
                self.enabled.set(i, false);
            }
            assert(cleared_by(condition, old(self).tags@[i as int], old(self).enabled@[i as int], self.enabled@[i as int]));
            i = i + 1;
        }
    }

    /// A child for an input already in the form, which is let take the
    /// focus (see `enable`).
    pub fn new_from_existing(&mut self, tag: T) -> (b: FocusableBuilder<T>)
        requires
            old(self).wf(),
            obeys_concrete_eq::<T>(),
        ensures
            final(self).wf(),
            final(self).spec_tags() == old(self).spec_tags(),
            final(self).spec_enabled().len() == old(self).spec_enabled().len(),
            forall|i: int|
                0 <= i < old(self).spec_enabled().len() ==> #[trigger] final(self).spec_enabled()[i]
                    == (old(self).spec_enabled()[i] || old(self).spec_tags()[i] == tag),
            final(self).spec_active() == refocus(final(self).spec_enabled(), old(self).spec_active()),
            b.spec_tag() == tag,
    {
        self.enable(&tag);
        FocusableBuilder { tag }
    }

    /// Hands `ev` to each of the targets that carry the tag of the input
    /// that has the focus, in order, each getting what the one before handed
    /// back, and stops when one uses it. Without a focus, or with no such
    /// target, the event is handed back unused.
    pub fn handle_ev<'t, E>(&self, ev: E, targets: Vec<&'t mut dyn TaggedEventful<T, E>>) -> (r: Option<E>)
        requires
            self.wf(),
            obeys_concrete_eq::<T>(),
        ensures
            passed_along(targets@, self.focused_tag(), 0, ev, r),
            self.spec_active() is None ==> r == Some(ev),
            (forall|i: int|
                0 <= i < targets@.len() ==> Some((*#[trigger] targets@[i]).tag_spec())
                    != self.focused_tag()) ==> r == Some(ev),
    {
        proof {
            reveal(obeys_concrete_eq);
        }
        let focused = match self.active {
            Some(idx) => &self.tags[idx],
            None => {
                proof {
                    lemma_passed_along_unfocused(targets@, 0, ev);
                }
                return Some(ev);
            },
        };
        let ghost initial = targets@;
        let mut cur = ev;
        let mut ts = targets;
        let n = ts.len();
        let mut i: usize = 0;
        while i < n
            invariant
                n == ts@.len(),
                i <= n,
                T::obeys_eq_spec(),
                forall|t: T, u: T| t.eq_spec(&u) <==> t == u,
                Some(*focused) == self.focused_tag(),
                initial == targets@,
                initial.len() == n,
                (forall|k: int| 0 <= k < n ==> Some((*#[trigger] initial[k]).tag_spec()) != self.focused_tag())
                    ==> cur == ev,
                forall|k: int| i <= k < n ==> #[trigger] ts@[k] == initial[k],
                forall|x: Option<E>|
                    #[trigger] passed_along(initial, self.focused_tag(), i as int, cur, x) ==> passed_along(
                        initial,
                        self.focused_tag(),
                        0,
                        ev,
                        x,
                    ),
            decreases n - i,
        {
            let ghost here = cur;
            let target = &mut ts[i];
            if target.get_tag() == focused {
                assert(Some((*initial[i as int]).tag_spec()) == self.focused_tag());
                match target.handle_ev(cur) {
                    Some(e) => {
                        assert forall|x: Option<E>|
                            #[trigger] passed_along(initial, self.focused_tag(), i + 1, e, x) implies passed_along(
                                initial,
                                self.focused_tag(),
                                i as int,
                                here,
                                x,
                            ) by {
                            assert((*initial[i as int]).answers(here, Some(e)));
                        }
                        cur = e;
                    },
                    None => {
                        assert((*initial[i as int]).answers(here, None));
                        assert(passed_along(initial, self.focused_tag(), i as int, here, None));
                        return None;
                    },
                }
            } else {
                assert forall|x: Option<E>|
                    #[trigger] passed_along(initial, self.focused_tag(), i + 1, here, x) implies passed_along(
                        initial,
                        self.focused_tag(),
                        i as int,
                        here,
                        x,
                    ) by {}
            }
            i = i + 1;
        }
        assert(passed_along(initial, self.focused_tag(), n as int, cur, Some(cur)));
        Some(cur)
    }
}

impl<T: Clone> FocusManager<T> {
    /// Adds an input that can take the focus, and gives its child.
    pub fn new_child(&mut self, tag: T) -> (b: FocusableBuilder<T>)
        requires
            old(self).wf(),
        ensures
            final(self).wf(),
            final(self).spec_tags().len() == old(self).spec_tags().len() + 1,
            final(self).spec_tags().drop_last() == old(self).spec_tags(),
            cloned::<T>(tag, final(self).spec_tags().last()),
            final(self).spec_enabled() == old(self).spec_enabled().push(true),
            final(self).spec_active() == old(self).spec_active(),
            b.spec_tag() == tag,
    {
        self.push_chunk(tag, true)
    }

    /// Adds an input that cannot take the focus until it is enabled, and
    /// gives its child.
    pub fn new_hidden_child(&mut self, tag: T) -> (b: FocusableBuilder<T>)
        requires
            old(self).wf(),
        ensures
            final(self).wf(),
            final(self).spec_tags().len() == old(self).spec_tags().len() + 1,
            final(self).spec_tags().drop_last() == old(self).spec_tags(),
            cloned::<T>(tag, final(self).spec_tags().last()),
            final(self).spec_enabled() == old(self).spec_enabled().push(false),
            final(self).spec_active() == old(self).spec_active(),
            b.spec_tag() == tag,
    {
        self.push_chunk(tag, false)
    }

    /// Adds an input with the given flag.
    fn push_chunk(&mut self, tag: T, enabled: bool) -> (b: FocusableBuilder<T>)
        requires
            old(self).wf(),
        ensures
            final(self).wf(),
            final(self).spec_tags().len() == old(self).spec_tags().len() + 1,
            final(self).spec_tags().drop_last() == old(self).spec_tags(),
            cloned::<T>(tag, final(self).spec_tags().last()),
            final(self).spec_enabled() == old(self).spec_enabled().push(enabled),
            final(self).spec_active() == old(self).spec_active(),
            b.spec_tag() == tag,
    {
        let copy = tag.clone();
        self.tags.push(copy);
        self.enabled.push(enabled);
        proof {
            assert(self.tags@.drop_last() =~= old(self).tags@);
        }
        FocusableBuilder { tag }
    }
}

/// The child of a form's input, before its state is given.
pub struct FocusableBuilder<T> {
    tag: T,
}

impl<T> FocusableBuilder<T> {
    /// The tag of the input.
    pub closed spec fn spec_tag(&self) -> T {
        self.tag
    }

    /// The child with its state.
    pub fn with_state<S>(self, state: S) -> (f: Focusable<T, S>)
        ensures
            f.spec_tag() == self.spec_tag(),
            f.spec_state() == state,
    {
        Focusable { tag: self.tag, state }
    }
}

/// The state of one of a form's inputs, with the tag it is known by.
pub struct Focusable<T, S> {
    tag: T,
    pub state: S,
}

impl<T, S> Focusable<T, S> {
    /// The tag of the input.
    pub closed spec fn spec_tag(&self) -> T {
        self.tag
    }

    /// The state of the input.
    pub closed spec fn spec_state(&self) -> S {
        self.state
    }

    /// The state, given up.
    pub fn into_inner(self) -> (s: S)
        ensures
            s == self.spec_state(),
    {
        self.state
    }
}

impl<T, S> core::ops::Deref for Focusable<T, S> {
    type Target = S;

    fn deref(&self) -> (s: &S)
        ensures
            *s == self.spec_state(),
    {
        &self.state
    }
}

impl<T: PartialEq, S> Focusable<T, S> {
    /// Whether this input has the focus.
    pub fn has_focus(&self, fmanager: &FocusManager<T>) -> (b: bool)
        requires
            fmanager.wf(),
            obeys_concrete_eq::<T>(),
        ensures
            b == (fmanager.focused_tag() == Some(self.spec_tag())),
    {
        fmanager.is_focused(&self.tag)
    }
}

impl<T, S> TaggedState<T> for Focusable<T, S> {
    open spec fn tag_spec(&self) -> T {
        self.spec_tag()
    }

    fn get_tag(&self) -> (t: &T) {
        &self.tag
    }
}

impl<E, T, S: EventfulState<E>> EventfulState<E> for Focusable<T, S> {
    /// The answers of the state.
    open spec fn answers(&self, event: E, result: Option<E>) -> bool {
        self.spec_state().answers(event, result)
    }

    /// The state takes the event.
    fn handle_ev(&mut self, event: E) -> (r: Option<E>)
        ensures
            old(self).spec_state().answers(event, r),
            final(self).spec_tag() == old(self).spec_tag(),
    {
        self.state.handle_ev(event)
    }
}


/// `a - b`, or 0 when `b` is larger.
pub open spec fn sat_sub(a: int, b: int) -> int {
    if a > b {
        a - b
    } else {
        0
    }
}

/// `a + b`, or the largest `usize` when that is larger.
pub open spec fn sat_add(a: int, b: int) -> int {
    if a + b > usize::MAX {
        usize::MAX as int
    } else {
        a + b
    }
}

/// The first line shown after a key: up and down move one line, page up
/// and page down twenty, without going above the top or past the largest
/// `usize`.
pub open spec fn scrolled(offset: int, code: KeyName) -> int {
    match code {
        KeyName::Up => sat_sub(offset, 1),
        KeyName::Down => sat_add(offset, 1),
        KeyName::PageUp => sat_sub(offset, 20),
        KeyName::PageDown => sat_add(offset, 20),
        _ => offset,
    }
}

/// How far a long text is scrolled down, in lines.
pub struct Scroll {
    scroll_y: usize,
}

impl Scroll {
    /// The first line shown.
    pub closed spec fn spec_offset(&self) -> int {
        self.scroll_y as int
    }

    /// A text shown from its top.
    pub fn new() -> (s: Scroll)
        ensures
            s.spec_offset() == 0,
    {
        Scroll { scroll_y: 0 }
    }

    /// The first line shown.
    pub fn offset(&self) -> (o: usize)
        ensures
            o == self.spec_offset(),
    {
        self.scroll_y
    }

    /// The first line shown, as the terminal takes it: the offset cut to
    /// sixteen bits.
    pub fn top_line(&self) -> (t: u16)
        ensures
            t == self.spec_offset() % 65536,
    {
        let y = self.scroll_y;
        let t = y as u16;
        assert(t == y % 65536) by (bit_vector)
            requires
                t == y as u16,
        ;
        t
    }
}

impl<R> EventfulState<KeyInput<R>> for Scroll {
    /// Up, down, page up and page down are used; other keys handed back.
    open spec fn answers(&self, event: KeyInput<R>, result: Option<KeyInput<R>>) -> bool {
        if event.key.code == KeyName::Up || event.key.code == KeyName::Down || event.key.code
            == KeyName::PageUp || event.key.code == KeyName::PageDown {
            result is None
        } else {
            result == Some(event)
        }
    }

    /// Up, down, page up and page down move the text (see `scrolled`);
    /// other keys are handed back.
    fn handle_ev(&mut self, event: KeyInput<R>) -> (r: Option<KeyInput<R>>)
        ensures
            final(self).spec_offset() == scrolled(old(self).spec_offset(), event.key.code),
            r is None <==> (event.key.code == KeyName::Up || event.key.code == KeyName::Down || event.key.code
                == KeyName::PageUp || event.key.code == KeyName::PageDown),
            r is Some ==> r == Some(event),
    {
        match event.key.code {
            KeyName::Up => {
                self.scroll_y = self.scroll_y.saturating_sub(1);
            },
            KeyName::Down => {
                self.scroll_y = self.scroll_y.saturating_add(1);
            },
            KeyName::PageUp => {
                self.scroll_y = self.scroll_y.saturating_sub(20);
            },
            KeyName::PageDown => {
                self.scroll_y = self.scroll_y.saturating_add(20);
            },
            _ => {
                return Some(event);
            },
        }
        None
    }
}

/// How a list of choices was left: not yet, with a choice, or cancelled.
#[derive(Debug, Clone, Copy, PartialEq, Eq, Structural)]
pub enum ChoiceWidgetExit {
    NoExit,
    Chosen,
    Cancelled,
}

impl Default for ChoiceWidgetExit {
    fn default() -> (e: ChoiceWidgetExit)
        ensures
            e == ChoiceWidgetExit::NoExit,
    {
        ChoiceWidgetExit::NoExit
    }
}

/// What a key does in a list of choices.
#[derive(Debug, Clone, Copy, PartialEq, Eq, Structural)]
pub enum ChoiceKey {
    /// Moves the selection up one.
    ScrollUp,
    /// Moves the selection down one.
    ScrollDown,
    /// Takes the selected choice.
    Choose,
    /// Leaves without a choice.
    Cancel,
    /// Is not used by the list.
    Pass,
}

/// What `k` does in a list of choices: up and down move the selection,
/// enter chooses, control-c cancels, and other keys are not used.
pub open spec fn choice_key_spec(k: KeyPress) -> ChoiceKey {
    if k.code == KeyName::Up {
        ChoiceKey::ScrollUp
    } else if k.code == KeyName::Down {
        ChoiceKey::ScrollDown
    } else if k.code == KeyName::Enter {
        ChoiceKey::Choose
    } else if is_ctrl_char(k, 'c') {
        ChoiceKey::Cancel
    } else {
        ChoiceKey::Pass
    }
}

/// What a key does in a list of choices.
pub fn choice_key(k: &KeyPress) -> (c: ChoiceKey)
    ensures
        c == choice_key_spec(*k),
{
    match k.code {
        KeyName::Up => ChoiceKey::ScrollUp,
        KeyName::Down => ChoiceKey::ScrollDown,
        KeyName::Enter => ChoiceKey::Choose,
        KeyName::Char(ch) => {
            if ch == 'c' && k.modifiers == CONTROL {
                ChoiceKey::Cancel
            } else {
                ChoiceKey::Pass
            }
        },
        _ => ChoiceKey::Pass,
    }
}

/// How a list of choices stands after `k`: choosing and cancelling end it,
/// other keys leave it as it was.
pub open spec fn exit_after(exit: ChoiceWidgetExit, k: KeyPress) -> ChoiceWidgetExit {
    match choice_key_spec(k) {
        ChoiceKey::Choose => ChoiceWidgetExit::Chosen,
        ChoiceKey::Cancel => ChoiceWidgetExit::Cancelled,
        _ => exit,
    }
}

/// How a list of choices stands after a key.
pub fn exit_after_key(exit: ChoiceWidgetExit, k: &KeyPress) -> (e: ChoiceWidgetExit)
    ensures
        e == exit_after(exit, *k),
{
    match choice_key(k) {
        ChoiceKey::Choose => ChoiceWidgetExit::Chosen,
        ChoiceKey::Cancel => ChoiceWidgetExit::Cancelled,
        _ => exit,
    }
}

/// What settling a word that clashes with stored ones comes to after a key.
#[derive(Debug, Clone, Copy, PartialEq, Eq, Structural)]
pub enum ConflictStep {
    /// Nothing yet; keep asking.
    Continue,
    /// Replace the selected stored word with the new one.
    Save,
    /// Leave this word aside.
    Dismiss,
    /// Leave this and all the remaining words aside.
    CancelAll,
}

/// The step after a key: control-x that the list did not use leaves
/// everything aside, then a choice saves and a cancel dismisses.
pub open spec fn conflict_step_spec(unused: Option<KeyPress>, exit: ChoiceWidgetExit) -> ConflictStep {
    if unused matches Some(k) && is_ctrl_char(k, 'x') {
        ConflictStep::CancelAll
    } else {
        match exit {
            ChoiceWidgetExit::NoExit => ConflictStep::Continue,
            ChoiceWidgetExit::Cancelled => ConflictStep::Dismiss,
            ChoiceWidgetExit::Chosen => ConflictStep::Save,
        }
    }
}

/// The step after a key, from what the list did not use and how it stands.
pub fn conflict_step(unused: Option<KeyPress>, exit: ChoiceWidgetExit) -> (s: ConflictStep)
    ensures
        s == conflict_step_spec(unused, exit),
{
    if let Some(k) = unused {
        if let KeyName::Char(ch) = k.code {
            if ch == 'x' && k.modifiers == CONTROL {
                return ConflictStep::CancelAll;
            }
        }
    }
    match exit {
        ChoiceWidgetExit::NoExit => ConflictStep::Continue,
        ChoiceWidgetExit::Cancelled => ConflictStep::Dismiss,
        ChoiceWidgetExit::Chosen => ConflictStep::Save,
    }
}

} // verus!

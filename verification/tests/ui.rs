use ord::lang::{POSType, ParticleCategory};
use ord::ui::{
    choice_key, exit_after_key, conflict_step, Area, ChoiceKey, ChoiceWidgetExit, DropdownState, EmptyWidget,
    EventfulState, FocusManager, KeyInput, KeyName, KeyPress, ConflictStep, Scroll, TaggedEventful,
    TaggedState, CONTROL, SHIFT,
};

fn key(code: KeyName) -> KeyPress {
    KeyPress::new(code, 0)
}

fn ev(code: KeyName) -> KeyInput<u8> {
    KeyInput { key: key(code), raw: 7 }
}

fn back(r: Option<KeyInput<u8>>) -> Option<(KeyPress, u8)> {
    r.map(|e| (e.key, e.raw))
}

fn kinds() -> DropdownState<POSType> {
    DropdownState::new(vec![POSType::Noun, POSType::Descriptor, POSType::Verb, POSType::Particle])
}

#[test]
fn dropdown_starts_closed_and_changed() {
    let mut d = kinds();
    assert_eq!(*d.get(), POSType::Noun);
    assert!(!d.is_open());
    assert!(d.changed());
    assert!(!d.changed());
}

#[test]
fn dropdown_wraps_round() {
    let mut d = kinds();
    d.prev();
    assert_eq!(*d.get(), POSType::Particle);
    d.next();
    assert_eq!(*d.get(), POSType::Noun);
    d.next();
    d.next();
    d.next();
    d.next();
    assert_eq!(*d.get(), POSType::Noun);
    assert!(d.changed());
}

#[test]
fn dropdown_keys() {
    let mut d = kinds();
    assert!(d.handle_ev(ev(KeyName::Down)).is_none());
    assert_eq!(d.choice(), 0);
    assert!(d.handle_ev(ev(KeyName::Enter)).is_none());
    assert!(d.is_open());
    assert!(d.handle_ev(ev(KeyName::Down)).is_none());
    assert_eq!(*d.get(), POSType::Descriptor);
    assert!(d.handle_ev(ev(KeyName::Up)).is_none());
    assert!(d.handle_ev(ev(KeyName::Up)).is_none());
    assert_eq!(*d.get(), POSType::Particle);
    assert_eq!(back(d.handle_ev(ev(KeyName::Tab))), Some((key(KeyName::Tab), 7)));
    assert!(d.handle_ev(ev(KeyName::Enter)).is_none());
    assert!(!d.is_open());
}

#[test]
fn dropdown_closes_without_focus() {
    let mut d = kinds();
    d.handle_ev(ev(KeyName::Enter));
    d.close_unless(true);
    assert!(d.is_open());
    d.close_unless(false);
    assert!(!d.is_open());
}

#[test]
fn dropdown_initial_choice() {
    let d = kinds().with_initial(|t| *t == POSType::Verb);
    assert_eq!(*d.get(), POSType::Verb);
    let d = kinds().with_initial(|_| true);
    assert_eq!(d.choice(), 0);
}

#[test]
fn dropdown_line_width() {
    assert_eq!(kinds().line_width(), 12);
    let cats = DropdownState::new(vec![ParticleCategory::Article, ParticleCategory::Miscellaneous]);
    assert_eq!(cats.line_width(), 15);
    let none: DropdownState<POSType> = DropdownState::new(Vec::new());
    assert_eq!(none.line_width(), 2);
    assert_eq!(kinds().limit_width(40), 12);
    assert_eq!(kinds().limit_width(5), 5);
}

#[test]
fn dropdown_area_no_wider_than_its_lines() {
    let area = Area { x: 3, y: 4, width: 40, height: 2 };
    assert_eq!(kinds().limit_area_width(area), Area { x: 3, y: 4, width: 12, height: 2 });
    let narrow = Area { x: 0, y: 1, width: 5, height: 1 };
    assert_eq!(kinds().limit_area_width(narrow), narrow);
}

fn form() -> FocusManager<u8> {
    let mut f: FocusManager<u8> = FocusManager::default();
    f.new_child(10);
    f.new_child(11);
    f.new_hidden_child(12);
    f.new_child(13);
    f
}

#[test]
fn focus_set_counts_enabled_inputs() {
    let mut f = form();
    assert_eq!(f.active(), None);
    assert!(f.set_focus(2));
    assert_eq!(f.active(), Some(3));
    assert!(!f.set_focus(3));
    assert_eq!(f.active(), Some(3));
    assert!(f.is_focused(&13));
}

#[test]
fn focus_next_and_prev_skip_hidden() {
    let mut f = form();
    f.set_focus(1);
    assert!(f.next());
    assert_eq!(f.active(), Some(3));
    assert!(f.next());
    assert_eq!(f.active(), Some(0));
    assert!(f.prev());
    assert_eq!(f.active(), Some(3));
    assert!(f.prev());
    assert_eq!(f.active(), Some(1));
}

#[test]
fn focus_without_focus() {
    let mut f = form();
    assert!(!f.next());
    assert!(!f.prev());
    assert_eq!(f.active(), None);
}

#[test]
fn focus_dropped_when_nothing_enabled() {
    let mut f: FocusManager<u8> = FocusManager::default();
    f.new_child(1);
    f.set_focus(0);
    f.disable_if(|_| true);
    assert_eq!(f.active(), Some(0));
    assert!(!f.next());
    assert_eq!(f.active(), None);
}

#[test]
fn focus_enable_and_disable() {
    let mut f = form();
    f.set_focus(0);
    f.enable(&12);
    assert!(f.set_focus(2));
    assert_eq!(f.active(), Some(2));
    f.disable(&11);
    assert_eq!(f.active(), Some(3));
    let b = f.new_from_existing(11);
    let child = b.with_state(());
    assert!(!child.has_focus(&f));
    assert_eq!(*child.get_tag(), 11);
}

struct Counter {
    seen: u32,
    keep: bool,
}

impl EventfulState<u32> for Counter {
    fn handle_ev(&mut self, event: u32) -> Option<u32> {
        self.seen += event;
        if self.keep {
            Some(event + 1)
        } else {
            None
        }
    }
}

#[test]
fn focus_routes_events_by_tag() {
    let mut f = form();
    let mut a = f.new_child(20).with_state(Counter { seen: 0, keep: true });
    let mut b = f.new_child(21).with_state(Counter { seen: 0, keep: false });
    let mut c = f.new_child(20).with_state(Counter { seen: 0, keep: true });
    assert_eq!(f.handle_ev(5, vec![&mut a as &mut dyn TaggedEventful<u8, u32>]), Some(5));
    f.set_focus(3);
    assert_eq!(*f.active().as_ref().unwrap(), 4);
    let out = f.handle_ev(
        5,
        vec![
            &mut a as &mut dyn TaggedEventful<u8, u32>,
            &mut b as &mut dyn TaggedEventful<u8, u32>,
            &mut c as &mut dyn TaggedEventful<u8, u32>,
        ],
    );
    assert_eq!(out, Some(6 + 1));
    assert_eq!(a.state.seen, 5);
    assert_eq!(b.state.seen, 0);
    assert_eq!(c.state.seen, 6);
    assert_eq!(c.into_inner().seen, 6);
}

#[test]
fn empty_widget_hands_events_back() {
    let mut w = EmptyWidget {};
    assert_eq!(w.handle_ev(3u8), Some(3));
}

#[test]
fn scrolling() {
    let mut s = Scroll::new();
    assert!(s.handle_ev(ev(KeyName::Up)).is_none());
    assert_eq!(s.offset(), 0);
    s.handle_ev(ev(KeyName::PageDown));
    s.handle_ev(ev(KeyName::Down));
    assert_eq!(s.offset(), 21);
    s.handle_ev(ev(KeyName::PageUp));
    assert_eq!(s.offset(), 1);
    assert_eq!(s.top_line(), 1);
    assert_eq!(back(s.handle_ev(ev(KeyName::Enter))), Some((key(KeyName::Enter), 7)));
}

#[test]
fn choice_keys() {
    assert_eq!(choice_key(&key(KeyName::Up)), ChoiceKey::ScrollUp);
    assert_eq!(choice_key(&KeyPress::new(KeyName::Down, SHIFT)), ChoiceKey::ScrollDown);
    assert_eq!(choice_key(&key(KeyName::Enter)), ChoiceKey::Choose);
    assert_eq!(choice_key(&KeyPress::new(KeyName::Char('c'), CONTROL)), ChoiceKey::Cancel);
    assert_eq!(choice_key(&key(KeyName::Char('c'))), ChoiceKey::Pass);
    assert_eq!(
        exit_after_key(ChoiceWidgetExit::default(), &key(KeyName::Enter)),
        ChoiceWidgetExit::Chosen
    );
    assert_eq!(
        exit_after_key(ChoiceWidgetExit::NoExit, &key(KeyName::Up)),
        ChoiceWidgetExit::NoExit
    );
}

#[test]
fn conflict_steps() {
    let ctrl_x = KeyPress::new(KeyName::Char('x'), CONTROL);
    assert_eq!(conflict_step(Some(ctrl_x), ChoiceWidgetExit::Chosen), ConflictStep::CancelAll);
    assert_eq!(conflict_step(None, ChoiceWidgetExit::Chosen), ConflictStep::Save);
    assert_eq!(conflict_step(None, ChoiceWidgetExit::Cancelled), ConflictStep::Dismiss);
    assert_eq!(conflict_step(Some(key(KeyName::Tab)), ChoiceWidgetExit::NoExit), ConflictStep::Continue);
}

use cosmic_workspaces::focus::mru_focus_excluding;
use cosmic_workspaces::store::SpecialStore;

#[test]
fn toggle_hidden_special_makes_it_visible() {
    let mut store = SpecialStore::<char>::default();
    assert!(!store.shown());
    store.set_shown(true);
    assert!(store.shown());
}

#[test]
fn toggle_visible_special_hides_it() {
    let mut store = SpecialStore::<char>::default();
    store.set_shown(true);
    store.set_shown(false);
    assert!(!store.shown());
}

#[test]
fn hidden_special_retains_windows() {
    let mut store = SpecialStore::<char>::default();
    store.send('a');
    store.set_shown(true);
    store.set_shown(false);
    assert!(store.contains(&'a'));
}

#[test]
fn send_does_not_duplicate_windows() {
    let mut store = SpecialStore::<char>::default();
    store.send('a');
    store.send('a');
    assert_eq!(store.entries().iter().count(), 1);
}

#[test]
fn drop_dead_keeps_only_alive_windows() {
    let mut store = SpecialStore::<char>::default();
    store.send('a');
    store.send('b');
    store.retain(|c| *c != 'a');
    assert!(!store.contains(&'a'));
    assert!(store.contains(&'b'));
}

#[test]
fn showing_an_empty_special_is_a_no_op() {
    let mut store = SpecialStore::<char>::default();
    store.set_shown(true);
    assert!(store.is_empty());
}

#[test]
fn take_removes_window_from_slot() {
    let mut store = SpecialStore::<char>::default();
    store.send('a');
    assert_eq!(store.take(&'a'), Some('a'));
    assert!(!store.contains(&'a'));
}

#[test]
fn slots_are_independent() {
    // Two stores side by side never share visibility or entries: this is the
    // invariant the numbered specials rely on.
    let mut first = SpecialStore::<char>::default();
    let second = SpecialStore::<char>::default();
    first.send('a');
    first.set_shown(true);
    assert!(first.shown());
    assert!(!second.shown());
    assert!(!second.contains(&'a'));
}

#[test]
fn focus_restores_to_last_focused_window() {
    let mut store = SpecialStore::<char>::default();
    store.send('a');
    store.send('b');
    store.set_last_focused(&'b');
    assert_eq!(store.focus_to_restore(), Some(&'b'));
}

#[test]
fn focus_restores_to_oldest_entry_without_last_focused() {
    let mut store = SpecialStore::<char>::default();
    store.send('a');
    store.send('b');
    assert_eq!(store.focus_to_restore(), Some(&'a'));
}

#[test]
fn stale_last_focused_falls_back_to_oldest_entry() {
    let mut store = SpecialStore::<char>::default();
    store.send('a');
    store.send('b');
    store.set_last_focused(&'b');
    store.take(&'b');
    assert_eq!(store.focus_to_restore(), Some(&'a'));
}

#[test]
fn take_clears_matching_last_focused() {
    let mut store = SpecialStore::<char>::default();
    store.send('a');
    store.set_last_focused(&'a');
    store.take(&'a');
    assert_eq!(store.focus_to_restore(), None);
}

#[test]
fn mru_focus_skips_special_windows() {
    // MRU order: most recent first. 'b' is parked in a special.
    let mru = ['a', 'b', 'c'];
    let picked = mru_focus_excluding(&mru, |t| *t == 'b');
    assert_eq!(picked, Some(&'a'));
}

#[test]
fn mru_focus_returns_none_when_everything_is_special() {
    let mru = ['a', 'b'];
    let picked = mru_focus_excluding(&mru, |_| true);
    assert_eq!(picked, None);
}

#[test]
fn mru_focus_takes_first_free_window() {
    let mru = ['x', 'y'];
    let picked = mru_focus_excluding(&mru, |_| false);
    assert_eq!(picked, Some(&'x'));
}

#[test]
fn mru_focus_passes_over_excluded_prefix() {
    let mru = ['a', 'b', 'c'];
    assert_eq!(mru_focus_excluding(&mru, |t| *t != 'c'), Some(&'c'));
    assert_eq!(mru_focus_excluding(&mru[..0], |_| false), None);
}

#[test]
fn members_keep_the_order_they_came_in() {
    let mut store = SpecialStore::<char>::default();
    store.send('c');
    store.send('a');
    store.send('b');
    assert_eq!(store.entries(), &['c', 'a', 'b']);
    assert_eq!(store.len(), 3);
    assert_eq!(store.take(&'a'), Some('a'));
    assert_eq!(store.entries(), &['c', 'b']);
    assert_eq!(store.take(&'a'), None);
    assert_eq!(store.len(), 2);
}

#[test]
fn taking_a_sent_window_undoes_the_send() {
    let mut store = SpecialStore::<char>::default();
    store.send('a');
    store.send('b');
    let before = store.entries().to_vec();
    store.send('x');
    assert_eq!(store.take(&'x'), Some('x'));
    assert_eq!(store.entries(), &before[..]);
}

#[test]
fn entry_mut_changes_the_first_match_only() {
    let mut store = SpecialStore::<char>::default();
    store.send('a');
    store.send('b');
    if let Some(entry) = store.entry_mut(&'b') {
        *entry = 'z';
    }
    assert_eq!(store.entries(), &['a', 'z']);
    assert!(store.entry_mut(&'b').is_none());
}

#[test]
fn retain_keeps_a_last_focused_that_is_gone() {
    // A remembered window that is no member any more is not handed out.
    let mut store = SpecialStore::<char>::default();
    store.send('a');
    store.send('b');
    store.set_last_focused(&'b');
    store.retain(|c| *c != 'b');
    assert_eq!(store.focus_to_restore(), Some(&'a'));
    store.send('b');
    assert_eq!(store.focus_to_restore(), Some(&'b'));
}

#[test]
fn taking_another_window_keeps_last_focused() {
    let mut store = SpecialStore::<char>::default();
    store.send('a');
    store.send('b');
    store.set_last_focused(&'b');
    store.take(&'a');
    assert_eq!(store.focus_to_restore(), Some(&'b'));
}

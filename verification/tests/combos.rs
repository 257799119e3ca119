use esperto::combo::{ComboHandler, ComboHandlerSimple};
use esperto::config::{Action, Combo, Config, ModifierDecl};
use esperto::types::{Event, HandlingResult, Kind};
use std::collections::{HashSet, VecDeque};

type Handler = ComboHandlerSimple<u8, u16, VecDeque<Event<u16>>>;

fn group(id: &str, keys: &[u8]) -> ModifierDecl<u8> {
    ModifierDecl { id: id.to_string(), keys: keys.iter().copied().collect::<HashSet<u8>>(), masking: false }
}

fn masking(id: &str, keys: &[u8]) -> ModifierDecl<u8> {
    ModifierDecl { masking: true, ..group(id, keys) }
}

fn action(key: u8, action: Option<u16>, modified: &[(&str, Option<u16>)]) -> Action<u8, u16> {
    Action {
        key,
        action,
        immediate: false,
        modified: modified
            .iter()
            .map(|(id, action)| Combo { modifier: id.to_string(), action: *action })
            .collect(),
        latching: false,
    }
}

fn handler(modifiers: Vec<ModifierDecl<u8>>, actions: Vec<Action<u8, u16>>) -> Handler {
    ComboHandlerSimple::new(&Config { modifiers, actions })
}

fn send(handler: &mut Handler, keycode: u8, kind: Kind, value: i16) -> Vec<(u16, Kind, i16)> {
    assert_eq!(handler.handle(Event { keycode, kind, value }), HandlingResult::Handled);
    let mut said = vec![];
    while let Some(event) = handler.events().pop_front() {
        said.push((event.keycode, event.kind, event.value));
    }
    said
}

fn down(handler: &mut Handler, keycode: u8) -> Vec<(u16, Kind, i16)> {
    send(handler, keycode, Kind::Down, 0)
}

fn up(handler: &mut Handler, keycode: u8) -> Vec<(u16, Kind, i16)> {
    send(handler, keycode, Kind::Up, 0)
}

const CTRL: u8 = 10;
const ALT: u8 = 20;
const WIN: u8 = 30;
const M: u8 = 1;
const I: u8 = 2;
const PLAIN: u16 = 100;
const PREVIOUS: u16 = 101;
const NEXT: u16 = 102;
const STOP: u16 = 103;

fn media() -> Handler {
    handler(
        vec![group("Ctrl", &[CTRL]), group("Alt", &[ALT]), group("CtrlAlt", &[ALT, CTRL])],
        vec![action(
            M,
            Some(PLAIN),
            &[("Ctrl", Some(PREVIOUS)), ("Alt", Some(NEXT)), ("CtrlAlt", Some(STOP))],
        )],
    )
}

#[test]
fn unmodified_key_performs_its_action() {
    let mut h = media();
    assert_eq!(down(&mut h, M), vec![(PLAIN, Kind::Down, 0)]);
    assert_eq!(up(&mut h, M), vec![(PLAIN, Kind::Up, 0)]);
}

#[test]
fn modified_key_performs_its_combo() {
    let mut h = media();
    assert_eq!(down(&mut h, CTRL), vec![]);
    assert_eq!(down(&mut h, M), vec![(PREVIOUS, Kind::Down, 0)]);
    assert_eq!(up(&mut h, M), vec![(PREVIOUS, Kind::Up, 0)]);
    assert_eq!(up(&mut h, CTRL), vec![]);
    assert_eq!(down(&mut h, ALT), vec![]);
    assert_eq!(down(&mut h, M), vec![(NEXT, Kind::Down, 0)]);
    assert_eq!(up(&mut h, M), vec![(NEXT, Kind::Up, 0)]);
}

#[test]
fn order_of_modifiers_does_not_matter() {
    for (first, second) in [(CTRL, ALT), (ALT, CTRL)] {
        let mut h = media();
        assert_eq!(down(&mut h, first), vec![]);
        assert_eq!(down(&mut h, second), vec![]);
        assert_eq!(down(&mut h, M), vec![(STOP, Kind::Down, 0)]);
        assert_eq!(up(&mut h, M), vec![(STOP, Kind::Up, 0)]);
    }
}

#[test]
fn action_key_must_come_last() {
    let mut h = media();
    assert_eq!(down(&mut h, M), vec![(PLAIN, Kind::Down, 0)]);
    assert_eq!(down(&mut h, CTRL), vec![]);
    assert_eq!(up(&mut h, M), vec![(PLAIN, Kind::Up, 0)]);
    assert_eq!(down(&mut h, M), vec![(PREVIOUS, Kind::Down, 0)]);
}

#[test]
fn second_press_does_the_same() {
    let mut h = media();
    down(&mut h, CTRL);
    for _ in 0..3 {
        assert_eq!(down(&mut h, M), vec![(PREVIOUS, Kind::Down, 0)]);
        assert_eq!(up(&mut h, M), vec![(PREVIOUS, Kind::Up, 0)]);
    }
}

#[test]
fn released_group_ends_its_combos() {
    let mut h = media();
    down(&mut h, CTRL);
    down(&mut h, M);
    assert_eq!(up(&mut h, CTRL), vec![(PREVIOUS, Kind::Up, 0)]);
    assert_eq!(up(&mut h, M), vec![]);
    assert_eq!(down(&mut h, M), vec![(PLAIN, Kind::Down, 0)]);
}

#[test]
fn released_group_ends_repeated_combos() {
    let mut h = media();
    down(&mut h, CTRL);
    down(&mut h, M);
    up(&mut h, M);
    down(&mut h, M);
    assert_eq!(up(&mut h, CTRL), vec![(PREVIOUS, Kind::Up, 0)]);
    assert_eq!(up(&mut h, M), vec![]);
}

#[test]
fn larger_group_ends_combos_of_its_subgroups() {
    let mut h = media();
    down(&mut h, CTRL);
    down(&mut h, M);
    assert_eq!(down(&mut h, ALT), vec![(PREVIOUS, Kind::Up, 0)]);
    assert_eq!(up(&mut h, M), vec![]);
    assert_eq!(down(&mut h, M), vec![(STOP, Kind::Down, 0)]);
}

#[test]
fn chain_of_groups_is_taken_over_step_by_step() {
    let mut h = handler(
        vec![group("3", &[1, 2, 3]), group("1", &[1]), group("2", &[1, 2])],
        vec![action(9, Some(90), &[("1", Some(91)), ("2", Some(92)), ("3", Some(93))])],
    );
    down(&mut h, 1);
    assert_eq!(down(&mut h, 9), vec![(91, Kind::Down, 0)]);
    assert_eq!(down(&mut h, 2), vec![(91, Kind::Up, 0)]);
    up(&mut h, 9);
    assert_eq!(down(&mut h, 9), vec![(92, Kind::Down, 0)]);
    assert_eq!(down(&mut h, 3), vec![(92, Kind::Up, 0)]);
    up(&mut h, 9);
    assert_eq!(down(&mut h, 9), vec![(93, Kind::Down, 0)]);
    up(&mut h, 9);
    assert_eq!(up(&mut h, 1), vec![]);
    assert_eq!(down(&mut h, 9), vec![(90, Kind::Down, 0)]);
}

#[test]
fn one_press_may_complete_a_whole_chain() {
    let mut h = handler(
        vec![group("A", &[1]), group("AB", &[1, 2]), group("ABC", &[1, 2, 3])],
        vec![action(9, Some(90), &[("A", Some(91)), ("AB", Some(92)), ("ABC", Some(93))])],
    );
    down(&mut h, 2);
    down(&mut h, 3);
    down(&mut h, 1);
    assert_eq!(down(&mut h, 9), vec![(93, Kind::Down, 0)]);
    assert_eq!(up(&mut h, 3), vec![(93, Kind::Up, 0)]);
    up(&mut h, 9);
    assert_eq!(down(&mut h, 9), vec![(92, Kind::Down, 0)]);
}

#[test]
fn conflicting_groups_nullify() {
    let mut h = handler(
        vec![group("Ctrl", &[CTRL]), group("Alt", &[ALT])],
        vec![action(M, Some(PLAIN), &[("Ctrl", Some(PREVIOUS)), ("Alt", Some(NEXT))])],
    );
    down(&mut h, CTRL);
    down(&mut h, ALT);
    assert_eq!(down(&mut h, M), vec![(PLAIN, Kind::Down, 0)]);
    assert_eq!(up(&mut h, M), vec![(PLAIN, Kind::Up, 0)]);
    up(&mut h, ALT);
    assert_eq!(down(&mut h, M), vec![(PREVIOUS, Kind::Down, 0)]);
}

#[test]
fn overlapping_group_nullifies() {
    // the key has no combo with the overlapping group
    let mut h = handler(
        vec![group("AB", &[1, 2]), group("BC", &[2, 3])],
        vec![action(9, Some(90), &[("AB", Some(91))])],
    );
    down(&mut h, 1);
    down(&mut h, 2);
    assert_eq!(down(&mut h, 9), vec![(91, Kind::Down, 0)]);
    up(&mut h, 9);
    down(&mut h, 3);
    assert_eq!(down(&mut h, 9), vec![(90, Kind::Down, 0)]);
}

#[test]
fn larger_group_without_a_combo_nullifies() {
    let mut h = handler(
        vec![group("A", &[1]), group("AB", &[1, 2])],
        vec![action(9, Some(90), &[("A", Some(91))])],
    );
    down(&mut h, 1);
    down(&mut h, 2);
    assert_eq!(down(&mut h, 9), vec![(90, Kind::Down, 0)]);
}

#[test]
fn independent_groups_work_at_the_same_time() {
    let mut h = handler(
        vec![group("A", &[1]), group("B", &[2])],
        vec![action(8, Some(80), &[("A", Some(81))]), action(9, Some(90), &[("B", Some(91))])],
    );
    down(&mut h, 1);
    down(&mut h, 2);
    assert_eq!(down(&mut h, 8), vec![(81, Kind::Down, 0)]);
    assert_eq!(down(&mut h, 9), vec![(91, Kind::Down, 0)]);
    assert_eq!(up(&mut h, 2), vec![(91, Kind::Up, 0)]);
    assert_eq!(up(&mut h, 8), vec![(81, Kind::Up, 0)]);
}

#[test]
fn latching_combo_outlasts_its_group() {
    let mut walk = action(M, Some(PLAIN), &[("Ctrl", Some(PREVIOUS))]);
    walk.latching = true;
    let mut h = handler(vec![group("Ctrl", &[CTRL])], vec![walk]);
    down(&mut h, CTRL);
    assert_eq!(down(&mut h, M), vec![(PREVIOUS, Kind::Down, 0)]);
    assert_eq!(up(&mut h, CTRL), vec![]);
    assert_eq!(up(&mut h, M), vec![(PREVIOUS, Kind::Up, 0)]);
    assert_eq!(down(&mut h, M), vec![(PLAIN, Kind::Down, 0)]);
}

#[test]
fn masking_group_mutes_what_is_not_a_combo() {
    let mut h = handler(
        vec![masking("Ctrl", &[CTRL])],
        vec![action(M, Some(PLAIN), &[("Ctrl", Some(PREVIOUS))]), action(I, Some(NEXT), &[])],
    );
    down(&mut h, CTRL);
    assert_eq!(down(&mut h, I), vec![]);
    assert_eq!(up(&mut h, I), vec![]);
    // also when the key is pressed again
    assert_eq!(down(&mut h, I), vec![]);
    assert_eq!(up(&mut h, I), vec![]);
    assert_eq!(down(&mut h, M), vec![(PREVIOUS, Kind::Down, 0)]);
    assert_eq!(up(&mut h, M), vec![(PREVIOUS, Kind::Up, 0)]);
    up(&mut h, CTRL);
    assert_eq!(down(&mut h, I), vec![(NEXT, Kind::Down, 0)]);
    // a key that is down before the group goes on
    assert_eq!(down(&mut h, CTRL), vec![]);
    assert_eq!(up(&mut h, I), vec![(NEXT, Kind::Up, 0)]);
}

#[test]
fn larger_group_replaces_a_masking_one() {
    let mut h = handler(
        vec![masking("A", &[1]), masking("B", &[2]), group("AB", &[1, 2])],
        vec![action(9, Some(90), &[])],
    );
    down(&mut h, 1);
    assert_eq!(down(&mut h, 9), vec![]);
    up(&mut h, 9);
    down(&mut h, 2);
    assert_eq!(down(&mut h, 9), vec![(90, Kind::Down, 0)]);
    up(&mut h, 9);
    up(&mut h, 1);
    assert_eq!(down(&mut h, 9), vec![]);
}

#[test]
fn any_masking_group_mutes() {
    // two larger groups replace the first masking group, and another masking group is left
    let mut h = handler(
        vec![masking("A", &[1]), group("AB", &[1, 2]), group("AC", &[1, 3]), masking("D", &[4])],
        vec![action(9, Some(90), &[])],
    );
    for key in [1, 2, 3] {
        down(&mut h, key);
    }
    assert_eq!(down(&mut h, 9), vec![(90, Kind::Down, 0)]);
    up(&mut h, 9);
    down(&mut h, 4);
    assert_eq!(down(&mut h, 9), vec![]);
    up(&mut h, 9);
    up(&mut h, 2);
    up(&mut h, 3);
    up(&mut h, 4);
    assert_eq!(down(&mut h, 9), vec![]);
}

#[test]
fn modifier_key_acts_on_release() {
    let mut h = handler(
        vec![group("Win", &[WIN])],
        vec![action(WIN, Some(300), &[]), action(M, Some(PLAIN), &[("Win", Some(PREVIOUS))])],
    );
    assert_eq!(down(&mut h, WIN), vec![]);
    assert_eq!(up(&mut h, WIN), vec![(300, Kind::Down, 0), (300, Kind::Up, 0)]);
    // not if it was used in a combo
    down(&mut h, WIN);
    assert_eq!(down(&mut h, M), vec![(PREVIOUS, Kind::Down, 0)]);
    assert_eq!(up(&mut h, M), vec![(PREVIOUS, Kind::Up, 0)]);
    assert_eq!(down(&mut h, M), vec![(PREVIOUS, Kind::Down, 0)]);
    assert_eq!(up(&mut h, M), vec![(PREVIOUS, Kind::Up, 0)]);
    assert_eq!(up(&mut h, WIN), vec![]);
    // a key without a combo does not matter
    assert_eq!(down(&mut h, WIN), vec![]);
    assert_eq!(up(&mut h, WIN), vec![(300, Kind::Down, 0), (300, Kind::Up, 0)]);
}

#[test]
fn completed_group_spends_its_keys() {
    let mut h = handler(
        vec![group("CtrlAlt", &[CTRL, ALT])],
        vec![action(CTRL, Some(200), &[]), action(ALT, Some(201), &[])],
    );
    down(&mut h, CTRL);
    down(&mut h, ALT);
    assert_eq!(up(&mut h, CTRL), vec![]);
    assert_eq!(up(&mut h, ALT), vec![]);
    down(&mut h, ALT);
    assert_eq!(up(&mut h, ALT), vec![(201, Kind::Down, 0), (201, Kind::Up, 0)]);
}

#[test]
fn immediate_modifier_key_acts_on_press() {
    let mut win = action(WIN, Some(300), &[]);
    win.immediate = true;
    let mut h = handler(
        vec![group("Win", &[WIN])],
        vec![win, action(M, Some(PLAIN), &[("Win", Some(PREVIOUS))])],
    );
    assert_eq!(down(&mut h, WIN), vec![(300, Kind::Down, 0)]);
    assert_eq!(down(&mut h, M), vec![(PREVIOUS, Kind::Down, 0)]);
    assert_eq!(up(&mut h, WIN), vec![(PREVIOUS, Kind::Up, 0), (300, Kind::Up, 0)]);
    assert_eq!(up(&mut h, M), vec![]);
}

#[test]
fn modifier_key_with_a_combo_of_its_own() {
    let mut h = handler(
        vec![masking("Ctrl", &[CTRL]), group("Win", &[WIN])],
        vec![action(WIN, Some(300), &[("Ctrl", Some(301))])],
    );
    down(&mut h, CTRL);
    assert_eq!(down(&mut h, WIN), vec![]);
    assert_eq!(up(&mut h, WIN), vec![(301, Kind::Down, 0), (301, Kind::Up, 0)]);
    // the combo ends with its group
    down(&mut h, WIN);
    assert_eq!(up(&mut h, CTRL), vec![]);
    assert_eq!(up(&mut h, WIN), vec![]);
    assert_eq!(down(&mut h, WIN), vec![]);
    assert_eq!(up(&mut h, WIN), vec![(300, Kind::Down, 0), (300, Kind::Up, 0)]);
}

#[test]
fn omitted_action_disables() {
    let mut h = handler(
        vec![group("Ctrl", &[CTRL])],
        vec![action(M, Some(PLAIN), &[("Ctrl", None)]), action(I, None, &[("Ctrl", Some(NEXT))])],
    );
    assert_eq!(down(&mut h, I), vec![]);
    assert_eq!(up(&mut h, I), vec![]);
    down(&mut h, CTRL);
    for _ in 0..2 {
        assert_eq!(down(&mut h, M), vec![]);
        assert_eq!(up(&mut h, M), vec![]);
        assert_eq!(down(&mut h, I), vec![(NEXT, Kind::Down, 0)]);
        assert_eq!(up(&mut h, I), vec![(NEXT, Kind::Up, 0)]);
    }
}

#[test]
fn axis_events_carry_their_value() {
    let mut h = media();
    assert_eq!(send(&mut h, M, Kind::AxisUpdate, -7), vec![(PLAIN, Kind::AxisUpdate, -7)]);
    down(&mut h, CTRL);
    assert_eq!(send(&mut h, M, Kind::AxisEngage, 1), vec![(PREVIOUS, Kind::AxisEngage, 1)]);
    assert_eq!(send(&mut h, M, Kind::AxisUpdate, 300), vec![(PREVIOUS, Kind::AxisUpdate, 300)]);
    // from now on the key is latching
    assert_eq!(up(&mut h, CTRL), vec![]);
    assert_eq!(send(&mut h, M, Kind::AxisDisengage, 0), vec![(PLAIN, Kind::AxisDisengage, 0)]);
}

#[test]
fn key_down_keeps_its_value() {
    let mut h = media();
    assert_eq!(send(&mut h, M, Kind::Down, 55), vec![(PLAIN, Kind::Down, 55)]);
    assert_eq!(send(&mut h, M, Kind::Up, 66), vec![(PLAIN, Kind::Up, 0)]);
}

#[test]
fn many_combos_end_together() {
    let keys: Vec<u8> = (100..180).collect();
    let mut h = handler(
        vec![group("Ctrl", &[CTRL])],
        keys.iter().map(|key| action(*key, None, &[("Ctrl", Some(1000 + *key as u16))])).collect(),
    );
    down(&mut h, CTRL);
    for key in &keys {
        assert_eq!(down(&mut h, *key), vec![(1000 + *key as u16, Kind::Down, 0)]);
    }
    // one of them is released before
    assert_eq!(up(&mut h, 150), vec![(1150, Kind::Up, 0)]);
    let mut ended = up(&mut h, CTRL);
    ended.sort_by_key(|event| event.0);
    let expected: Vec<(u16, Kind, i16)> =
        keys.iter().filter(|key| **key != 150).map(|key| (1000 + *key as u16, Kind::Up, 0)).collect();
    assert_eq!(ended, expected);
    for key in keys.iter().filter(|key| **key != 150) {
        assert_eq!(up(&mut h, *key), vec![]);
    }
    assert_eq!(down(&mut h, CTRL), vec![]);
    assert_eq!(up(&mut h, CTRL), vec![]);
}

#[test]
fn empty_group_has_no_effect() {
    let mut h = handler(
        vec![group("None", &[]), masking("Mask", &[]), group("Ctrl", &[CTRL])],
        vec![
            action(M, Some(PLAIN), &[("None", Some(NEXT)), ("Ctrl", Some(PREVIOUS))]),
            action(I, Some(STOP), &[]),
        ],
    );
    assert_eq!(down(&mut h, M), vec![(PLAIN, Kind::Down, 0)]);
    assert_eq!(down(&mut h, I), vec![(STOP, Kind::Down, 0)]);
    assert_eq!(up(&mut h, M), vec![(PLAIN, Kind::Up, 0)]);
    assert_eq!(down(&mut h, CTRL), vec![]);
    assert_eq!(down(&mut h, M), vec![(PREVIOUS, Kind::Down, 0)]);
}

#[test]
fn empty_group_alone_has_no_effect() {
    let mut h = handler(vec![group("E", &[])], vec![action(3, Some(10), &[("E", Some(11))])]);
    assert_eq!(down(&mut h, 3), vec![(10, Kind::Down, 0)]);
    assert_eq!(up(&mut h, 3), vec![(10, Kind::Up, 0)]);
}

#[test]
fn order_of_several_modifiers_does_not_matter() {
    for order in [[CTRL, ALT, WIN], [WIN, ALT, CTRL], [ALT, WIN, CTRL]] {
        let mut h = handler(
            vec![group("All", &[CTRL, ALT, WIN]), group("Ctrl", &[CTRL]), masking("Win", &[WIN])],
            vec![
                action(M, Some(PLAIN), &[("Ctrl", Some(NEXT)), ("All", Some(STOP))]),
                action(I, Some(PREVIOUS), &[]),
            ],
        );
        for key in order {
            assert_eq!(down(&mut h, key), vec![]);
        }
        assert_eq!(down(&mut h, M), vec![(STOP, Kind::Down, 0)]);
        assert_eq!(down(&mut h, I), vec![(PREVIOUS, Kind::Down, 0)]);
    }
}

#[test]
fn release_restores_the_groups() {
    let mut h = handler(
        vec![group("Ctrl", &[CTRL]), masking("CtrlAlt", &[CTRL, ALT])],
        vec![action(M, Some(PLAIN), &[("Ctrl", Some(NEXT))]), action(I, Some(STOP), &[])],
    );
    down(&mut h, CTRL);
    for _ in 0..3 {
        down(&mut h, ALT);
        assert_eq!(down(&mut h, M), vec![]);
        assert_eq!(down(&mut h, I), vec![]);
        up(&mut h, M);
        up(&mut h, I);
        up(&mut h, ALT);
        assert_eq!(down(&mut h, M), vec![(NEXT, Kind::Down, 0)]);
        assert_eq!(down(&mut h, I), vec![(STOP, Kind::Down, 0)]);
        up(&mut h, M);
        up(&mut h, I);
    }
}

#[test]
fn keys_are_resolved_by_position() {
    let mut h = handler(
        vec![masking("Win", &[WIN]), group("WinAlt", &[WIN, ALT])],
        vec![action(M, Some(PLAIN), &[("WinAlt", Some(NEXT))])],
    );
    // the keys are M, ALT and WIN
    assert!(!h.is_masking());
    h.resolve(2, Kind::Down, 0);
    assert!(h.is_masking());
    h.resolve(1, Kind::Down, 0);
    assert!(!h.is_masking());
    h.resolve(0, Kind::Down, 5);
    assert_eq!(h.events().pop_front().map(|event| (event.keycode, event.value)), Some((NEXT, 5)));
    h.resolve(1, Kind::Up, 0);
    assert_eq!(h.events().pop_front().map(|event| (event.keycode, event.kind)), Some((NEXT, Kind::Up)));
    assert!(h.is_masking());
    h.resolve(2, Kind::Up, 0);
    assert!(!h.is_masking());
    assert!(h.events().is_empty());
}

#[test]
fn last_group_with_an_id_counts() {
    let mut h = handler(
        vec![group("X", &[1]), group("X", &[2])],
        vec![action(9, Some(90), &[("X", Some(91))])],
    );
    down(&mut h, 1);
    assert_eq!(down(&mut h, 9), vec![(90, Kind::Down, 0)]);
    up(&mut h, 9);
    up(&mut h, 1);
    down(&mut h, 2);
    assert_eq!(down(&mut h, 9), vec![(91, Kind::Down, 0)]);
}

#[test]
fn last_action_of_a_key_counts() {
    let mut h = handler(
        vec![group("A", &[1]), group("B", &[2])],
        vec![action(9, Some(90), &[("A", Some(91))]), action(9, Some(95), &[("B", Some(96))])],
    );
    assert_eq!(down(&mut h, 9), vec![(95, Kind::Down, 0)]);
    up(&mut h, 9);
    down(&mut h, 1);
    assert_eq!(down(&mut h, 9), vec![(91, Kind::Down, 0)]);
    up(&mut h, 9);
    up(&mut h, 1);
    down(&mut h, 2);
    assert_eq!(down(&mut h, 9), vec![(96, Kind::Down, 0)]);
}

#[test]
fn unknown_keycode_is_unhandled() {
    let mut h = media();
    assert_eq!(h.handle(Event { keycode: 77, kind: Kind::Down, value: 0 }), HandlingResult::Unhandled);
    assert!(h.events().is_empty());
}

#[test]
fn output_is_added_to_the_queue() {
    let mut h = media();
    h.handle(Event { keycode: M, kind: Kind::Down, value: 0 });
    h.handle(Event { keycode: M, kind: Kind::Up, value: 0 });
    let kinds: Vec<Kind> = h.events().iter().map(|event| event.kind).collect();
    assert_eq!(kinds, vec![Kind::Down, Kind::Up]);
    assert!(h.events().capacity() >= 16);
}

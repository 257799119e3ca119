use esperto::combo::{
    ComboHandler, ComboHandlerCounting, ComboHandlerDyn, ComboHandlerPassthrough, ComboHandlerSimple,
    ComboHandlerStrict,
};
use esperto::config::{Action, Combo, Config, ModifierDecl};
use esperto::types::{Event, HandlingResult, Kind};

fn config() -> Config<u8, u8> {
    Config {
        modifiers: vec![
            ModifierDecl { id: "A".to_string(), keys: [1].into_iter().collect(), masking: false },
            ModifierDecl { id: "B".to_string(), keys: [2].into_iter().collect(), masking: true },
            ModifierDecl { id: "AB".to_string(), keys: [1, 2].into_iter().collect(), masking: false },
            ModifierDecl { id: "BC".to_string(), keys: [2, 3].into_iter().collect(), masking: false },
        ],
        actions: vec![
            Action { key: 1, action: Some(101), immediate: false, modified: vec![], latching: false },
            Action { key: 2, action: Some(102), immediate: true, modified: vec![], latching: false },
            Action {
                key: 8,
                action: Some(108),
                immediate: false,
                modified: vec![
                    Combo { modifier: "A".to_string(), action: Some(201) },
                    Combo { modifier: "AB".to_string(), action: Some(202) },
                    Combo { modifier: "BC".to_string(), action: None },
                ],
                latching: false,
            },
            Action {
                key: 9,
                action: Some(109),
                immediate: false,
                modified: vec![
                    Combo { modifier: "B".to_string(), action: Some(201) },
                    Combo { modifier: "A".to_string(), action: Some(203) },
                ],
                latching: true,
            },
        ],
    }
}

fn event(keycode: u8, kind: Kind) -> Event<u8> {
    Event { keycode, kind, value: 0 }
}

fn said<H: ComboHandler<u8, u8, Vec<Event<u8>>>>(handler: &mut H) -> Vec<(u8, Kind)> {
    handler.events().drain(..).map(|event| (event.keycode, event.kind)).collect()
}

/// A sequence of events in which each key goes down and up in turn.
fn sane_sequence(seed: u64, length: usize) -> Vec<Event<u8>> {
    let keys = [1u8, 2, 3, 8, 9];
    let mut down = [false; 5];
    let mut state = seed;
    let mut events = vec![];
    for _ in 0..length {
        state = state.wrapping_mul(6364136223846793005).wrapping_add(1442695040888963407);
        let at = (state >> 33) as usize % keys.len();
        events.push(event(keys[at], if down[at] { Kind::Up } else { Kind::Down }));
        down[at] = !down[at];
    }
    for at in 0..keys.len() {
        if down[at] {
            events.push(event(keys[at], Kind::Up));
        }
    }
    events
}

#[test]
fn handlers_agree_on_sane_sequences() {
    for seed in 0..50 {
        let mut simple = ComboHandlerSimple::with(&config(), Vec::new());
        let mut strict = ComboHandlerStrict::with(&config(), Vec::new());
        let mut counting = ComboHandlerCounting::with(&config(), Vec::new());
        for event in sane_sequence(seed, 300) {
            assert_eq!(simple.handle(event), HandlingResult::Handled);
            assert_eq!(strict.handle(event), HandlingResult::Handled);
            assert_eq!(counting.handle(event), HandlingResult::Handled);
            let mut expected = said(&mut simple);
            let mut one = said(&mut strict);
            let mut other = said(&mut counting);
            // combos of one group end in any order
            expected.sort_by_key(|event| (event.0, event.1 == Kind::Up));
            one.sort_by_key(|event| (event.0, event.1 == Kind::Up));
            other.sort_by_key(|event| (event.0, event.1 == Kind::Up));
            assert_eq!(one, expected);
            assert_eq!(other, expected);
        }
    }
}

#[test]
fn output_of_sane_sequences_is_sane() {
    for seed in 0..50 {
        let mut simple = ComboHandlerSimple::with(&config(), Vec::new());
        let mut held = [0i32; 256];
        for event in sane_sequence(seed, 300) {
            simple.handle(event);
            for (keycode, kind) in said(&mut simple) {
                held[keycode as usize] += if kind == Kind::Down { 1 } else { -1 };
                assert!(held[keycode as usize] >= 0);
            }
        }
        assert!(held.iter().all(|count| *count == 0));
    }
}

#[test]
fn strict_handler_takes_any_sequence() {
    let mut strict = ComboHandlerStrict::with(&config(), Vec::new());
    let mut held = [0i32; 256];
    let mut state = 7u64;
    for _ in 0..5000 {
        state = state.wrapping_mul(6364136223846793005).wrapping_add(1442695040888963407);
        let keycode = [1u8, 2, 3, 8, 9][(state >> 33) as usize % 5];
        let kind = if (state >> 50) % 2 == 0 { Kind::Down } else { Kind::Up };
        strict.handle(event(keycode, kind));
        for (keycode, kind) in said(&mut strict) {
            held[keycode as usize] += if kind == Kind::Down { 1 } else { -1 };
            assert!(held[keycode as usize] >= 0);
        }
    }
    for keycode in [1u8, 2, 3, 8, 9] {
        strict.handle(event(keycode, Kind::Up));
        for (keycode, kind) in said(&mut strict) {
            held[keycode as usize] += if kind == Kind::Down { 1 } else { -1 };
        }
    }
    assert!(held.iter().all(|count| *count == 0));
}

#[test]
fn strict_handler_ignores_what_is_not_sane() {
    let mut strict = ComboHandlerStrict::with(&config(), Vec::new());
    assert_eq!(strict.handle(event(8, Kind::Up)), HandlingResult::DoubleUp);
    assert_eq!(strict.handle(event(8, Kind::Down)), HandlingResult::Handled);
    assert_eq!(strict.handle(event(8, Kind::Down)), HandlingResult::DoubleDown);
    assert_eq!(said(&mut strict), vec![(108, Kind::Down)]);
    assert_eq!(strict.handle(event(8, Kind::Up)), HandlingResult::Handled);
    assert_eq!(strict.handle(event(8, Kind::Up)), HandlingResult::DoubleUp);
    assert_eq!(said(&mut strict), vec![(108, Kind::Up)]);
    assert_eq!(strict.handle(event(77, Kind::Up)), HandlingResult::Unhandled);
    assert_eq!(strict.handle(event(8, Kind::AxisUpdate)), HandlingResult::Handled);
    assert_eq!(said(&mut strict), vec![(108, Kind::AxisUpdate)]);
}

#[test]
fn counting_handler_waits_for_balance() {
    let mut counting = ComboHandlerCounting::with(&config(), Vec::new());
    assert_eq!(counting.handle(event(8, Kind::Up)), HandlingResult::DoubleUp);
    assert_eq!(counting.handle(event(8, Kind::Down)), HandlingResult::Handled);
    assert_eq!(counting.handle(event(8, Kind::Down)), HandlingResult::DoubleDown);
    assert_eq!(counting.handle(event(8, Kind::Down)), HandlingResult::DoubleDown);
    assert_eq!(said(&mut counting), vec![(108, Kind::Down)]);
    assert_eq!(counting.handle(event(8, Kind::Up)), HandlingResult::DoubleUp);
    assert_eq!(counting.handle(event(8, Kind::Up)), HandlingResult::DoubleUp);
    assert_eq!(said(&mut counting), vec![]);
    assert_eq!(counting.handle(event(8, Kind::Up)), HandlingResult::Handled);
    assert_eq!(said(&mut counting), vec![(108, Kind::Up)]);
    assert_eq!(counting.handle(event(8, Kind::Up)), HandlingResult::DoubleUp);
    assert_eq!(counting.handle(event(77, Kind::Up)), HandlingResult::Unhandled);
}

#[test]
fn counting_handler_counts_on() {
    let mut handler = ComboHandlerCounting::with(&config(), vec![]);
    assert_eq!(handler.handle(event(8, Kind::Down)), HandlingResult::Handled);
    for _ in 1..1000 {
        assert_eq!(handler.handle(event(8, Kind::Down)), HandlingResult::DoubleDown);
    }
    assert_eq!(said(&mut handler), vec![(108, Kind::Down)]);
    for _ in 1..1000 {
        assert_eq!(handler.handle(event(8, Kind::Up)), HandlingResult::DoubleUp);
    }
    assert_eq!(said(&mut handler), vec![]);
    assert_eq!(handler.handle(event(8, Kind::Up)), HandlingResult::Handled);
    assert_eq!(said(&mut handler), vec![(108, Kind::Up)]);
}

#[test]
fn strict_handler_does_what_the_simple_one_does_with_the_rest() {
    let inputs = [
        (8, Kind::Up),
        (1, Kind::Down),
        (1, Kind::Down),
        (8, Kind::Down),
        (77, Kind::Down),
        (8, Kind::Down),
        (8, Kind::Up),
        (8, Kind::Up),
        (1, Kind::Up),
        (1, Kind::Up),
        (8, Kind::Down),
    ];
    let mut down: Vec<u8> = vec![];
    let mut strict = ComboHandlerStrict::with(&config(), vec![]);
    let mut simple = ComboHandlerSimple::with(&config(), vec![]);
    for (key, kind) in inputs {
        let repeated = key != 77 && (kind == Kind::Down) == down.contains(&key);
        let expected = match (key, repeated, kind) {
            (77, _, _) => HandlingResult::Unhandled,
            (_, false, _) => HandlingResult::Handled,
            (_, true, Kind::Down) => HandlingResult::DoubleDown,
            _ => HandlingResult::DoubleUp,
        };
        assert_eq!(strict.handle(event(key, kind)), expected);
        if !repeated {
            assert_eq!(simple.handle(event(key, kind)), expected);
            match kind {
                Kind::Down => down.push(key),
                _ => down.retain(|other| *other != key),
            }
        }
    }
    let expected = vec![(201, Kind::Down), (201, Kind::Up), (108, Kind::Down)];
    assert_eq!(said(&mut strict), expected);
    assert_eq!(said(&mut simple), expected);
}

#[test]
fn output_keycodes_are_balanced() {
    for seed in 0..50 {
        let mut handler = ComboHandlerSimple::with(&config(), vec![]);
        let mut down: Vec<u8> = vec![];
        for event in sane_sequence(seed, 200) {
            handler.handle(event);
            match event.kind {
                Kind::Down => down.push(event.keycode),
                _ => down.retain(|key| *key != event.keycode),
            }
        }
        for key in down {
            handler.handle(event(key, Kind::Up));
        }
        let mut balance = [0i32; 256];
        for (keycode, kind) in said(&mut handler) {
            balance[keycode as usize] += if kind == Kind::Down { 1 } else { -1 };
            assert!(balance[keycode as usize] >= 0);
        }
        assert!(balance.iter().all(|count| *count == 0));
    }
}

#[test]
fn chosen_handler_is_the_one_it_was_made_from() {
    let mut simple: ComboHandlerDyn<u8, u8, Vec<Event<u8>>> =
        ComboHandlerSimple::with(&config(), Vec::new()).into();
    let mut strict: ComboHandlerDyn<u8, u8, Vec<Event<u8>>> =
        ComboHandlerStrict::with(&config(), Vec::new()).into();
    let mut counting: ComboHandlerDyn<u8, u8, Vec<Event<u8>>> =
        ComboHandlerCounting::with(&config(), Vec::new()).into();
    assert_eq!(simple.handle(event(8, Kind::Down)), HandlingResult::Handled);
    assert_eq!(said(&mut simple), vec![(108, Kind::Down)]);
    for handler in [&mut strict, &mut counting] {
        assert_eq!(handler.handle(event(8, Kind::Down)), HandlingResult::Handled);
        assert_eq!(handler.handle(event(8, Kind::Down)), HandlingResult::DoubleDown);
        assert_eq!(said(handler), vec![(108, Kind::Down)]);
    }
    // only the strict one ends the action
    assert_eq!(strict.handle(event(8, Kind::Up)), HandlingResult::Handled);
    assert_eq!(counting.handle(event(8, Kind::Up)), HandlingResult::DoubleUp);
    assert_eq!(said(&mut strict), vec![(108, Kind::Up)]);
    assert_eq!(said(&mut counting), vec![]);
}

#[test]
fn passthrough_forwards_unhandled_events() {
    let mut handler = ComboHandlerStrict::with(&config(), Vec::new());
    assert_eq!(
        handler.handle_passthrough(Event { keycode: 50, kind: Kind::AxisUpdate, value: 12 }),
        HandlingResult::Unhandled
    );
    let forwarded = handler.events()[0];
    assert_eq!((forwarded.keycode, forwarded.kind, forwarded.value), (50, Kind::AxisUpdate, 12));
    assert_eq!(handler.events().len(), 1);
    handler.events().clear();
    assert_eq!(handler.handle_passthrough(event(8, Kind::Down)), HandlingResult::Handled);
    assert_eq!(said(&mut handler), vec![(108, Kind::Down)]);
    assert_eq!(handler.handle_passthrough(event(8, Kind::Down)), HandlingResult::DoubleDown);
    assert_eq!(said(&mut handler), vec![]);
}

#[test]
fn provided_queue_is_not_cleared() {
    let queue = vec![event(99, Kind::Up)];
    let mut handler = ComboHandlerCounting::with(&config(), queue);
    handler.handle(event(8, Kind::Down));
    assert_eq!(said(&mut handler), vec![(99, Kind::Up), (108, Kind::Down)]);
}

#[test]
fn new_handlers_have_an_empty_queue() {
    assert!(ComboHandlerSimple::new(&config()).events().is_empty());
    assert!(ComboHandlerStrict::new(&config()).events().is_empty());
    assert!(ComboHandlerCounting::new(&config()).events().is_empty());
}

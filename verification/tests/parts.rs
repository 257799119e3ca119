use esperto::combo::types::{Combo, Group, Key, Range};
use esperto::combo::{ComboHandler, ComboHandlerStrict, Queue};
use esperto::config::{self, Action, Config, ModifierDecl};
use esperto::derive::{derive_scalar, replace_scalar_trait, treat, Treatment};
use esperto::types::{Event, Kind, Scalar};
use frozen_collections::FzScalarSet;
use std::cmp::Ordering;
use tinyset::SetUsize;

fn squeeze(text: &str) -> String {
    text.chars().filter(|c| !c.is_whitespace()).collect()
}

#[test]
fn scalar_positions() {
    assert_eq!(7u8.index(), 7);
    assert_eq!(700u16.index(), 700);
    assert_eq!(70000u32.index(), 70000);
    assert_eq!(9usize.index(), 9);
    assert_eq!((-128i8).index(), 0);
    assert_eq!((-5i8).index(), 123);
    assert_eq!(5i16.index(), 32773);
    assert_eq!((-20i32).index(), 2147483628);
    assert_eq!(5u64.index(), 5);
    assert_eq!(i64::MIN.index(), 0);
    assert_eq!((-20i64).index() as u64, (i64::MAX as u64) - 19);
    assert_eq!(20i64.index() as u64, (i64::MAX as u64) + 21);
    assert_eq!(i64::MAX.index() as u64, u64::MAX);
    assert_eq!(isize::MIN.index(), 0);
    assert_eq!((-1isize).index(), isize::MAX as usize);
    assert_eq!(0isize.index(), isize::MAX as usize + 1);
    assert_eq!(isize::MAX.index(), usize::MAX);
}

#[derive(Copy, Clone, Debug, PartialEq, Eq, Hash)]
enum Button {
    Shift,
    Fire,
}

impl Scalar for Button {
    fn index(&self) -> usize {
        match self {
            Button::Shift => 0,
            Button::Fire => 1,
        }
    }
}

#[test]
fn keycodes_of_another_type() {
    let config: Config<Button, i8> = Config {
        modifiers: vec![ModifierDecl {
            id: "Shift".to_string(),
            keys: [Button::Shift].into_iter().collect(),
            masking: false,
        }],
        actions: vec![Action {
            key: Button::Fire,
            action: Some(-1),
            immediate: false,
            modified: vec![config::Combo { modifier: "Shift".to_string(), action: Some(-2) }],
            latching: false,
        }],
    };
    let mut handler = ComboHandlerStrict::new(&config);
    for keycode in [Button::Fire, Button::Shift] {
        handler.handle(Event { keycode, kind: Kind::Down, value: 0 });
        handler.handle(Event { keycode: Button::Fire, kind: Kind::Up, value: 0 });
    }
    handler.handle(Event { keycode: Button::Fire, kind: Kind::Down, value: 0 });
    let said: Vec<i8> = handler.events().iter().map(|event| event.keycode).collect();
    assert_eq!(said, vec![-1, -1, -2]);
}

#[derive(Default)]
struct Tally {
    downs: usize,
    ups: usize,
}

impl Queue<Event<i8>> for Tally {
    fn push(&mut self, value: Event<i8>) {
        match value.kind {
            Kind::Down => self.downs += 1,
            Kind::Up => self.ups += 1,
            _ => {}
        }
    }
}

#[test]
fn queue_of_another_type() {
    let config: Config<Button, i8> = Config {
        modifiers: vec![],
        actions: vec![Action {
            key: Button::Fire,
            action: Some(1),
            immediate: false,
            modified: vec![],
            latching: false,
        }],
    };
    let mut handler = ComboHandlerStrict::with(&config, Tally::default());
    for kind in [Kind::Down, Kind::Down, Kind::Up, Kind::Up, Kind::Down] {
        handler.handle(Event { keycode: Button::Fire, kind, value: 0 });
    }
    assert_eq!((handler.events().downs, handler.events().ups), (2, 1));
}

#[test]
fn ranges() {
    let range = Range::new(2, 5);
    assert!(!range.is_empty());
    assert_eq!(range.len(), 3);
    assert_eq!(range.ind(0), 2);
    assert_eq!(range.ind(2), 4);
    assert_eq!(range.slice(&[10, 11, 12, 13, 14, 15]), &[12, 13, 14]);
    assert_eq!(range.into_iter().collect::<Vec<usize>>(), vec![2, 3, 4]);
    assert!(Range::new(3, 3).is_empty());
    assert_eq!(Range::new(3, 3).len(), 0);
}

#[test]
fn keys() {
    let mut key: Key<u8> = Key {
        action: Some(1),
        latching: false,
        immediate: false,
        combos: Range::new(1, 3),
        groups: Range::new(0, 0),
        cache_counter: 0,
        open: false,
        active_combo: None,
        counter: 0,
    };
    let combos = [
        Combo { action: Some(1), group: 0 },
        Combo { action: Some(2), group: 1 },
        Combo { action: None, group: 2 },
    ];
    assert!(!key.is_modifier());
    assert!(key.is_immediate());
    assert_eq!(key.iter_combos(&combos).len(), 2);
    assert_eq!(key.get_combo(0, &combos).action, Some(2));
    assert_eq!(key.get_combo(1, &combos).group, 2);
    key.open();
    assert!(key.open);
    key.close();
    assert!(!key.open);
    key.groups = Range::new(1, 2);
    assert!(key.is_modifier());
    assert!(!key.is_immediate());
    assert_eq!(key.iter_groups(&[4, 5, 6]), &[5]);
    key.immediate = true;
    assert!(key.is_immediate());
}

fn group(index: usize, greater: Vec<usize>) -> Group {
    Group {
        index,
        mask: false,
        greater: FzScalarSet::new(greater),
        pred: Range::new(0, 1),
        intersect: Range::new(1, 3),
        keys: Range::new(2, 4),
        size: 2,
        active_combos: SetUsize::new(),
        counter: 0,
        active_greater: 0,
    }
}

#[test]
fn groups() {
    let mut one = group(1, vec![2, 5]);
    let two = group(2, vec![]);
    let three = group(3, vec![]);
    assert_eq!(one.partial_cmp(&two), Some(Ordering::Less));
    assert_eq!(two.partial_cmp(&one), Some(Ordering::Greater));
    assert_eq!(one.partial_cmp(&three), None);
    assert_eq!(one.partial_cmp(&group(1, vec![])), Some(Ordering::Equal));
    assert!(one <= two && !(two <= one) && !(one <= three));
    assert!(one == group(1, vec![]) && one != two);
    assert!(!one.is_active());
    one.counter = 2;
    assert!(one.is_active());
    assert!(!one.is_shadowed());
    one.active_greater = 1;
    assert!(one.is_shadowed());
    let packed = [10, 11, 12, 13];
    assert_eq!(one.iter_pred(&packed), &[10]);
    assert_eq!(one.iter_intersect(&packed), &[11, 12]);
    assert_eq!(one.iter_keys(&packed), &[12, 13]);
    one.active_combos.insert(7);
    let copy = one.clone();
    assert_eq!(copy.partial_cmp(&two), Some(Ordering::Less));
    assert!(copy.active_combos.contains(7) && copy.active_combos.len() == 1);
    assert_eq!(format!("{:?}", copy), format!("{:?}", one));
}

#[test]
fn derived_scalar() {
    assert_eq!(
        squeeze(&derive_scalar("enum Color { Red, Green }")),
        squeeze(
            "#[automatically_derived] impl ::esperto::types::Scalar for Color {
                fn index(&self) -> usize { match self { Color::Red => 0usize, Color::Green => 1usize } }
            }"
        )
    );
}

#[test]
fn failed_derivation_is_a_compile_error() {
    for item in ["struct Color;", "enum Color {}", "enum Color { Red(u8) }", "enum Color { Red = 4 }", "enum {", "\""] {
        assert!(squeeze(&derive_scalar(item)).contains("compile_error!"), "{}", item);
    }
}

#[test]
fn expected_trait_is_replaced() {
    let code = replace_scalar_trait("impl ::frozen_collections::Scalar for A { }", "::b::C");
    assert_eq!(squeeze(&code.unwrap()), "impl::b::CforA{}");
}

#[test]
fn other_trait_is_kept() {
    let code = replace_scalar_trait("impl frozen_collections::Scalar for A { }", "::b::C");
    assert_eq!(squeeze(&code.unwrap()), "implfrozen_collections::ScalarforA{}");
}

#[test]
fn impl_without_a_trait_is_rejected() {
    let error = replace_scalar_trait("impl A { }", "::b::C").unwrap_err();
    assert!(squeeze(&error).contains("compile_error!"));
    assert!(error.contains("Expected an impl block that implements a trait"));
}

#[test]
fn code_that_is_no_impl_is_rejected() {
    let error = replace_scalar_trait("struct A;", "::b::C").unwrap_err();
    assert!(error.contains("expected `impl`"), "{}", error);
}

#[test]
fn path_that_is_none_is_rejected_where_it_is_needed() {
    let error = replace_scalar_trait("impl ::frozen_collections::Scalar for A { }", "1 2").unwrap_err();
    assert!(squeeze(&error).contains("compile_error!"));
    let code = replace_scalar_trait("impl B for A { }", "1 2");
    assert_eq!(squeeze(&code.unwrap()), "implBforA{}");
}

#[test]
fn treatments() {
    assert_eq!(treat(&None), Treatment::Reject);
    assert_eq!(treat(&Some(":: frozen_collections :: Scalar".to_string())), Treatment::Replace);
    assert_eq!(treat(&Some("frozen_collections :: Scalar".to_string())), Treatment::Keep);
    assert_eq!(treat(&Some(String::new())), Treatment::Keep);
}

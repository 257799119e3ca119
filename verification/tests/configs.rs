use esperto::config::{Action, Combo, Config, ModifierDecl};
use esperto::types::{ConfigValidationError, ConfigValidationWarning};

fn group(id: &str, keys: &[u8]) -> ModifierDecl<u8> {
    ModifierDecl { id: id.to_string(), keys: keys.iter().copied().collect(), masking: false }
}

fn action(key: u8, action: Option<u16>, modified: &[(&str, Option<u16>)]) -> Action<u8, u16> {
    Action {
        key,
        action,
        immediate: false,
        modified: modified
            .iter()
            .map(|(id, action)| Combo { modifier: id.to_string(), action: *action })
            .collect(),
        latching: false,
    }
}

fn error(modifiers: Vec<ModifierDecl<u8>>, actions: Vec<Action<u8, u16>>) -> ConfigValidationError<u8> {
    match (Config { modifiers, actions }).validate() {
        Ok(_) => panic!("the configuration is valid"),
        Err(error) => error,
    }
}

#[test]
fn duplicate_modifier_id() {
    let error = error(vec![group("X", &[1]), group("Y", &[2]), group("X", &[3])], vec![]);
    assert!(matches!(&error, ConfigValidationError::DuplicateModifierId(id) if id == "X"));
    assert_eq!(error.describe(), "duplicate modifiers for \"X\"");
}

#[test]
fn duplicate_modifier_group() {
    let error = error(vec![group("X", &[9, 3, 7, 1]), group("Y", &[1, 3, 9, 7])], vec![]);
    assert!(matches!(&error, ConfigValidationError::DuplicateModifierGroup(keys) if *keys == vec![1, 3, 7, 9]));
    assert_eq!(error.describe(), "duplicate modifier group \"[1, 3, 7, 9]\"");
}

#[test]
fn id_comes_before_group() {
    let error = error(vec![group("X", &[1]), group("X", &[1])], vec![]);
    assert!(matches!(&error, ConfigValidationError::DuplicateModifierId(id) if id == "X"));
}

#[test]
fn duplicate_action() {
    let error = error(vec![], vec![action(4, None, &[]), action(5, None, &[]), action(4, Some(1), &[])]);
    assert!(matches!(&error, ConfigValidationError::DuplicateAction(4)));
    assert_eq!(error.describe(), "duplicate action for key \"4\"");
}

#[test]
fn self_modifier() {
    let error = error(vec![group("X", &[4, 5])], vec![action(4, None, &[("X", Some(1))])]);
    assert!(matches!(&error, ConfigValidationError::SelfModifier(4)));
    assert_eq!(error.describe(), "key \"4\" is a modifier to itself");
}

#[test]
fn undefined_modifier() {
    let error = error(vec![group("X", &[1])], vec![action(4, None, &[("X", Some(1)), ("Z", Some(1))])]);
    assert!(matches!(&error, ConfigValidationError::UndefinedModifier(id, 4) if id == "Z"));
    assert_eq!(error.describe(), "undefined modifier \"Z\" in key \"4\"");
}

#[test]
fn duplicate_modified_action() {
    let error = error(
        vec![group("X", &[1]), group("Y", &[2])],
        vec![action(4, None, &[("X", Some(1)), ("Y", None), ("X", None)])],
    );
    assert!(matches!(&error, ConfigValidationError::DuplicateModifiedAction(id, 4) if id == "X"));
    assert_eq!(error.describe(), "duplicate modifier \"X\" in key \"4\"");
}

#[test]
fn modifiers_come_before_actions() {
    let error = error(
        vec![group("X", &[1]), group("Y", &[1])],
        vec![action(4, None, &[("Z", None)]), action(4, None, &[])],
    );
    assert!(matches!(&error, ConfigValidationError::DuplicateModifierGroup(keys) if *keys == vec![1]));
}

#[test]
fn first_action_with_an_error_counts() {
    let error = error(vec![], vec![action(4, None, &[("Z", None)]), action(4, None, &[])]);
    assert!(matches!(&error, ConfigValidationError::UndefinedModifier(id, 4) if id == "Z"));
}

#[test]
fn valid_config_with_warnings() {
    let mut one = action(4, Some(1), &[("X", Some(2))]);
    one.immediate = true;
    let mut two = action(1, Some(3), &[]);
    two.immediate = true;
    let mut three = action(6, None, &[("Empty", None)]);
    three.immediate = true;
    let config = Config {
        modifiers: vec![group("Empty", &[]), group("X", &[1, 2])],
        actions: vec![one, two, three],
    };
    let warnings = match config.validate() {
        Ok(warnings) => warnings,
        Err(error) => panic!("{}", error.describe()),
    };
    assert_eq!(warnings.len(), 3);
    assert!(matches!(&warnings[0], ConfigValidationWarning::EmptyModifierGroup(id) if id == "Empty"));
    assert!(matches!(&warnings[1], ConfigValidationWarning::ImmediateAction(4)));
    assert!(matches!(&warnings[2], ConfigValidationWarning::ImmediateAction(6)));
    assert_eq!(warnings[0].describe(), "in modifier \"Empty\", empty modifier have no effect");
    assert_eq!(warnings[1].describe(), "in key \"4\", `immediate` only applies to modifier");
}

#[test]
fn valid_config_without_warnings() {
    let config: Config<u8, u16> = Config {
        modifiers: vec![group("X", &[1]), group("Y", &[1, 2])],
        actions: vec![action(4, Some(1), &[("X", Some(2)), ("Y", None)])],
    };
    assert!(matches!(config.validate(), Ok(warnings) if warnings.is_empty()));
}

#[test]
fn text_keycodes_are_rendered() {
    let config: Config<String, String> = Config {
        modifiers: vec![],
        actions: vec![
            Action { key: "b".to_string(), action: None, immediate: false, modified: vec![], latching: false },
            Action { key: "b".to_string(), action: None, immediate: false, modified: vec![], latching: false },
        ],
    };
    match config.validate() {
        Err(error) => {
            assert_eq!(error.describe(), "duplicate action for key \"\"b\"\"");
            assert_eq!(error.message("B"), "duplicate action for key \"B\"");
        }
        Ok(_) => panic!("the configuration is valid"),
    }
}

#[test]
fn input_is_remapped() {
    let mut one = action(4, Some(1), &[("X", Some(2))]);
    one.immediate = true;
    one.latching = true;
    let mut x = group("X", &[1, 2, 3]);
    x.masking = true;
    let config = Config { modifiers: vec![x, group("Y", &[])], actions: vec![one] };
    let mapped = config.map_input(|key| format!("key {}", key / 2));
    assert_eq!(mapped.modifiers.len(), 2);
    assert_eq!(mapped.modifiers[0].id, "X");
    assert!(mapped.modifiers[0].masking);
    assert_eq!(mapped.modifiers[0].keys, ["key 0".to_string(), "key 1".to_string()].into_iter().collect());
    assert!(mapped.modifiers[1].keys.is_empty());
    assert_eq!(mapped.actions[0].key, "key 2");
    assert_eq!(mapped.actions[0].action, Some(1));
    assert!(mapped.actions[0].immediate && mapped.actions[0].latching);
    assert_eq!(mapped.actions[0].modified[0].modifier, "X");
    assert_eq!(mapped.actions[0].modified[0].action, Some(2));
}

#[test]
fn remapping_keeps_validity() {
    let modifiers = vec![group("X", &[1, 2]), group("Y", &[])];
    let valid = Config {
        modifiers: modifiers.clone(),
        actions: vec![Action { immediate: true, ..action(4, Some(7), &[("X", Some(8))]) }],
    };
    let wrong = Config { modifiers, actions: vec![action(2, Some(7), &[("X", Some(8))])] };
    for (config, is_valid) in [(valid, true), (wrong, false)] {
        let before = config.validate();
        assert_eq!(before.is_ok(), is_valid);
        let inputs = config.clone().map_input(|key| 100 - key as u16);
        assert_eq!(inputs.validate().is_ok(), is_valid);
        match (before, config.map_output(|_| 1u8).validate()) {
            (Ok(a), Ok(b)) => {
                let a: Vec<String> = a.iter().map(|warning| warning.describe()).collect();
                let b: Vec<String> = b.iter().map(|warning| warning.describe()).collect();
                assert_eq!(a, b);
                assert_eq!(a.len(), 2);
            }
            (Err(a), Err(b)) => assert_eq!(a.describe(), b.describe()),
            _ => panic!("outputs do not matter to validity"),
        }
    }
}

#[test]
fn output_is_remapped() {
    let config = Config {
        modifiers: vec![group("X", &[1])],
        actions: vec![action(4, Some(1), &[("X", Some(2)), ("Y", None)]), action(5, None, &[])],
    };
    let mut seen = vec![];
    let mapped = config.map_output(|key| {
        seen.push(key);
        key as u32 * 10
    });
    assert_eq!(seen, vec![1, 2]);
    assert_eq!(mapped.modifiers[0].id, "X");
    let entries: Vec<(u8, Option<String>, Option<u32>)> =
        mapped.iter_actions().into_iter().map(|(key, id, action)| (*key, id.cloned(), *action)).collect();
    assert_eq!(
        entries,
        vec![
            (4, None, Some(10)),
            (4, Some("X".to_string()), Some(20)),
            (4, Some("Y".to_string()), None),
            (5, None, None),
        ]
    );
}

#[test]
fn actions_are_listed() {
    let config = Config {
        modifiers: vec![],
        actions: vec![action(5, None, &[("X", Some(2))]), action(4, Some(7), &[])],
    };
    let x = "X".to_string();
    assert_eq!(
        config.iter_actions(),
        vec![(&5, None, &None), (&5, Some(&x), &Some(2)), (&4, None, &Some(7))]
    );
}

#[test]
fn clone_is_equal() {
    let mut decl = group("X", &[1, 2, 250]);
    decl.masking = true;
    let copy = decl.clone();
    assert_eq!(copy, decl);
    assert_eq!(copy.keys.len(), 3);
    let config = Config { modifiers: vec![decl], actions: vec![action(4, None, &[("X", Some(2))])] };
    let copy = config.clone();
    assert_eq!(copy.modifiers, config.modifiers);
    assert_eq!(copy.iter_actions(), config.iter_actions());
}

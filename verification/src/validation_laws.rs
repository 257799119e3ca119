//! What validation says of a configuration, told by its parts alone.
use crate::config::{Action, Config, ModifierDecl};
use crate::types::{Caution, ConfigValidationError};
use crate::validation;
use std::hash::Hash;
use vstd::prelude::*;

verus! {

/// The first `n` modifier groups have different ids and different sets of keys.
pub open spec fn groups_differ<A: Eq + Hash, Z: Eq + Hash>(config: Config<A, Z>, n: int) -> bool {
    forall|g: int, h: int|
        #![trigger config.modifiers@[g], config.modifiers@[h]]
        0 <= g < h < n ==> config.modifiers@[g].id@ != config.modifiers@[h].id@
            && config.modifiers@[g].keys@ != config.modifiers@[h].keys@
}

/// There is a modifier group with the id.
pub open spec fn has_group<A: Eq + Hash, Z: Eq + Hash>(
    config: Config<A, Z>,
    id: Seq<char>,
) -> bool {
    exists|g: int| 0 <= g < config.modifiers@.len() && (#[trigger] config.modifiers@[g]).id@ == id
}

/// The first `n` combos of the action refer to different modifiers. Each is the id of a group, and
/// no group with that id has the key of the action among its own keys.
pub open spec fn combos_differ<A: Eq + Hash, Z: Eq + Hash>(
    config: Config<A, Z>,
    i: int,
    n: int,
) -> bool {
    let combos = config.actions@[i].modified@;
    &&& forall|j: int, h: int|
        #![trigger combos[j], combos[h]]
        0 <= j < h < n ==> combos[j].modifier@ != combos[h].modifier@
    &&& forall|j: int|
        #![trigger combos[j]]
        0 <= j < n ==> has_group(config, combos[j].modifier@)
    &&& forall|j: int, g: int|
        #![trigger combos[j], config.modifiers@[g]]
        0 <= j < n && 0 <= g < config.modifiers@.len() && config.modifiers@[g].id@
            == combos[j].modifier@ ==> !config.modifiers@[g].keys@.contains(config.actions@[i].key)
}

/// The first `n` actions have different keys, and their combos are fine.
pub open spec fn actions_differ<A: Eq + Hash, Z: Eq + Hash>(config: Config<A, Z>, n: int) -> bool {
    &&& forall|i: int, h: int|
        #![trigger config.actions@[i], config.actions@[h]]
        0 <= i < h < n ==> config.actions@[i].key != config.actions@[h].key
    &&& forall|i: int|
        #![trigger config.actions@[i]]
        0 <= i < n ==> combos_differ(config, i, config.actions@[i].modified@.len() as int)
}

/// A configuration is consistent: the ids and the key sets of its groups, the keys of its actions
/// and the modifiers of each action are distinct, its combos refer to groups that exist, and no
/// combo refers to a group of which the key of the action is part.
pub open spec fn is_consistent<A: Eq + Hash, Z: Eq + Hash>(config: Config<A, Z>) -> bool {
    &&& groups_differ(config, config.modifiers@.len() as int)
    &&& actions_differ(config, config.actions@.len() as int)
}

/// Groups that are fine differ.
proof fn lemma_groups<A: Eq + Hash + Clone + Ord, Z: Eq + Hash>(config: Config<A, Z>, n: int)
    ensures
        config.fine_modifiers(n) == groups_differ(config, n),
{
    if config.fine_modifiers(n) {
        assert forall|g: int, h: int|
            #![trigger config.modifiers@[g], config.modifiers@[h]]
            0 <= g < h < n implies config.modifiers@[g].id@ != config.modifiers@[h].id@
            && config.modifiers@[g].keys@ != config.modifiers@[h].keys@ by {
            assert(!config.repeats_id(h) && !config.repeats_group(h));
        }
    }
    if groups_differ(config, n) {
        assert forall|g: int| 0 <= g < n implies !#[trigger] config.repeats_id(g)
            && !config.repeats_group(g) by {
            if config.repeats_id(g) {
                let h = choose|h: int|
                    0 <= h < g && (#[trigger] config.modifiers@[h]).id@
                        == config.modifiers@[g].id@;
                assert(config.modifiers@[h].id@ != config.modifiers@[g].id@);
            }
            if config.repeats_group(g) {
                let h = choose|h: int|
                    0 <= h < g && (#[trigger] config.modifiers@[h]).keys@
                        == config.modifiers@[g].keys@;
                assert(config.modifiers@[h].keys@ != config.modifiers@[g].keys@);
            }
        }
    }
}

/// Combos that are fine differ.
proof fn lemma_combos<A: Eq + Hash + Clone + Ord, Z: Eq + Hash>(
    config: Config<A, Z>,
    i: int,
    n: int,
)
    ensures
        config.fine_combos(i, n) == combos_differ(config, i, n),
{
    let combos = config.actions@[i].modified@;
    let key = config.actions@[i].key;
    if config.fine_combos(i, n) {
        assert forall|j: int, h: int|
            #![trigger combos[j], combos[h]]
            0 <= j < h < n implies combos[j].modifier@ != combos[h].modifier@ by {
            assert(config.is_defined(config.actions@[i].modified@[h].modifier@));
            assert(!config.repeats_modifier(i, h));
            assert(config.actions@[i].modified@[j].modifier@ == combos[j].modifier@);
        }
        assert forall|j: int|
            #![trigger combos[j]]
            0 <= j < n implies has_group(config, combos[j].modifier@) by {
            assert(config.is_defined(config.actions@[i].modified@[j].modifier@));
        }
        assert forall|j: int, g: int|
            #![trigger combos[j], config.modifiers@[g]]
            0 <= j < n && 0 <= g < config.modifiers@.len() && config.modifiers@[g].id@
                == combos[j].modifier@ implies !config.modifiers@[g].keys@.contains(key) by {
            assert(!config.has_member(config.actions@[i].modified@[j].modifier@, key));
        }
    }
    if combos_differ(config, i, n) {
        assert forall|j: int| 0 <= j < n implies {
            &&& config.is_defined((#[trigger] config.actions@[i].modified@[j]).modifier@)
            &&& !config.has_member(config.actions@[i].modified@[j].modifier@, key)
            &&& !config.repeats_modifier(i, j)
        } by {
            assert(combos[j].modifier@ == config.actions@[i].modified@[j].modifier@);
            if config.repeats_modifier(i, j) {
                let h = choose|h: int|
                    0 <= h < j && (#[trigger] config.actions@[i].modified@[h]).modifier@
                        == config.actions@[i].modified@[j].modifier@;
                assert(combos[h].modifier@ != combos[j].modifier@);
            }
            if config.has_member(combos[j].modifier@, key) {
                let g = choose|g: int|
                    0 <= g < config.modifiers@.len() && (#[trigger] config.modifiers@[g]).id@
                        == combos[j].modifier@ && config.modifiers@[g].keys@.contains(key);
                assert(!config.modifiers@[g].keys@.contains(key));
            }
        }
    }
}

/// Actions that are fine differ.
proof fn lemma_actions<A: Eq + Hash + Clone + Ord, Z: Eq + Hash>(config: Config<A, Z>, n: int)
    requires
        n <= config.actions@.len(),
    ensures
        config.fine_actions(n) == actions_differ(config, n),
{
    assert forall|i: int| 0 <= i < n implies config.fine_combos(
        i,
        (#[trigger] config.actions@[i]).modified@.len() as int,
    ) == combos_differ(config, i, config.actions@[i].modified@.len() as int) by {
        lemma_combos(config, i, config.actions@[i].modified@.len() as int);
    }
    if config.fine_actions(n) {
        assert forall|i: int, h: int|
            #![trigger config.actions@[i], config.actions@[h]]
            0 <= i < h < n implies config.actions@[i].key != config.actions@[h].key by {
            assert(!config.repeats_key(h));
        }
        assert forall|i: int|
            #![trigger config.actions@[i]]
            0 <= i < n implies combos_differ(
            config,
            i,
            config.actions@[i].modified@.len() as int,
        ) by {
            assert(!config.repeats_key(i));
        }
    }
    if actions_differ(config, n) {
        assert forall|i: int| 0 <= i < n implies !#[trigger] config.repeats_key(i)
            && config.fine_combos(i, config.actions@[i].modified@.len() as int) by {
            if config.repeats_key(i) {
                let h = choose|h: int|
                    0 <= h < i && (#[trigger] config.actions@[h]).key == config.actions@[i].key;
                assert(config.actions@[h].key != config.actions@[i].key);
            }
            assert(config.actions@[i].modified@.len() >= 0);
        }
    }
}

/// A configuration is valid exactly if it is consistent. In particular a modifier key may have
/// combos, with groups of which it is not part.
pub proof fn valid_config_is_consistent<A: Eq + Hash + Clone + Ord, Z: Eq + Hash>(
    config: Config<A, Z>,
)
    ensures
        config.is_valid() <==> is_consistent(config),
{
    lemma_groups(config, config.modifiers@.len() as int);
    lemma_actions(config, config.actions@.len() as int);
}

/// What is true of a configuration whose combo `j` of the action `i` is the first thing that is
/// wrong with it.
pub open spec fn is_first_wrong_combo<A: Eq + Hash, Z: Eq + Hash>(
    config: Config<A, Z>,
    i: int,
    j: int,
    key: A,
) -> bool {
    &&& groups_differ(config, config.modifiers@.len() as int)
    &&& 0 <= i < config.actions@.len()
    &&& actions_differ(config, i)
    &&& forall|h: int|
        #![trigger config.actions@[h]]
        0 <= h < i ==> config.actions@[h].key != config.actions@[i].key
    &&& 0 <= j < config.actions@[i].modified@.len()
    &&& combos_differ(config, i, j)
    &&& key == config.actions@[i].key
}

/// What an error says is true of the configuration, and nothing before it is wrong.
pub open spec fn is_true<A: Eq + Hash + Ord, Z: Eq + Hash>(
    config: Config<A, Z>,
    error: ConfigValidationError<A>,
) -> bool {
    let groups = config.modifiers@;
    let actions = config.actions@;
    match error {
        ConfigValidationError::DuplicateModifierId(id) => exists|h: int, g: int|
            #![trigger groups[h], groups[g]]
            0 <= h < g < groups.len() && groups_differ(config, g) && groups[h].id@ == groups[g].id@
                && groups[g].id@ == id@,
        ConfigValidationError::DuplicateModifierGroup(keys) => {
            &&& exists|h: int, g: int|
                #![trigger groups[h], groups[g]]
                0 <= h < g < groups.len() && groups_differ(config, g) && groups[h].keys@
                    == groups[g].keys@ && groups[g].keys@ == keys@.to_set() && forall|f: int|
                    0 <= f < g ==> (#[trigger] groups[f]).id@ != groups[g].id@
            &&& keys@.no_duplicates()
            &&& forall|x: int, y: int|
                0 <= x < y < keys@.len() ==> !#[trigger] validation::above(keys@[x], keys@[y])
        },
        ConfigValidationError::DuplicateAction(key) => exists|h: int, i: int|
            #![trigger actions[h], actions[i]]
            0 <= h < i < actions.len() && groups_differ(config, groups.len() as int)
                && actions_differ(config, i) && actions[h].key == actions[i].key && actions[i].key
                == key,
        ConfigValidationError::SelfModifier(key) => exists|i: int, j: int, g: int|
            #![trigger actions[i].modified@[j], groups[g]]
            is_first_wrong_combo(config, i, j, key) && 0 <= g < groups.len() && groups[g].id@
                == actions[i].modified@[j].modifier@ && groups[g].keys@.contains(key),
        ConfigValidationError::UndefinedModifier(id, key) => exists|i: int, j: int|
            #![trigger actions[i].modified@[j]]
            is_first_wrong_combo(config, i, j, key) && id@ == actions[i].modified@[j].modifier@
                && forall|g: int| 0 <= g < groups.len() ==> (#[trigger] groups[g]).id@ != id@,
        ConfigValidationError::DuplicateModifiedAction(id, key) => exists|i: int, h: int, j: int|
            #![trigger actions[i].modified@[h], actions[i].modified@[j]]
            is_first_wrong_combo(config, i, j, key) && 0 <= h < j
                && actions[i].modified@[h].modifier@ == id@ && actions[i].modified@[j].modifier@
                == id@ && (forall|g: int|
                0 <= g < groups.len() && (#[trigger] groups[g]).id@ == id@
                    ==> !groups[g].keys@.contains(key)),
    }
}

/// An error is true: in particular a key is called a modifier to itself only if it is part of the
/// very group that one of its combos refers to.
pub proof fn errors_are_true<A: Eq + Hash + Clone + Ord, Z: Eq + Hash>(
    config: Config<A, Z>,
    error: ConfigValidationError<A>,
)
    requires
        config.first_error(error),
    ensures
        is_true(config, error),
{
    let groups = config.modifiers@;
    let actions = config.actions@;
    if exists|g: int|
        0 <= g < groups.len() && config.fine_modifiers(g) && #[trigger] config.modifier_error(
            g,
            error,
        ) {
        let g = choose|g: int|
            0 <= g < groups.len() && config.fine_modifiers(g) && #[trigger] config.modifier_error(
                g,
                error,
            );
        lemma_groups(config, g);
        if config.repeats_id(g) {
            let h = choose|h: int|
                0 <= h < g && (#[trigger] config.modifiers@[h]).id@ == config.modifiers@[g].id@;
            assert(groups[h].id@ == groups[g].id@);
        } else {
            let h = choose|h: int|
                0 <= h < g && (#[trigger] config.modifiers@[h]).keys@
                    == config.modifiers@[g].keys@;
            assert(groups[h].keys@ == groups[g].keys@);
            let keys = error->DuplicateModifierGroup_0;
            assert(validation::is_sorted(keys@));
        }
    } else {
        let i = choose|i: int|
            0 <= i < actions.len() && config.fine_actions(i) && #[trigger] config.action_error(
                i,
                error,
            );
        lemma_groups(config, groups.len() as int);
        lemma_actions(config, i);
        if config.repeats_key(i) {
            let h = choose|h: int|
                0 <= h < i && (#[trigger] config.actions@[h]).key == config.actions@[i].key;
            assert(actions[h].key == actions[i].key);
        } else {
            let j = choose|j: int|
                0 <= j < actions[i].modified@.len() && config.fine_combos(i, j)
                    && #[trigger] config.combo_error(i, j, error);
            lemma_combos(config, i, j);
            let key = actions[i].key;
            let id = actions[i].modified@[j].modifier@;
            assert(is_first_wrong_combo(config, i, j, key));
            if config.is_defined(id) {
                if config.has_member(id, key) {
                    let g = choose|g: int|
                        0 <= g < config.modifiers@.len() && (#[trigger] config.modifiers@[g]).id@
                            == id && config.modifiers@[g].keys@.contains(key);
                    assert(groups[g].id@ == actions[i].modified@[j].modifier@);
                } else {
                    let h = choose|h: int|
                        0 <= h < j && (#[trigger] config.actions@[i].modified@[h]).modifier@
                            == config.actions@[i].modified@[j].modifier@;
                    assert(actions[i].modified@[h].modifier@ == id);
                }
            }
        }
    }
}

/// The warning about a modifier group, if it has no keys.
pub open spec fn group_warning<A: Eq + Hash>() -> spec_fn(ModifierDecl<A>) -> Option<Caution<A>> {
    |group: ModifierDecl<A>|
        if group.keys@ == Set::<A>::empty() {
            Some(Caution::EmptyModifierGroup(group.id@))
        } else {
            None
        }
}

/// The warning about an action, if it is immediate and its key is no part of any of the groups.
pub open spec fn action_warning<A: Eq + Hash, Z: Eq + Hash>(
    groups: Seq<ModifierDecl<A>>,
) -> spec_fn(Action<A, Z>) -> Option<Caution<A>> {
    |action: Action<A, Z>|
        if action.immediate && forall|g: int|
            0 <= g < groups.len() ==> !(#[trigger] groups[g]).keys@.contains(action.key) {
            Some(Caution::ImmediateAction(action.key))
        } else {
            None
        }
}

/// There is a warning for each group without keys, and then one for each action that is immediate
/// though its key is no modifier key, and no other.
pub proof fn warnings_are_complete<A: Eq + Hash + Clone + Ord, Z: Eq + Hash>(config: Config<A, Z>)
    ensures
        config.cautions() == config.modifiers@.filter_map(group_warning::<A>())
            + config.actions@.filter_map(action_warning::<A, Z>(config.modifiers@)),
{
    lemma_group_warnings(config, config.modifiers@.len() as int);
    lemma_action_warnings(config, config.actions@.len() as int);
    assert(config.modifiers@.take(config.modifiers@.len() as int) =~= config.modifiers@);
    assert(config.actions@.take(config.actions@.len() as int) =~= config.actions@);
}

/// The warnings about the first groups.
proof fn lemma_group_warnings<A: Eq + Hash + Clone + Ord, Z: Eq + Hash>(
    config: Config<A, Z>,
    n: int,
)
    requires
        0 <= n <= config.modifiers@.len(),
    ensures
        config.group_cautions(n) == config.modifiers@.take(n).filter_map(group_warning::<A>()),
    decreases n,
{
    let groups = config.modifiers@;
    if n > 0 {
        lemma_group_warnings(config, n - 1);
        groups.lemma_filter_map_take_succ(group_warning::<A>(), n - 1);
        assert(config.group_cautions(n) =~= groups.take(n).filter_map(group_warning::<A>()));
    } else {
        assert(groups.take(0) =~= Seq::<ModifierDecl<A>>::empty());
        reveal(Seq::filter_map);
        assert(config.group_cautions(0) =~= groups.take(0).filter_map(group_warning::<A>()));
    }
}

/// The warnings about the first actions.
proof fn lemma_action_warnings<A: Eq + Hash + Clone + Ord, Z: Eq + Hash>(
    config: Config<A, Z>,
    n: int,
)
    requires
        0 <= n <= config.actions@.len(),
    ensures
        config.action_cautions(n) == config.actions@.take(n).filter_map(
            action_warning::<A, Z>(config.modifiers@),
        ),
    decreases n,
{
    let actions = config.actions@;
    let f = action_warning::<A, Z>(config.modifiers@);
    if n > 0 {
        lemma_action_warnings(config, n - 1);
        actions.lemma_filter_map_take_succ(f, n - 1);
        let key = actions[n - 1].key;
        assert(config.is_modifier_key(key) == !(forall|g: int|
            0 <= g < config.modifiers@.len() ==> !(#[trigger] config.modifiers@[g]).keys@.contains(
                key,
            )));
        assert(config.action_cautions(n) =~= actions.take(n).filter_map(f));
    } else {
        assert(actions.take(0) =~= Seq::<Action<A, Z>>::empty());
        reveal(Seq::filter_map);
        assert(config.action_cautions(0) =~= actions.take(0).filter_map(f));
    }
}

} // verus!

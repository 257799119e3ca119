//! What a new handler is made of and what it does, told by the configuration alone.
use crate::combo::conflict_laws::{gives_way, is_meant, is_muted, is_pressed, stands};
use crate::combo::handler_laws::has_distinct_codes;
use crate::combo::key_laws::saying;
use crate::combo::model::{Layout, Machine};
use crate::combo::policy::Policy;
use crate::combo::policy_laws::Input;
use crate::combo::types::Combo;
use crate::combo::{combo_laws, conflict_laws, group_laws, key_laws, laws, lists, model};
use crate::combo::{policy_laws, run_laws, setup};
use crate::config;
use crate::config::Config;
use crate::types::{Event, HandlingResult, Keycode, Kind};
use crate::validation_laws::{combos_differ, groups_differ, has_group, is_consistent};
use vstd::prelude::*;

verus! {

/// The last position that satisfies a predicate.
proof fn lemma_last_of(n: nat, p: spec_fn(usize) -> bool)
    requires
        n <= usize::MAX,
    ensures
        match setup::last_of(n, p) {
            Some(i) => i < n && p(i) && forall|j: usize| i < j < n ==> !#[trigger] p(j),
            None => forall|j: usize| j < n ==> !#[trigger] p(j),
        },
{
    lists::lemma_ascending(n, p);
    let all = model::ascending(n, p);
    assert forall|j: usize| j < n && #[trigger] p(j) implies all.len() > 0 && j <= all.last() by {
        assert(all.contains(j));
        let at = choose|at: int| 0 <= at < all.len() && all[at] == j;
        if at < all.len() - 1 {
            assert(all[at] < all[all.len() - 1]);
        }
    }
    if all.len() > 0 {
        assert(all[all.len() - 1] < n);
    }
}

/// A new handler knows a keycode exactly if it is one of a modifier group, or that of an action.
pub proof fn new_handler_knows_keycodes<A: Keycode, Z: Keycode>(
    config: &Config<A, Z>,
    m: Machine<Z>,
    keycode: A,
)
    requires
        config.describes(m),
        m.valid(),
        has_distinct_codes::<A>(),
    ensures
        m.layout.key_of(keycode.code()) is Some <==> {
            ||| exists|g: int|
                0 <= g < config.modifiers@.len() && (
                #[trigger] config.modifiers@[g]).keys@.contains(keycode)
            ||| exists|i: int|
                0 <= i < config.actions@.len() && (#[trigger] config.actions@[i]).key == keycode
        },
{
    let code = keycode.code();
    let keyed = config.key_codes();
    assert(config.modifiers.len() == config.modifiers@.len());
    assert(config.actions.len() == config.actions@.len());
    lemma_key_of(m.layout, code);
    assert(m.layout.codes.contains(code) <==> config.mentions(keyed, config.actions@.len(), code));
    if exists|g: usize| g < keyed.len() && #[trigger] (setup::groups_with(keyed, code))(g) {
        let g = choose|g: usize| g < keyed.len() && #[trigger] (setup::groups_with(keyed, code))(g);
        assert(setup::has_code(config.modifiers@[g as int].keys@, code));
        assert(config.modifiers@[g as int].keys@.contains(keycode));
    }
    if exists|i: usize| i < config.actions@.len() && #[trigger] (config.actions_of(code))(i) {
        let i = choose|i: usize|
            i < config.actions@.len() && #[trigger] (config.actions_of(code))(i);
        assert(config.actions@[i as int].key == keycode);
    }
    if exists|g: int|
        0 <= g < config.modifiers@.len() && (#[trigger] config.modifiers@[g]).keys@.contains(
            keycode,
        ) {
        let g = choose|g: int|
            0 <= g < config.modifiers@.len() && (#[trigger] config.modifiers@[g]).keys@.contains(
                keycode,
            );
        assert(setup::has_code(config.modifiers@[g].keys@, code));
        assert((setup::groups_with(keyed, code))(g as usize));
    }
    if exists|i: int|
        0 <= i < config.actions@.len() && (#[trigger] config.actions@[i]).key == keycode {
        let i = choose|i: int|
            0 <= i < config.actions@.len() && (#[trigger] config.actions@[i]).key == keycode;
        assert((config.actions_of(code))(i as usize));
    }
}

/// The key of a keycode.
proof fn lemma_key_of<Z: Keycode>(layout: Layout<Z>, code: usize)
    requires
        layout.valid(),
    ensures
        layout.key_of(code) is Some <==> layout.codes.contains(code),
        forall|k: usize| #[trigger]
            layout.key_of(code) == Some(k) <==> k < layout.codes.len() && layout.codes[k as int]
                == code,
{
    if layout.codes.contains(code) {
        let k = choose|k: int| 0 <= k < layout.codes.len() && layout.codes[k] == code;
        assert(layout.codes[k as usize as int] == code);
        let found = layout.key_of(code)->0;
        assert(found == k);
    }
    assert forall|k: usize| #[trigger] layout.key_of(code) == Some(k) <==> k < layout.codes.len()
        && layout.codes[k as int] == code by {
        if k < layout.codes.len() && layout.codes[k as int] == code {
            assert(layout.codes.contains(code));
            let found = layout.key_of(code)->0;
            assert(found == k);
        }
    }
}

/// The modifier groups of a new handler are those of the configuration, in their order: they have
/// the keys of their keycodes and no other, and mask as declared.
pub proof fn new_handler_has_groups<A: Keycode, Z: Keycode>(
    config: &Config<A, Z>,
    m: Machine<Z>,
    g: usize,
)
    requires
        config.describes(m),
        m.valid(),
        has_distinct_codes::<A>(),
        g < config.modifiers@.len(),
    ensures
        m.layout.members.len() == config.modifiers@.len(),
        m.layout.masking[g as int] == config.modifiers@[g as int].masking,
        forall|keycode: A, k: usize|
            #![trigger m.layout.members[g as int].contains(k), keycode.code()]
            k < m.layout.codes.len() && m.layout.codes[k as int] == keycode.code() ==> (
            m.layout.members[g as int].contains(k)
                <==> config.modifiers@[g as int].keys@.contains(keycode)),
        forall|k: usize| #[trigger]
            m.layout.members[g as int].contains(k) ==> k < m.layout.codes.len() && exists|
                keycode: A,
            |
                config.modifiers@[g as int].keys@.contains(keycode) && #[trigger] keycode.code()
                    == m.layout.codes[k as int],
        forall|keycode: A| #[trigger]
            config.modifiers@[g as int].keys@.contains(keycode) ==> m.layout.key_of(
                keycode.code(),
            ) is Some && m.layout.members[g as int].contains(
                m.layout.key_of(keycode.code())->0,
            ),
{
    let keyed = config.key_codes();
    let keys = config.modifiers@[g as int].keys@;
    assert(config.modifiers.len() == config.modifiers@.len());
    assert forall|keycode: A, k: usize|
        #![trigger m.layout.members[g as int].contains(k), keycode.code()]
        k < m.layout.codes.len() && m.layout.codes[k as int] == keycode.code() implies (
    m.layout.members[g as int].contains(k) <==> keys.contains(keycode)) by {
        assert(keyed[g as int].contains(keycode.code()) <==> setup::has_code(keys, keycode.code()));
        if setup::has_code(keys, keycode.code()) {
            let a = choose|a: A| #[trigger] keys.contains(a) && a.code() == keycode.code();
            assert(a == keycode);
        }
    }
    assert forall|k: usize| #[trigger] m.layout.members[g as int].contains(k) implies k
        < m.layout.codes.len() && exists|keycode: A|
        keys.contains(keycode) && #[trigger] keycode.code() == m.layout.codes[k as int] by {
        let code = m.layout.codes[k as int];
        assert(keyed[g as int].contains(code));
        assert(setup::has_code(keys, code));
        let a = choose|a: A| #[trigger] keys.contains(a) && a.code() == code;
        assert(keys.contains(a) && a.code() == code);
    }
    assert forall|keycode: A| #[trigger] keys.contains(keycode) implies m.layout.key_of(
        keycode.code(),
    ) is Some && m.layout.members[g as int].contains(m.layout.key_of(keycode.code())->0) by {
        assert(config.modifiers@[g as int].keys@.contains(keycode));
        new_handler_knows_keycodes(config, m, keycode);
        lemma_key_of(m.layout, keycode.code());
        let k = m.layout.key_of(keycode.code())->0;
        assert(m.layout.codes[k as int] == keycode.code());
    }
}

/// A key of a new handler has the action and the flags of the last action that the configuration
/// has for its keycode, or none.
pub proof fn new_handler_has_actions<A: Keycode, Z: Keycode>(
    config: &Config<A, Z>,
    m: Machine<Z>,
    keycode: A,
    key: usize,
)
    requires
        config.describes(m),
        m.valid(),
        has_distinct_codes::<A>(),
        m.layout.key_of(keycode.code()) == Some(key),
    ensures
        forall|i: int|
            0 <= i < config.actions@.len() && (#[trigger] config.actions@[i]).key == keycode && (
            forall|h: int|
                i < h < config.actions@.len() ==> (#[trigger] config.actions@[h]).key != keycode)
                ==> {
                &&& m.layout.actions[key as int] == config.actions@[i].action
                &&& m.keys[key as int].immediate == config.actions@[i].immediate
                &&& m.keys[key as int].latching == config.actions@[i].latching
            },
        (forall|i: int|
            0 <= i < config.actions@.len() ==> (#[trigger] config.actions@[i]).key != keycode) ==> {
            &&& m.layout.actions[key as int] is None
            &&& m.layout.combos[key as int].len() == 0
            &&& !m.keys[key as int].immediate
            &&& !m.keys[key as int].latching
        },
{
    let code = keycode.code();
    let n = config.actions@.len();
    let p = config.actions_of(code);
    assert(config.actions.len() == n);
    lemma_key_of(m.layout, code);
    lemma_last_of(n, p);
    assert forall|i: int| 0 <= i < n implies #[trigger] p(i as usize) == (config.actions@[i].key
        == keycode) by {}
    assert(config.action_of(n, code) == setup::last_of(n, p));
    assert forall|i: int|
        0 <= i < n && (#[trigger] config.actions@[i]).key == keycode && (forall|h: int|
            i < h < n ==> (#[trigger] config.actions@[h]).key
                != keycode) implies config.action_of(n, code) == Some(i as usize) by {
        assert(p(i as usize));
        match setup::last_of(n, p) {
            Some(at) => {
                assert(config.actions@[at as int].key == keycode);
                if at < i {
                    assert(!p(i as usize));
                }
            },
            None => {},
        }
    }
    if forall|i: int| 0 <= i < n ==> (#[trigger] config.actions@[i]).key != keycode {
        assert(config.action_of(n, code) is None) by {
            match setup::last_of(n, p) {
                Some(at) => {
                    assert(p(at));
                    assert(config.actions@[at as int].key != keycode);
                },
                None => {},
            }
        }
        lemma_declared_none(config, n, code);
        assert(setup::ranked(config.declared(n, code), m.layout.members).len() == 0);
    }
}

/// A key without actions has no combos.
proof fn lemma_declared_none<A: Keycode, Z: Keycode>(config: &Config<A, Z>, n: nat, code: usize)
    requires
        n <= config.actions@.len() <= usize::MAX,
        forall|i: usize| i < n ==> !#[trigger] (config.actions_of(code))(i),
    ensures
        config.declared(n, code).len() == 0,
    decreases n,
{
    if n > 0 {
        lemma_declared_none(config, (n - 1) as nat, code);
        assert(!(config.actions_of(code))((n - 1) as usize));
    }
}

/// A combo of a key, with the group that its modifier stands for: the last one with that id.
pub open spec fn is_combo_of<A: Keycode, Z: Keycode>(
    config: &Config<A, Z>,
    keycode: A,
    i: int,
    j: int,
    combo: Combo<Z>,
) -> bool {
    &&& 0 <= i < config.actions@.len()
    &&& config.actions@[i].key == keycode
    &&& 0 <= j < config.actions@[i].modified@.len()
    &&& combo.action == config.actions@[i].modified@[j].action
    &&& combo.group < config.modifiers@.len()
    &&& config.modifiers@[combo.group as int].id@ == config.actions@[i].modified@[j].modifier@
    &&& forall|g: int|
        combo.group < g < config.modifiers@.len() ==> (#[trigger] config.modifiers@[g]).id@
            != config.actions@[i].modified@[j].modifier@
}

/// Some action of the keycode declares the combo.
pub open spec fn is_declared<A: Keycode, Z: Keycode>(
    config: &Config<A, Z>,
    keycode: A,
    combo: Combo<Z>,
) -> bool {
    exists|i: int, j: int| #[trigger] is_combo_of(config, keycode, i, j, combo)
}

/// A combo of the declared list.
proof fn lemma_combo_of<A: Keycode, Z: Keycode>(
    config: &Config<A, Z>,
    keycode: A,
    i: int,
    j: int,
)
    requires
        config.defines_modifiers(),
        0 <= i < config.actions@.len(),
        config.actions@[i].key == keycode,
        0 <= j < config.actions@[i].modified@.len(),
    ensures
        is_combo_of(config, keycode, i, j, config.combo_of(config.actions@[i].modified@[j])),
        forall|combo: Combo<Z>| #[trigger]
            is_combo_of(config, keycode, i, j, combo) ==> combo == config.combo_of(
                config.actions@[i].modified@[j],
            ),
{
    let id = config.actions@[i].modified@[j].modifier@;
    let p = config.groups_named(id);
    assert(config.modifiers.len() == config.modifiers@.len());
    lemma_last_of(config.modifiers@.len(), p);
    assert(config.group_named(id) is Some);
    let group = config.group_named(id)->0;
    assert forall|g: int| group < g < config.modifiers@.len() implies (
    #[trigger] config.modifiers@[g]).id@ != id by {
        assert(!p(g as usize));
    }
    assert forall|combo: Combo<Z>| #[trigger]
        is_combo_of(config, keycode, i, j, combo) implies combo == config.combo_of(
        config.actions@[i].modified@[j],
    ) by {
        assert(p(combo.group));
        if combo.group < group {
            assert(config.modifiers@[group as int].id@ != id);
        }
    }
}

/// What is declared for a key: the combos of its actions.
proof fn lemma_declared<A: Keycode, Z: Keycode>(
    config: &Config<A, Z>,
    n: nat,
    keycode: A,
    combo: Combo<Z>,
)
    requires
        n <= config.actions@.len(),
        has_distinct_codes::<A>(),
    ensures
        config.declared(n, keycode.code()).contains(combo) <==> exists|i: int, j: int|
            0 <= i < n && config.actions@[i].key == keycode && 0 <= j
                < config.actions@[i].modified@.len() && combo == config.combo_of(
                #[trigger] config.actions@[i].modified@[j],
            ),
    decreases n,
{
    let code = keycode.code();
    assert(config.actions.len() == config.actions@.len());
    if n > 0 {
        let l = (n - 1) as nat;
        lemma_declared(config, l, keycode, combo);
        let before = config.declared(l, code);
        let all = config.declared(n, code);
        let action = config.actions@[l as int];
        let f = |combo: config::Combo<Z>| config.combo_of(combo);
        let more = if (config.actions_of(code))(l as usize) {
            action.modified@.map_values(f)
        } else {
            Seq::empty()
        };
        assert(all == before + more);
        assert((config.actions_of(code))(l as usize) == (action.key == keycode));
        if all.contains(combo) {
            let at = choose|at: int| 0 <= at < all.len() && all[at] == combo;
            if at < before.len() {
                assert(before[at] == combo);
                let (i, j) = choose|i: int, j: int|
                    0 <= i < l && config.actions@[i].key == keycode && 0 <= j
                        < config.actions@[i].modified@.len() && combo == config.combo_of(
                        #[trigger] config.actions@[i].modified@[j],
                    );
                assert(combo == config.combo_of(config.actions@[i].modified@[j]));
            } else {
                let j = at - before.len();
                assert(more[j] == combo);
                assert(combo == config.combo_of(config.actions@[l as int].modified@[j]));
            }
        }
        if exists|i: int, j: int|
            0 <= i < n && config.actions@[i].key == keycode && 0 <= j
                < config.actions@[i].modified@.len() && combo == config.combo_of(
                #[trigger] config.actions@[i].modified@[j],
            ) {
            let (i, j) = choose|i: int, j: int|
                0 <= i < n && config.actions@[i].key == keycode && 0 <= j
                    < config.actions@[i].modified@.len() && combo == config.combo_of(
                    #[trigger] config.actions@[i].modified@[j],
                );
            if i < l {
                assert(combo == config.combo_of(config.actions@[i].modified@[j]));
                assert(before.contains(combo));
                let at = choose|at: int| 0 <= at < before.len() && before[at] == combo;
                assert(all[at] == combo);
            } else {
                assert(more[j] == combo);
                assert(all[before.len() + j] == combo);
            }
        }
    }
}

/// Ranking keeps what is in a list, how long it is, and that no two have the same group.
proof fn lemma_ranked_keeps<Z: Keycode>(combos: Seq<Combo<Z>>, members: Seq<Set<usize>>)
    ensures
        setup::ranked(combos, members).len() == combos.len(),
        forall|combo: Combo<Z>| #[trigger]
            setup::ranked(combos, members).contains(combo) <==> combos.contains(combo),
        has_distinct_groups(combos) ==> has_distinct_groups(setup::ranked(combos, members)),
    decreases combos.len(),
{
    if combos.len() > 0 {
        let rest = combos.drop_last();
        let last = combos.last();
        lemma_ranked_keeps(rest, members);
        let before = setup::ranked(rest, members);
        let at = setup::rank(before, members, members[last.group as int].len());
        lemma_rank_range(before, members, members[last.group as int].len());
        let all = setup::ranked(combos, members);
        assert(all == before.insert(at, last));
        assert forall|combo: Combo<Z>| #[trigger] all.contains(combo) <==> combos.contains(
            combo,
        ) by {
            if all.contains(combo) {
                let i = choose|i: int| 0 <= i < all.len() && all[i] == combo;
                if i == at {
                    assert(combos[combos.len() - 1] == combo);
                } else {
                    assert(before[if i < at { i } else { i - 1 }] == combo);
                    assert(before.contains(combo));
                    let j = choose|j: int| 0 <= j < rest.len() && rest[j] == combo;
                    assert(combos[j] == combo);
                }
            }
            if combos.contains(combo) {
                let j = choose|j: int| 0 <= j < combos.len() && combos[j] == combo;
                if j < rest.len() {
                    assert(rest[j] == combo);
                    assert(before.contains(combo));
                    let i = choose|i: int| 0 <= i < before.len() && before[i] == combo;
                    assert(all[if i < at { i } else { i + 1 }] == combo);
                } else {
                    assert(all[at] == combo);
                }
            }
        }
        if has_distinct_groups(combos) {
            assert forall|x: int, y: int|
                #![trigger rest[x], rest[y]]
                0 <= x < y < rest.len() implies rest[x].group != rest[y].group by {
                assert(combos[x].group != combos[y].group);
            }
            assert forall|i: int| 0 <= i < before.len() implies (#[trigger] before[i]).group
                != last.group by {
                assert(before.contains(before[i]));
                let j = choose|j: int| 0 <= j < rest.len() && rest[j] == before[i];
                assert(combos[j].group != combos[combos.len() - 1].group);
            }
            assert forall|x: int, y: int|
                #![trigger all[x], all[y]]
                0 <= x < y < all.len() implies all[x].group != all[y].group by {
                let (i, j) = (if x < at { x } else { x - 1 }, if y < at { y } else { y - 1 });
                if x == at {
                    assert(all[y] == before[j]);
                } else if y == at {
                    assert(all[x] == before[i]);
                } else {
                    assert(before[i].group != before[j].group);
                }
            }
        }
    }
}

/// No two of the combos have the same group.
pub open spec fn has_distinct_groups<Z: Keycode>(combos: Seq<Combo<Z>>) -> bool {
    forall|c: int, d: int|
        #![trigger combos[c], combos[d]]
        0 <= c < d < combos.len() ==> combos[c].group != combos[d].group
}

/// A rank is a position.
proof fn lemma_rank_range<Z: Keycode>(combos: Seq<Combo<Z>>, members: Seq<Set<usize>>, size: nat)
    ensures
        0 <= setup::rank(combos, members, size) <= combos.len(),
    decreases combos.len(),
{
    if combos.len() > 0 {
        lemma_rank_range(combos.drop_first(), members, size);
    }
}

/// The combos of a key of a new handler are those that the configuration has for its keycode, all of
/// them and no other. In a consistent configuration no two of them have the same group.
pub proof fn new_handler_has_combos<A: Keycode, Z: Keycode>(
    config: &Config<A, Z>,
    m: Machine<Z>,
    keycode: A,
    key: usize,
)
    requires
        config.describes(m),
        m.valid(),
        config.defines_modifiers(),
        has_distinct_codes::<A>(),
        m.layout.key_of(keycode.code()) == Some(key),
    ensures
        forall|c: int|
            0 <= c < m.layout.combos[key as int].len() ==> is_declared(
                config,
                keycode,
                #[trigger] m.layout.combos[key as int][c],
            ),
        forall|i: int, j: int, combo: Combo<Z>| #[trigger]
            is_combo_of(config, keycode, i, j, combo) ==> m.layout.combos[key as int].contains(
                combo,
            ),
        is_consistent(*config) ==> has_distinct_groups(m.layout.combos[key as int])
            && m.layout.combos[key as int].len() <= usize::MAX,
{
    let code = keycode.code();
    let n = config.actions@.len();
    let declared = config.declared(n, code);
    let combos = m.layout.combos[key as int];
    lemma_key_of(m.layout, code);
    assert(combos == setup::ranked(declared, m.layout.members));
    lemma_ranked_keeps(declared, m.layout.members);
    assert forall|c: int| 0 <= c < combos.len() implies is_declared(
        config,
        keycode,
        #[trigger] m.layout.combos[key as int][c],
    ) by {
        let combo = combos[c];
        assert(combos.contains(combo));
        lemma_declared(config, n, keycode, combo);
        let (i, j) = choose|i: int, j: int|
            0 <= i < n && config.actions@[i].key == keycode && 0 <= j
                < config.actions@[i].modified@.len() && combo == config.combo_of(
                #[trigger] config.actions@[i].modified@[j],
            );
        lemma_combo_of(config, keycode, i, j);
        assert(is_combo_of(config, keycode, i, j, combo));
    }
    assert forall|i: int, j: int, combo: Combo<Z>| #[trigger]
        is_combo_of(config, keycode, i, j, combo) implies combos.contains(combo) by {
        lemma_combo_of(config, keycode, i, j);
        assert(combo == config.combo_of(config.actions@[i].modified@[j]));
        lemma_declared(config, n, keycode, combo);
    }
    if is_consistent(*config) {
        lemma_declared_distinct(config, n, keycode);
    }
}

/// The combos that a consistent configuration declares for a key have different groups.
proof fn lemma_declared_distinct<A: Keycode, Z: Keycode>(
    config: &Config<A, Z>,
    n: nat,
    keycode: A,
)
    requires
        n <= config.actions@.len(),
        has_distinct_codes::<A>(),
        config.defines_modifiers(),
        is_consistent(*config),
    ensures
        has_distinct_groups(config.declared(n, keycode.code())),
        config.declared(n, keycode.code()).len() <= usize::MAX,
    decreases n,
{
    let code = keycode.code();
    assert(config.actions.len() == config.actions@.len());
    if n > 0 {
        let l = (n - 1) as nat;
        lemma_declared_distinct(config, l, keycode);
        let before = config.declared(l, code);
        let all = config.declared(n, code);
        let action = config.actions@[l as int];
        let f = |combo: config::Combo<Z>| config.combo_of(combo);
        assert((config.actions_of(code))(l as usize) == (action.key == keycode));
        if action.key == keycode {
            let more = action.modified@.map_values(f);
            assert(all == before + more);
            assert(action.modified.len() == action.modified@.len());
            assert(before.len() == 0) by {
                assert forall|i: usize| i < l implies !#[trigger] (config.actions_of(code))(i) by {
                    assert(config.actions@[i as int].key != config.actions@[l as int].key);
                }
                lemma_declared_none(config, l, code);
            }
            assert forall|c: int, d: int|
                #![trigger all[c], all[d]]
                0 <= c < d < all.len() implies all[c].group != all[d].group by {
                assert(all[c] == config.combo_of(action.modified@[c]));
                assert(all[d] == config.combo_of(action.modified@[d]));
                lemma_combo_of(config, keycode, l as int, c);
                lemma_combo_of(config, keycode, l as int, d);
                assert(action.modified@[c].modifier@ != action.modified@[d].modifier@);
            }
        } else {
            assert(all =~= before);
        }
    }
}

/// A new handler is at rest: no key is down, no release has an effect, no key acts through a group,
/// nothing is counted, and it is orderly.
pub proof fn new_handler_is_at_rest<A: Keycode, Z: Keycode>(config: &Config<A, Z>, m: Machine<Z>)
    requires
        config.outlines(m),
        m.valid(),
    ensures
        m.down == Set::<usize>::empty(),
        forall|k: int|
            0 <= k < m.keys.len() ==> {
                &&& !(#[trigger] m.keys[k]).open
                &&& m.keys[k].active is None
                &&& m.keys[k].pending == 0
                &&& m.keys[k].stamp != m.stamp
            },
        forall|g: int|
            0 <= g < m.holders.len() ==> #[trigger] m.holders[g] == Set::<usize>::empty(),
        m.is_orderly(),
        m.is_young(),
        m.stamp == 1,
{
    policy_laws::new_handler_is_sound(config, m);
    group_laws::new_handler_is_settled(config, m);
}

/// The scalar positions of the keycodes that are down after the inputs.
pub open spec fn held_codes(inputs: Seq<Input>) -> Set<usize>
    decreases inputs.len(),
{
    if inputs.len() == 0 {
        Set::empty()
    } else {
        let before = held_codes(inputs.drop_last());
        match inputs.last().kind {
            Kind::Down => before.insert(inputs.last().code),
            Kind::Up => before.remove(inputs.last().code),
            _ => before,
        }
    }
}

/// The keys that are down are those whose keycodes are.
proof fn lemma_held_codes<Z: Keycode>(layout: Layout<Z>, inputs: Seq<Input>)
    requires
        layout.valid(),
    ensures
        forall|k: usize| #[trigger]
            run_laws::held(layout, inputs).contains(k) <==> k < layout.codes.len() && held_codes(
                inputs,
            ).contains(layout.codes[k as int]),
    decreases inputs.len(),
{
    if inputs.len() > 0 {
        lemma_held_codes(layout, inputs.drop_last());
        let code = inputs.last().code;
        lemma_key_of(layout, code);
        assert forall|k: usize| #[trigger] run_laws::held(layout, inputs).contains(k) <==> k
            < layout.codes.len() && held_codes(inputs).contains(layout.codes[k as int]) by {
            assert(run_laws::held(layout, inputs.drop_last()).contains(k) <==> k
                < layout.codes.len() && held_codes(inputs.drop_last()).contains(
                layout.codes[k as int],
            ));
            assert(layout.key_of(code) == Some(k) <==> k < layout.codes.len()
                && layout.codes[k as int] == code);
        }
    }
}

/// The modifier group has keycodes, and all of them are down.
pub open spec fn is_held<A: Keycode, Z: Keycode>(
    config: &Config<A, Z>,
    g: int,
    down: Set<usize>,
) -> bool {
    &&& 0 <= g < config.modifiers@.len()
    &&& config.modifiers@[g].keys@ != Set::<A>::empty()
    &&& forall|keycode: A| #[trigger]
        config.modifiers@[g].keys@.contains(keycode) ==> down.contains(keycode.code())
}

/// The modifier group `g` is the one of a combo of the action, and it has no conflict while the
/// keycodes `down` are down: it is held, each group that is held has no keycode in common with it
/// or only keycodes of it, and the latter holds of the groups of the action's other combos.
pub open spec fn is_picked<A: Keycode, Z: Keycode>(
    config: &Config<A, Z>,
    i: int,
    j: int,
    g: int,
    down: Set<usize>,
) -> bool {
    let combos = config.actions@[i].modified@;
    let keys = config.modifiers@[g].keys@;
    &&& 0 <= i < config.actions@.len()
    &&& 0 <= j < combos.len()
    &&& config.modifiers@[g].id@ == combos[j].modifier@
    &&& is_held(config, g, down)
    &&& forall|h: int| #[trigger]
        is_held(config, h, down) ==> config.modifiers@[h].keys@.disjoint(keys)
            || config.modifiers@[h].keys@.subset_of(keys)
    &&& forall|h: int, x: int|
        #![trigger is_held(config, h, down), combos[x]]
        0 <= x < combos.len() && is_held(config, h, down) && config.modifiers@[h].id@
            == combos[x].modifier@ ==> config.modifiers@[h].keys@.subset_of(keys)
}

/// Some masking group is held, and no group that has all of its keycodes and more is.
pub open spec fn is_masked_by<A: Keycode, Z: Keycode>(
    config: &Config<A, Z>,
    down: Set<usize>,
) -> bool {
    exists|g: int| #[trigger]
        is_held(config, g, down) && config.modifiers@[g].masking && forall|h: int| #[trigger]
            is_held(config, h, down) && config.modifiers@[g].keys@.subset_of(
                config.modifiers@[h].keys@,
            ) ==> config.modifiers@[h].keys@ == config.modifiers@[g].keys@
}

/// The action says this while the keycodes `down` are down: the output keycode of the combo that is
/// picked, or its own if none is and nothing masks it.
pub open spec fn is_answer<A: Keycode, Z: Keycode>(
    config: &Config<A, Z>,
    i: int,
    down: Set<usize>,
    said: Option<Z>,
) -> bool {
    ||| exists|j: int, g: int| #[trigger]
        is_picked(config, i, j, g, down) && said == config.actions@[i].modified@[j].action
    ||| (forall|j: int, g: int| !#[trigger] is_picked(config, i, j, g, down)) && said
        == if is_masked_by(config, down) {
        None
    } else {
        config.actions@[i].action
    }
}

/// The keys of a layout that are at the scalar positions.
pub open spec fn keys_at<Z: Keycode>(layout: Layout<Z>, down: Set<usize>) -> Set<usize> {
    Set::new(|k: usize| k < layout.codes.len() && down.contains(layout.codes[k as int]))
}

/// A group is pressed exactly if its keycodes are held.
proof fn lemma_held<A: Keycode, Z: Keycode>(
    config: &Config<A, Z>,
    m: Machine<Z>,
    g: usize,
    down: Set<usize>,
)
    requires
        config.describes(m),
        m.valid(),
        has_distinct_codes::<A>(),
    ensures
        is_pressed(m.layout, g, keys_at(m.layout, down)) == is_held(config, g as int, down),
{
    if g < config.modifiers@.len() {
        new_handler_has_groups(config, m, g);
        let members = m.layout.members[g as int];
        let keys = config.modifiers@[g as int].keys@;
        if is_held(config, g as int, down) {
            assert(members != Set::<usize>::empty()) by {
                if forall|a: A| !keys.contains(a) {
                    assert(keys =~= Set::<A>::empty());
                }
                let a = choose|a: A| keys.contains(a);
                assert(members.contains(m.layout.key_of(a.code())->0));
            }
            assert forall|k: usize| members.contains(k) implies keys_at(m.layout, down).contains(
                k,
            ) by {
                let a = choose|a: A|
                    keys.contains(a) && #[trigger] a.code() == m.layout.codes[k as int];
                assert(keys.contains(a));
            }
        }
        if is_pressed(m.layout, g, keys_at(m.layout, down)) {
            assert(keys != Set::<A>::empty()) by {
                if forall|k: usize| !members.contains(k) {
                    assert(members =~= Set::<usize>::empty());
                }
                let k = choose|k: usize| members.contains(k);
                let a = choose|a: A|
                    keys.contains(a) && #[trigger] a.code() == m.layout.codes[k as int];
                assert(keys.contains(a));
            }
            assert forall|a: A| #[trigger] keys.contains(a) implies down.contains(a.code()) by {
                let k = m.layout.key_of(a.code())->0;
                lemma_key_of(m.layout, a.code());
                assert(members.contains(k));
                assert(keys_at(m.layout, down).contains(k));
            }
        }
    }
}

/// The keys of groups relate as their keycodes do.
proof fn lemma_same_relations<A: Keycode, Z: Keycode>(
    config: &Config<A, Z>,
    m: Machine<Z>,
    a: usize,
    b: usize,
)
    requires
        config.describes(m),
        m.valid(),
        has_distinct_codes::<A>(),
        a < config.modifiers@.len(),
        b < config.modifiers@.len(),
    ensures
        m.layout.members[a as int].subset_of(m.layout.members[b as int])
            == config.modifiers@[a as int].keys@.subset_of(config.modifiers@[b as int].keys@),
        m.layout.members[a as int].disjoint(m.layout.members[b as int])
            == config.modifiers@[a as int].keys@.disjoint(config.modifiers@[b as int].keys@),
        (m.layout.members[a as int] == m.layout.members[b as int]) == (
        config.modifiers@[a as int].keys@ == config.modifiers@[b as int].keys@),
{
    lemma_one_way(config, m, a, b);
    lemma_one_way(config, m, b, a);
    let (x, y) = (m.layout.members[a as int], m.layout.members[b as int]);
    let (p, q) = (config.modifiers@[a as int].keys@, config.modifiers@[b as int].keys@);
    if x.subset_of(y) && y.subset_of(x) {
        assert(x =~= y);
        assert(p =~= q);
    }
}

/// The keycode of a key of a group, and of which of two groups it is one.
proof fn lemma_keycode_of<A: Keycode, Z: Keycode>(
    config: &Config<A, Z>,
    m: Machine<Z>,
    a: usize,
    b: usize,
    k: usize,
) -> (keycode: A)
    requires
        config.describes(m),
        m.valid(),
        has_distinct_codes::<A>(),
        a < config.modifiers@.len(),
        b < config.modifiers@.len(),
        m.layout.members[a as int].contains(k),
    ensures
        config.modifiers@[a as int].keys@.contains(keycode),
        config.modifiers@[b as int].keys@.contains(keycode)
            == m.layout.members[b as int].contains(k),
{
    new_handler_has_groups(config, m, a);
    new_handler_has_groups(config, m, b);
    let keycode = choose|keycode: A|
        config.modifiers@[a as int].keys@.contains(keycode) && #[trigger] keycode.code()
            == m.layout.codes[k as int];
    assert(m.layout.members[b as int].contains(k)
        <==> config.modifiers@[b as int].keys@.contains(keycode));
    keycode
}

/// The key of a keycode of a group, and of which of two groups it is one.
proof fn lemma_key_of_keycode<A: Keycode, Z: Keycode>(
    config: &Config<A, Z>,
    m: Machine<Z>,
    a: usize,
    b: usize,
    keycode: A,
) -> (k: usize)
    requires
        config.describes(m),
        m.valid(),
        has_distinct_codes::<A>(),
        a < config.modifiers@.len(),
        b < config.modifiers@.len(),
        config.modifiers@[a as int].keys@.contains(keycode),
    ensures
        m.layout.members[a as int].contains(k),
        config.modifiers@[b as int].keys@.contains(keycode)
            == m.layout.members[b as int].contains(k),
{
    new_handler_has_groups(config, m, a);
    new_handler_has_groups(config, m, b);
    let k = m.layout.key_of(keycode.code())->0;
    lemma_key_of(m.layout, keycode.code());
    assert(m.layout.codes[k as int] == keycode.code());
    assert(m.layout.members[b as int].contains(k)
        <==> config.modifiers@[b as int].keys@.contains(keycode));
    k
}

/// The keys of groups relate as their keycodes do, one way.
proof fn lemma_one_way<A: Keycode, Z: Keycode>(
    config: &Config<A, Z>,
    m: Machine<Z>,
    a: usize,
    b: usize,
)
    requires
        config.describes(m),
        m.valid(),
        has_distinct_codes::<A>(),
        a < config.modifiers@.len(),
        b < config.modifiers@.len(),
    ensures
        m.layout.members[a as int].subset_of(m.layout.members[b as int])
            == config.modifiers@[a as int].keys@.subset_of(config.modifiers@[b as int].keys@),
        m.layout.members[a as int].disjoint(m.layout.members[b as int])
            == config.modifiers@[a as int].keys@.disjoint(config.modifiers@[b as int].keys@),
{
    let (x, y) = (m.layout.members[a as int], m.layout.members[b as int]);
    let (p, q) = (config.modifiers@[a as int].keys@, config.modifiers@[b as int].keys@);
    if x.subset_of(y) {
        assert forall|keycode: A| p.contains(keycode) implies q.contains(keycode) by {
            let k = lemma_key_of_keycode(config, m, a, b, keycode);
            assert(y.contains(k));
        }
    }
    if p.subset_of(q) {
        assert forall|k: usize| x.contains(k) implies y.contains(k) by {
            let keycode = lemma_keycode_of(config, m, a, b, k);
            assert(q.contains(keycode));
        }
    }
    if x.disjoint(y) {
        assert forall|keycode: A| p.contains(keycode) implies !q.contains(keycode) by {
            let k = lemma_key_of_keycode(config, m, a, b, keycode);
            assert(!y.contains(k));
        }
    }
    if p.disjoint(q) {
        assert forall|k: usize| x.contains(k) implies !y.contains(k) by {
            let keycode = lemma_keycode_of(config, m, a, b, k);
            assert(!q.contains(keycode));
        }
    }
}

/// A group of a consistent configuration gives way exactly if a group is held that has all of its
/// keycodes and more.
proof fn lemma_gives_way<A: Keycode, Z: Keycode>(
    config: &Config<A, Z>,
    m: Machine<Z>,
    g: usize,
    down: Set<usize>,
)
    requires
        config.describes(m),
        m.valid(),
        has_distinct_codes::<A>(),
        groups_differ(*config, config.modifiers@.len() as int),
        g < config.modifiers@.len(),
    ensures
        gives_way(m.layout, g, keys_at(m.layout, down)) <==> exists|h: int| #[trigger]
            is_held(config, h, down) && config.modifiers@[g as int].keys@.subset_of(
                config.modifiers@[h].keys@,
            ) && config.modifiers@[h].keys@ != config.modifiers@[g as int].keys@,
{
    let layout = m.layout;
    let keys = keys_at(layout, down);
    assert(config.modifiers.len() == config.modifiers@.len());
    assert forall|h: usize| h < g implies #[trigger] layout.members[h as int]
        != layout.members[g as int] by {
        lemma_same_relations(config, m, h, g);
        assert(config.modifiers@[h as int].keys@ != config.modifiers@[g as int].keys@);
    }
    if gives_way(layout, g, keys) {
        let b = choose|b: usize| #[trigger]
            is_pressed(layout, b, keys) && layout.members[g as int].subset_of(
                layout.members[b as int],
            ) && layout.members[g as int] != layout.members[b as int];
        lemma_held(config, m, b, down);
        lemma_same_relations(config, m, g, b);
        assert(is_held(config, b as int, down));
    }
    if exists|h: int| #[trigger]
        is_held(config, h, down) && config.modifiers@[g as int].keys@.subset_of(
            config.modifiers@[h].keys@,
        ) && config.modifiers@[h].keys@ != config.modifiers@[g as int].keys@ {
        let h = choose|h: int| #[trigger]
            is_held(config, h, down) && config.modifiers@[g as int].keys@.subset_of(
                config.modifiers@[h].keys@,
            ) && config.modifiers@[h].keys@ != config.modifiers@[g as int].keys@;
        lemma_held(config, m, h as usize, down);
        lemma_same_relations(config, m, g, h as usize);
        assert(is_pressed(layout, h as usize, keys));
    }
}

/// The combo that a key stands for is picked.
proof fn lemma_stands_picked<A: Keycode, Z: Keycode>(
    config: &Config<A, Z>,
    m: Machine<Z>,
    i: int,
    key: usize,
    down: Set<usize>,
    c: usize,
) -> (at: (int, int))
    requires
        config.describes(m),
        m.valid(),
        config.defines_modifiers(),
        has_distinct_codes::<A>(),
        is_consistent(*config),
        0 <= i < config.actions@.len(),
        m.layout.key_of(config.actions@[i].key.code()) == Some(key),
        stands(m.layout, key, c, keys_at(m.layout, down)),
    ensures
        is_picked(config, i, at.0, at.1, down),
        m.layout.combos[key as int][c as int].action == config.actions@[i].modified@[at.0].action,
{
    let layout = m.layout;
    let keys = keys_at(layout, down);
    let keycode = config.actions@[i].key;
    let combos = layout.combos[key as int];
    let listed = config.actions@[i].modified@;
    new_handler_has_combos(config, m, keycode, key);
    assert(config.modifiers.len() == config.modifiers@.len());
    let (x, j) = choose|x: int, j: int| #[trigger]
        is_combo_of(config, keycode, x, j, combos[c as int]);
    assert(is_combo_of(config, keycode, x, j, combos[c as int])) by {
        assert(is_declared(config, keycode, combos[c as int]));
    }
    lemma_only_action(config, i, x);
    let group = combos[c as int].group;
    lemma_held(config, m, group, down);
    lemma_gives_way(config, m, group, down);
    let own = config.modifiers@[group as int].keys@;
    assert forall|h: int| #[trigger] is_held(config, h, down) implies config.modifiers@[h].keys@.disjoint(
        own,
    ) || config.modifiers@[h].keys@.subset_of(own) by {
        lemma_held(config, m, h as usize, down);
        lemma_same_relations(config, m, h as usize, group);
        lemma_same_relations(config, m, group, h as usize);
        assert(is_pressed(layout, h as usize, keys));
    }
    assert forall|h: int, y: int|
        #![trigger is_held(config, h, down), listed[y]]
        0 <= y < listed.len() && is_held(config, h, down) && config.modifiers@[h].id@
            == listed[y].modifier@ implies config.modifiers@[h].keys@.subset_of(own) by {
        let combo = config.combo_of(listed[y]);
        lemma_combo_of(config, keycode, i, y);
        assert(is_combo_of(config, keycode, i, y, combo));
        assert(combos.contains(combo));
        let d = choose|d: int| 0 <= d < combos.len() && combos[d] == combo;
        lemma_only_group(config, combo.group as int, h);
        lemma_held(config, m, h as usize, down);
        lemma_same_relations(config, m, h as usize, group);
        assert(combos[d as usize as int].group == combo.group);
        if d != c {
            assert(is_pressed(layout, combos[d as usize as int].group, keys));
        }
    }
    assert(is_picked(config, i, j, group as int, down));
    (j, group as int)
}

/// Consistent: one action has the key.
proof fn lemma_only_action<A: Keycode, Z: Keycode>(config: &Config<A, Z>, i: int, x: int)
    requires
        is_consistent(*config),
        0 <= i < config.actions@.len(),
        0 <= x < config.actions@.len(),
        config.actions@[i].key == config.actions@[x].key,
    ensures
        i == x,
{
    if i < x {
        assert(config.actions@[i].key != config.actions@[x].key);
    } else if x < i {
        assert(config.actions@[x].key != config.actions@[i].key);
    }
}

/// Consistent: one group has the id.
proof fn lemma_only_group<A: Keycode, Z: Keycode>(config: &Config<A, Z>, g: int, h: int)
    requires
        is_consistent(*config),
        0 <= g < config.modifiers@.len(),
        0 <= h < config.modifiers@.len(),
        config.modifiers@[g].id@ == config.modifiers@[h].id@,
    ensures
        g == h,
{
    if g < h {
        assert(config.modifiers@[g].id@ != config.modifiers@[h].id@);
    } else if h < g {
        assert(config.modifiers@[h].id@ != config.modifiers@[g].id@);
    }
}

/// The combo that is picked is one that the key stands for.
proof fn lemma_picked_stands<A: Keycode, Z: Keycode>(
    config: &Config<A, Z>,
    m: Machine<Z>,
    i: int,
    key: usize,
    down: Set<usize>,
    j: int,
    g: int,
) -> (c: usize)
    requires
        config.describes(m),
        m.valid(),
        config.defines_modifiers(),
        has_distinct_codes::<A>(),
        is_consistent(*config),
        0 <= i < config.actions@.len(),
        m.layout.key_of(config.actions@[i].key.code()) == Some(key),
        is_picked(config, i, j, g, down),
    ensures
        stands(m.layout, key, c, keys_at(m.layout, down)),
        m.layout.combos[key as int][c as int].action == config.actions@[i].modified@[j].action,
        m.layout.combos[key as int][c as int].group == g,
{
    let layout = m.layout;
    let keys = keys_at(layout, down);
    let keycode = config.actions@[i].key;
    let combos = layout.combos[key as int];
    let listed = config.actions@[i].modified@;
    lemma_key_of(layout, keycode.code());
    new_handler_has_combos(config, m, keycode, key);
    assert(config.modifiers.len() == config.modifiers@.len());
    let combo = config.combo_of(listed[j]);
    lemma_combo_of(config, keycode, i, j);
    assert(is_combo_of(config, keycode, i, j, combo));
    assert(combos.contains(combo));
    let at = choose|at: int| 0 <= at < combos.len() && combos[at] == combo;
    lemma_only_group(config, combo.group as int, g);
    let group = combo.group;
    let own = layout.members[group as int];
    let c = at as usize;
    lemma_held(config, m, group, down);
    lemma_gives_way(config, m, group, down);
    assert(!gives_way(layout, group, keys)) by {
        if gives_way(layout, group, keys) {
            let h = choose|h: int| #[trigger]
                is_held(config, h, down) && config.modifiers@[group as int].keys@.subset_of(
                    config.modifiers@[h].keys@,
                ) && config.modifiers@[h].keys@ != config.modifiers@[group as int].keys@;
            lemma_same_relations(config, m, group, h as usize);
            let (p, q) = (config.modifiers@[group as int].keys@, config.modifiers@[h].keys@);
            if q.subset_of(p) {
                assert(p =~= q);
            } else {
                assert(q.disjoint(p));
                assert(p =~= Set::<A>::empty());
            }
        }
    }
    assert forall|b: usize| #[trigger] is_pressed(layout, b, keys) implies layout.members[b as int].disjoint(
        own,
    ) || layout.members[b as int].subset_of(own) by {
        lemma_held(config, m, b, down);
        lemma_same_relations(config, m, b, group);
    }
    assert forall|d: usize|
        #![trigger combos[d as int]]
        d < combos.len() && d != c && is_pressed(layout, combos[d as int].group, keys) implies d > c
        && (combos[d as int].group == group
        || layout.members[combos[d as int].group as int].subset_of(own)
        && layout.members[combos[d as int].group as int] != own) by {
        assert(is_declared(config, keycode, combos[d as int]));
        let (x, y) = choose|x: int, y: int| #[trigger]
            is_combo_of(config, keycode, x, y, combos[d as int]);
        lemma_only_action(config, i, x);
        let other = combos[d as int].group;
        lemma_held(config, m, other, down);
        lemma_same_relations(config, m, other, group);
        assert(listed[y].modifier@ == config.modifiers@[other as int].id@);
        assert(config.modifiers@[other as int].keys@.subset_of(
            config.modifiers@[group as int].keys@,
        ));
        assert(combos[c as int].group != combos[d as int].group);
        assert(config.modifiers@[other as int].keys@ != config.modifiers@[group as int].keys@) by {
            if other < group {
                assert(config.modifiers@[other as int].keys@
                    != config.modifiers@[group as int].keys@);
            } else {
                assert(config.modifiers@[group as int].keys@
                    != config.modifiers@[other as int].keys@);
            }
        }
        let (p, q) = (layout.members[other as int], own);
        assert(q.finite());
        vstd::set_lib::lemma_len_subset(p, q);
        if p.len() == q.len() {
            vstd::set_lib::lemma_subset_equality(p, q);
        }
        if d < c {
            assert(layout.members[layout.group_at(key, d) as int].len()
                >= layout.members[layout.group_at(key, c) as int].len());
        }
    }
    assert(stands(layout, key, c, keys));
    c
}

/// A consistent configuration defines its modifiers.
proof fn lemma_defines<A: Keycode, Z: Keycode>(config: &Config<A, Z>)
    requires
        is_consistent(*config),
    ensures
        config.defines_modifiers(),
{
    assert(config.modifiers.len() == config.modifiers@.len());
    assert forall|i: int, j: int|
        0 <= i < config.actions@.len() && 0 <= j
            < config.actions@[i].modified@.len() implies config.group_named(
        (#[trigger] config.actions@[i].modified@[j]).modifier@,
    ) is Some by {
        let id = config.actions@[i].modified@[j].modifier@;
        assert(config.actions@[i].key == config.actions@[i].key);
        assert(combos_differ(*config, i, config.actions@[i].modified@.len() as int));
        assert(has_group(*config, id));
        let g = choose|g: int|
            0 <= g < config.modifiers@.len() && (#[trigger] config.modifiers@[g]).id@ == id;
        let p = config.groups_named(id);
        lemma_last_of(config.modifiers@.len(), p);
        assert(p(g as usize));
    }
}

/// The configuration masks exactly if the handler is muted.
proof fn lemma_masked_by<A: Keycode, Z: Keycode>(
    config: &Config<A, Z>,
    m: Machine<Z>,
    down: Set<usize>,
)
    requires
        config.describes(m),
        m.valid(),
        has_distinct_codes::<A>(),
        is_consistent(*config),
    ensures
        is_muted(m.layout, keys_at(m.layout, down)) == is_masked_by(config, down),
{
    let layout = m.layout;
    let keys = keys_at(layout, down);
    assert(config.modifiers.len() == config.modifiers@.len());
    if is_muted(layout, keys) {
        let g = choose|g: usize| #[trigger]
            is_pressed(layout, g, keys) && layout.masking[g as int] && !gives_way(layout, g, keys);
        lemma_held(config, m, g, down);
        lemma_gives_way(config, m, g, down);
        new_handler_has_groups(config, m, g);
        assert(is_held(config, g as int, down) && config.modifiers@[g as int].masking);
    }
    if is_masked_by(config, down) {
        let g = choose|g: int| #[trigger]
            is_held(config, g, down) && config.modifiers@[g].masking && forall|h: int| #[trigger]
                is_held(config, h, down) && config.modifiers@[g].keys@.subset_of(
                    config.modifiers@[h].keys@,
                ) ==> config.modifiers@[h].keys@ == config.modifiers@[g].keys@;
        lemma_held(config, m, g as usize, down);
        lemma_gives_way(config, m, g as usize, down);
        new_handler_has_groups(config, m, g as usize);
        assert(is_pressed(layout, g as usize, keys));
    }
}

/// What a key means is what the configuration says.
proof fn lemma_answer<A: Keycode, Z: Keycode>(
    config: &Config<A, Z>,
    m: Machine<Z>,
    i: int,
    key: usize,
    down: Set<usize>,
    said: Option<Z>,
)
    requires
        config.describes(m),
        m.valid(),
        has_distinct_codes::<A>(),
        is_consistent(*config),
        0 <= i < config.actions@.len(),
        m.layout.key_of(config.actions@[i].key.code()) == Some(key),
        is_meant(m.layout, key, keys_at(m.layout, down), said),
    ensures
        is_answer(config, i, down, said),
{
    let keys = keys_at(m.layout, down);
    let keycode = config.actions@[i].key;
    lemma_defines(config);
    lemma_masked_by(config, m, down);
    new_handler_has_actions(config, m, keycode, key);
    assert forall|h: int| i < h < config.actions@.len() implies (
    #[trigger] config.actions@[h]).key != keycode by {
        assert(config.actions@[i].key != config.actions@[h].key);
    }
    assert(m.layout.actions[key as int] == config.actions@[i].action);
    if exists|c: usize| #[trigger]
        stands(m.layout, key, c, keys) && said == m.layout.combos[key as int][c as int].action {
        let c = choose|c: usize| #[trigger]
            stands(m.layout, key, c, keys) && said
                == m.layout.combos[key as int][c as int].action;
        let at = lemma_stands_picked(config, m, i, key, down, c);
        assert(is_picked(config, i, at.0, at.1, down));
    } else {
        assert forall|j: int, g: int| !#[trigger] is_picked(config, i, j, g, down) by {
            if is_picked(config, i, j, g, down) {
                let c = lemma_picked_stands(config, m, i, key, down, j, g);
                assert(stands(m.layout, key, c, keys));
            }
        }
    }
}

/// What is known of the combos stays right over a run that does not use up the stamps.
proof fn lemma_run_cached<Z: Keycode>(
    machines: Seq<Machine<Z>>,
    inputs: Seq<Input>,
    results: Seq<HandlingResult>,
)
    requires
        policy_laws::runs(Policy::Simple, machines, inputs, results),
        machines[0].valid(),
        machines[0].is_cached(),
        machines[0].is_young(),
        machines[0].stamp + inputs.len() < u64::MAX,
    ensures
        machines.last().valid(),
        machines.last().is_cached(),
        machines.last().is_young(),
        machines.last().stamp <= machines[0].stamp + inputs.len(),
    decreases inputs.len(),
{
    if inputs.len() > 0 {
        let n = inputs.len() - 1;
        let (ms, is, rs) = (machines.drop_last(), inputs.drop_last(), results.drop_last());
        policy_laws::lemma_shorter_run(Policy::Simple, machines, inputs, results);
        lemma_run_cached(ms, is, rs);
        let (m, post, input) = (machines[n], machines[n + 1], inputs[n]);
        assert(ms.last() == m);
        policy_laws::input_keeps_valid(Policy::Simple, m, input, post, results[n]);
        policy_laws::lemma_key_of(m.layout, input.code);
        match m.layout.key_of(input.code) {
            None => {},
            Some(key) => {
                group_laws::young_machine_is_fresh(m, key, input.kind, input.value, post);
                group_laws::cache_stays_right(m, key, input.kind, input.value, post);
            },
        }
    }
}

/// The machine that inputs lead to has the layout of the first one, and the keys are down whose
/// keycodes are.
proof fn lemma_run_down<A: Keycode, Z: Keycode>(
    config: &Config<A, Z>,
    machines: Seq<Machine<Z>>,
    inputs: Seq<Input>,
    results: Seq<HandlingResult>,
)
    requires
        config.describes(machines[0]),
        machines[0].valid(),
        policy_laws::runs(Policy::Simple, machines, inputs, results),
    ensures
        machines.last().valid(),
        machines.last().layout == machines[0].layout,
        machines.last().down == keys_at(machines[0].layout, held_codes(inputs)),
{
    let layout = machines[0].layout;
    assert(config.outlines(machines[0]));
    policy_laws::new_handler_is_sound(config, machines[0]);
    run_laws::run_holds_keys(Policy::Simple, machines, inputs, results);
    lemma_held_codes(layout, inputs);
    assert(machines.last().down =~= keys_at(layout, held_codes(inputs)));
}

/// The press of an action key is answered as the configuration says. While the keycodes `down` are
/// down, the key-down event of the output keycode of one of the action's combos is emitted: the one
/// whose modifier group is held and conflicts with no other group that is held. Groups that have no
/// keycode in common with it are no conflict, whatever the order of declaration. If there is no
/// such combo, the action's own output keycode is emitted, unless a masking group is held that no
/// larger group replaces. This is for consistent configurations, and keys that are no modifier
/// keys.
pub proof fn press_is_answered_as_configured<A: Keycode, Z: Keycode>(
    config: &Config<A, Z>,
    machines: Seq<Machine<Z>>,
    inputs: Seq<Input>,
    results: Seq<HandlingResult>,
    i: int,
    value: i16,
    post: Machine<Z>,
    result: HandlingResult,
) -> (said: Option<Z>)
    requires
        config.describes(machines[0]),
        machines[0].valid(),
        is_consistent(*config),
        has_distinct_codes::<A>(),
        policy_laws::runs(Policy::Simple, machines, inputs, results),
        inputs.len() < u64::MAX - 1,
        0 <= i < config.actions@.len(),
        forall|g: int|
            0 <= g < config.modifiers@.len() ==> !(
            #[trigger] config.modifiers@[g]).keys@.contains(config.actions@[i].key),
        !held_codes(inputs).contains(config.actions@[i].key.code()),
        Policy::Simple.allows(
            machines.last(),
            config.actions@[i].key.code(),
            Kind::Down,
            value,
            post,
            result,
        ),
    ensures
        result == HandlingResult::Handled,
        is_answer(config, i, held_codes(inputs), said),
        post.events == machines.last().events + saying(said, Kind::Down, value),
{
    let (first, last) = (machines[0], machines.last());
    let layout = first.layout;
    let keycode = config.actions@[i].key;
    let down = held_codes(inputs);
    assert(config.outlines(first));
    new_handler_is_at_rest(config, first);
    lemma_run_down(config, machines, inputs, results);
    lemma_run_cached(machines, inputs, results);
    new_handler_knows_keycodes(config, first, keycode);
    assert(config.actions@[i].key == keycode);
    lemma_key_of(layout, keycode.code());
    let key = layout.key_of(keycode.code())->0;
    assert forall|g: usize| g < layout.members.len() implies !#[trigger] layout.members[g as int].contains(
        key,
    ) by {
        new_handler_has_groups(config, first, g);
        assert(layout.codes[key as int] == keycode.code());
        assert(!config.modifiers@[g as int].keys@.contains(keycode));
    }
    assert(!last.down.contains(key));
    group_laws::press_of_action_key(last, key, value, post);
    let said = layout.spoken(key, last.down);
    conflict_laws::spoken_is_meant(layout, key, last.down);
    lemma_answer(config, first, i, key, down, said);
    said
}

/// The machine that inputs lead to is orderly.
proof fn lemma_run_order<A: Keycode, Z: Keycode>(
    config: &Config<A, Z>,
    machines: Seq<Machine<Z>>,
    inputs: Seq<Input>,
    results: Seq<HandlingResult>,
)
    requires
        config.describes(machines[0]),
        machines[0].valid(),
        policy_laws::runs(Policy::Simple, machines, inputs, results),
        policy_laws::is_calm_run(machines, inputs),
        inputs.len() < u64::MAX - 1,
    ensures
        machines.last().is_orderly(),
        machines.last().is_fresh(),
        machines.last().layout == machines[0].layout,
        machines.last().keys.len() == machines[0].keys.len(),
        machines.last().down == keys_at(machines[0].layout, held_codes(inputs)),
{
    assert(config.outlines(machines[0]));
    new_handler_is_at_rest(config, machines[0]);
    lemma_run_down(config, machines, inputs, results);
    combo_laws::run_keeps_order(machines, inputs, results);
}

/// With the key that goes down, its keycode is down.
proof fn lemma_pressed_keys<Z: Keycode>(layout: Layout<Z>, down: Set<usize>, code: usize, key: usize)
    requires
        layout.valid(),
        layout.key_of(code) == Some(key),
    ensures
        keys_at(layout, down).insert(key) == keys_at(layout, down.insert(code)),
        keys_at(layout, down).contains(key) == down.contains(code),
{
    lemma_key_of(layout, code);
    assert forall|k: usize| keys_at(layout, down).insert(key).contains(k) == keys_at(
        layout,
        down.insert(code),
    ).contains(k) by {
        assert(layout.key_of(code) == Some(k) <==> k < layout.codes.len() && layout.codes[k as int]
            == code);
    }
    assert(keys_at(layout, down).insert(key) =~= keys_at(layout, down.insert(code)));
}

/// An action is muted from its press to its release, if on its press a masking group is held that no
/// larger group replaces, and none of the action's combos is picked: neither the press nor the
/// release emits an event of the key, be it a modifier key or not, and whatever other keys do in
/// between.
pub proof fn masked_action_is_silent<A: Keycode, Z: Keycode>(
    config: &Config<A, Z>,
    before: (Seq<Machine<Z>>, Seq<Input>, Seq<HandlingResult>),
    i: int,
    key: usize,
    value: i16,
    machines: Seq<Machine<Z>>,
    inputs: Seq<Input>,
    results: Seq<HandlingResult>,
    post: Machine<Z>,
) -> (ended: (Seq<usize>, Seq<usize>))
    requires
        config.describes(before.0[0]),
        before.0[0].valid(),
        is_consistent(*config),
        has_distinct_codes::<A>(),
        policy_laws::runs(Policy::Simple, before.0, before.1, before.2),
        policy_laws::is_calm_run(before.0, before.1),
        before.1.len() < u64::MAX - 1,
        0 <= i < config.actions@.len(),
        before.0[0].layout.key_of(config.actions@[i].key.code()) == Some(key),
        !held_codes(before.1).contains(config.actions@[i].key.code()),
        is_masked_by(config, held_codes(before.1).insert(config.actions@[i].key.code())),
        forall|j: int, g: int| !#[trigger]
            is_picked(
                config,
                i,
                j,
                g,
                held_codes(before.1).insert(config.actions@[i].key.code()),
            ),
        before.0.last().leads_to(key, Kind::Down, value, machines[0]),
        combo_laws::is_pause(machines, inputs, results, key),
        machines.last().leads_to(key, Kind::Up, value, post),
    ensures
        !ended.0.contains(key),
        machines[0].events == before.0.last().events + key_laws::ups(before.0.last(), ended.0),
        post.events == machines.last().events + key_laws::ups(machines.last(), ended.1),
        ended.1.contains(key) ==> key_laws::ups(machines.last(), seq![key]) == Seq::<
            Event<Z>,
        >::empty(),
{
    let (first, m) = (before.0[0], before.0.last());
    let layout = first.layout;
    let code = config.actions@[i].key.code();
    let down = held_codes(before.1).insert(code);
    lemma_run_order(config, before.0, before.1, before.2);
    lemma_key_of(layout, code);
    lemma_pressed_keys(layout, held_codes(before.1), code, key);
    lemma_defines(config);
    lemma_masked_by(config, first, down);
    assert forall|c: usize| !#[trigger] stands(layout, key, c, m.down.insert(key)) by {
        if stands(layout, key, c, m.down.insert(key)) {
            let at = lemma_stands_picked(config, first, i, key, down, c);
            assert(!is_picked(config, i, at.0, at.1, down));
        }
    }
    combo_laws::muted_key_is_silent(m, key, value, machines, inputs, results, post)
}

/// Without events of its axis, a key is as immediate and latching as it was.
proof fn lemma_run_flags<Z: Keycode>(
    machines: Seq<Machine<Z>>,
    inputs: Seq<Input>,
    results: Seq<HandlingResult>,
    key: usize,
)
    requires
        policy_laws::runs(Policy::Simple, machines, inputs, results),
        policy_laws::is_calm_run(machines, inputs),
        machines[0].is_orderly(),
        machines[0].is_young(),
        machines[0].stamp + inputs.len() < u64::MAX,
        key < machines[0].keys.len(),
        forall|x: int|
            #![trigger inputs[x]]
            0 <= x < inputs.len() ==> inputs[x].kind == Kind::Down || inputs[x].kind == Kind::Up
                || machines[0].layout.key_of(inputs[x].code) != Some(key),
    ensures
        machines.last().keys.len() == machines[0].keys.len(),
        machines.last().keys[key as int].immediate == machines[0].keys[key as int].immediate,
        machines.last().keys[key as int].latching == machines[0].keys[key as int].latching,
    decreases inputs.len(),
{
    if inputs.len() > 0 {
        let n = inputs.len() - 1;
        let (ms, is, rs) = (machines.drop_last(), inputs.drop_last(), results.drop_last());
        policy_laws::lemma_shorter_run(Policy::Simple, machines, inputs, results);
        assert forall|x: int|
            #![trigger is[x]]
            0 <= x < is.len() implies is[x].kind == Kind::Down || is[x].kind == Kind::Up
            || machines[0].layout.key_of(is[x].code) != Some(key) by {
            assert(is[x] == inputs[x]);
        }
        lemma_run_flags(ms, is, rs, key);
        combo_laws::run_keeps_order(ms, is, rs);
        let (m, post, input) = (machines[n], machines[n + 1], inputs[n]);
        assert(ms.last() == m);
        policy_laws::lemma_key_of(m.layout, input.code);
        match m.layout.key_of(input.code) {
            None => {},
            Some(other) => {
                laws::event_keeps_layout(m, other, input.kind, input.value, post);
                match input.kind {
                    Kind::Down => {
                        if other == key {
                            key_laws::press_sets_key(m, key, input.value, post);
                        } else {
                            key_laws::press_sets_other_key(m, other, input.value, post, key);
                        }
                    },
                    Kind::Up => key_laws::release_sets_keys(m, other, input.value, post, key),
                    _ => {
                        assert(inputs[n].kind != Kind::Down);
                        key_laws::axis_sets_other_key(
                            m,
                            other,
                            input.kind,
                            input.value,
                            post,
                            key,
                        );
                    },
                }
            },
        }
    }
}

/// A combo that is picked on the press of an action that is not latching ends with its modifier
/// group, masking or not: as long as the group is in force the combo lasts, whatever other keys do,
/// and when a key of the group is released, the key-up event of the combo is emitted, and the
/// action key's own release has no effect. This is for keys that are no modifier keys.
pub proof fn picked_combo_ends_with_its_group<A: Keycode, Z: Keycode>(
    config: &Config<A, Z>,
    before: (Seq<Machine<Z>>, Seq<Input>, Seq<HandlingResult>),
    i: int,
    j: int,
    g: usize,
    key: usize,
    value: i16,
    machines: Seq<Machine<Z>>,
    inputs: Seq<Input>,
    results: Seq<HandlingResult>,
    modifier: usize,
    post: Machine<Z>,
)
    requires
        config.describes(before.0[0]),
        before.0[0].valid(),
        is_consistent(*config),
        has_distinct_codes::<A>(),
        policy_laws::runs(Policy::Simple, before.0, before.1, before.2),
        policy_laws::is_calm_run(before.0, before.1),
        forall|x: int|
            #![trigger before.1[x]]
            0 <= x < before.1.len() ==> before.1[x].kind == Kind::Down || before.1[x].kind
                == Kind::Up || before.1[x].code != config.actions@[i].key.code(),
        before.1.len() < u64::MAX - 1,
        0 <= i < config.actions@.len(),
        !config.actions@[i].latching,
        forall|h: int|
            0 <= h < config.modifiers@.len() ==> !(
            #[trigger] config.modifiers@[h]).keys@.contains(config.actions@[i].key),
        before.0[0].layout.key_of(config.actions@[i].key.code()) == Some(key),
        !held_codes(before.1).contains(config.actions@[i].key.code()),
        is_picked(
            config,
            i,
            j,
            g as int,
            held_codes(before.1).insert(config.actions@[i].key.code()),
        ),
        before.0.last().leads_to(key, Kind::Down, value, machines[0]),
        combo_laws::is_pause(machines, inputs, results, key),
        combo_laws::stays_in_force(machines, g),
        before.0[0].layout.members[g as int].contains(modifier),
        machines.last().leads_to(modifier, Kind::Up, value, post),
    ensures
        !post.keys[key as int].open,
        match config.actions@[i].modified@[j].action {
            Some(keycode) => post.events.skip(machines.last().events.len() as int).contains(
                Event { keycode, kind: Kind::Up, value: 0 },
            ),
            None => true,
        },
{
    let (first, m) = (before.0[0], before.0.last());
    let layout = first.layout;
    let keycode = config.actions@[i].key;
    let code = keycode.code();
    let down = held_codes(before.1).insert(code);
    lemma_run_order(config, before.0, before.1, before.2);
    lemma_key_of(layout, code);
    lemma_pressed_keys(layout, held_codes(before.1), code, key);
    lemma_defines(config);
    let c = lemma_picked_stands(config, first, i, key, down, j, g as int);
    assert(layout.codes[key as int] == code);
    assert forall|h: usize| h < layout.members.len() implies !#[trigger] layout.members[h as int].contains(
        key,
    ) by {
        new_handler_has_groups(config, first, h);
        assert(!config.modifiers@[h as int].keys@.contains(keycode));
    }
    new_handler_has_actions(config, first, keycode, key);
    assert forall|h: int| i < h < config.actions@.len() implies (
    #[trigger] config.actions@[h]).key != keycode by {
        assert(config.actions@[i].key != config.actions@[h].key);
    }
    assert(!first.keys[key as int].latching);
    assert(config.outlines(first));
    new_handler_is_at_rest(config, first);
    assert forall|x: int|
        #![trigger before.1[x]]
        0 <= x < before.1.len() implies before.1[x].kind == Kind::Down || before.1[x].kind
        == Kind::Up || layout.key_of(before.1[x].code) != Some(key) by {
        lemma_key_of(layout, before.1[x].code);
    }
    lemma_run_flags(before.0, before.1, before.2, key);
    combo_laws::combo_ends_with_its_group(
        m,
        key,
        value,
        c,
        machines,
        inputs,
        results,
        modifier,
        post,
    );
}

/// The groups of a new handler overlap, or are within one another, as their keycodes in the
/// configuration do, whichever is declared first.
pub proof fn groups_overlap_as_configured<A: Keycode, Z: Keycode>(
    config: &Config<A, Z>,
    m: Machine<Z>,
    a: usize,
    b: usize,
)
    requires
        config.describes(m),
        m.valid(),
        has_distinct_codes::<A>(),
        a < config.modifiers@.len(),
        b < config.modifiers@.len(),
    ensures
        ({
            let (x, y) = (config.modifiers@[a as int].keys@, config.modifiers@[b as int].keys@);
            &&& m.layout.crosses(a, b) <==> !x.disjoint(y) && !x.subset_of(y) && !y.subset_of(x)
            &&& m.layout.crosses(b, a) <==> !x.disjoint(y) && !x.subset_of(y) && !y.subset_of(x)
            &&& m.layout.inside(a, b) <==> !x.disjoint(y) && x.subset_of(y) && !y.subset_of(x)
        }),
{
    lemma_same_relations(config, m, a, b);
    lemma_same_relations(config, m, b, a);
    assert(config.modifiers.len() == config.modifiers@.len());
    conflict_laws::overlap_is_symmetric(m.layout, a, b);
    let (x, y) = (m.layout.members[a as int], m.layout.members[b as int]);
    assert(x.disjoint(y) <==> forall|k: usize| !(#[trigger] x.contains(k) && y.contains(k)));
    assert(x.subset_of(y) <==> forall|k: usize| #[trigger] x.contains(k) ==> y.contains(k));
    assert(y.subset_of(x) <==> forall|k: usize| #[trigger] y.contains(k) ==> x.contains(k));
}

} // verus!

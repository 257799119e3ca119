//! How a handler is made from a configuration.
use crate::combo;
use crate::combo::model::{KeyState, Layout, Machine};
use crate::combo::types::{Combo, ComboHandler, Group, Key, Queue, Range};
use crate::combo::{edges, lists, model, sets, ComboHandlerSimple};
use crate::config;
use crate::config::Config;
use crate::types::{Event, Keycode};
use std::collections::{HashMap, HashSet};
use std::marker::PhantomData;
use vstd::prelude::*;
use vstd::std_specs::hash::obeys_key_model;

verus! {

/// One of the keycodes is at this scalar position.
pub open spec fn has_code<A: Keycode>(keys: Set<A>, code: usize) -> bool {
    exists|a: A| #[trigger] keys.contains(a) && a.code() == code
}

/// The keycode at this scalar position is one of the group's, where the groups have the keycodes
/// at the scalar positions `keyed`.
pub open spec fn groups_with(keyed: Seq<Set<usize>>, code: usize) -> spec_fn(usize) -> bool {
    |g: usize| keyed[g as int].contains(code)
}

/// The positions are in ascending order, each once.
pub open spec fn is_ascending(codes: Seq<usize>) -> bool {
    forall|i: int, j: int| 0 <= i < j < codes.len() ==> #[trigger] codes[i] < #[trigger] codes[j]
}

/// The last position below `n` that satisfies `p`.
pub open spec fn last_of(n: nat, p: spec_fn(usize) -> bool) -> Option<usize> {
    let all = model::ascending(n, p);
    if all.len() == 0 {
        None
    } else {
        Some(all.last())
    }
}

/// How many of the leading combos have groups of at least that size.
pub open spec fn rank<Z: Keycode>(
    combos: Seq<Combo<Z>>,
    members: Seq<Set<usize>>,
    size: nat,
) -> int
    decreases combos.len(),
{
    if combos.len() == 0 || members[combos[0].group as int].len() < size {
        0
    } else {
        1 + rank(combos.drop_first(), members, size)
    }
}

/// The combos in the order of the size of their groups, larger groups first. Combos with groups
/// of the same size keep their order.
pub open spec fn ranked<Z: Keycode>(
    combos: Seq<Combo<Z>>,
    members: Seq<Set<usize>>,
) -> Seq<Combo<Z>>
    decreases combos.len(),
{
    if combos.len() == 0 {
        Seq::empty()
    } else {
        let rest = ranked(combos.drop_last(), members);
        let last = combos.last();
        rest.insert(rank(rest, members, members[last.group as int].len()), last)
    }
}

impl<A: Keycode, Z: Keycode> Config<A, Z> {
    /// The scalar positions of the keycodes of each group.
    pub open spec fn key_codes(&self) -> Seq<Set<usize>> {
        Seq::new(
            self.modifiers@.len(),
            |g: int| Set::new(|code: usize| has_code(self.modifiers@[g].keys@, code)),
        )
    }

    /// The group has the id.
    pub open spec fn groups_named(&self, id: Seq<char>) -> spec_fn(usize) -> bool {
        |g: usize| self.modifiers@[g as int].id@ == id
    }

    /// The group that an id stands for. If several groups have the id, it is the last one.
    pub open spec fn group_named(&self, id: Seq<char>) -> Option<usize> {
        last_of(self.modifiers@.len(), self.groups_named(id))
    }

    /// Every combo's modifier is defined.
    pub open spec fn defines_modifiers(&self) -> bool {
        forall|i: int, j: int|
            0 <= i < self.actions@.len() && 0 <= j < self.actions@[i].modified@.len()
                ==> self.group_named(
                (#[trigger] self.actions@[i].modified@[j]).modifier@,
            ) is Some
    }

    /// The action is one of the key at this scalar position.
    pub open spec fn actions_of(&self, code: usize) -> spec_fn(usize) -> bool {
        |i: usize| self.actions@[i as int].key.code() == code
    }

    /// Of the first `n` actions the one of the key at this scalar position. If there are several,
    /// it is the last one.
    pub open spec fn action_of(&self, n: nat, code: usize) -> Option<usize> {
        last_of(n, self.actions_of(code))
    }

    /// A combo, with its modifier group looked up.
    pub open spec fn combo_of(&self, combo: config::Combo<Z>) -> Combo<Z> {
        Combo { action: combo.action, group: self.group_named(combo.modifier@)->0 }
    }

    /// The combos that the first `n` actions declare for the key at this scalar position.
    pub open spec fn declared(&self, n: nat, code: usize) -> Seq<Combo<Z>>
        decreases n,
    {
        if n == 0 {
            Seq::empty()
        } else {
            self.declared((n - 1) as nat, code) + if (self.actions_of(code))((n - 1) as usize) {
                self.actions@[n - 1].modified@.map_values(
                    |combo: config::Combo<Z>| self.combo_of(combo),
                )
            } else {
                Seq::empty()
            }
        }
    }

    /// The groups, of which the keys at the scalar positions `keyed` are part, or the first
    /// `actions` actions mention the key at this scalar position.
    pub open spec fn mentions(
        &self,
        keyed: Seq<Set<usize>>,
        actions: nat,
        code: usize,
    ) -> bool {
        ||| exists|g: usize| g < keyed.len() && #[trigger] (groups_with(keyed, code))(g)
        ||| exists|i: usize| i < actions && #[trigger] (self.actions_of(code))(i)
    }

    /// The machine is the one that the configuration describes, before any event. The keycodes of
    /// a group are known where their type suits a hash table, as the integers do by
    /// [`group_hash_axioms`](vstd::std_specs::hash::group_hash_axioms).
    pub open spec fn describes(&self, m: Machine<Z>) -> bool {
        self.describes_with(self.key_codes(), m)
    }

    /// The machine is the one that the configuration describes, before any event, whatever keys are
    /// part of the groups.
    pub open spec fn outlines(&self, m: Machine<Z>) -> bool {
        exists|keyed: Seq<Set<usize>>| self.describes_with(keyed, m)
    }

    /// The machine is the one that the configuration describes, before any event, if the keys at
    /// the scalar positions `keyed` are part of the groups.
    pub open spec fn describes_with(&self, keyed: Seq<Set<usize>>, m: Machine<Z>) -> bool {
        let n = self.actions@.len();
        let layout = m.layout;
        // each key that is mentioned has a place
        &&& forall|code: usize| #[trigger]
            layout.codes.contains(code) <==> self.mentions(keyed, n, code)
        &&& is_ascending(layout.codes)
        // the groups
        &&& layout.members.len() == self.modifiers@.len()
        &&& forall|g: usize, k: usize|
            #![trigger layout.members[g as int].contains(k)]
            g < layout.members.len() ==> (layout.members[g as int].contains(k) <==> k
                < layout.codes.len() && keyed[g as int].contains(layout.codes[k as int]))
        &&& layout.masking == Seq::new(
            self.modifiers@.len(),
            |g: int| self.modifiers@[g].masking,
        )
        // the actions
        &&& layout.actions == Seq::new(
            layout.codes.len(),
            |k: int|
                match self.action_of(n, layout.codes[k]) {
                    Some(i) => self.actions@[i as int].action,
                    None => None,
                },
        )
        &&& layout.combos == Seq::new(
            layout.codes.len(),
            |k: int| ranked(self.declared(n, layout.codes[k]), layout.members),
        )
        // the state
        &&& m.down == Set::<usize>::empty()
        &&& m.keys == Seq::new(
            layout.codes.len(),
            |k: int|
                KeyState {
                    immediate: match self.action_of(n, layout.codes[k]) {
                        Some(i) => self.actions@[i as int].immediate,
                        None => false,
                    },
                    latching: match self.action_of(n, layout.codes[k]) {
                        Some(i) => self.actions@[i as int].latching,
                        None => false,
                    },
                    open: false,
                    active: None,
                    stamp: 0,
                    pending: 0,
                },
        )
        &&& m.holders == Seq::new(layout.members.len(), |g: int| Set::<usize>::empty())
        &&& m.stamp == 1
    }
}

/// Returns the scalar positions of the keycodes, if their type suits a hash table.
fn codes_of<A: Keycode>(keys: &HashSet<A>) -> (codes: Vec<usize>)
    ensures
        codes@.no_duplicates(),
        obeys_key_model::<A>() ==> forall|code: usize| #[trigger]
            codes@.contains(code) <==> has_code(keys@, code),
{
    let list = config::borrow_keys(keys);
    let ghost listed = list@.unref();
    let mut codes: Vec<usize> = Vec::new();
    let mut i: usize = 0;
    while i < list.len()
        invariant
            i <= list@.len(),
            listed == list@.unref(),
            codes@.no_duplicates(),
            forall|code: usize| #[trigger]
                codes@.contains(code) <==> exists|j: int|
                    0 <= j < i && (#[trigger] listed[j]).code() == code,
        decreases list@.len() - i,
    {
        let ghost before = codes@;
        let next: usize = list[i].index();
        proof {
            assert(next == listed[i as int].code());
        }
        if !edges::contains(&codes, next) {
            codes.push(next);
        }
        proof {
            assert forall|code: usize| #[trigger] codes@.contains(code) <==> exists|j: int|
                0 <= j < i + 1 && (#[trigger] listed[j]).code() == code by {
                lists::lemma_push_contains(before, next, code);
                if exists|j: int| 0 <= j < i && (#[trigger] listed[j]).code() == code {
                    let j = choose|j: int| 0 <= j < i && (#[trigger] listed[j]).code() == code;
                    assert(listed[j].code() == code);
                }
            }
        }
        i += 1;
    }
    proof {
        if obeys_key_model::<A>() {
            assert forall|code: usize| #[trigger] codes@.contains(code) <==> has_code(
                keys@,
                code,
            ) by {
                if codes@.contains(code) {
                    let j = choose|j: int| 0 <= j < i && (#[trigger] listed[j]).code() == code;
                    assert(listed.to_set().contains(listed[j]));
                }
                if has_code(keys@, code) {
                    let a = choose|a: A| #[trigger] keys@.contains(a) && a.code() == code;
                    assert(listed.to_set().contains(a));
                    let j = choose|j: int| 0 <= j < listed.len() && listed[j] == a;
                    assert(listed[j].code() == code);
                }
            }
        }
    }
    codes
}

/// Adds a scalar position to those that are there, unless it is one of them.
fn add_code(codes: &mut Vec<usize>, code: usize)
    requires
        is_ascending(old(codes)@),
    ensures
        is_ascending(final(codes)@),
        forall|other: usize| #[trigger]
            final(codes)@.contains(other) <==> old(codes)@.contains(other) || other == code,
{
    let ghost before = codes@;
    let mut i: usize = 0;
    while i < codes.len() && codes[i] < code
        invariant
            codes@ == before,
            i <= codes@.len(),
            forall|j: int| 0 <= j < i ==> #[trigger] before[j] < code,
        decreases codes@.len() - i,
    {
        i += 1;
    }
    if i < codes.len() && codes[i] == code {
        return ;
    }
    codes.insert(i, code);
    proof {
        assert forall|other: usize| #[trigger] codes@.contains(other) <==> before.contains(other)
            || other == code by {
            if before.contains(other) {
                let j = choose|j: int| 0 <= j < before.len() && before[j] == other;
                assert(codes@[if j < i { j } else { j + 1 }] == other);
            }
            if codes@.contains(other) && other != code {
                let j = choose|j: int| 0 <= j < codes@.len() && codes@[j] == other;
                assert(before[if j < i { j } else { j - 1 }] == other);
            }
            assert(codes@[i as int] == code);
        }
        assert forall|a: int, b: int| 0 <= a < b < codes@.len() implies #[trigger] codes@[a]
            < #[trigger] codes@[b] by {
            let x = if a < i { a } else { a - 1 };
            let y = if b < i { b } else { b - 1 };
            if a == i {
                assert(before[i as int] <= before[y]);
            } else if b == i {
                assert(before[x] < code);
            } else {
                assert(before[x] < before[y]);
            }
        }
    }
}

/// Returns the scalar positions of the keycodes of each group.
fn group_codes<A: Keycode, Z: Keycode>(config: &Config<A, Z>) -> (lists: Vec<Vec<usize>>)
    ensures
        lists@.len() == config.modifiers@.len(),
        forall|g: int|
            #![trigger lists@[g]]
            0 <= g < lists@.len() ==> lists@[g]@.no_duplicates(),
        obeys_key_model::<A>() ==> key_sets(lists@) == config.key_codes(),
{
    let mut lists: Vec<Vec<usize>> = Vec::new();
    let mut g: usize = 0;
    while g < config.modifiers.len()
        invariant
            g <= config.modifiers@.len(),
            lists@.len() == g,
            forall|h: int|
                #![trigger lists@[h]]
                0 <= h < g ==> lists@[h]@.no_duplicates(),
            obeys_key_model::<A>() ==> forall|h: int|
                0 <= h < g ==> #[trigger] lists@[h]@.to_set() == config.key_codes()[h],
        decreases config.modifiers@.len() - g,
    {
        let codes = codes_of(&config.modifiers[g].keys);
        proof {
            if obeys_key_model::<A>() {
                assert(codes@.to_set() =~= config.key_codes()[g as int]);
            }
        }
        lists.push(codes);
        g += 1;
    }
    proof {
        if obeys_key_model::<A>() {
            assert(key_sets(lists@) =~= config.key_codes());
        }
    }
    lists
}

/// Returns the scalar positions that a configuration mentions, in ascending order.
fn all_codes<A: Keycode, Z: Keycode>(config: &Config<A, Z>, lists: &Vec<Vec<usize>>) -> (codes:
    Vec<usize>)
    ensures
        is_ascending(codes@),
        forall|code: usize| #[trigger]
            codes@.contains(code) <==> config.mentions(
                key_sets(lists@),
                config.actions@.len(),
                code,
            ),
{
    let ghost keyed = key_sets(lists@);
    let mut codes: Vec<usize> = Vec::new();
    let mut g: usize = 0;
    while g < lists.len()
        invariant
            keyed == key_sets(lists@),
            g <= lists@.len(),
            is_ascending(codes@),
            forall|code: usize| #[trigger]
                codes@.contains(code) <==> exists|h: usize|
                    h < g && #[trigger] (groups_with(keyed, code))(h),
        decreases lists@.len() - g,
    {
        let ghost before = codes@;
        let mut i: usize = 0;
        while i < lists[g].len()
            invariant
                g < lists@.len(),
                i <= lists@[g as int]@.len(),
                is_ascending(codes@),
                forall|code: usize| #[trigger]
                    codes@.contains(code) <==> before.contains(code) || exists|j: int|
                        0 <= j < i && #[trigger] lists@[g as int]@[j] == code,
            decreases lists@[g as int]@.len() - i,
        {
            let ghost mid = codes@;
            let code: usize = lists[g][i];
            add_code(&mut codes, code);
            proof {
                assert forall|other: usize| #[trigger] codes@.contains(other) <==> before.contains(
                    other,
                ) || exists|j: int| 0 <= j < i + 1 && #[trigger] lists@[g as int]@[j] == other by {
                    assert(mid.contains(other) <==> before.contains(other) || exists|j: int|
                        0 <= j < i && #[trigger] lists@[g as int]@[j] == other);
                    assert(lists@[g as int]@[i as int] == code);
                    if mid.contains(other) && !before.contains(other) {
                        let j = choose|j: int|
                            0 <= j < i && #[trigger] lists@[g as int]@[j] == other;
                        assert(0 <= j < i + 1 && lists@[g as int]@[j] == other);
                    }
                }
            }
            i += 1;
        }
        proof {
            let list = lists@[g as int]@;
            assert forall|code: usize| #[trigger] codes@.contains(code) <==> exists|h: usize|
                h < g + 1 && #[trigger] (groups_with(keyed, code))(h) by {
                let p = groups_with(keyed, code);
                assert(keyed[g as int] == list.to_set());
                assert(list.to_set().contains(code) <==> list.contains(code));
                assert(p(g) == list.contains(code));
                assert(list.contains(code) <==> exists|j: int|
                    0 <= j < i && #[trigger] lists@[g as int]@[j] == code);
                if before.contains(code) {
                    let h = choose|h: usize| h < g && #[trigger] p(h);
                    assert(h < g + 1 && p(h));
                }
            }
        }
        g += 1;
    }
    let mut i: usize = 0;
    while i < config.actions.len()
        invariant
            keyed == key_sets(lists@),
            i <= config.actions@.len(),
            is_ascending(codes@),
            forall|code: usize| #[trigger]
                codes@.contains(code) <==> config.mentions(keyed, i as nat, code),
        decreases config.actions@.len() - i,
    {
        let ghost before = codes@;
        add_code(&mut codes, config.actions[i].key.index());
        proof {
            assert forall|code: usize| #[trigger] codes@.contains(code) <==> config.mentions(
                keyed,
                (i + 1) as nat,
                code,
            ) by {
                let q = config.actions_of(code);
                assert(before.contains(code) <==> config.mentions(keyed, i as nat, code));
                assert(q(i) == (code == config.actions@[i as int].key.code()));
                if exists|j: usize| j < i && #[trigger] q(j) {
                    let j = choose|j: usize| j < i && #[trigger] q(j);
                    assert(j < i + 1 && q(j));
                }
            }
        }
        i += 1;
    }
    codes
}

/// What is known of a key so far.
struct KeyPlan<Z: Keycode> {
    /// Unmodified action.
    action: Option<Z>,
    /// The combo outlives its group.
    latching: bool,
    /// Acts on key-down.
    immediate: bool,
    /// The combos.
    combos: Seq<Combo<Z>>,
    /// The groups that the key is part of.
    groups: Seq<usize>,
}

/// A key that is being put together.
struct MutKey<Z: Keycode> {
    action: Option<Z>,
    latching: bool,
    immediate: bool,
    combos: Vec<Combo<Z>>,
    groups: Vec<usize>,
}

impl<Z: Keycode> View for MutKey<Z> {
    type V = KeyPlan<Z>;

    closed spec fn view(&self) -> KeyPlan<Z> {
        KeyPlan {
            action: self.action,
            latching: self.latching,
            immediate: self.immediate,
            combos: self.combos@,
            groups: self.groups@,
        }
    }
}

/// A key of which nothing is known.
spec fn blank<Z: Keycode>() -> KeyPlan<Z> {
    KeyPlan {
        action: None,
        latching: false,
        immediate: false,
        combos: Seq::empty(),
        groups: Seq::empty(),
    }
}

impl<Z: Keycode> MutKey<Z> {
    /// Makes a key of which nothing is known.
    fn new() -> (key: Self)
        ensures
            key@ == blank::<Z>(),
    {
        MutKey {
            action: None,
            latching: false,
            immediate: false,
            combos: Vec::new(),
            groups: Vec::new(),
        }
    }
}

/// The keys that are being put together.
struct Draft<Z: Keycode> {
    codes: Vec<usize>,
    domain: HashMap<usize, usize>,
    keys: Vec<MutKey<Z>>,
}

impl<Z: Keycode> Draft<Z> {
    /// Each key has a scalar position of its own, at which it is found.
    spec fn in_order(&self) -> bool {
        &&& self.keys@.len() == self.codes@.len()
        &&& forall|code: usize| #[trigger]
            self.domain@.dom().contains(code) ==> self.domain@[code] < self.codes@.len()
                && self.codes@[self.domain@[code] as int] == code
        &&& forall|k: int|
            0 <= k < self.codes@.len() ==> self.domain@.dom().contains(#[trigger] self.codes@[k])
                && self.domain@[self.codes@[k]] == k
    }

    /// What is known of the key at a scalar position.
    spec fn plan(&self, code: usize) -> KeyPlan<Z> {
        if self.domain@.dom().contains(code) {
            self.keys@[self.domain@[code] as int]@
        } else {
            blank()
        }
    }

    /// Makes a draft without keys.
    fn new() -> (draft: Self)
        ensures
            draft.in_order(),
            draft.codes@.len() == 0,
            forall|code: usize| #[trigger] draft.plan(code) == blank::<Z>(),
    {
        broadcast use vstd::std_specs::hash::group_hash_axioms;

        Draft { codes: Vec::new(), domain: HashMap::new(), keys: Vec::new() }
    }

    /// Returns the key at a scalar position, which may be a new one.
    fn key(&mut self, code: usize) -> (key: usize)
        requires
            old(self).in_order(),
        ensures
            final(self).in_order(),
            key < final(self).codes@.len(),
            final(self).codes@[key as int] == code,
            final(self).codes@ == if old(self).codes@.contains(code) {
                old(self).codes@
            } else {
                old(self).codes@.push(code)
            },
            forall|other: usize| #[trigger] final(self).plan(other) == old(self).plan(other),
    {
        broadcast use vstd::std_specs::hash::group_hash_axioms;

        let ghost pre = *self;
        if let Some(key) = self.domain.get(&code) {
            return *key;
        }
        proof {
            if self.codes@.contains(code) {
                let k = choose|k: int| 0 <= k < self.codes@.len() && self.codes@[k] == code;
                assert(self.domain@.dom().contains(self.codes@[k]));
            }
        }
        let key: usize = self.keys.len();
        self.domain.insert(code, key);
        self.codes.push(code);
        self.keys.push(MutKey::new());
        proof {
            assert forall|k: int| 0 <= k < self.codes@.len() implies self.domain@.dom().contains(
                #[trigger] self.codes@[k],
            ) && self.domain@[self.codes@[k]] == k by {
                if k < pre.codes@.len() {
                    assert(pre.domain@.dom().contains(pre.codes@[k]));
                }
            }
            assert forall|other: usize| #[trigger] self.plan(other) == pre.plan(other) by {
                if pre.domain@.dom().contains(other) {
                    assert(pre.domain@[other] < pre.codes@.len());
                }
            }
        }
        key
    }
}

impl<Z: Keycode> Draft<Z> {
    /// Makes a draft with a key of which nothing is known at each of the scalar positions.
    fn with_codes(codes: &Vec<usize>) -> (draft: Self)
        requires
            is_ascending(codes@),
        ensures
            draft.in_order(),
            draft.codes@ == codes@,
            forall|code: usize| #[trigger] draft.plan(code) == blank::<Z>(),
    {
        let mut draft: Draft<Z> = Draft::new();
        let mut i: usize = 0;
        while i < codes.len()
            invariant
                is_ascending(codes@),
                i <= codes@.len(),
                draft.in_order(),
                draft.codes@ == codes@.take(i as int),
                forall|code: usize| #[trigger] draft.plan(code) == blank::<Z>(),
            decreases codes@.len() - i,
        {
            proof {
                assert(!codes@.take(i as int).contains(codes@[i as int]));
                assert(codes@.take(i + 1) =~= codes@.take(i as int).push(codes@[i as int]));
            }
            let _ = draft.key(codes[i]);
            i += 1;
        }
        proof {
            assert(codes@.take(i as int) =~= codes@);
        }
        draft
    }
}

/// The keys of the groups, as sets.
spec fn key_sets(groups: Seq<Vec<usize>>) -> Seq<Set<usize>> {
    Seq::new(groups.len(), |g: int| groups[g]@.to_set())
}

impl<Z: Keycode> Draft<Z> {
    /// Adds a group with the keys at the scalar positions `codes`. Returns its keys.
    fn add_group(&mut self, group: usize, codes: &Vec<usize>) -> (members: Vec<usize>)
        requires
            old(self).in_order(),
            codes@.no_duplicates(),
            forall|code: usize| #[trigger]
                codes@.contains(code) ==> old(self).codes@.contains(code),
        ensures
            final(self).in_order(),
            final(self).codes@ == old(self).codes@,
            members@.no_duplicates(),
            forall|k: usize| #[trigger]
                members@.contains(k) <==> k < final(self).codes@.len() && codes@.contains(
                    final(self).codes@[k as int],
                ),
            forall|code: usize| #[trigger]
                final(self).plan(code) == (KeyPlan {
                    groups: if codes@.contains(code) {
                        old(self).plan(code).groups.push(group)
                    } else {
                        old(self).plan(code).groups
                    },
                    ..old(self).plan(code)
                }),
    {
        let ghost pre = *self;
        let mut members: Vec<usize> = Vec::new();
        let mut i: usize = 0;
        while i < codes.len()
            invariant
                self.in_order(),
                codes@.no_duplicates(),
                i <= codes@.len(),
                self.codes@ == pre.codes@,
                forall|code: usize| #[trigger]
                    codes@.contains(code) ==> pre.codes@.contains(code),
                members@.len() == i,
                forall|j: int|
                    0 <= j < i ==> #[trigger] members@[j] < self.codes@.len()
                        && self.codes@[members@[j] as int] == codes@[j],
                forall|code: usize| #[trigger]
                    self.plan(code) == (KeyPlan {
                        groups: if codes@.take(i as int).contains(code) {
                            pre.plan(code).groups.push(group)
                        } else {
                            pre.plan(code).groups
                        },
                        ..pre.plan(code)
                    }),
            decreases codes@.len() - i,
        {
            let ghost start = *self;
            let code: usize = codes[i];
            proof {
                assert(codes@.contains(code));
            }
            let key = self.key(code);
            let ghost found = *self;
            self.keys[key].groups.push(group);
            members.push(key);
            proof {
                assert(codes@.take(i + 1) =~= codes@.take(i as int).push(code));
                assert(!codes@.take(i as int).contains(code));
                assert(self.in_order());
                assert forall|other: usize| #[trigger] self.plan(other) == (KeyPlan {
                    groups: if codes@.take(i + 1).contains(other) {
                        pre.plan(other).groups.push(group)
                    } else {
                        pre.plan(other).groups
                    },
                    ..pre.plan(other)
                }) by {
                    lists::lemma_push_contains(codes@.take(i as int), code, other);
                    assert(found.plan(other) == start.plan(other));
                    assert(found.domain@.dom().contains(code));
                    if other != code && found.domain@.dom().contains(other) {
                        assert(found.domain@[other] != key);
                    }
                }
            }
            i += 1;
        }
        proof {
            assert(codes@.take(i as int) =~= codes@);
            assert forall|k: usize| #[trigger] members@.contains(k) <==> k < self.codes@.len()
                && codes@.contains(self.codes@[k as int]) by {
                if members@.contains(k) {
                    let j = choose|j: int| 0 <= j < members@.len() && members@[j] == k;
                    assert(codes@[j] == self.codes@[k as int]);
                }
                if k < self.codes@.len() && codes@.contains(self.codes@[k as int]) {
                    let j = choose|j: int|
                        0 <= j < codes@.len() && codes@[j] == self.codes@[k as int];
                    assert(self.codes@[members@[j] as int] == self.codes@[k as int]);
                    assert(self.domain@[self.codes@[k as int]] == k);
                    assert(members@[j] == k);
                }
            }
            assert forall|a: int, b: int|
                0 <= a < members@.len() && 0 <= b < members@.len() && a != b implies members@[a]
                != members@[b] by {
                assert(codes@[a] != codes@[b]);
                assert(self.codes@[members@[a] as int] == codes@[a]);
                assert(self.codes@[members@[b] as int] == codes@[b]);
            }
        }
        members
    }

    /// The keys of groups are in the draft, those at the scalar positions `keyed`, and `groups`
    /// lists them.
    spec fn has_groups(&self, keyed: Seq<Set<usize>>, groups: Seq<Vec<usize>>) -> bool {
        &&& self.in_order()
        &&& keyed.len() == groups.len()
        &&& forall|g: int|
            #![trigger groups[g]]
            0 <= g < groups.len() ==> groups[g]@.no_duplicates()
        &&& forall|g: int, k: usize|
            #![trigger groups[g]@.contains(k)]
            0 <= g < groups.len() ==> (groups[g]@.contains(k) <==> k < self.codes@.len()
                && keyed[g].contains(self.codes@[k as int]))
    }

    /// Puts modifier groups, with the keys at the scalar positions `lists`, into a draft of which
    /// nothing is known. Returns the keys of each.
    fn add_groups(&mut self, lists: &Vec<Vec<usize>>) -> (groups: Vec<Vec<usize>>)
        requires
            old(self).in_order(),
            forall|code: usize| #[trigger] old(self).plan(code) == blank::<Z>(),
            forall|g: int|
                #![trigger lists@[g]]
                0 <= g < lists@.len() ==> lists@[g]@.no_duplicates(),
            forall|g: int, code: usize|
                0 <= g < lists@.len() && #[trigger] lists@[g]@.contains(code) ==> old(
                    self,
                ).codes@.contains(code),
        ensures
            final(self).codes@ == old(self).codes@,
            groups@.len() == lists@.len(),
            final(self).has_groups(key_sets(lists@), groups@),
            forall|code: usize| #[trigger]
                final(self).plan(code) == (KeyPlan {
                    groups: model::ascending(
                        lists@.len(),
                        groups_with(key_sets(lists@), code),
                    ),
                    ..blank::<Z>()
                }),
    {
        let ghost pre = *self;
        let ghost keyed = key_sets(lists@);
        let count = lists.len();
        let mut groups: Vec<Vec<usize>> = Vec::new();
        let mut g: usize = 0;
        while g < count
            invariant
                g <= count == lists@.len(),
                keyed == key_sets(lists@),
                groups@.len() == g,
                forall|h: int|
                    #![trigger lists@[h]]
                    0 <= h < lists@.len() ==> lists@[h]@.no_duplicates(),
                forall|h: int, code: usize|
                    0 <= h < lists@.len() && #[trigger] lists@[h]@.contains(code)
                        ==> pre.codes@.contains(code),
                self.codes@ == pre.codes@,
                self.has_groups(keyed.take(g as int), groups@),
                forall|code: usize| #[trigger]
                    self.plan(code) == (KeyPlan {
                        groups: model::ascending(g as nat, groups_with(keyed, code)),
                        ..blank::<Z>()
                    }),
            decreases count - g,
        {
            let ghost start = *self;
            let ghost before = groups@;
            let ghost codes = lists@[g as int]@;
            let members = self.add_group(g, &lists[g]);
            groups.push(members);
            proof {
                assert forall|code: usize| codes.contains(code) == #[trigger] (groups_with(
                    keyed,
                    code,
                ))(g) by {
                    assert(codes.to_set().contains(code) == codes.contains(code));
                }
                assert forall|code: usize| #[trigger] self.plan(code) == (KeyPlan {
                    groups: model::ascending((g + 1) as nat, groups_with(keyed, code)),
                    ..blank::<Z>()
                }) by {
                    let p = groups_with(keyed, code);
                    assert(codes.contains(code) == p(g));
                    assert(start.plan(code).groups == model::ascending(g as nat, p));
                }
                assert forall|h: int, k: usize|
                    #![trigger groups@[h]@.contains(k)]
                    0 <= h < groups@.len() implies (groups@[h]@.contains(k) <==> k
                    < self.codes@.len() && keyed.take(g + 1)[h].contains(self.codes@[k as int])) by {
                    if h < g {
                        assert(groups@[h] == before[h]);
                        assert(before[h]@.contains(k) <==> k < start.codes@.len() && keyed.take(
                            g as int,
                        )[h].contains(start.codes@[k as int]));
                    } else {
                        assert(groups@[h] == members);
                        if k < self.codes@.len() {
                            let code = self.codes@[k as int];
                            assert(codes.to_set().contains(code) == codes.contains(code));
                        }
                    }
                }
            }
            g += 1;
        }
        proof {
            assert(keyed.take(g as int) =~= keyed);
        }
        groups
    }
}

/// Returns the group that an id stands for.
fn group_named<A: Keycode, Z: Keycode>(config: &Config<A, Z>, id: &String) -> (group: Option<usize>)
    ensures
        group == config.group_named(id@),
{
    let ghost p = config.groups_named(id@);
    let mut group: Option<usize> = None;
    let mut g: usize = 0;
    while g < config.modifiers.len()
        invariant
            p == config.groups_named(id@),
            g <= config.modifiers@.len(),
            group == last_of(g as nat, p),
        decreases config.modifiers@.len() - g,
    {
        if config.modifiers[g].id == *id {
            group = Some(g);
        }
        g += 1;
    }
    group
}

/// The group that an id stands for exists.
proof fn lemma_group_named<A: Keycode, Z: Keycode>(config: &Config<A, Z>, id: Seq<char>)
    requires
        config.modifiers@.len() <= usize::MAX,
    ensures
        config.group_named(id) is Some ==> config.group_named(id)->0 < config.modifiers@.len(),
{
    let p = config.groups_named(id);
    lists::lemma_ascending(config.modifiers@.len(), p);
    let all = model::ascending(config.modifiers@.len(), p);
    assert(all.len() > 0 ==> all[all.len() - 1] < config.modifiers@.len());
}

/// Puts a combo where its rank is.
fn place<Z: Keycode>(combos: &mut Vec<Combo<Z>>, groups: &Vec<Vec<usize>>, combo: Combo<Z>)
    requires
        combo.group < groups@.len(),
        forall|i: int|
            0 <= i < old(combos)@.len() ==> (#[trigger] old(combos)@[i]).group < groups@.len(),
        forall|g: int|
            #![trigger groups@[g]]
            0 <= g < groups@.len() ==> groups@[g]@.no_duplicates(),
    ensures
        final(combos)@ == old(combos)@.insert(
            rank(
                old(combos)@,
                key_sets(groups@),
                key_sets(groups@)[combo.group as int].len(),
            ),
            combo,
        ),
        forall|i: int|
            0 <= i < final(combos)@.len() ==> (#[trigger] final(combos)@[i]).group < groups@.len(),
{
    let ghost sets = key_sets(groups@);
    let ghost before = combos@;
    let size: usize = groups[combo.group].len();
    let mut at: usize = 0;
    proof {
        groups@[combo.group as int]@.unique_seq_to_set();
        assert(before.skip(0) =~= before);
    }
    while at < combos.len() && groups[combos[at].group].len() >= size
        invariant
            at <= combos@.len(),
            combos@ == before,
            sets == key_sets(groups@),
            forall|i: int| 0 <= i < before.len() ==> (#[trigger] before[i]).group < groups@.len(),
            forall|g: int|
                #![trigger groups@[g]]
                0 <= g < groups@.len() ==> groups@[g]@.no_duplicates(),
            rank(before, sets, size as nat) == at + rank(
                before.skip(at as int),
                sets,
                size as nat,
            ),
        decreases combos@.len() - at,
    {
        proof {
            let first = before[at as int];
            assert(groups@[first.group as int]@.no_duplicates());
            groups@[first.group as int]@.unique_seq_to_set();
            assert(before.skip(at as int)[0] == first);
            assert(before.skip(at as int).drop_first() =~= before.skip(at + 1));
        }
        at += 1;
    }
    proof {
        if at < before.len() {
            let first = before[at as int];
            assert(groups@[first.group as int]@.no_duplicates());
            groups@[first.group as int]@.unique_seq_to_set();
            assert(before.skip(at as int)[0] == first);
        }
        assert(rank(before.skip(at as int), sets, size as nat) == 0);
    }
    combos.insert(at, combo);
    proof {
        assert forall|i: int| 0 <= i < combos@.len() implies (#[trigger] combos@[i]).group
            < groups@.len() by {
            if i < at {
                assert(combos@[i] == before[i]);
            } else if i > at {
                assert(combos@[i] == before[i - 1]);
            }
        }
    }
}

/// What is known of a key after the first `n` actions.
spec fn plan_of<A: Keycode, Z: Keycode>(
    config: &Config<A, Z>,
    keyed: Seq<Set<usize>>,
    sets: Seq<Set<usize>>,
    n: nat,
    code: usize,
) -> KeyPlan<Z> {
    KeyPlan {
        action: match config.action_of(n, code) {
            Some(i) => config.actions@[i as int].action,
            None => None,
        },
        latching: match config.action_of(n, code) {
            Some(i) => config.actions@[i as int].latching,
            None => false,
        },
        immediate: match config.action_of(n, code) {
            Some(i) => config.actions@[i as int].immediate,
            None => false,
        },
        combos: ranked(config.declared(n, code), sets),
        groups: model::ascending(config.modifiers@.len(), groups_with(keyed, code)),
    }
}

impl<Z: Keycode> Draft<Z> {
    /// The combos of the keys refer to groups.
    spec fn combos_fit(&self, groups: nat) -> bool {
        forall|k: int, c: int|
            0 <= k < self.keys@.len() && 0 <= c < self.keys@[k].combos@.len() ==> (
            #[trigger] self.keys@[k].combos@[c]).group < groups
    }

    /// Adds an action to its key.
    fn add_action<A: Keycode>(
        &mut self,
        config: &Config<A, Z>,
        groups: &Vec<Vec<usize>>,
        n: usize,
        Ghost(keyed): Ghost<Seq<Set<usize>>>,
    )
        requires
            old(self).has_groups(keyed, groups@),
            old(self).combos_fit(groups@.len()),
            groups@.len() == config.modifiers@.len(),
            config.defines_modifiers(),
            n < config.actions@.len(),
            old(self).codes@.contains(config.actions@[n as int].key.code()),
            forall|code: usize| #[trigger]
                old(self).plan(code) == plan_of(config, keyed, key_sets(groups@), n as nat, code),
        ensures
            final(self).has_groups(keyed, groups@),
            final(self).combos_fit(groups@.len()),
            final(self).codes@ == old(self).codes@,
            forall|code: usize| #[trigger]
                final(self).plan(code) == plan_of(
                    config,
                    keyed,
                    key_sets(groups@),
                    (n + 1) as nat,
                    code,
                ),
    {
        let ghost pre = *self;
        let ghost sets = key_sets(groups@);
        let ghost action = config.actions@[n as int];
        let ghost code = action.key.code();
        let ghost prior = config.declared(n as nat, code);
        let ghost listed = action.modified@.map_values(
            |combo: config::Combo<Z>| config.combo_of(combo),
        );
        let key = self.key(config.actions[n].key.index());
        let ghost found = *self;
        proof {
            assert(found.domain@[found.codes@[key as int]] == key);
            assert(found.plan(code) == pre.plan(code));
            assert(found.keys@[key as int]@ == plan_of(config, keyed, sets, n as nat, code));
        }
        self.keys[key].immediate = config.actions[n].immediate;
        self.keys[key].latching = config.actions[n].latching;
        self.keys[key].action = config.actions[n].action;
        let mut j: usize = 0;
        proof {
            assert(prior + listed.take(0) =~= prior);
            found.lemma_new_fits(&pre, key, groups@.len());
        }
        while j < config.actions[n].modified.len()
            invariant
                n < config.actions@.len(),
                action == config.actions@[n as int],
                config.defines_modifiers(),
                groups@.len() == config.modifiers@.len(),
                sets == key_sets(groups@),
                forall|g: int|
                    #![trigger groups@[g]]
                    0 <= g < groups@.len() ==> groups@[g]@.no_duplicates(),
                listed == action.modified@.map_values(
                    |combo: config::Combo<Z>| config.combo_of(combo),
                ),
                j <= action.modified@.len(),
                key < found.keys@.len(),
                found.combos_fit(groups@.len()),
                self.combos_fit(groups@.len()),
                self.codes@ == found.codes@,
                self.domain@ == found.domain@,
                self.keys@.len() == found.keys@.len(),
                forall|k: int|
                    0 <= k < found.keys@.len() && k != key ==> #[trigger] self.keys@[k]
                        == found.keys@[k],
                self.keys@[key as int]@ == (KeyPlan {
                    action: action.action,
                    latching: action.latching,
                    immediate: action.immediate,
                    combos: ranked(prior + listed.take(j as int), sets),
                    groups: found.keys@[key as int]@.groups,
                }),
            decreases action.modified@.len() - j,
        {
            let ghost mid = *self;
            proof {
                assert(config.group_named(action.modified@[j as int].modifier@) is Some);
                assert(config.modifiers.len() == config.modifiers@.len());
                lemma_group_named(config, action.modified@[j as int].modifier@);
                assert(listed[j as int] == config.combo_of(action.modified@[j as int]));
                let grown = prior + listed.take(j + 1);
                assert(grown.drop_last() =~= prior + listed.take(j as int));
                assert(grown.last() == listed[j as int]);
                assert forall|i: int| 0 <= i < self.keys@[key as int].combos@.len() implies (
                #[trigger] self.keys@[key as int].combos@[i]).group < groups@.len() by {}
            }
            if let Some(group) = group_named(config, &config.actions[n].modified[j].modifier) {
                let combo = Combo { action: config.actions[n].modified[j].action, group };
                place(&mut self.keys[key].combos, groups, combo);
            }
            proof {
                assert forall|k: int, c: int|
                    0 <= k < self.keys@.len() && 0 <= c < self.keys@[k].combos@.len() implies (
                #[trigger] self.keys@[k].combos@[c]).group < groups@.len() by {
                    if k != key {
                        assert(self.keys@[k] == found.keys@[k]);
                        assert(found.keys@[k].combos@[c].group < groups@.len());
                    }
                }
            }
            j += 1;
        }
        proof {
            assert(listed.take(j as int) =~= listed);
            let p = config.actions_of(code);
            assert(p(n));
            assert forall|other: usize| #[trigger] self.plan(other) == plan_of(
                config,
                keyed,
                sets,
                (n + 1) as nat,
                other,
            ) by {
                assert(found.plan(other) == pre.plan(other));
                assert((config.actions_of(other))(n) == (other == code));
                if other == code {
                    assert(self.plan(other) == self.keys@[key as int]@);
                    assert(config.declared((n + 1) as nat, other) == prior + listed);
                } else {
                    assert(config.declared((n + 1) as nat, other) =~= config.declared(
                        n as nat,
                        other,
                    ));
                    if found.domain@.dom().contains(other) {
                        assert(found.domain@[other] != key);
                    }
                }
            }
        }
    }

    /// A key more: the combos still refer to groups.
    proof fn lemma_new_fits(&self, pre: &Self, key: usize, groups: nat)
        requires
            pre.in_order(),
            self.in_order(),
            pre.combos_fit(groups),
            forall|code: usize| #[trigger] self.plan(code) == pre.plan(code),
        ensures
            self.combos_fit(groups),
    {
        assert forall|k: int, c: int|
            0 <= k < self.keys@.len() && 0 <= c < self.keys@[k].combos@.len() implies (
        #[trigger] self.keys@[k].combos@[c]).group < groups by {
            let code = self.codes@[k];
            assert(self.domain@[code] == k);
            assert(self.plan(code) == pre.plan(code));
            if pre.domain@.dom().contains(code) {
                assert(pre.keys@[pre.domain@[code] as int].combos@[c].group < groups);
            }
        }
    }
}

/// Appends a list to a packed list. Returns where it is.
fn pack<T: Copy>(packed: &mut Vec<T>, items: &Vec<T>) -> (range: Range)
    ensures
        final(packed)@ == old(packed)@ + items@,
        range.first() == old(packed)@.len(),
        range.past() == final(packed)@.len(),
{
    let ghost before = packed@;
    let start: usize = packed.len();
    let mut i: usize = 0;
    while i < items.len()
        invariant
            i <= items@.len(),
            packed@ == before + items@.take(i as int),
        decreases items@.len() - i,
    {
        packed.push(items[i]);
        proof {
            assert(items@.take(i + 1) =~= items@.take(i as int).push(items@[i as int]));
            assert(packed@ =~= before + items@.take(i + 1));
        }
        i += 1;
    }
    proof {
        assert(items@.take(i as int) =~= items@);
    }
    Range::new(start, packed.len())
}

/// What a packed list holds does not change when it grows.
proof fn lemma_packed<T>(range: Range, before: Seq<T>, after: Seq<T>)
    requires
        range.valid(),
        0 <= range.first(),
        range.past() <= before.len(),
        before.is_prefix_of(after),
    ensures
        range.past() <= after.len(),
        range.of(after) == range.of(before),
{
    assert(range.of(after) =~= range.of(before));
}

impl<Z: Keycode> MutKey<Z> {
    /// Makes the key, whose lists are packed.
    fn freeze(&self, keys_combos: &mut Vec<Combo<Z>>, keys_groups: &mut Vec<usize>) -> (key: Key<
        Z,
    >)
        ensures
            old(keys_combos)@.is_prefix_of(final(keys_combos)@),
            old(keys_groups)@.is_prefix_of(final(keys_groups)@),
            key.action == self.action,
            key.latching == self.latching,
            key.immediate == self.immediate,
            key.combos.valid(),
            0 <= key.combos.first(),
            key.combos.past() <= final(keys_combos)@.len(),
            key.combos.of(final(keys_combos)@) == self.combos@,
            key.groups.valid(),
            0 <= key.groups.first(),
            key.groups.past() <= final(keys_groups)@.len(),
            key.groups.of(final(keys_groups)@) == self.groups@,
            key.cache_counter == 0,
            !key.open,
            key.active_combo is None,
            key.counter == 0,
    {
        let combos = pack(keys_combos, &self.combos);
        let groups = pack(keys_groups, &self.groups);
        proof {
            assert(combos.of(keys_combos@) =~= self.combos@);
            assert(groups.of(keys_groups@) =~= self.groups@);
        }
        Key {
            action: self.action,
            latching: self.latching,
            immediate: self.immediate,
            combos,
            groups,
            cache_counter: 0,
            open: false,
            active_combo: None,
            counter: 0,
        }
    }
}

/// A group that is being put together.
struct MutGroup<'a> {
    index: usize,
    mask: bool,
    greater: Vec<usize>,
    pred: Vec<usize>,
    intersect: Vec<usize>,
    keys: &'a Vec<usize>,
}

impl<'a> MutGroup<'a> {
    /// Makes the group, whose lists are packed.
    fn freeze(
        self,
        groups_pred: &mut Vec<usize>,
        groups_intersect: &mut Vec<usize>,
        groups_keys: &mut Vec<usize>,
    ) -> (group: Group)
        ensures
            old(groups_pred)@.is_prefix_of(final(groups_pred)@),
            old(groups_intersect)@.is_prefix_of(final(groups_intersect)@),
            old(groups_keys)@.is_prefix_of(final(groups_keys)@),
            group.index == self.index,
            group.mask == self.mask,
            sets::frozen_contents(group.greater) == self.greater@.to_set(),
            group.pred.valid(),
            0 <= group.pred.first(),
            group.pred.past() <= final(groups_pred)@.len(),
            group.pred.of(final(groups_pred)@) == self.pred@,
            group.intersect.valid(),
            0 <= group.intersect.first(),
            group.intersect.past() <= final(groups_intersect)@.len(),
            group.intersect.of(final(groups_intersect)@) == self.intersect@,
            group.keys.valid(),
            0 <= group.keys.first(),
            group.keys.past() <= final(groups_keys)@.len(),
            group.keys.of(final(groups_keys)@) == self.keys@,
            group.size == self.keys@.len(),
            sets::set_contents(group.active_combos) == Set::<usize>::empty(),
            group.counter == 0,
            group.active_greater == 0,
    {
        let pred = pack(groups_pred, &self.pred);
        let intersect = pack(groups_intersect, &self.intersect);
        let keys = pack(groups_keys, self.keys);
        proof {
            assert(pred.of(groups_pred@) =~= self.pred@);
            assert(intersect.of(groups_intersect@) =~= self.intersect@);
            assert(keys.of(groups_keys@) =~= self.keys@);
        }
        Group {
            index: self.index,
            mask: self.mask,
            greater: sets::frozen_set(self.greater),
            pred,
            intersect,
            keys,
            size: keys.len(),
            active_combos: sets::compact_set(),
            counter: 0,
            active_greater: 0,
        }
    }
}

/// Ranked combos have the larger groups first, and come from the declared ones.
proof fn lemma_ranked<Z: Keycode>(combos: Seq<Combo<Z>>, members: Seq<Set<usize>>)
    ensures
        forall|i: int, j: int|
            #![trigger ranked(combos, members)[i], ranked(combos, members)[j]]
            0 <= i < j < ranked(combos, members).len()
                ==> members[ranked(combos, members)[i].group as int].len()
                >= members[ranked(combos, members)[j].group as int].len(),
    decreases combos.len(),
{
    if combos.len() > 0 {
        let last = combos.last();
        let size = members[last.group as int].len();
        let rest = ranked(combos.drop_last(), members);
        let all = ranked(combos, members);
        lemma_ranked(combos.drop_last(), members);
        lemma_rank(rest, members, size);
        let at = rank(rest, members, size);
        assert forall|i: int, j: int|
            #![trigger all[i], all[j]]
            0 <= i < j < all.len() implies members[all[i].group as int].len()
            >= members[all[j].group as int].len() by {
            if i < at {
                assert(all[i] == rest[i]);
                assert(members[rest[i].group as int].len() >= size);
            }
            if j < at {
                assert(all[j] == rest[j]);
            }
            if i > at {
                assert(all[i] == rest[i - 1]);
            }
            if j > at {
                assert(all[j] == rest[j - 1]);
                assert(members[rest[at].group as int].len() < size);
                if j - 1 > at {
                    assert(members[rest[at].group as int].len()
                        >= members[rest[j - 1].group as int].len());
                }
            }
        }
    }
}

/// The rank parts the combos of large groups from the first one of a smaller group.
proof fn lemma_rank<Z: Keycode>(combos: Seq<Combo<Z>>, members: Seq<Set<usize>>, size: nat)
    ensures
        0 <= rank(combos, members, size) <= combos.len(),
        forall|i: int|
            0 <= i < rank(combos, members, size) ==> members[(
            #[trigger] combos[i]).group as int].len() >= size,
        rank(combos, members, size) < combos.len() ==> members[combos[rank(
            combos,
            members,
            size,
        )].group as int].len() < size,
    decreases combos.len(),
{
    if combos.len() > 0 && members[combos[0].group as int].len() >= size {
        let rest = combos.drop_first();
        lemma_rank(rest, members, size);
        assert forall|i: int| 0 <= i < rank(combos, members, size) implies members[(
        #[trigger] combos[i]).group as int].len() >= size by {
            if i > 0 {
                assert(combos[i] == rest[i - 1]);
            }
        }
    }
}

/// What a map of entries with distinct keys holds.
proof fn lemma_entries(codes: Seq<usize>, entries: Seq<(usize, usize)>)
    requires
        codes.no_duplicates(),
        codes.len() == entries.len() <= usize::MAX,
        forall|k: int|
            0 <= k < codes.len() ==> #[trigger] entries[k] == (codes[k], k as usize),
    ensures
        forall|code: usize| #[trigger]
            sets::entries_map(entries).dom().contains(code) <==> codes.contains(code),
        forall|k: int|
            0 <= k < codes.len() ==> sets::entries_map(entries)[#[trigger] codes[k]] == k,
    decreases codes.len(),
{
    if codes.len() > 0 {
        let n = codes.len() - 1;
        lemma_entries(codes.drop_last(), entries.drop_last());
        assert(entries[n] == (codes[n], n as usize));
        assert forall|code: usize| #[trigger] sets::entries_map(entries).dom().contains(code)
            <==> codes.contains(code) by {
            lists::lemma_push_contains(codes.drop_last(), codes[n], code);
            assert(codes =~= codes.drop_last().push(codes[n]));
            assert(sets::entries_map(entries.drop_last()).dom().contains(code)
                <==> codes.drop_last().contains(code));
        }
        assert forall|k: int|
            0 <= k < codes.len() implies sets::entries_map(entries)[#[trigger] codes[k]] == k by {
            if k < n {
                assert(codes.drop_last()[k] == codes[k]);
                assert(codes[k] != codes[n]);
            }
        }
    }
}

/// The groups of a layout, with their lists packed.
struct Groups {
    groups: Vec<Group>,
    pred: Vec<usize>,
    intersect: Vec<usize>,
    keys: Vec<usize>,
}

impl Groups {
    /// The group is the one of the layout, before any event.
    spec fn fits<Z: Keycode>(&self, layout: Layout<Z>, keys: Seq<Vec<usize>>, g: int) -> bool {
        let group = self.groups@[g];
        &&& group.index == g
        &&& group.mask == layout.masking[g]
        &&& forall|h: usize| #[trigger]
            sets::frozen_contents(group.greater).contains(h) <==> layout.inside(g as usize, h)
        &&& group.pred.valid()
        &&& 0 <= group.pred.first()
        &&& group.pred.past() <= self.pred@.len()
        &&& group.pred.of(self.pred@) == layout.subgroups(g as usize)
        &&& group.intersect.valid()
        &&& 0 <= group.intersect.first()
        &&& group.intersect.past() <= self.intersect@.len()
        &&& group.intersect.of(self.intersect@) == model::ascending(
            layout.members.len(),
            |h: usize| layout.crosses(g as usize, h),
        )
        &&& group.keys.valid()
        &&& 0 <= group.keys.first()
        &&& group.keys.past() <= self.keys@.len()
        &&& group.keys.of(self.keys@) == keys[g]@
        &&& group.size == keys[g]@.len()
        &&& sets::set_contents(group.active_combos) == Set::<usize>::empty()
        &&& group.counter == 0
        &&& group.active_greater == 0
    }

    /// Makes the groups of a layout.
    fn new<A: Keycode, Z: Keycode>(
        config: &Config<A, Z>,
        keys: &Vec<Vec<usize>>,
        Ghost(layout): Ghost<Layout<Z>>,
    ) -> (made: Groups)
        requires
            edges::keys_of(layout, keys@),
            layout.members.len() == config.modifiers@.len(),
            layout.masking == Seq::new(
                config.modifiers@.len(),
                |g: int| config.modifiers@[g].masking,
            ),
        ensures
            made.groups@.len() == keys@.len(),
            forall|g: int| 0 <= g < keys@.len() ==> #[trigger] made.fits(layout, keys@, g),
    {
        let mut made = Groups {
            groups: Vec::new(),
            pred: Vec::new(),
            intersect: Vec::new(),
            keys: Vec::new(),
        };
        let mut g: usize = 0;
        while g < keys.len()
            invariant
                edges::keys_of(layout, keys@),
                layout.members.len() == config.modifiers@.len(),
                layout.masking == Seq::new(
                    config.modifiers@.len(),
                    |g: int| config.modifiers@[g].masking,
                ),
                g <= keys@.len(),
                made.groups@.len() == g,
                forall|h: int| 0 <= h < g ==> #[trigger] made.fits(layout, keys@, h),
            decreases keys@.len() - g,
        {
            let ghost before = made;
            let draft = MutGroup {
                index: g,
                mask: config.modifiers[g].masking,
                greater: edges::supergroups::<Z>(keys, g, Ghost(layout)),
                pred: edges::subgroups::<Z>(keys, g, Ghost(layout)),
                intersect: edges::intersectors::<Z>(keys, g, Ghost(layout)),
                keys: &keys[g],
            };
            let ghost above = draft.greater@;
            let group = draft.freeze(&mut made.pred, &mut made.intersect, &mut made.keys);
            made.groups.push(group);
            proof {
                assert(keys.len() == keys@.len());
                let inside = |b: usize| layout.inside(g, b);
                lists::lemma_ascending(keys@.len(), inside);
                assert forall|h: usize| #[trigger] sets::frozen_contents(group.greater).contains(
                    h,
                ) <==> layout.inside(g, h) by {
                    assert(above.to_set().contains(h) <==> above.contains(h));
                    assert(above.contains(h) <==> h < keys@.len() && inside(h));
                }
                assert forall|h: int| 0 <= h < g + 1 implies #[trigger] made.fits(
                    layout,
                    keys@,
                    h,
                ) by {
                    if h < g {
                        assert(before.fits(layout, keys@, h));
                        assert(made.groups@[h] == before.groups@[h]);
                        lemma_packed(made.groups@[h].pred, before.pred@, made.pred@);
                        lemma_packed(made.groups@[h].intersect, before.intersect@, made.intersect@);
                        lemma_packed(made.groups@[h].keys, before.keys@, made.keys@);
                    }
                }
            }
            g += 1;
        }
        made
    }
}

/// The keys of a draft, with their lists packed.
struct Keys<Z: Keycode> {
    keys: Vec<Key<Z>>,
    combos: Vec<Combo<Z>>,
    groups: Vec<usize>,
}

impl<Z: Keycode> Keys<Z> {
    /// The key is the one of the draft, before any event.
    spec fn fits(&self, plan: KeyPlan<Z>, k: int) -> bool {
        let key = self.keys@[k];
        &&& key.action == plan.action
        &&& key.latching == plan.latching
        &&& key.immediate == plan.immediate
        &&& key.combos.valid()
        &&& 0 <= key.combos.first()
        &&& key.combos.past() <= self.combos@.len()
        &&& key.combos.of(self.combos@) == plan.combos
        &&& key.groups.valid()
        &&& 0 <= key.groups.first()
        &&& key.groups.past() <= self.groups@.len()
        &&& key.groups.of(self.groups@) == plan.groups
        &&& key.cache_counter == 0
        &&& !key.open
        &&& key.active_combo is None
        &&& key.counter == 0
    }

    /// Makes the keys of a draft.
    fn new(draft: &Vec<MutKey<Z>>) -> (made: Keys<Z>)
        ensures
            made.keys@.len() == draft@.len(),
            forall|k: int| 0 <= k < draft@.len() ==> #[trigger] made.fits(draft@[k]@, k),
    {
        let mut made: Keys<Z> = Keys { keys: Vec::new(), combos: Vec::new(), groups: Vec::new() };
        let mut k: usize = 0;
        while k < draft.len()
            invariant
                k <= draft@.len(),
                made.keys@.len() == k,
                forall|j: int| 0 <= j < k ==> #[trigger] made.fits(draft@[j]@, j),
            decreases draft@.len() - k,
        {
            let ghost before = made;
            let key = draft[k].freeze(&mut made.combos, &mut made.groups);
            made.keys.push(key);
            proof {
                assert forall|j: int| 0 <= j < k + 1 implies #[trigger] made.fits(
                    draft@[j]@,
                    j,
                ) by {
                    if j < k {
                        assert(before.fits(draft@[j]@, j));
                        assert(made.keys@[j] == before.keys@[j]);
                        lemma_packed(made.keys@[j].combos, before.combos@, made.combos@);
                        lemma_packed(made.keys@[j].groups, before.groups@, made.groups@);
                    }
                }
            }
            k += 1;
        }
        made
    }
}

/// The layout that a draft comes to.
spec fn layout_of<A: Keycode, Z: Keycode>(
    config: &Config<A, Z>,
    codes: Seq<usize>,
    members: Seq<Set<usize>>,
) -> Layout<Z> {
    let n = config.actions@.len();
    Layout {
        codes,
        actions: Seq::new(
            codes.len(),
            |k: int|
                match config.action_of(n, codes[k]) {
                    Some(i) => config.actions@[i as int].action,
                    None => None,
                },
        ),
        combos: Seq::new(codes.len(), |k: int| ranked(config.declared(n, codes[k]), members)),
        members,
        masking: Seq::new(config.modifiers@.len(), |g: int| config.modifiers@[g].masking),
    }
}

impl<Z: Keycode> Draft<Z> {
    /// The layout that the draft comes to is in order.
    proof fn lemma_layout<A: Keycode>(
        &self,
        config: &Config<A, Z>,
        keyed: Seq<Set<usize>>,
        groups: Seq<Vec<usize>>,
    )
        requires
            self.has_groups(keyed, groups),
            self.combos_fit(groups.len()),
            self.codes@.len() <= usize::MAX,
            groups.len() == config.modifiers@.len() <= usize::MAX,
            forall|code: usize| #[trigger]
                self.plan(code) == plan_of(
                    config,
                    keyed,
                    key_sets(groups),
                    config.actions@.len(),
                    code,
                ),
        ensures
            layout_of(config, self.codes@, key_sets(groups)).valid(),
            self.codes@.no_duplicates(),
            forall|k: int|
                0 <= k < self.keys@.len() ==> (#[trigger] self.keys@[k])@ == plan_of(
                    config,
                    keyed,
                    key_sets(groups),
                    config.actions@.len(),
                    self.codes@[k],
                ),
    {
        let members = key_sets(groups);
        let layout = layout_of(config, self.codes@, members);
        assert forall|i: int, j: int|
            0 <= i < self.codes@.len() && 0 <= j < self.codes@.len() && i != j implies self.codes@[i]
            != self.codes@[j] by {
            assert(self.domain@[self.codes@[i]] == i);
            assert(self.domain@[self.codes@[j]] == j);
        }
        assert forall|k: int| 0 <= k < self.keys@.len() implies (#[trigger] self.keys@[k])@
            == plan_of(config, keyed, members, config.actions@.len(), self.codes@[k]) by {
            assert(self.domain@[self.codes@[k]] == k);
            assert(self.plan(self.codes@[k]) == self.keys@[k]@);
        }
        assert forall|g: usize| g < layout.members.len() implies (
        #[trigger] layout.members[g as int]).finite() by {
            vstd::seq_lib::seq_to_set_is_finite(groups[g as int]@);
        }
        assert forall|g: usize, k: usize|
            g < layout.members.len() && #[trigger] layout.members[g as int].contains(k) implies k
            < layout.codes.len() by {
            assert(groups[g as int]@.contains(k));
        }
        assert forall|k: usize, c: usize|
            k < layout.codes.len() && c < layout.combos[k as int].len() implies #[trigger]
            layout.group_at(k, c) < layout.members.len() by {
            assert(self.keys@[k as int]@.combos == layout.combos[k as int]);
            assert(self.keys@[k as int].combos@[c as int].group < groups.len());
        }
        assert forall|k: usize, c1: usize, c2: usize|
            k < layout.codes.len() && c1 < c2
                < layout.combos[k as int].len() implies layout.members[#[trigger] layout.group_at(
            k,
            c1,
        ) as int].len() >= layout.members[#[trigger] layout.group_at(k, c2) as int].len() by {
            let declared = config.declared(config.actions@.len(), self.codes@[k as int]);
            lemma_ranked(declared, members);
            assert(layout.combos[k as int] == ranked(declared, members));
            assert(members[ranked(declared, members)[c1 as int].group as int].len()
                >= members[ranked(declared, members)[c2 as int].group as int].len());
        }
    }
}

impl<A: Keycode, Z: Keycode, Q: Queue<Event<Z>>> ComboHandlerSimple<A, Z, Q> {
    /// Creates the handler from a configuration, using the provided queue.
    ///
    /// This does a lot of precomputation in order to speed up the handling of events. It will be
    /// slow on complex configurations.
    pub fn with(config: &Config<A, Z>, queue: Q) -> (handler: ComboHandlerSimple<A, Z, Q>)
        requires
            config.defines_modifiers(),
        ensures
            handler.valid(),
            obeys_key_model::<A>() ==> config.describes(handler.machine()),
            config.outlines(handler.machine()),
            handler.machine().events == queue.pending(),
            handler.queue() == queue,
    {
        let lists = group_codes(config);
        let ghost keyed = key_sets(lists@);
        let all = all_codes(config, &lists);
        let mut draft: Draft<Z> = Draft::with_codes(&all);
        proof {
            assert(lists.len() == lists@.len());
            assert forall|g: int, code: usize|
                0 <= g < lists@.len() && #[trigger] lists@[g]@.contains(code) implies all@.contains(
                code,
            ) by {
                let p = groups_with(keyed, code);
                assert(lists@[g]@.to_set().contains(code));
                assert(p(g as usize));
                assert(config.mentions(keyed, config.actions@.len(), code));
            }
        }
        let groups = draft.add_groups(&lists);
        let ghost members = key_sets(groups@);
        let mut i: usize = 0;
        proof {
            assert forall|code: usize| #[trigger] draft.plan(code) == plan_of(
                config,
                keyed,
                members,
                0,
                code,
            ) by {
                assert(model::ascending(0, config.actions_of(code)).len() == 0);
            }
            draft.lemma_none_fits(groups@.len());
        }
        while i < config.actions.len()
            invariant
                config.defines_modifiers(),
                groups@.len() == config.modifiers@.len(),
                members == key_sets(groups@),
                i <= config.actions@.len(),
                draft.has_groups(keyed, groups@),
                draft.combos_fit(groups@.len()),
                draft.codes@ == all@,
                forall|code: usize| #[trigger]
                    all@.contains(code) <==> config.mentions(
                        keyed,
                        config.actions@.len(),
                        code,
                    ),
                forall|code: usize| #[trigger]
                    draft.plan(code) == plan_of(config, keyed, members, i as nat, code),
            decreases config.actions@.len() - i,
        {
            proof {
                let code = config.actions@[i as int].key.code();
                assert((config.actions_of(code))(i));
                assert(config.mentions(keyed, config.actions@.len(), code));
            }
            draft.add_action(config, &groups, i, Ghost(keyed));
            i += 1;
        }
        Self::freeze(config, &draft, &groups, queue, Ghost(keyed))
    }

    /// Makes the handler that the draft comes to.
    fn freeze(
        config: &Config<A, Z>,
        draft: &Draft<Z>,
        groups: &Vec<Vec<usize>>,
        queue: Q,
        Ghost(keyed): Ghost<Seq<Set<usize>>>,
    ) -> (handler: ComboHandlerSimple<A, Z, Q>)
        requires
            groups@.len() == config.modifiers@.len(),
            draft.has_groups(keyed, groups@),
            draft.combos_fit(groups@.len()),
            is_ascending(draft.codes@),
            forall|code: usize| #[trigger]
                draft.codes@.contains(code) <==> config.mentions(
                    keyed,
                    config.actions@.len(),
                    code,
                ),
            forall|code: usize| #[trigger]
                draft.plan(code) == plan_of(
                    config,
                    keyed,
                    key_sets(groups@),
                    config.actions@.len(),
                    code,
                ),
        ensures
            handler.valid(),
            config.describes_with(keyed, handler.machine()),
            handler.machine().events == queue.pending(),
            handler.queue() == queue,
    {
        let ghost members = key_sets(groups@);
        let ghost codes = draft.codes@;
        let ghost layout = layout_of(config, codes, members);
        proof {
            assert(draft.codes.len() == codes.len());
            assert(groups.len() == groups@.len());
            draft.lemma_layout(config, keyed, groups@);
            assert(edges::keys_of(layout, groups@));
        }
        let frozen_groups = Groups::new(config, groups, Ghost(layout));
        let frozen_keys = Keys::new(&draft.keys);
        let entries = entries_of(&draft.codes);
        proof {
            lemma_entries(codes, entries@);
        }
        let handler = ComboHandlerSimple {
            domain: sets::frozen_map(entries),
            keys: frozen_keys.keys,
            keys_combos: frozen_keys.combos,
            keys_groups: frozen_keys.groups,
            groups: frozen_groups.groups,
            groups_keys: frozen_groups.keys,
            groups_pred: frozen_groups.pred,
            groups_intersect: frozen_groups.intersect,
            masks: 0,
            cache_counter: 1,
            events: queue,
            codes: Ghost(codes),
            down: Ghost(Set::empty()),
            keycode: PhantomData,
        };
        proof {
            assert forall|k: int| 0 <= k < codes.len() implies frozen_keys.fits(
                plan_of(config, keyed, members, config.actions@.len(), codes[k]),
                k,
            ) && #[trigger] handler.keys@[k] == frozen_keys.keys@[k] by {
                assert(frozen_keys.fits(draft.keys@[k]@, k));
            }
            assert(layout_of(config, handler.codes@, key_sets(groups@)) == layout);
            assert(layout.valid());
            assert(frozen_keys.keys@.len() == codes.len());
            assert(frozen_groups.groups@.len() == groups@.len());
            assert forall|g: int| 0 <= g < groups@.len() implies #[trigger] frozen_groups.fits(
                layout,
                groups@,
                g,
            ) by {}
            assert(handler.made_of(config, keyed, groups@, frozen_keys, frozen_groups));
            handler.lemma_layout_is(config, keyed, groups@, frozen_keys, frozen_groups);
            handler.lemma_fresh(config, keyed, groups@, frozen_keys, frozen_groups);
            handler.lemma_queue();
        }
        handler
    }

    /// The parts of a new handler are those of the draft.
    spec fn made_of(
        &self,
        config: &Config<A, Z>,
        keyed: Seq<Set<usize>>,
        groups: Seq<Vec<usize>>,
        frozen_keys: Keys<Z>,
        frozen_groups: Groups,
    ) -> bool {
        let codes = self.codes@;
        let layout = layout_of(config, codes, key_sets(groups));
        &&& layout.valid()
        &&& groups.len() == config.modifiers@.len()
        &&& frozen_keys.keys@.len() == codes.len()
        &&& frozen_groups.groups@.len() == groups.len()
        &&& self.keys@ == frozen_keys.keys@
        &&& self.keys_combos@ == frozen_keys.combos@
        &&& self.keys_groups@ == frozen_keys.groups@
        &&& self.groups@ == frozen_groups.groups@
        &&& self.groups_keys@ == frozen_groups.keys@
        &&& self.groups_pred@ == frozen_groups.pred@
        &&& self.groups_intersect@ == frozen_groups.intersect@
        &&& forall|k: int|
            0 <= k < codes.len() ==> frozen_keys.fits(
                plan_of(config, keyed, key_sets(groups), config.actions@.len(), codes[k]),
                k,
            ) && #[trigger] self.keys@[k] == frozen_keys.keys@[k]
        &&& forall|g: int|
            0 <= g < groups.len() ==> #[trigger] frozen_groups.fits(layout, groups, g)
    }

    /// A new handler has the layout of the draft.
    proof fn lemma_layout_is(
        &self,
        config: &Config<A, Z>,
        keyed: Seq<Set<usize>>,
        groups: Seq<Vec<usize>>,
        frozen_keys: Keys<Z>,
        frozen_groups: Groups,
    )
        requires
            self.made_of(config, keyed, groups, frozen_keys, frozen_groups),
        ensures
            self.layout() == layout_of(config, self.codes@, key_sets(groups)),
    {
        let layout = layout_of(config, self.codes@, key_sets(groups));
        assert forall|g: int| 0 <= g < groups.len() implies self.layout().members[g]
            == layout.members[g] && self.layout().masking[g] == layout.masking[g] by {
            assert(frozen_groups.fits(layout, groups, g));
        }
        assert(self.layout().members =~= layout.members);
        assert(self.layout().masking =~= layout.masking);
        assert forall|k: int| 0 <= k < self.codes@.len() implies self.layout().actions[k]
            == layout.actions[k] && self.layout().combos[k] == layout.combos[k] by {
            assert(self.keys@[k] == frozen_keys.keys@[k]);
        }
        assert(self.layout().actions =~= layout.actions);
        assert(self.layout().combos =~= layout.combos);
    }

    /// A new handler is in order, and the one that the configuration describes.
    proof fn lemma_fresh(
        &self,
        config: &Config<A, Z>,
        keyed: Seq<Set<usize>>,
        groups: Seq<Vec<usize>>,
        frozen_keys: Keys<Z>,
        frozen_groups: Groups,
    )
        requires
            self.made_of(config, keyed, groups, frozen_keys, frozen_groups),
            self.layout() == layout_of(config, self.codes@, key_sets(groups)),
            forall|g: int|
                #![trigger groups[g]]
                0 <= g < groups.len() ==> groups[g]@.no_duplicates(),
            forall|g: int, k: usize|
                #![trigger groups[g]@.contains(k)]
                0 <= g < groups.len() ==> (groups[g]@.contains(k) <==> k < self.codes@.len()
                    && keyed[g].contains(self.codes@[k as int])),
            keyed.len() == groups.len(),
            is_ascending(self.codes@),
            forall|code: usize| #[trigger]
                self.codes@.contains(code) <==> config.mentions(
                    keyed,
                    config.actions@.len(),
                    code,
                ),
            forall|code: usize| #[trigger]
                sets::map_contents(self.domain).dom().contains(code) <==> self.codes@.contains(
                    code,
                ),
            forall|k: int|
                0 <= k < self.codes@.len() ==> sets::map_contents(self.domain)[
                #[trigger] self.codes@[k]] == k,
            self.masks == 0,
            self.cache_counter == 1,
            self.down@ == Set::<usize>::empty(),
        ensures
            self.valid(),
            config.describes_with(keyed, self.machine()),
    {
        let layout = self.layout();
        let m = self.machine();
        assert forall|k: int| 0 <= k < self.keys@.len() implies #[trigger] self.key_tables(k) by {
            assert(self.keys@[k] == frozen_keys.keys@[k]);
            let p = groups_with(keyed, self.codes@[k]);
            let q = |g: usize| layout.members[g as int].contains(k as usize);
            assert forall|g: usize| g < groups.len() implies #[trigger] p(g) == q(g) by {
                assert(groups[g as int]@.contains(k as usize) == q(g));
            }
            lists::lemma_ascending_same(groups.len(), p, q);
            assert(self.codes@.contains(self.codes@[k]));
        }
        assert forall|g: int| 0 <= g < self.groups@.len() implies #[trigger] self.group_tables(
            g,
        ) by {
            assert(frozen_groups.fits(layout, groups, g));
            assert(groups[g]@.no_duplicates());
        }
        assert forall|g: int| 0 <= g < self.groups@.len() implies (
        #[trigger] self.groups@[g]).counter == layout.members[g].intersect(self.down@).len() by {
            assert(frozen_groups.fits(layout, groups, g));
            assert(layout.members[g].intersect(self.down@) =~= Set::<usize>::empty());
        }
        assert forall|g: int| 0 <= g < self.groups@.len() implies (
        #[trigger] self.groups@[g]).active_greater == combo::shadow_count(
            layout,
            self.groups@,
            g as usize,
        ) by {
            assert(frozen_groups.fits(layout, groups, g));
            let a = |b: usize|
                layout.below(g as usize, b) && self.groups@[b as int].counter
                    == self.groups@[b as int].size;
            assert forall|b: usize| b < groups.len() implies !#[trigger] a(b) by {
                if a(b) {
                    assert(frozen_groups.fits(layout, groups, b as int));
                    assert(groups[b as int]@.to_set() == layout.members[b as int]);
                    assert(layout.members[g].disjoint(layout.members[b as int]));
                }
            }
            lists::lemma_tally_positive(groups.len(), a);
        }
        assert(self.masks == combo::mask_count(self.groups@)) by {
            let a = |g: usize| combo::is_mask(self.groups@[g as int]);
            assert forall|g: usize| g < groups.len() implies !#[trigger] a(g) by {
                assert(frozen_groups.fits(layout, groups, g as int));
            }
            lists::lemma_tally_positive(groups.len(), a);
        }
        assert forall|k: int| 0 <= k < self.keys@.len() implies m.keys[k] == (KeyState {
            immediate: plan_of(
                config,
                keyed,
                layout.members,
                config.actions@.len(),
                self.codes@[k],
            ).immediate,
            latching: plan_of(
                config,
                keyed,
                layout.members,
                config.actions@.len(),
                self.codes@[k],
            ).latching,
            open: false,
            active: None,
            stamp: 0,
            pending: 0,
        }) by {
            assert(self.keys@[k] == frozen_keys.keys@[k]);
        }
        assert forall|g: int| 0 <= g < self.groups@.len() implies m.holders[g]
            == Set::<usize>::empty() by {
            assert(frozen_groups.fits(layout, groups, g));
        }
        assert(m.valid());
        assert forall|g: usize, k: usize|
            #![trigger layout.members[g as int].contains(k)]
            g < layout.members.len() implies (layout.members[g as int].contains(k) <==> k
            < layout.codes.len() && keyed[g as int].contains(layout.codes[k as int])) by {
            assert(groups[g as int]@.contains(k) == layout.members[g as int].contains(k));
        }
        assert(m.layout.actions =~= Seq::new(
            layout.codes.len(),
            |k: int|
                match config.action_of(config.actions@.len(), layout.codes[k]) {
                    Some(i) => config.actions@[i as int].action,
                    None => None,
                },
        ));
        assert(m.keys =~= Seq::new(
            layout.codes.len(),
            |k: int|
                KeyState {
                    immediate: match config.action_of(config.actions@.len(), layout.codes[k]) {
                        Some(i) => config.actions@[i as int].immediate,
                        None => false,
                    },
                    latching: match config.action_of(config.actions@.len(), layout.codes[k]) {
                        Some(i) => config.actions@[i as int].latching,
                        None => false,
                    },
                    open: false,
                    active: None,
                    stamp: 0,
                    pending: 0,
                },
        ));
        assert(m.holders =~= Seq::new(layout.members.len(), |g: int| Set::<usize>::empty()));
        assert(config.describes_with(keyed, m));
    }
}

impl<Z: Keycode> Draft<Z> {
    /// Keys without combos have none that is out of place.
    proof fn lemma_none_fits(&self, groups: nat)
        requires
            self.in_order(),
            forall|code: usize| (#[trigger] self.plan(code)).combos.len() == 0,
        ensures
            self.combos_fit(groups),
    {
        assert forall|k: int, c: int|
            0 <= k < self.keys@.len() && 0 <= c < self.keys@[k].combos@.len() implies (
        #[trigger] self.keys@[k].combos@[c]).group < groups by {
            assert(self.domain@[self.codes@[k]] == k);
            assert(self.plan(self.codes@[k]).combos.len() == 0);
        }
    }
}

/// Pairs each scalar position with its key.
fn entries_of(codes: &Vec<usize>) -> (entries: Vec<(usize, usize)>)
    ensures
        entries@.len() == codes@.len(),
        forall|k: int|
            0 <= k < codes@.len() ==> #[trigger] entries@[k] == (codes@[k], k as usize),
{
    let mut entries: Vec<(usize, usize)> = Vec::new();
    let mut k: usize = 0;
    while k < codes.len()
        invariant
            k <= codes@.len(),
            entries@.len() == k,
            forall|j: int| 0 <= j < k ==> #[trigger] entries@[j] == (codes@[j], j as usize),
        decreases codes@.len() - k,
    {
        entries.push((codes[k], k));
        k += 1;
    }
    entries
}

} // verus!

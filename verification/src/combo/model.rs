//! What a handler is, mathematically: a layout of keys and modifier groups, and a machine over it.
//!
//! Keys and groups are named by their position.
use crate::combo::types::Combo;
use crate::types::{Event, Keycode, Kind};
use vstd::prelude::*;

verus! {

/// The positions below `n` that satisfy `p`, in ascending order.
pub open spec fn ascending(n: nat, p: spec_fn(usize) -> bool) -> Seq<usize>
    decreases n,
{
    if n == 0 {
        Seq::empty()
    } else {
        let rest = ascending((n - 1) as nat, p);
        if p((n - 1) as usize) {
            rest.push((n - 1) as usize)
        } else {
            rest
        }
    }
}

/// How many positions below `n` satisfy `p`.
pub open spec fn tally(n: nat, p: spec_fn(usize) -> bool) -> nat {
    ascending(n, p).len()
}

/// The sequence lists the elements of the set, each once.
pub open spec fn lists(s: Seq<usize>, set: Set<usize>) -> bool {
    &&& s.no_duplicates()
    &&& s.to_set() == set
}

/// The keys and the modifier groups of a configuration.
#[verifier::ext_equal]
pub struct Layout<Z: Keycode> {
    /// Scalar position of the keycode of each key.
    pub codes: Seq<usize>,
    /// Action of each key outside of combos.
    pub actions: Seq<Option<Z>>,
    /// Combos of each key, those of larger groups first.
    pub combos: Seq<Seq<Combo<Z>>>,
    /// Modifier keys of each group.
    pub members: Seq<Set<usize>>,
    /// Whether each group masks what is not part of a combo.
    pub masking: Seq<bool>,
}

impl<Z: Keycode> Layout<Z> {
    /// The key of a keycode is a modifier key.
    pub open spec fn is_modifier(self, key: usize) -> bool {
        exists|g: usize| g < self.members.len() && #[trigger] self.members[g as int].contains(key)
    }

    /// Groups that the key is a member of.
    pub open spec fn groups_of(self, key: usize) -> Seq<usize> {
        ascending(self.members.len(), |g: usize| self.members[g as int].contains(key))
    }

    /// `a` is a nonempty group, and strictly smaller than `b`.
    pub open spec fn inside(self, a: usize, b: usize) -> bool {
        &&& a < self.members.len()
        &&& b < self.members.len()
        &&& !self.members[a as int].disjoint(self.members[b as int])
        &&& self.members[a as int].subset_of(self.members[b as int])
        &&& !self.members[b as int].subset_of(self.members[a as int])
    }

    /// `a` and `b` overlap, and neither is within the other.
    pub open spec fn crosses(self, a: usize, b: usize) -> bool {
        &&& a < self.members.len()
        &&& b < self.members.len()
        &&& !self.members[a as int].disjoint(self.members[b as int])
        &&& !self.members[a as int].subset_of(self.members[b as int])
        &&& !self.members[b as int].subset_of(self.members[a as int])
    }

    /// `a` is a neighbouring subgroup of `b`: nothing lies between the two. Of several groups with
    /// the same keys only the first counts.
    pub open spec fn below(self, a: usize, b: usize) -> bool {
        &&& self.inside(a, b)
        &&& forall|c: usize| !(#[trigger] self.inside(a, c) && self.inside(c, b))
        &&& forall|c: usize| c < a ==> #[trigger] self.members[c as int] != self.members[a as int]
    }

    /// Neighbouring subgroups of `b`.
    pub open spec fn subgroups(self, b: usize) -> Seq<usize> {
        ascending(self.members.len(), |a: usize| self.below(a, b))
    }

    /// Neighbouring subgroups of several groups.
    pub open spec fn subgroups_of(self, groups: Seq<usize>) -> Seq<usize> {
        groups.flat_map(|b: usize| self.subgroups(b))
    }

    /// The group has a key, and all of its keys are down. A group without keys has no effect.
    pub open spec fn full(self, group: usize, down: Set<usize>) -> bool {
        &&& group < self.members.len()
        &&& self.members[group as int].len() > 0
        &&& self.members[group as int].subset_of(down)
    }

    /// A larger group that neighbours the group is down.
    pub open spec fn shadowed(self, group: usize, down: Set<usize>) -> bool {
        exists|b: usize| #[trigger] self.below(group, b) && self.full(b, down)
    }

    /// The group has a key, all of its keys are down, and no larger group has replaced it.
    pub open spec fn in_force(self, group: usize, down: Set<usize>) -> bool {
        &&& self.full(group, down)
        &&& !self.shadowed(group, down)
    }

    /// Some masking group is in force: only combos get through.
    pub open spec fn masked(self, down: Set<usize>) -> bool {
        exists|g: usize| #[trigger] self.in_force(g, down) && self.masking[g as int]
    }

    /// Group of a combo of a key.
    pub open spec fn group_at(self, key: usize, combo: usize) -> usize {
        self.combos[key as int][combo as int].group
    }

    /// The combo is the one that the key stands for while the keys `down` are down: its group is
    /// down and so is no conflicting group.
    pub open spec fn wins(self, key: usize, combo: usize, down: Set<usize>) -> bool {
        let group = self.group_at(key, combo);
        &&& combo < self.combos[key as int].len()
        &&& self.full(group, down)
        // of the combos whose group is down, it is the first
        &&& forall|other: usize|
            other < combo ==> !self.full(#[trigger] self.group_at(key, other), down)
        // and the groups of the rest are within its own
        &&& forall|other: usize|
            other < self.combos[key as int].len() && self.full(
                #[trigger] self.group_at(key, other),
                down,
            ) ==> (self.group_at(key, other) == group || self.inside(
                self.group_at(key, other),
                group,
            ))
        // no larger group is down
        &&& !self.shadowed(group, down)
        // no overlapping group is down
        &&& forall|other: usize| #[trigger] self.crosses(group, other) ==> !self.full(other, down)
    }

    /// The combo that the key stands for, if there is one.
    pub open spec fn winner(self, key: usize, down: Set<usize>) -> Option<usize> {
        if exists|combo: usize| self.wins(key, combo, down) {
            Some(choose|combo: usize| self.wins(key, combo, down))
        } else {
            None
        }
    }

    /// The key that has the keycode at this scalar position.
    pub open spec fn key_of(self, code: usize) -> Option<usize> {
        if exists|k: usize| k < self.codes.len() && self.codes[k as int] == code {
            Some(choose|k: usize| k < self.codes.len() && self.codes[k as int] == code)
        } else {
            None
        }
    }

    /// The parts of the layout fit together.
    pub open spec fn valid(self) -> bool {
        &&& self.codes.len() <= usize::MAX
        &&& self.members.len() <= usize::MAX
        &&& self.codes.no_duplicates()
        &&& self.actions.len() == self.codes.len()
        &&& self.combos.len() == self.codes.len()
        &&& self.masking.len() == self.members.len()
        &&& forall|g: usize|
            g < self.members.len() ==> (#[trigger] self.members[g as int]).finite()
        &&& forall|g: usize, k: usize|
            g < self.members.len() && #[trigger] self.members[g as int].contains(k) ==> k
                < self.codes.len()
        &&& forall|k: usize, c: usize|
            k < self.codes.len() && c < self.combos[k as int].len() ==> #[trigger] self.group_at(
                k,
                c,
            ) < self.members.len()
        &&& forall|k: usize, c1: usize, c2: usize|
            k < self.codes.len() && c1 < c2 < self.combos[k as int].len()
                ==> self.members[#[trigger] self.group_at(k, c1) as int].len()
                >= self.members[#[trigger] self.group_at(k, c2) as int].len()
    }
}

/// The state of a key.
#[verifier::ext_equal]
pub struct KeyState {
    /// Even as a modifier, the key acts on key-down.
    pub immediate: bool,
    /// The key's combo outlives its group.
    pub latching: bool,
    /// The key's release has an effect.
    pub open: bool,
    /// The combo that the key stands for.
    pub active: Option<usize>,
    /// When `active` was determined.
    pub stamp: u64,
    /// Key-down events that await their key-up.
    pub pending: u64,
}

/// The state of a handler.
#[verifier::ext_equal]
pub struct Machine<Z: Keycode> {
    /// The keys and the groups.
    pub layout: Layout<Z>,
    /// The keys that are down.
    pub down: Set<usize>,
    /// The state of each key.
    pub keys: Seq<KeyState>,
    /// For each group the keys that act through it.
    pub holders: Seq<Set<usize>>,
    /// Changes whenever a group is completed or left.
    pub stamp: u64,
    /// The output.
    pub events: Seq<Event<Z>>,
}

impl<Z: Keycode> Machine<Z> {
    /// The parts of the machine fit together.
    pub open spec fn valid(self) -> bool {
        &&& self.layout.valid()
        &&& self.keys.len() == self.layout.codes.len()
        &&& self.holders.len() == self.layout.members.len()
        &&& self.down.finite()
        &&& forall|k: usize| #[trigger] self.down.contains(k) ==> k < self.keys.len()
        &&& forall|k: usize|
            k < self.keys.len() && (#[trigger] self.keys[k as int]).active is Some
                ==> self.keys[k as int].active->0 < self.layout.combos[k as int].len()
        &&& forall|g: usize, k: usize|
            g < self.holders.len() && #[trigger] self.holders[g as int].contains(k) ==> k
                < self.keys.len()
        &&& forall|g: usize|
            g < self.holders.len() ==> (#[trigger] self.holders[g as int]).finite()
    }

    /// The key acts on key-down. A modifier key waits for key-up, unless it is immediate.
    pub open spec fn prompt(self, key: usize) -> bool {
        !self.layout.is_modifier(key) || self.keys[key as int].immediate
    }

    /// The action that the key stands for.
    pub open spec fn output(self, key: usize) -> Option<Z> {
        match self.keys[key as int].active {
            Some(c) => self.layout.combos[key as int][c as int].action,
            None => self.layout.actions[key as int],
        }
    }

    /// What the end of a key's combo emits.
    pub open spec fn closing(self, key: usize) -> Seq<Event<Z>> {
        match (self.prompt(key), self.keys[key as int].active, self.output(key)) {
            (true, Some(_), Some(action)) => seq![
                Event { keycode: action, kind: Kind::Up, value: 0 },
            ],
            _ => Seq::empty(),
        }
    }

    /// What the end of the combos of several keys emits.
    pub open spec fn closings(self, keys: Seq<usize>) -> Seq<Event<Z>>
        decreases keys.len(),
    {
        if keys.len() == 0 {
            Seq::empty()
        } else {
            self.closings(keys.drop_last()) + self.closing(keys.last())
        }
    }

    /// Emptying the groups one after the other hands out these keys, those of one group in any
    /// order.
    pub open spec fn empties(self, groups: Seq<usize>, keys: Seq<usize>) -> bool
        decreases groups.len(),
    {
        if groups.len() == 0 {
            keys.len() == 0
        } else {
            let last = groups.last();
            let rest = groups.drop_last();
            let held = if rest.contains(last) {
                Set::empty()
            } else {
                self.holders[last as int]
            };
            exists|cut: int|
                0 <= cut <= keys.len() && self.empties(rest, #[trigger] keys.take(cut)) && lists(
                    keys.skip(cut),
                    held,
                )
        }
    }

    /// The group is one that the key completes when it goes down.
    pub open spec fn completes(self, key: usize) -> spec_fn(usize) -> bool {
        |g: usize|
            self.layout.members[g as int].contains(key) && self.layout.full(
                g,
                self.down.insert(key),
            )
    }

    /// Groups that the key completes when it goes down.
    pub open spec fn completed(self, key: usize) -> Seq<usize> {
        ascending(self.layout.members.len(), self.completes(key))
    }

    /// The group is one that the key leaves incomplete when it goes up.
    pub open spec fn leaves(self, key: usize) -> spec_fn(usize) -> bool {
        |g: usize| self.layout.members[g as int].contains(key) && self.layout.full(g, self.down)
    }

    /// Groups that the key leaves incomplete when it goes up.
    pub open spec fn left(self, key: usize) -> Seq<usize> {
        ascending(self.layout.members.len(), self.leaves(key))
    }

    /// Neighbouring subgroups of the groups that the key completes.
    pub open spec fn overtaken(self, key: usize) -> Seq<usize> {
        self.layout.subgroups_of(self.completed(key))
    }

    /// The stamp, moved on if `changed`.
    pub open spec fn next_stamp(self, changed: bool) -> u64 {
        if changed {
            self.stamp.wrapping_add(1)
        } else {
            self.stamp
        }
    }

    /// The key goes down and completes groups: modifier keys of a larger group that wait for
    /// key-up are spent, and the combos of subgroups end, those of the keys `ended`.
    pub open spec fn lowered(self, key: usize, ended: Seq<usize>) -> Self {
        Machine {
            down: self.down.insert(key),
            keys: Seq::new(
                self.keys.len(),
                |j: int|
                    KeyState {
                        open: {
                            &&& j == key || self.keys[j].open
                            &&& self.prompt(j as usize) || !self.spends(self.completed(key), j as usize)
                            &&& !ended.contains(j as usize)
                        },
                        ..self.keys[j]
                    },
            ),
            holders: Seq::new(
                self.holders.len(),
                |g: int|
                    if self.overtaken(key).contains(g as usize) {
                        Set::empty()
                    } else {
                        self.holders[g]
                    },
            ),
            stamp: self.next_stamp(self.completed(key).len() > 0),
            events: self.events + self.closings(ended),
            ..self
        }
    }

    /// The key belongs to one of the groups, which has several keys.
    pub open spec fn spends(self, groups: Seq<usize>, key: usize) -> bool {
        exists|g: usize| #[trigger]
            groups.contains(g) && self.layout.members[g as int].len() > 1
                && self.layout.members[g as int].contains(key)
    }

    /// An axis of the key moves: from now on the key is immediate and latching.
    pub open spec fn moved(self, key: usize) -> Self {
        self.with_key(
            key,
            KeyState { open: true, immediate: true, latching: true, ..self.keys[key as int] },
        )
    }

    /// The machine with the state of one key replaced.
    pub open spec fn with_key(self, key: usize, state: KeyState) -> Self {
        Machine { keys: self.keys.update(key as int, state), ..self }
    }

    /// The machine with events added to the output.
    pub open spec fn emitting(self, events: Seq<Event<Z>>) -> Self {
        Machine { events: self.events + events, ..self }
    }

    /// The key acts without a combo, unless something masks it.
    pub open spec fn plain(self, key: usize, kind: Kind, value: i16) -> Self {
        let state = self.keys[key as int];
        let masked = self.layout.masked(self.down);
        match self.layout.actions[key as int] {
            Some(action) if self.prompt(key) && !masked => self.with_key(
                key,
                KeyState { open: true, active: None, ..state },
            ).emitting(seq![Event { keycode: action, kind, value }]),
            _ => self.with_key(key, KeyState { open: state.open && !masked, active: None, ..state }),
        }
    }

    /// The key acts through its combo.
    pub open spec fn combined(self, key: usize, combo: usize, kind: Kind, value: i16) -> Self {
        let state = self.keys[key as int];
        let group = self.layout.group_at(key, combo);
        let held = Machine {
            holders: if state.latching {
                self.holders
            } else {
                self.holders.update(group as int, self.holders[group as int].insert(key))
            },
            ..self
        };
        match self.layout.combos[key as int][combo as int].action {
            Some(action) if self.prompt(key) => held.with_key(
                key,
                KeyState { open: true, active: Some(combo), ..state },
            ).emitting(seq![Event { keycode: action, kind, value }]),
            Some(_) => held.with_key(key, KeyState { active: Some(combo), ..state }),
            None => held.with_key(key, KeyState { open: false, active: Some(combo), ..state }),
        }
    }

    /// The modifier key of a group of one is spent, if it waits for key-up.
    pub open spec fn using(self, group: usize) -> Self {
        if self.layout.members[group as int].len() == 1 {
            Machine {
                keys: Seq::new(
                    self.keys.len(),
                    |j: int|
                        KeyState {
                            open: self.keys[j].open && (self.prompt(j as usize)
                                || !self.layout.members[group as int].contains(j as usize)),
                            ..self.keys[j]
                        },
                ),
                ..self
            }
        } else {
            self
        }
    }

    /// The key, which is down or whose axis moved, acts: through the combo that it stands for, or
    /// without one. A modifier key that waits for key-up and is spent does not act.
    pub open spec fn acted(self, key: usize, kind: Kind, value: i16) -> Self {
        let state = self.keys[key as int];
        if !self.prompt(key) && !state.open {
            self
        } else if state.stamp == self.stamp {
            match state.active {
                Some(combo) => self.combined(key, combo, kind, value),
                None => self.plain(key, kind, value),
            }
        } else {
            let stamped = self.with_key(key, KeyState { stamp: self.stamp, ..state });
            match self.layout.winner(key, self.down) {
                Some(combo) => stamped.using(self.layout.group_at(key, combo)).combined(
                    key,
                    combo,
                    kind,
                    value,
                ),
                None => stamped.plain(key, kind, value),
            }
        }
    }

    /// The key goes up and leaves groups incomplete: their combos end, those of the keys `ended`.
    pub open spec fn raised(self, key: usize, ended: Seq<usize>) -> Self {
        Machine {
            down: self.down.remove(key),
            keys: Seq::new(
                self.keys.len(),
                |j: int|
                    KeyState {
                        open: self.keys[j].open && !ended.contains(j as usize),
                        ..self.keys[j]
                    },
            ),
            holders: Seq::new(
                self.holders.len(),
                |g: int|
                    if self.left(key).contains(g as usize) {
                        Set::empty()
                    } else {
                        self.holders[g]
                    },
            ),
            stamp: self.next_stamp(self.left(key).len() > 0),
            events: self.events + self.closings(ended),
            ..self
        }
    }

    /// The key, which is up, ends its action. A modifier key that waited for key-up acts now.
    pub open spec fn finished(self, key: usize) -> Self {
        let dropped = match self.keys[key as int].active {
            Some(combo) => {
                let group = self.layout.group_at(key, combo) as int;
                Machine {
                    holders: self.holders.update(group, self.holders[group].remove(key)),
                    ..self
                }
            },
            None => self,
        };
        match self.output(key) {
            Some(action) if self.keys[key as int].open => dropped.emitting(
                if self.prompt(key) {
                    seq![Event { keycode: action, kind: Kind::Up, value: 0 }]
                } else {
                    seq![
                        Event { keycode: action, kind: Kind::Down, value: 0 },
                        Event { keycode: action, kind: Kind::Up, value: 0 },
                    ]
                },
            ),
            _ => dropped,
        }
    }

    /// The groups that the event empties.
    pub open spec fn emptied(self, key: usize, kind: Kind) -> Seq<usize> {
        match kind {
            Kind::Down => self.overtaken(key),
            Kind::Up => self.left(key),
            _ => Seq::empty(),
        }
    }

    /// The machine after an event of a key, where the combos of the keys `ended` end.
    pub open spec fn after(self, key: usize, kind: Kind, value: i16, ended: Seq<usize>) -> Self {
        match kind {
            Kind::Down => self.lowered(key, ended).acted(key, kind, value),
            Kind::Up => self.raised(key, ended).finished(key),
            _ => self.moved(key).acted(key, kind, value),
        }
    }

    /// An event of a key may lead to the machine `post`.
    pub open spec fn leads_to(self, key: usize, kind: Kind, value: i16, post: Self) -> bool {
        exists|ended: Seq<usize>| #[trigger]
            self.empties(self.emptied(key, kind), ended) && post == self.after(
                key,
                kind,
                value,
                ended,
            )
    }

    /// The event fits the keys that are down: no second key-down, no second key-up.
    pub open spec fn sane(self, key: usize, kind: Kind) -> bool {
        match kind {
            Kind::Down => !self.down.contains(key),
            Kind::Up => self.down.contains(key),
            _ => true,
        }
    }
}

} // verus!

//! Handlers that turn input events into the events of recognized key combinations.
use crate::combo::model::{KeyState, Layout, Machine};
use crate::combo::types::{Combo, Group, Key};
use crate::types::{Event, Keycode};
use frozen_collections::FzScalarMap;
use std::marker::PhantomData;
use vstd::prelude::*;

pub use handlers::{ComboHandlerCounting, ComboHandlerDyn, ComboHandlerStrict};
pub use types::{ComboHandler, ComboHandlerPassthrough, Queue};

mod edges;
mod groups;
pub mod combo_laws;
pub mod config_laws;
pub mod conflict_laws;
pub mod group_laws;
pub mod handler_laws;
pub mod handlers;
pub mod laws;
pub mod key_laws;
pub(crate) mod lists;
pub mod model;
pub mod policy;
pub mod policy_laws;
mod resolve;
pub mod run_laws;
pub mod setup;
pub mod sets;
pub mod step_laws;
pub mod types;

verus! {

/// Only handles "sane" sequences: no key goes down that is down, and none goes up that is up.
/// Use this if the events come from a source that ensures it.
pub struct ComboHandlerSimple<A: Keycode, Z: Keycode, Q: Queue<Event<Z>>> {
    domain: FzScalarMap<usize, usize>,  // keycode position to key
    keys: Vec<Key<Z>>,  // keys
    keys_combos: Vec<Combo<Z>>,  // packed key combos
    keys_groups: Vec<usize>,  // packed key groups
    groups: Vec<Group>,  // modifier groups
    groups_keys: Vec<usize>,  // packed group keys
    groups_pred: Vec<usize>,  // packed neighbouring subgroups
    groups_intersect: Vec<usize>,  // packed overlapping groups
    masks: usize,  // number of masking groups in force
    cache_counter: u64,  // current cache key
    events: Q,  // output event queue
    codes: Ghost<Seq<usize>>,  // keycode position of each key
    down: Ghost<Set<usize>>,  // keys that are down
    keycode: PhantomData<A>,
}

/// The state of a key.
spec fn key_state<Z: Keycode>(key: Key<Z>) -> KeyState {
    KeyState {
        immediate: key.immediate,
        latching: key.latching,
        open: key.open,
        active: key.active_combo,
        stamp: key.cache_counter,
        pending: key.counter,
    }
}

/// The group counts as masking: it has keys, all of them are down, and no active supergroup is
/// next to it.
spec fn is_mask(group: Group) -> bool {
    group.mask && group.size > 0 && group.counter == group.size && group.active_greater == 0
}

/// Number of groups that count as masking.
spec fn mask_count(groups: Seq<Group>) -> nat {
    model::tally(groups.len(), |g: usize| is_mask(groups[g as int]))
}

/// Number of active groups that `group` is a neighbouring subgroup of.
spec fn shadow_count<Z: Keycode>(layout: Layout<Z>, groups: Seq<Group>, group: usize) -> nat {
    model::tally(
        groups.len(),
        |b: usize| layout.below(group, b) && groups[b as int].counter == groups[b as int].size,
    )
}

impl<A: Keycode, Z: Keycode, Q: Queue<Event<Z>>> ComboHandlerSimple<A, Z, Q> {
    /// The keys and the groups.
    spec fn layout(&self) -> Layout<Z> {
        Layout {
            codes: self.codes@,
            actions: Seq::new(self.keys@.len(), |k: int| self.keys@[k].action),
            combos: Seq::new(
                self.keys@.len(),
                |k: int| self.keys@[k].combos.of(self.keys_combos@),
            ),
            members: Seq::new(
                self.groups@.len(),
                |g: int| self.groups@[g].keys.of(self.groups_keys@).to_set(),
            ),
            masking: Seq::new(self.groups@.len(), |g: int| self.groups@[g].mask),
        }
    }

    /// The machine that the handler is.
    pub closed spec fn machine(&self) -> Machine<Z> {
        Machine {
            layout: self.layout(),
            down: self.down@,
            keys: Seq::new(self.keys@.len(), |k: int| key_state(self.keys@[k])),
            holders: Seq::new(
                self.groups@.len(),
                |g: int| sets::set_contents(self.groups@[g].active_combos),
            ),
            stamp: self.cache_counter,
            events: self.events.pending(),
        }
    }

    /// The modifier group at a position.
    pub closed spec fn group(&self, g: usize) -> Group {
        self.groups@[g as int]
    }

    /// Number of masking groups in force.
    pub closed spec fn mask_total(&self) -> usize {
        self.masks
    }

    /// The tables that a key refers to are right.
    spec fn key_tables(&self, k: int) -> bool {
        let key = self.keys@[k];
        &&& key.combos.valid()
        &&& key.combos.first() >= 0
        &&& key.combos.past() <= self.keys_combos@.len()
        &&& key.groups.valid()
        &&& key.groups.first() >= 0
        &&& key.groups.past() <= self.keys_groups@.len()
        &&& key.groups.of(self.keys_groups@) == self.layout().groups_of(k as usize)
        &&& sets::map_contents(self.domain).dom().contains(self.codes@[k])
        &&& sets::map_contents(self.domain)[self.codes@[k]] == k
    }

    /// The tables that a group refers to are right.
    spec fn group_tables(&self, g: int) -> bool {
        let group = self.groups@[g];
        let layout = self.layout();
        &&& group.index == g
        &&& group.pred.valid()
        &&& group.pred.first() >= 0
        &&& group.pred.past() <= self.groups_pred@.len()
        &&& group.pred.of(self.groups_pred@) == layout.subgroups(g as usize)
        &&& group.intersect.valid()
        &&& group.intersect.first() >= 0
        &&& group.intersect.past() <= self.groups_intersect@.len()
        &&& group.intersect.of(self.groups_intersect@) == model::ascending(
            self.groups@.len(),
            |h: usize| layout.crosses(g as usize, h),
        )
        &&& group.keys.valid()
        &&& group.keys.first() >= 0
        &&& group.keys.past() <= self.groups_keys@.len()
        &&& group.keys.of(self.groups_keys@).no_duplicates()
        &&& group.size == group.keys.past() - group.keys.first()
        &&& forall|h: usize| #[trigger]
            sets::frozen_contents(group.greater).contains(h) <==> layout.inside(g as usize, h)
    }

    /// The tables agree with the layout.
    spec fn tables(&self) -> bool {
        &&& self.codes@.len() == self.keys@.len()
        &&& forall|k: int| 0 <= k < self.keys@.len() ==> #[trigger] self.key_tables(k)
        &&& forall|g: int| 0 <= g < self.groups@.len() ==> #[trigger] self.group_tables(g)
        &&& forall|code: usize| #[trigger]
            sets::map_contents(self.domain).dom().contains(code) ==> self.codes@.contains(code)
    }

    /// The counters agree with the keys that are down.
    spec fn counters(&self) -> bool {
        &&& forall|g: int|
            0 <= g < self.groups@.len() ==> (#[trigger] self.groups@[g]).counter
                == self.layout().members[g].intersect(self.down@).len()
        &&& forall|g: int|
            0 <= g < self.groups@.len() ==> (#[trigger] self.groups@[g]).active_greater
                == shadow_count(self.layout(), self.groups@, g as usize)
        &&& self.masks == mask_count(self.groups@)
    }

    /// The handler is in order.
    pub closed spec fn valid(&self) -> bool {
        &&& self.machine().valid()
        &&& self.tables()
        &&& self.counters()
    }
}

} // verus!

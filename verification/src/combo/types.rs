//! Building blocks of a handler.
use crate::combo::model::Machine;
use crate::combo::policy::Policy;
use crate::combo::sets;
use crate::types::{Event, HandlingResult, Keycode};
use frozen_collections::FzScalarSet;
use std::cmp::Ordering;
use std::collections::VecDeque;
use tinyset::SetUsize;
use vstd::prelude::*;

verus! {

/// A combo of an action key: what the key stands for while a modifier group is down.
#[derive(Copy, Clone, Debug)]
pub struct Combo<Z: Keycode> {
    /// Target action.
    pub action: Option<Z>,
    /// Position of the modifier group.
    pub group: usize,
}

/// A range of positions in a packed list.
#[derive(Copy, Clone, Debug)]
pub struct Range {
    start: usize,
    end: usize,
}

impl Range {
    /// First position.
    pub closed spec fn first(self) -> int {
        self.start as int
    }

    /// Position past the last one.
    pub closed spec fn past(self) -> int {
        self.end as int
    }

    /// The range does not end before it starts.
    pub open spec fn valid(self) -> bool {
        self.first() <= self.past()
    }

    /// The part of a packed list that the range covers.
    pub open spec fn of<T>(self, packed: Seq<T>) -> Seq<T> {
        packed.subrange(self.first(), self.past())
    }

    /// Makes the range of the positions from `start` up to `end`, which is not part of it.
    pub fn new(start: usize, end: usize) -> (range: Range)
        ensures
            range.first() == start,
            range.past() == end,
    {
        Range { start, end }
    }

    /// Tells whether no position is in the range.
    pub fn is_empty(&self) -> (empty: bool)
        ensures
            empty == (self.past() <= self.first()),
    {
        self.end <= self.start
    }

    /// Returns the number of positions in the range.
    pub fn len(&self) -> (len: usize)
        requires
            self.valid(),
        ensures
            len == self.past() - self.first(),
    {
        self.end - self.start
    }

    /// Returns the position that is `index` steps past the first one.
    pub fn ind(&self, index: usize) -> (position: usize)
        requires
            self.valid(),
            index < self.past() - self.first(),
        ensures
            position == self.first() + index,
    {
        self.start + index
    }

    /// Returns the part of a packed list that the range covers.
    pub fn slice<'a, T>(&self, packed: &'a [T]) -> (part: &'a [T])
        requires
            self.valid(),
            self.past() <= packed@.len(),
        ensures
            part@ == self.of(packed@),
    {
        vstd::slice::slice_subrange(packed, self.start, self.end)
    }
}

impl IntoIterator for Range {
    type Item = usize;

    type IntoIter = std::ops::Range<usize>;

    /// Returns the positions in the range, from the first one on.
    fn into_iter(self) -> (positions: std::ops::Range<usize>)
        ensures
            positions.start == self.first(),
            positions.end == self.past(),
    {
        self.start..self.end
    }
}

/// A key.
#[derive(Clone, Debug)]
pub struct Key<Z: Keycode> {
    /// Action key: unmodified action.
    pub action: Option<Z>,
    /// Action key: its combo outlives the modifier group.
    pub latching: bool,
    /// Modifier key: acts on key-down.
    pub immediate: bool,
    /// Action key: modified mappings.
    pub combos: Range,
    /// Modifier key: modifier groups that it is part of.
    pub groups: Range,
    /// Action key: when `active_combo` was determined.
    pub cache_counter: u64,
    /// Requires key-up handling.
    pub open: bool,
    /// Action key: the combo that the key stands for.
    pub active_combo: Option<usize>,
    /// Pending key-down events, for sanitization.
    pub counter: u64,
}

impl<Z: Keycode> Key<Z> {
    /// The key is part of a modifier group.
    pub open spec fn spec_is_modifier(&self) -> bool {
        self.groups.first() < self.groups.past()
    }

    /// Tells whether the key is part of a modifier group.
    pub fn is_modifier(&self) -> (modifier: bool)
        ensures
            modifier == self.spec_is_modifier(),
    {
        !self.groups.is_empty()
    }

    /// Tells whether the key acts on key-down. A modifier key waits for key-up unless it is
    /// immediate.
    pub fn is_immediate(&self) -> (immediate: bool)
        ensures
            immediate == (!self.spec_is_modifier() || self.immediate),
    {
        !self.is_modifier() || self.immediate
    }

    /// Returns the combos of the key.
    pub fn iter_combos<'a>(&self, keys_combos: &'a [Combo<Z>]) -> (combos: &'a [Combo<Z>])
        requires
            self.combos.valid(),
            self.combos.past() <= keys_combos@.len(),
        ensures
            combos@ == self.combos.of(keys_combos@),
    {
        self.combos.slice(keys_combos)
    }

    /// Returns the modifier groups that the key is part of.
    pub fn iter_groups<'a>(&self, keys_groups: &'a [usize]) -> (groups: &'a [usize])
        requires
            self.groups.valid(),
            self.groups.past() <= keys_groups@.len(),
        ensures
            groups@ == self.groups.of(keys_groups@),
    {
        self.groups.slice(keys_groups)
    }

    /// Returns a combo of the key.
    pub fn get_combo(&self, index: usize, keys_combos: &[Combo<Z>]) -> (combo: Combo<Z>)
        requires
            self.combos.valid(),
            self.combos.past() <= keys_combos@.len(),
            index < self.combos.past() - self.combos.first(),
        ensures
            combo == self.combos.of(keys_combos@)[index as int],
    {
        keys_combos[self.combos.ind(index)]
    }

    /// The key needs no key-up handling any more.
    pub fn close(&mut self)
        ensures
            *final(self) == (Key { open: false, ..*old(self) }),
    {
        self.open = false;
    }

    /// The key needs key-up handling.
    pub fn open(&mut self)
        ensures
            *final(self) == (Key { open: true, ..*old(self) }),
    {
        self.open = true;
    }
}

/// A modifier group.
#[derive(Debug)]
pub struct Group {
    /// Position of the group.
    pub index: usize,
    /// Masking flag.
    pub mask: bool,
    /// Supergroups.
    pub greater: FzScalarSet<usize>,
    /// Neighbouring subgroups.
    pub pred: Range,
    /// Partial intersectors.
    pub intersect: Range,
    /// Modifier keys.
    pub keys: Range,
    /// Number of modifier keys.
    pub size: usize,
    /// Keys whose combo of this group is active.
    pub active_combos: SetUsize,
    /// Number of modifier keys that are down.
    pub counter: usize,
    /// Number of neighbouring supergroups that are active.
    pub active_greater: usize,
}

impl Group {
    /// All the modifier keys are down.
    pub open spec fn spec_is_active(&self) -> bool {
        self.counter == self.size
    }

    /// Tells whether all the modifier keys are down.
    pub fn is_active(&self) -> (active: bool)
        ensures
            active == self.spec_is_active(),
    {
        self.counter == self.size
    }

    /// Tells whether a neighbouring supergroup is active.
    pub fn is_shadowed(&self) -> (shadowed: bool)
        ensures
            shadowed == (self.active_greater > 0),
    {
        self.active_greater > 0
    }

    /// Returns the groups that overlap with this one.
    pub fn iter_intersect<'a>(&self, groups_intersect: &'a [usize]) -> (groups: &'a [usize])
        requires
            self.intersect.valid(),
            self.intersect.past() <= groups_intersect@.len(),
        ensures
            groups@ == self.intersect.of(groups_intersect@),
    {
        self.intersect.slice(groups_intersect)
    }

    /// Returns the neighbouring subgroups.
    pub fn iter_pred<'a>(&self, groups_pred: &'a [usize]) -> (groups: &'a [usize])
        requires
            self.pred.valid(),
            self.pred.past() <= groups_pred@.len(),
        ensures
            groups@ == self.pred.of(groups_pred@),
    {
        self.pred.slice(groups_pred)
    }

    /// Returns the modifier keys.
    pub fn iter_keys<'a>(&self, groups_keys: &'a [usize]) -> (keys: &'a [usize])
        requires
            self.keys.valid(),
            self.keys.past() <= groups_keys@.len(),
        ensures
            keys@ == self.keys.of(groups_keys@),
    {
        self.keys.slice(groups_keys)
    }
}

impl Clone for Group {
    fn clone(&self) -> (copy: Self)
        ensures
            sets::frozen_contents(copy.greater) == sets::frozen_contents(self.greater),
            sets::set_contents(copy.active_combos) == sets::set_contents(self.active_combos),
            copy == (Group { greater: copy.greater, active_combos: copy.active_combos, ..*self }),
    {
        Group {
            index: self.index,
            mask: self.mask,
            greater: sets::frozen_set_clone(&self.greater),
            pred: self.pred,
            intersect: self.intersect,
            keys: self.keys,
            size: self.size,
            active_combos: sets::compact_set_clone(&self.active_combos),
            counter: self.counter,
            active_greater: self.active_greater,
        }
    }
}

impl PartialEq for Group {
    fn eq(&self, other: &Self) -> (equal: bool) {
        self.index == other.index
    }
}

impl vstd::std_specs::cmp::PartialEqSpecImpl for Group {
    open spec fn obeys_eq_spec() -> bool {
        true
    }

    open spec fn eq_spec(&self, other: &Self) -> bool {
        self.index == other.index
    }
}

impl PartialOrd for Group {
    fn partial_cmp(&self, other: &Self) -> (ordering: Option<Ordering>) {
        if self == other {
            return Some(Ordering::Equal);
        }
        if sets::frozen_set_contains(&self.greater, other.index) {
            return Some(Ordering::Less);
        }
        if sets::frozen_set_contains(&other.greater, self.index) {
            return Some(Ordering::Greater);
        }
        None
    }
}

impl vstd::std_specs::cmp::PartialOrdSpecImpl for Group {
    open spec fn obeys_partial_cmp_spec() -> bool {
        true
    }

    open spec fn partial_cmp_spec(&self, other: &Self) -> Option<Ordering> {
        if self.index == other.index {
            Some(Ordering::Equal)
        } else if sets::frozen_contents(self.greater).contains(other.index) {
            Some(Ordering::Less)
        } else if sets::frozen_contents(other.greater).contains(self.index) {
            Some(Ordering::Greater)
        } else {
            None
        }
    }
}

/// The output event queue.
pub trait Queue<T> {
    /// What has been pushed and not been taken out. Implementations that are verified define it.
    open spec fn pending(&self) -> Seq<T> {
        arbitrary()
    }

    /// Appends a value.
    fn push(&mut self, value: T)
        ensures
            final(self).pending() == old(self).pending().push(value),
    ;
}

impl<T> Queue<T> for VecDeque<T> {
    open spec fn pending(&self) -> Seq<T> {
        self@
    }

    fn push(&mut self, value: T) {
        self.push_back(value)
    }
}

impl<T> Queue<T> for Vec<T> {
    open spec fn pending(&self) -> Seq<T> {
        self@
    }

    fn push(&mut self, value: T) {
        Vec::push(self, value)
    }
}

/// This trait provides the main functionalities of the library. It is generic in the input and
/// output keycode types.
///
/// If your keycodes are not [`Copy`], consider storing them on an indexable collection, and use
/// the indices as keycodes.
///
/// The handling of sequences that are not "sane" depends on the implementation:
///
/// * [`ComboHandlerSimple`](crate::combo::ComboHandlerSimple) only handles sane sequences
/// * [`ComboHandlerStrict`](crate::combo::ComboHandlerStrict) ignores events that are not sane
/// * [`ComboHandlerCounting`](crate::combo::ComboHandlerCounting) handles sequences where key-up
///   and key-down events are paired
/// * [`ComboHandlerDyn`](crate::combo::ComboHandlerDyn) is any of these, chosen at run time
pub trait ComboHandler<A: Keycode, Z: Keycode, Q: Queue<Event<Z>>>: Sized {
    /// The handler is in order.
    spec fn valid(&self) -> bool;

    /// The machine that the handler is.
    spec fn machine(&self) -> Machine<Z>;

    /// How the handler treats sequences that are not sane.
    spec fn policy(&self) -> Policy;

    /// The output event queue.
    spec fn queue(&self) -> Q;

    /// The handler with another output event queue.
    spec fn with_queue(self, queue: Q) -> Self;

    /// The machine's output is what is in the queue, and the handler with another queue differs in
    /// nothing else.
    proof fn queue_is_output(self, queue: Q)
        ensures
            self.machine().events == self.queue().pending(),
            self.with_queue(self.queue()) == self,
            self.with_queue(queue).queue() == queue,
            self.with_queue(queue).valid() == self.valid(),
            self.with_queue(queue).policy() == self.policy(),
            self.with_queue(queue).machine() == (Machine {
                events: queue.pending(),
                ..self.machine()
            }),
    ;

    /// A handler that is in order is a machine that is in order.
    proof fn valid_machine(&self)
        requires
            self.valid(),
        ensures
            self.machine().valid(),
            self.policy().suits(self.machine()),
    ;

    /// Handles an input event.
    ///
    /// Events that are not handled do not produce any output events. In case of a "sane" sequence
    /// of events (no key-down of a key that is down, and no key-up of a key that is up) all
    /// handlers do the same, and the output events that are due to each key are a "sane" sequence
    /// as well.
    ///
    /// Output events are not returned, but pushed in order on the output event queue. If the
    /// queue is not empty it is not cleared, and new events are added to it.
    fn handle(&mut self, event: Event<A>) -> (result: HandlingResult)
        requires
            old(self).valid(),
            old(self).policy().accepts(old(self).machine(), event.keycode.code(), event.kind),
        ensures
            final(self).valid(),
            final(self).policy() == old(self).policy(),
            old(self).policy().allows(
                old(self).machine(),
                event.keycode.code(),
                event.kind,
                event.value,
                final(self).machine(),
                result,
            ),
    ;

    /// Returns the output event queue. Useful for accessing output events or for manually pushing
    /// events.
    fn events(&mut self) -> (queue: &mut Q)
        ensures
            *queue == old(self).queue(),
            *final(self) == old(self).with_queue(*final(queue)),
    ;
}

/// This trait provides the [`ComboHandlerPassthrough::handle_passthrough`] method. It is
/// implemented where input and output keycodes are of the same type.
pub trait ComboHandlerPassthrough<A: Keycode, Q: Queue<Event<A>>>: ComboHandler<A, A, Q> {
    /// Like [`ComboHandler::handle`], but unhandled events are pushed directly to the output
    /// event queue. Returns what [`ComboHandler::handle`] returns.
    fn handle_passthrough(&mut self, event: Event<A>) -> (result: HandlingResult)
        requires
            old(self).valid(),
            old(self).policy().accepts(old(self).machine(), event.keycode.code(), event.kind),
        ensures
            final(self).valid(),
            final(self).policy() == old(self).policy(),
            result == HandlingResult::Unhandled <==> old(self).machine().layout.key_of(
                event.keycode.code(),
            ) is None,
            match old(self).machine().layout.key_of(event.keycode.code()) {
                None => final(self).machine() == old(self).machine().emitting(seq![event]),
                Some(_) => old(self).policy().allows(
                    old(self).machine(),
                    event.keycode.code(),
                    event.kind,
                    event.value,
                    final(self).machine(),
                    result,
                ),
            },
    ;
}

impl<A: Keycode, Q: Queue<Event<A>>, T: ComboHandler<A, A, Q>> ComboHandlerPassthrough<
    A,
    Q,
> for T {
    fn handle_passthrough(&mut self, event: Event<A>) -> (result: HandlingResult) {
        let result = self.handle(event);
        if result == HandlingResult::Unhandled {
            let ghost handled = *self;
            let queue = self.events();
            queue.push(event);
            proof {
                handled.queue_is_output(*queue);
                assert(queue.pending() =~= handled.machine().events + seq![event]);
            }
        }
        result
    }
}

} // verus!

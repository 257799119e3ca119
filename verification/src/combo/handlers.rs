//! Handlers for sequences of events that may not be "sane", and the choice among handlers.
use crate::combo::model::Machine;
use crate::combo::policy::Policy;
use crate::combo::types::{ComboHandler, Queue};
use crate::combo::{laws, sets, ComboHandlerSimple};
use crate::config::Config;
use crate::types::{Event, HandlingResult, Keycode, Kind};
use std::collections::VecDeque;
use vstd::prelude::*;
use vstd::std_specs::convert::FromSpec;
use vstd::std_specs::hash::obeys_key_model;

verus! {

/// Capacity of the queue of a new handler.
const EVENT_BUFFER_WARMUP: usize = 16;

impl<A: Keycode, Z: Keycode> ComboHandlerSimple<A, Z, VecDeque<Event<Z>>> {
    /// Creates the handler from a configuration, using a [`VecDeque`] as event queue. The queue
    /// pre-allocates some capacity, to possibly avoid allocations during event handling.
    ///
    /// This does a lot of precomputation in order to speed up the handling of events. It will be
    /// slow on complex configurations.
    pub fn new(config: &Config<A, Z>) -> (handler: ComboHandlerSimple<A, Z, VecDeque<Event<Z>>>)
        requires
            config.defines_modifiers(),
        ensures
            handler.valid(),
            obeys_key_model::<A>() ==> config.describes(handler.machine()),
            config.outlines(handler.machine()),
            handler.machine().events == Seq::<Event<Z>>::empty(),
            handler.queue()@ == Seq::<Event<Z>>::empty(),
    {
        ComboHandlerSimple::with(config, VecDeque::with_capacity(EVENT_BUFFER_WARMUP))
    }
}

impl<A: Keycode, Z: Keycode, Q: Queue<Event<Z>>> ComboHandlerSimple<A, Z, Q> {
    /// Returns the key of a keycode.
    fn find_key(&self, keycode: &A) -> (key: Option<usize>)
        requires
            self.valid(),
        ensures
            key == self.machine().layout.key_of(keycode.code()),
            key is Some ==> key->0 < self.machine().keys.len(),
    {
        let code = keycode.index();
        let key = sets::frozen_map_get(&self.domain, code);
        proof {
            self.lemma_key_of(code);
        }
        key
    }

    /// The keys of keycodes.
    proof fn lemma_key_of(&self, code: usize)
        requires
            self.valid(),
        ensures
            self.machine().layout.key_of(code) == if sets::map_contents(
                self.domain,
            ).dom().contains(code) {
                Some(sets::map_contents(self.domain)[code])
            } else {
                None
            },
            sets::map_contents(self.domain).dom().contains(code) ==> sets::map_contents(
                self.domain,
            )[code] < self.machine().keys.len(),
    {
        let codes = self.codes@;
        let layout = self.machine().layout;
        assert(layout.codes == codes);
        if sets::map_contents(self.domain).dom().contains(code) {
            assert(codes.contains(code));
            let k = choose|k: int| 0 <= k < codes.len() && codes[k] == code;
            assert(self.key_tables(k));
            assert(codes[k as usize as int] == code);
            let found = layout.key_of(code)->0;
            assert(self.key_tables(found as int));
        } else if exists|k: usize| k < codes.len() && codes[k as int] == code {
            let k = choose|k: usize| k < codes.len() && codes[k as int] == code;
            assert(self.key_tables(k as int));
        }
    }

    /// Replaces a key's number of pending key-down events.
    fn set_pending(&mut self, key: usize, pending: u64)
        requires
            old(self).valid(),
            key < old(self).machine().keys.len(),
        ensures
            final(self).valid(),
            final(self).machine() == old(self).machine().counting(key, pending),
    {
        let ghost pre = *self;
        self.keys[key].counter = pending;
        proof {
            self.lemma_set_pending(&pre, key, pending);
        }
    }

    /// Handles an event, counting key-down events.
    fn handle_counting(&mut self, event: Event<A>) -> (result: HandlingResult)
        requires
            old(self).valid(),
            old(self).machine().tracks(),
            Policy::Counting.accepts(old(self).machine(), event.keycode.code(), event.kind),
        ensures
            final(self).valid(),
            final(self).machine().tracks(),
            Policy::Counting.allows(
                old(self).machine(),
                event.keycode.code(),
                event.kind,
                event.value,
                final(self).machine(),
                result,
            ),
    {
        let ghost m = self.machine();
        if let Some(key) = self.find_key(&event.keycode) {
            let pending: u64 = self.keys[key].counter;
            match event.kind {
                Kind::Down => {
                    self.set_pending(key, pending + 1);
                    if pending + 1 != 1 {
                        return HandlingResult::DoubleDown;
                    }
                },
                Kind::Up => {
                    if pending == 0 {
                        return HandlingResult::DoubleUp;
                    }
                    self.set_pending(key, pending - 1);
                    if pending - 1 != 0 {
                        return HandlingResult::DoubleUp;
                    }
                },
                _ => {},
            }
            let ghost counted = self.machine();
            self.resolve(key, event.kind, event.value);
            proof {
                laws::event_keeps_layout(
                    counted,
                    key,
                    event.kind,
                    event.value,
                    self.machine(),
                );
            }
            return HandlingResult::Handled;
        }
        HandlingResult::Unhandled
    }

    /// Handles an event, ignoring those that are not sane.
    fn handle_strict(&mut self, event: Event<A>) -> (result: HandlingResult)
        requires
            old(self).valid(),
            old(self).machine().tracks(),
        ensures
            final(self).valid(),
            final(self).machine().tracks(),
            Policy::Strict.allows(
                old(self).machine(),
                event.keycode.code(),
                event.kind,
                event.value,
                final(self).machine(),
                result,
            ),
    {
        let ghost m = self.machine();
        if let Some(key) = self.find_key(&event.keycode) {
            match event.kind {
                Kind::Down => {
                    if self.keys[key].counter >= 1 {
                        return HandlingResult::DoubleDown;
                    }
                    self.set_pending(key, 1);
                },
                Kind::Up => {
                    if self.keys[key].counter == 0 {
                        return HandlingResult::DoubleUp;
                    }
                    self.set_pending(key, 0);
                },
                _ => {},
            }
            let ghost counted = self.machine();
            self.resolve(key, event.kind, event.value);
            proof {
                laws::event_keeps_layout(
                    counted,
                    key,
                    event.kind,
                    event.value,
                    self.machine(),
                );
            }
            return HandlingResult::Handled;
        }
        HandlingResult::Unhandled
    }
}

impl<A: Keycode, Z: Keycode, Q: Queue<Event<Z>>> ComboHandlerSimple<A, Z, Q> {
    /// The queue does not matter to the tables.
    proof fn lemma_tables_with_queue(self, queue: Q)
        requires
            self.tables(),
        ensures
            (ComboHandlerSimple { events: queue, ..self }).tables(),
    {
        let other = ComboHandlerSimple { events: queue, ..self };
        assert(other.layout() == self.layout());
        assert forall|k: int| 0 <= k < other.keys@.len() implies #[trigger] other.key_tables(k) by {
            assert(self.key_tables(k));
        }
        assert forall|g: int| 0 <= g < other.groups@.len() implies #[trigger] other.group_tables(
            g,
        ) by {
            assert(self.group_tables(g));
        }
    }

    /// The queue of the handler.
    pub(super) proof fn lemma_queue(&self)
        ensures
            self.queue() == self.events,
    {
    }

    /// The queue does not matter to the rest.
    proof fn lemma_with_queue(self, queue: Q)
        ensures
            ({
                let other = ComboHandlerSimple { events: queue, ..self };
                &&& other.valid() == self.valid()
                &&& other.machine() == (Machine { events: queue.pending(), ..self.machine() })
                &&& self.machine().events == self.events.pending()
                &&& self.machine().tracks() == other.machine().tracks()
            }),
    {
        let other = ComboHandlerSimple { events: queue, ..self };
        assert(other.layout() == self.layout());
        assert(other.machine() =~= (Machine { events: queue.pending(), ..self.machine() }));
        assert(other.machine().valid() == self.machine().valid());
        if self.tables() {
            self.lemma_tables_with_queue(queue);
        }
        if other.tables() {
            other.lemma_tables_with_queue(self.events);
        }
        assert(other.counters() == self.counters());
        assert(other.machine().keys == self.machine().keys);
        assert(other.machine().tracks() == self.machine().tracks());
    }
}

impl<A: Keycode, Z: Keycode, Q: Queue<Event<Z>>> ComboHandler<A, Z, Q> for ComboHandlerSimple<
    A,
    Z,
    Q,
> {
    open spec fn valid(&self) -> bool {
        ComboHandlerSimple::valid(self)
    }

    open spec fn machine(&self) -> Machine<Z> {
        ComboHandlerSimple::machine(self)
    }

    open spec fn policy(&self) -> Policy {
        Policy::Simple
    }

    closed spec fn queue(&self) -> Q {
        self.events
    }

    closed spec fn with_queue(self, queue: Q) -> Self {
        ComboHandlerSimple { events: queue, ..self }
    }

    proof fn queue_is_output(self, queue: Q) {
        self.lemma_with_queue(queue);
    }

    proof fn valid_machine(&self) {
    }

    fn handle(&mut self, event: Event<A>) -> (result: HandlingResult) {
        if let Some(key) = self.find_key(&event.keycode) {
            self.resolve(key, event.kind, event.value);
            return HandlingResult::Handled;
        }
        HandlingResult::Unhandled
    }

    /// Output event queue. This is filled when calling the [`ComboHandler::handle`] method. When
    /// created using [`ComboHandlerSimple::new`], the queue is of type [`VecDeque`], use the
    /// method [`VecDeque::pop_front`] to extract the output events.
    fn events(&mut self) -> (queue: &mut Q) {
        &mut self.events
    }
}

/// Key-down events of keys that are down and key-up events of keys that are up are filtered out,
/// only the first event has effects. This handles any sequence without entering an invalid state.
/// Use this if you can make no assumptions on the event sequence.
///
/// Can result in unwanted behaviour when multiple input keys share an output (they "alias" each
/// other), and are pressed together: releasing any one will interrupt the action.
pub struct ComboHandlerStrict<A: Keycode, Z: Keycode, Q: Queue<Event<Z>>>(
    ComboHandlerSimple<A, Z, Q>,
);

impl<A: Keycode, Z: Keycode> ComboHandlerStrict<A, Z, VecDeque<Event<Z>>> {
    /// Creates the handler from a configuration, using a [`VecDeque`] as event queue. The queue
    /// pre-allocates some capacity, to possibly avoid allocations during event handling.
    ///
    /// This does a lot of precomputation in order to speed up the handling of events. It will be
    /// slow on complex configurations.
    pub fn new(config: &Config<A, Z>) -> (handler: ComboHandlerStrict<A, Z, VecDeque<Event<Z>>>)
        requires
            config.defines_modifiers(),
        ensures
            handler.valid(),
            obeys_key_model::<A>() ==> config.describes(handler.machine()),
            config.outlines(handler.machine()),
            handler.machine().events == Seq::<Event<Z>>::empty(),
            handler.queue()@ == Seq::<Event<Z>>::empty(),
    {
        ComboHandlerStrict(ComboHandlerSimple::new(config))
    }
}

impl<A: Keycode, Z: Keycode, Q: Queue<Event<Z>>> ComboHandlerStrict<A, Z, Q> {
    /// Creates the handler from a configuration, using the provided queue.
    ///
    /// This does a lot of precomputation in order to speed up the handling of events. It will be
    /// slow on complex configurations.
    pub fn with(config: &Config<A, Z>, queue: Q) -> (handler: ComboHandlerStrict<A, Z, Q>)
        requires
            config.defines_modifiers(),
        ensures
            handler.valid(),
            obeys_key_model::<A>() ==> config.describes(handler.machine()),
            config.outlines(handler.machine()),
            handler.machine().events == queue.pending(),
            handler.queue() == queue,
    {
        ComboHandlerStrict(ComboHandlerSimple::with(config, queue))
    }
}

impl<A: Keycode, Z: Keycode, Q: Queue<Event<Z>>> ComboHandler<A, Z, Q> for ComboHandlerStrict<
    A,
    Z,
    Q,
> {
    closed spec fn valid(&self) -> bool {
        self.0.valid() && self.0.machine().tracks()
    }

    closed spec fn machine(&self) -> Machine<Z> {
        self.0.machine()
    }

    open spec fn policy(&self) -> Policy {
        Policy::Strict
    }

    closed spec fn queue(&self) -> Q {
        self.0.events
    }

    closed spec fn with_queue(self, queue: Q) -> Self {
        ComboHandlerStrict(ComboHandlerSimple { events: queue, ..self.0 })
    }

    proof fn queue_is_output(self, queue: Q) {
        self.0.lemma_with_queue(queue);
    }

    proof fn valid_machine(&self) {
    }

    fn handle(&mut self, event: Event<A>) -> (result: HandlingResult) {
        self.0.handle_strict(event)
    }

    /// Output event queue. This is filled when calling the [`ComboHandler::handle`] method. When
    /// created using [`ComboHandlerStrict::new`], the queue is of type [`VecDeque`], use the method
    /// [`VecDeque::pop_front`] to extract the output events.
    fn events(&mut self) -> (queue: &mut Q) {
        &mut self.0.events
    }
}

/// Sanitizes the events with a counter of pending key-down events for each key. Only produces an
/// effect when the number of up and down events balances up.
///
/// This handles sequences where multiple key-down events are always eventually followed by as many
/// key-up events. For example, when multiple input keys share an output (they "alias" each other).
/// In this case, the action is interrupted when the last input is released.
pub struct ComboHandlerCounting<A: Keycode, Z: Keycode, Q: Queue<Event<Z>>>(
    ComboHandlerSimple<A, Z, Q>,
);

impl<A: Keycode, Z: Keycode> ComboHandlerCounting<A, Z, VecDeque<Event<Z>>> {
    /// Creates the handler from a configuration, using a [`VecDeque`] as event queue. The queue
    /// pre-allocates some capacity, to possibly avoid allocations during event handling.
    ///
    /// This does a lot of precomputation in order to speed up the handling of events. It will be
    /// slow on complex configurations.
    pub fn new(config: &Config<A, Z>) -> (handler: ComboHandlerCounting<A, Z, VecDeque<Event<Z>>>)
        requires
            config.defines_modifiers(),
        ensures
            handler.valid(),
            obeys_key_model::<A>() ==> config.describes(handler.machine()),
            config.outlines(handler.machine()),
            handler.machine().events == Seq::<Event<Z>>::empty(),
            handler.queue()@ == Seq::<Event<Z>>::empty(),
    {
        ComboHandlerCounting(ComboHandlerSimple::new(config))
    }
}

impl<A: Keycode, Z: Keycode, Q: Queue<Event<Z>>> ComboHandlerCounting<A, Z, Q> {
    /// Creates the handler from a configuration, using the provided queue.
    ///
    /// This does a lot of precomputation in order to speed up the handling of events. It will be
    /// slow on complex configurations.
    pub fn with(config: &Config<A, Z>, queue: Q) -> (handler: ComboHandlerCounting<A, Z, Q>)
        requires
            config.defines_modifiers(),
        ensures
            handler.valid(),
            obeys_key_model::<A>() ==> config.describes(handler.machine()),
            config.outlines(handler.machine()),
            handler.machine().events == queue.pending(),
            handler.queue() == queue,
    {
        ComboHandlerCounting(ComboHandlerSimple::with(config, queue))
    }
}

impl<A: Keycode, Z: Keycode, Q: Queue<Event<Z>>> ComboHandler<A, Z, Q> for ComboHandlerCounting<
    A,
    Z,
    Q,
> {
    closed spec fn valid(&self) -> bool {
        self.0.valid() && self.0.machine().tracks()
    }

    closed spec fn machine(&self) -> Machine<Z> {
        self.0.machine()
    }

    open spec fn policy(&self) -> Policy {
        Policy::Counting
    }

    closed spec fn queue(&self) -> Q {
        self.0.events
    }

    closed spec fn with_queue(self, queue: Q) -> Self {
        ComboHandlerCounting(ComboHandlerSimple { events: queue, ..self.0 })
    }

    proof fn queue_is_output(self, queue: Q) {
        self.0.lemma_with_queue(queue);
    }

    proof fn valid_machine(&self) {
    }

    fn handle(&mut self, event: Event<A>) -> (result: HandlingResult) {
        self.0.handle_counting(event)
    }

    /// Output event queue. This is filled when calling the [`ComboHandler::handle`] method. When
    /// created using [`ComboHandlerCounting::new`], the queue is of type [`VecDeque`], use the method
    /// [`VecDeque::pop_front`] to extract the output events.
    fn events(&mut self) -> (queue: &mut Q) {
        &mut self.0.events
    }
}

/// A handler that is chosen at run time. It can be made from [`ComboHandlerSimple`],
/// [`ComboHandlerStrict`], and [`ComboHandlerCounting`] using `.into()`.
pub struct ComboHandlerDyn<A: Keycode, Z: Keycode, Q: Queue<Event<Z>>> {
    handler: ComboHandlerSimple<A, Z, Q>,
    method: Policy,
}

impl<A: Keycode, Z: Keycode, Q: Queue<Event<Z>>> ComboHandler<A, Z, Q> for ComboHandlerDyn<
    A,
    Z,
    Q,
> {
    closed spec fn valid(&self) -> bool {
        self.handler.valid() && self.method.suits(self.handler.machine())
    }

    closed spec fn machine(&self) -> Machine<Z> {
        self.handler.machine()
    }

    closed spec fn policy(&self) -> Policy {
        self.method
    }

    closed spec fn queue(&self) -> Q {
        self.handler.events
    }

    closed spec fn with_queue(self, queue: Q) -> Self {
        ComboHandlerDyn {
            handler: ComboHandlerSimple { events: queue, ..self.handler },
            method: self.method,
        }
    }

    proof fn queue_is_output(self, queue: Q) {
        self.handler.lemma_with_queue(queue);
    }

    proof fn valid_machine(&self) {
    }

    fn handle(&mut self, event: Event<A>) -> (result: HandlingResult) {
        match self.method {
            Policy::Simple => self.handler.handle(event),
            Policy::Strict => self.handler.handle_strict(event),
            Policy::Counting => self.handler.handle_counting(event),
        }
    }

    fn events(&mut self) -> (queue: &mut Q) {
        &mut self.handler.events
    }
}

impl<A: Keycode, Z: Keycode, Q: Queue<Event<Z>>> From<ComboHandlerSimple<A, Z, Q>>
    for ComboHandlerDyn<A, Z, Q> {
    fn from(value: ComboHandlerSimple<A, Z, Q>) -> (handler: Self) {
        ComboHandlerDyn { handler: value, method: Policy::Simple }
    }
}

impl<A: Keycode, Z: Keycode, Q: Queue<Event<Z>>> vstd::std_specs::convert::FromSpecImpl<ComboHandlerSimple<A, Z, Q>>
    for ComboHandlerDyn<A, Z, Q> {
    open spec fn obeys_from_spec() -> bool {
        true
    }

    closed spec fn from_spec(value: ComboHandlerSimple<A, Z, Q>) -> Self {
        ComboHandlerDyn { handler: value, method: Policy::Simple }
    }
}

impl<A: Keycode, Z: Keycode, Q: Queue<Event<Z>>> From<ComboHandlerStrict<A, Z, Q>>
    for ComboHandlerDyn<A, Z, Q> {
    fn from(value: ComboHandlerStrict<A, Z, Q>) -> (handler: Self) {
        ComboHandlerDyn { handler: value.0, method: Policy::Strict }
    }
}

impl<A: Keycode, Z: Keycode, Q: Queue<Event<Z>>> vstd::std_specs::convert::FromSpecImpl<ComboHandlerStrict<A, Z, Q>>
    for ComboHandlerDyn<A, Z, Q> {
    open spec fn obeys_from_spec() -> bool {
        true
    }

    closed spec fn from_spec(value: ComboHandlerStrict<A, Z, Q>) -> Self {
        ComboHandlerDyn { handler: value.0, method: Policy::Strict }
    }
}

impl<A: Keycode, Z: Keycode, Q: Queue<Event<Z>>> From<ComboHandlerCounting<A, Z, Q>>
    for ComboHandlerDyn<A, Z, Q> {
    fn from(value: ComboHandlerCounting<A, Z, Q>) -> (handler: Self) {
        ComboHandlerDyn { handler: value.0, method: Policy::Counting }
    }
}

impl<A: Keycode, Z: Keycode, Q: Queue<Event<Z>>> vstd::std_specs::convert::FromSpecImpl<ComboHandlerCounting<A, Z, Q>>
    for ComboHandlerDyn<A, Z, Q> {
    open spec fn obeys_from_spec() -> bool {
        true
    }

    closed spec fn from_spec(value: ComboHandlerCounting<A, Z, Q>) -> Self {
        ComboHandlerDyn { handler: value.0, method: Policy::Counting }
    }
}

/// Made from a [`ComboHandlerSimple`], a handler that is chosen at run time is that handler.
pub proof fn chosen_simple<A: Keycode, Z: Keycode, Q: Queue<Event<Z>>>(
    handler: ComboHandlerSimple<A, Z, Q>,
)
    ensures
        ({
            let chosen: ComboHandlerDyn<A, Z, Q> = FromSpec::from_spec(handler);
            &&& chosen.valid() == handler.valid()
            &&& chosen.machine() == handler.machine()
            &&& chosen.queue() == handler.queue()
            &&& chosen.policy() == Policy::Simple
        }),
{
}

/// Made from a [`ComboHandlerStrict`], a handler that is chosen at run time is that handler.
pub proof fn chosen_strict<A: Keycode, Z: Keycode, Q: Queue<Event<Z>>>(
    handler: ComboHandlerStrict<A, Z, Q>,
)
    ensures
        ({
            let chosen: ComboHandlerDyn<A, Z, Q> = FromSpec::from_spec(handler);
            &&& chosen.valid() == handler.valid()
            &&& chosen.machine() == handler.machine()
            &&& chosen.queue() == handler.queue()
            &&& chosen.policy() == Policy::Strict
        }),
{
}

/// Made from a [`ComboHandlerCounting`], a handler that is chosen at run time is that handler.
pub proof fn chosen_counting<A: Keycode, Z: Keycode, Q: Queue<Event<Z>>>(
    handler: ComboHandlerCounting<A, Z, Q>,
)
    ensures
        ({
            let chosen: ComboHandlerDyn<A, Z, Q> = FromSpec::from_spec(handler);
            &&& chosen.valid() == handler.valid()
            &&& chosen.machine() == handler.machine()
            &&& chosen.queue() == handler.queue()
            &&& chosen.policy() == Policy::Counting
        }),
{
}

} // verus!

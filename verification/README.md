# Esperto

A verified input system for key combinations. It turns the events of keys into the events of the
actions that a configuration maps them to.

* An **action key** has an action of its own, and may have other actions while modifier groups are
  down: its combos.
* A **modifier key** is part of one or more modifier groups. It performs its own action on key-up,
  unless it was used, or is `immediate`.
* A group that is `masking` mutes what is not part of a combo. A key that is `latching` keeps its
  combo until it is released.

## Layout

* `src/config.rs`, `src/validation.rs`: configurations, and what makes one valid
* `src/types.rs`: events, keycodes, results, errors and their texts
* `src/combo/model.rs`, `src/combo/policy.rs`: what a handler is, as a state machine
* `src/combo/setup.rs`, `src/combo/edges.rs`: how a handler is made from a configuration
* `src/combo/resolve.rs`, `src/combo/groups.rs`, `src/combo/handlers.rs`: how a handler handles
  events
* `src/combo/sets.rs`: the collections of other crates that handlers are made of
* `src/combo/laws.rs`, `src/combo/group_laws.rs`, `src/combo/policy_laws.rs`: what holds of every
  handler
* `src/combo/run_laws.rs`, `src/combo/handler_laws.rs`: what holds of new handlers after sequences of
  events, and of what a handler counts
* `src/mapping_laws.rs`: what mapping the keycodes of a configuration keeps
* `src/derive.rs`: the code that makes an enumeration a keycode
* `app/`: serialization, display of errors, and the derivation on token streams

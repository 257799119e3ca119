//! What holds of the groups of a handler, and of what it counts.
use crate::combo;
use crate::combo::model::{Layout, Machine};
use crate::combo::policy::Policy;
use crate::combo::policy_laws::Input;
use crate::combo::types::{Group, Queue};
use crate::combo::{group_laws, laws, lists, policy_laws, run_laws, setup, ComboHandlerSimple};
use crate::config::Config;
use crate::types::{Event, HandlingResult, Keycode, Kind};
use std::cmp::Ordering;
use vstd::prelude::*;
use vstd::std_specs::cmp::PartialOrdSpec;

verus! {

/// Different values are at different positions.
pub open spec fn has_distinct_codes<A: Keycode>() -> bool {
    forall|a: A, b: A| #[trigger] a.code() == #[trigger] b.code() ==> a == b
}

/// The keys of a group are within those of another one exactly if its keycodes are.
proof fn lemma_members_within<A: Keycode, Z: Keycode>(
    config: &Config<A, Z>,
    m: Machine<Z>,
    a: usize,
    b: usize,
)
    requires
        m.valid(),
        config.describes(m),
        has_distinct_codes::<A>(),
        a < m.layout.members.len(),
        b < m.layout.members.len(),
    ensures
        m.layout.members[a as int].subset_of(m.layout.members[b as int])
            <==> config.keys_of(a).subset_of(config.keys_of(b)),
{
    let layout = m.layout;
    let keyed = config.key_codes();
    let (small, large) = (layout.members[a as int], layout.members[b as int]);
    if small.subset_of(large) {
        assert forall|x: A| config.keys_of(a).contains(x) implies config.keys_of(b).contains(
            x,
        ) by {
            let k = lemma_key_of_keycode(config, m, a, x);
            assert(small.contains(k));
            assert(large.contains(k));
            assert(keyed[b as int].contains(x.code()));
            assert(setup::has_code(config.keys_of(b), x.code()));
        }
    }
    if config.keys_of(a).subset_of(config.keys_of(b)) {
        assert forall|k: usize| small.contains(k) implies large.contains(k) by {
            let code = layout.codes[k as int];
            assert(keyed[a as int].contains(code));
            assert(setup::has_code(config.keys_of(a), code));
            let x = choose|x: A| #[trigger] config.keys_of(a).contains(x) && x.code() == code;
            assert(config.keys_of(b).contains(x));
            assert(setup::has_code(config.keys_of(b), code));
            assert(keyed[b as int].contains(code));
        }
    }
}

/// The key of a keycode of a group.
proof fn lemma_key_of_keycode<A: Keycode, Z: Keycode>(
    config: &Config<A, Z>,
    m: Machine<Z>,
    g: usize,
    x: A,
) -> (k: usize)
    requires
        m.valid(),
        config.describes(m),
        g < m.layout.members.len(),
        config.keys_of(g).contains(x),
    ensures
        k < m.layout.codes.len(),
        m.layout.codes[k as int] == x.code(),
        m.layout.members[g as int].contains(k),
{
    let layout = m.layout;
    let keyed = config.key_codes();
    let code = x.code();
    assert(setup::has_code(config.keys_of(g), code));
    assert(keyed[g as int].contains(code));
    assert((setup::groups_with(keyed, code))(g));
    assert(config.mentions(keyed, config.actions@.len(), code));
    assert(layout.codes.contains(code));
    let k = choose|k: int| 0 <= k < layout.codes.len() && layout.codes[k] == code;
    assert(layout.members[g as int].contains(k as usize));
    k as usize
}

/// A group within another one that has other keycodes.
proof fn lemma_inside<A: Keycode, Z: Keycode>(
    config: &Config<A, Z>,
    m: Machine<Z>,
    a: usize,
    b: usize,
)
    requires
        m.valid(),
        config.describes(m),
        has_distinct_codes::<A>(),
        a < m.layout.members.len(),
        b < m.layout.members.len(),
    ensures
        m.layout.inside(a, b) <==> config.keys_of(a) != Set::<A>::empty() && config.keys_of(
            a,
        ).subset_of(config.keys_of(b)) && !config.keys_of(b).subset_of(config.keys_of(a)),
{
    let layout = m.layout;
    let (small, large) = (layout.members[a as int], layout.members[b as int]);
    lemma_members_within(config, m, a, b);
    lemma_members_within(config, m, b, a);
    if layout.inside(a, b) {
        let k = choose|k: usize| small.contains(k) && large.contains(k);
        assert(small.contains(k));
        let code = layout.codes[k as int];
        assert(config.key_codes()[a as int].contains(code));
        assert(setup::has_code(config.keys_of(a), code));
        let x = choose|x: A| #[trigger] config.keys_of(a).contains(x) && x.code() == code;
        assert(config.keys_of(a).contains(x));
    }
    if config.keys_of(a) != Set::<A>::empty() && small.subset_of(large) {
        assert(exists|x: A| config.keys_of(a).contains(x)) by {
            if forall|x: A| !config.keys_of(a).contains(x) {
                assert(config.keys_of(a) =~= Set::<A>::empty());
            }
        }
        let x = choose|x: A| config.keys_of(a).contains(x);
        let k = lemma_key_of_keycode(config, m, a, x);
        assert(small.contains(k) && large.contains(k));
        assert(!small.disjoint(large));
    }
}

/// The order of the groups of a handler is the order of their sets of keycodes by inclusion: a group
/// is less than another one exactly if its keycodes are among those of the other one, which has
/// more. This is for groups with keycodes, of a valid configuration.
pub proof fn groups_are_ordered_by_inclusion<
    A: Keycode + Ord,
    Z: Keycode,
    Q: Queue<Event<Z>>,
>(config: &Config<A, Z>, handler: &ComboHandlerSimple<A, Z, Q>, a: usize, b: usize)
    requires
        handler.valid(),
        config.describes(handler.machine()),
        config.is_valid(),
        has_distinct_codes::<A>(),
        a < config.modifiers@.len(),
        b < config.modifiers@.len(),
        config.keys_of(a) != Set::<A>::empty(),
        config.keys_of(b) != Set::<A>::empty(),
    ensures
        handler.group(a).partial_cmp_spec(&handler.group(b)) == if a == b {
            Some(Ordering::Equal)
        } else if config.keys_of(a).subset_of(config.keys_of(b)) {
            Some(Ordering::Less)
        } else if config.keys_of(b).subset_of(config.keys_of(a)) {
            Some(Ordering::Greater)
        } else {
            None
        },
        a != b ==> config.keys_of(a) != config.keys_of(b),
{
    let m = handler.machine();
    lemma_group_tables(handler, a);
    lemma_group_tables(handler, b);
    lemma_inside(config, m, a, b);
    lemma_inside(config, m, b, a);
    lemma_distinct_keys(config, a, b);
    if config.keys_of(a).subset_of(config.keys_of(b)) && config.keys_of(b).subset_of(
        config.keys_of(a),
    ) {
        assert(config.keys_of(a) =~= config.keys_of(b));
    }
}

/// The groups of a valid configuration have different keycodes.
proof fn lemma_distinct_keys<A: Keycode + Ord, Z: Keycode>(
    config: &Config<A, Z>,
    a: usize,
    b: usize,
)
    requires
        config.is_valid(),
        a < config.modifiers@.len(),
        b < config.modifiers@.len(),
    ensures
        a != b ==> config.keys_of(a) != config.keys_of(b),
{
    if a < b {
        assert(!config.repeats_id(b as int));
        assert(config.modifiers@[a as int].keys@ != config.modifiers@[b as int].keys@);
    } else if b < a {
        assert(!config.repeats_id(a as int));
        assert(config.modifiers@[b as int].keys@ != config.modifiers@[a as int].keys@);
    }
}

/// What the tables say of a group.
proof fn lemma_group_tables<A: Keycode, Z: Keycode, Q: Queue<Event<Z>>>(
    handler: &ComboHandlerSimple<A, Z, Q>,
    g: usize,
)
    requires
        handler.valid(),
        g < handler.machine().layout.members.len(),
    ensures
        handler.group(g).index == g,
        forall|h: usize| #[trigger]
            combo::sets::frozen_contents(handler.group(g).greater).contains(h)
                <==> handler.machine().layout.inside(g, h),
{
    assert(handler.group_tables(g as int));
}

/// No group of a valid configuration has the keys of an earlier one.
proof fn lemma_is_first<A: Keycode + Ord, Z: Keycode>(
    config: &Config<A, Z>,
    m: Machine<Z>,
    g: usize,
)
    requires
        m.valid(),
        config.describes(m),
        config.is_valid(),
        has_distinct_codes::<A>(),
        g < m.layout.members.len(),
    ensures
        m.layout.is_first(g),
{
    assert forall|c: usize| c < g implies #[trigger] m.layout.members[c as int]
        != m.layout.members[g as int] by {
        lemma_distinct_keys(config, c, g);
        lemma_members_within(config, m, c, g);
        lemma_members_within(config, m, g, c);
        if m.layout.members[c as int] == m.layout.members[g as int] {
            assert(config.keys_of(c) =~= config.keys_of(g));
        }
    }
}

/// What a handler counts follows from the keys that are down: of each group the number of its keys
/// that are down, whether all of them are, and whether a larger group next to it has replaced it;
/// and of all groups the number of those that mask.
pub proof fn counts_follow_keys<A: Keycode, Z: Keycode, Q: Queue<Event<Z>>>(
    handler: &ComboHandlerSimple<A, Z, Q>,
    g: usize,
)
    requires
        handler.valid(),
        g < handler.machine().layout.members.len(),
    ensures
        ({
            let (layout, down) = (handler.machine().layout, handler.machine().down);
            let group = handler.group(g);
            &&& group.size == layout.members[g as int].len()
            &&& group.counter == layout.members[g as int].intersect(down).len()
            &&& group.counter <= group.size
            &&& group.spec_is_active() <==> layout.members[g as int].subset_of(down)
            &&& group.active_greater > 0 <==> layout.shadowed(g, down)
            &&& handler.mask_total() > 0 <==> layout.masked(down)
        }),
{
    handler.lemma_size(g);
    combo::resolve::lemma_full(handler.layout().members[g as int], handler.down@);
    handler.lemma_shadowed(g);
    handler.lemma_masking();
}

/// The group counts its keys that are down. It is active exactly if all of them are down, and
/// shadowed exactly if all keys of some group with more keycodes, its own among them, are.
pub open spec fn counts_right<A: Keycode, Z: Keycode>(
    config: &Config<A, Z>,
    layout: Layout<Z>,
    down: Set<usize>,
    group: Group,
) -> bool {
    let g = group.index;
    &&& group.size == layout.members[g as int].len()
    &&& group.counter == layout.members[g as int].intersect(down).len()
    &&& group.counter <= group.size
    &&& group.spec_is_active() <==> layout.members[g as int].subset_of(down)
    &&& group.active_greater > 0 <==> exists|b: usize|
        b < config.modifiers@.len() && #[trigger] config.keys_of(g).subset_of(config.keys_of(b))
            && b != g && layout.members[b as int].subset_of(down)
}

/// Whatever has happened to a handler since it was new, each of its groups counts right. This is
/// for groups with keycodes, of a valid configuration.
pub proof fn counts_are_right<A: Keycode + Ord, Z: Keycode, Q: Queue<Event<Z>>>(
    config: &Config<A, Z>,
    new: Machine<Z>,
    handler: &ComboHandlerSimple<A, Z, Q>,
    g: usize,
)
    requires
        config.describes(new),
        new.valid(),
        config.is_valid(),
        has_distinct_codes::<A>(),
        handler.valid(),
        handler.machine().layout == new.layout,
        g < config.modifiers@.len(),
        config.keys_of(g) != Set::<A>::empty(),
    ensures
        handler.group(g).index == g,
        counts_right(config, new.layout, handler.machine().down, handler.group(g)),
{
    let down = handler.machine().down;
    lemma_group_tables(handler, g);
    counts_follow_keys(handler, g);
    lemma_is_first(config, new, g);
    group_laws::replaced_by_any_larger_group(new.layout, g, down);
    lemma_larger_groups(config, new, g, down);
}

/// After any sane inputs each group of a handler counts right, where the keys that are down are
/// those that the inputs say. This is for groups with keycodes, of a valid configuration.
pub proof fn counts_are_right_after_inputs<
    A: Keycode + Ord,
    Z: Keycode,
    Q: Queue<Event<Z>>,
>(
    config: &Config<A, Z>,
    machines: Seq<Machine<Z>>,
    inputs: Seq<Input>,
    results: Seq<HandlingResult>,
    handler: &ComboHandlerSimple<A, Z, Q>,
    g: usize,
)
    requires
        config.describes(machines[0]),
        machines[0].valid(),
        config.is_valid(),
        has_distinct_codes::<A>(),
        policy_laws::runs(Policy::Simple, machines, inputs, results),
        handler.valid(),
        handler.machine() == machines.last(),
        g < config.modifiers@.len(),
        config.keys_of(g) != Set::<A>::empty(),
    ensures
        handler.group(g).index == g,
        counts_right(
            config,
            machines[0].layout,
            run_laws::held(machines[0].layout, inputs),
            handler.group(g),
        ),
{
    assert(config.outlines(machines[0]));
    policy_laws::new_handler_is_sound(config, machines[0]);
    run_laws::run_holds_keys(Policy::Simple, machines, inputs, results);
    counts_are_right(config, machines[0], handler, g);
}

/// The groups that are larger than a group, and all of whose keys are down.
proof fn lemma_larger_groups<A: Keycode + Ord, Z: Keycode>(
    config: &Config<A, Z>,
    m: Machine<Z>,
    g: usize,
    down: Set<usize>,
)
    requires
        config.describes(m),
        m.valid(),
        config.is_valid(),
        has_distinct_codes::<A>(),
        g < config.modifiers@.len(),
        config.keys_of(g) != Set::<A>::empty(),
    ensures
        (exists|b: usize| #[trigger] m.layout.inside(g, b) && m.layout.full(b, down))
            <==> exists|b: usize|
            b < config.modifiers@.len() && #[trigger] config.keys_of(g).subset_of(
                config.keys_of(b),
            ) && b != g && m.layout.members[b as int].subset_of(down),
{
    let layout = m.layout;
    if exists|b: usize| #[trigger] layout.inside(g, b) && layout.full(b, down) {
        let b = choose|b: usize| #[trigger] layout.inside(g, b) && layout.full(b, down);
        lemma_inside(config, m, g, b);
        assert(config.keys_of(g).subset_of(config.keys_of(b)));
    }
    if exists|b: usize|
        b < config.modifiers@.len() && #[trigger] config.keys_of(g).subset_of(config.keys_of(b))
            && b != g && layout.members[b as int].subset_of(down) {
        let b = choose|b: usize|
            b < config.modifiers@.len() && #[trigger] config.keys_of(g).subset_of(
                config.keys_of(b),
            ) && b != g && layout.members[b as int].subset_of(down);
        lemma_distinct_keys(config, g, b);
        if config.keys_of(b).subset_of(config.keys_of(g)) {
            assert(config.keys_of(b) =~= config.keys_of(g));
        }
        lemma_inside(config, m, g, b);
        let k = choose|k: usize|
            layout.members[g as int].contains(k) && layout.members[b as int].contains(k);
        assert(layout.members[b as int].contains(k));
        assert(layout.members[b as int].finite());
        assert(layout.inside(g, b) && layout.full(b, down));
    }
}

/// Whatever has happened to a handler since it was new, it masks exactly if all keys of some masking
/// group are down, and not all keys of any group with more keycodes, those of the masking group
/// among them. This is for a valid configuration.
pub proof fn masking_is_right<A: Keycode + Ord, Z: Keycode, Q: Queue<Event<Z>>>(
    config: &Config<A, Z>,
    new: Machine<Z>,
    handler: &ComboHandlerSimple<A, Z, Q>,
)
    requires
        config.describes(new),
        new.valid(),
        config.is_valid(),
        has_distinct_codes::<A>(),
        handler.valid(),
        handler.machine().layout == new.layout,
    ensures
        handler.mask_total() > 0 <==> exists|g: usize| #[trigger]
            masks_alone(config, new.layout, g, handler.machine().down),
{
    let layout = new.layout;
    let down = handler.machine().down;
    handler.lemma_masking();
    assert forall|g: usize| g < layout.members.len() implies (#[trigger] masks_alone(
        config,
        layout,
        g,
        down,
    ) <==> layout.in_force(g, down) && layout.masking[g as int]) by {
        lemma_some_key(config, new, g);
        if config.keys_of(g) != Set::<A>::empty() {
            lemma_is_first(config, new, g);
            group_laws::replaced_by_any_larger_group(layout, g, down);
            lemma_larger_groups(config, new, g, down);
        }
    }
    if layout.masked(down) {
        let g = choose|g: usize| #[trigger] layout.in_force(g, down) && layout.masking[g as int];
        assert(masks_alone(config, layout, g, down));
    }
    if exists|g: usize| #[trigger] masks_alone(config, layout, g, down) {
        let g = choose|g: usize| #[trigger] masks_alone(config, layout, g, down);
        assert(layout.in_force(g, down) && layout.masking[g as int]);
    }
}

/// After any sane inputs a handler masks exactly if all keys of some masking group are down, and
/// not all keys of any group with more keycodes, those of the masking group among them. The keys
/// that are down are those that the inputs say. This is for a valid configuration.
pub proof fn masking_is_right_after_inputs<
    A: Keycode + Ord,
    Z: Keycode,
    Q: Queue<Event<Z>>,
>(
    config: &Config<A, Z>,
    machines: Seq<Machine<Z>>,
    inputs: Seq<Input>,
    results: Seq<HandlingResult>,
    handler: &ComboHandlerSimple<A, Z, Q>,
)
    requires
        config.describes(machines[0]),
        machines[0].valid(),
        config.is_valid(),
        has_distinct_codes::<A>(),
        policy_laws::runs(Policy::Simple, machines, inputs, results),
        handler.valid(),
        handler.machine() == machines.last(),
    ensures
        handler.mask_total() > 0 <==> exists|g: usize| #[trigger]
            masks_alone(config, machines[0].layout, g, run_laws::held(machines[0].layout, inputs)),
{
    assert(config.outlines(machines[0]));
    policy_laws::new_handler_is_sound(config, machines[0]);
    run_laws::run_holds_keys(Policy::Simple, machines, inputs, results);
    masking_is_right(config, machines[0], handler);
}

/// The group is masking and has keycodes, all its keys are down, and not all keys of any group with
/// more keycodes, its own among them.
pub open spec fn masks_alone<A: Keycode, Z: Keycode>(
    config: &Config<A, Z>,
    layout: Layout<Z>,
    g: usize,
    down: Set<usize>,
) -> bool {
    &&& g < config.modifiers@.len()
    &&& config.modifiers@[g as int].masking
    &&& config.keys_of(g) != Set::<A>::empty()
    &&& layout.members[g as int].subset_of(down)
    &&& forall|b: usize|
        b < config.modifiers@.len() && #[trigger] config.keys_of(g).subset_of(config.keys_of(b))
            && b != g ==> !layout.members[b as int].subset_of(down)
}

/// A group has keys exactly if it has keycodes.
proof fn lemma_some_key<A: Keycode, Z: Keycode>(config: &Config<A, Z>, m: Machine<Z>, g: usize)
    requires
        m.valid(),
        config.describes(m),
        g < m.layout.members.len(),
    ensures
        m.layout.members[g as int].len() > 0 <==> config.keys_of(g) != Set::<A>::empty(),
{
    let members = m.layout.members[g as int];
    assert(members.finite());
    if members.len() > 0 {
        let k = members.choose();
        assert(members.contains(k));
        let code = m.layout.codes[k as int];
        assert(config.key_codes()[g as int].contains(code));
        assert(setup::has_code(config.keys_of(g), code));
        let x = choose|x: A| #[trigger] config.keys_of(g).contains(x) && x.code() == code;
        assert(config.keys_of(g).contains(x));
    }
    if config.keys_of(g) != Set::<A>::empty() {
        assert(exists|x: A| config.keys_of(g).contains(x)) by {
            if forall|x: A| !config.keys_of(g).contains(x) {
                assert(config.keys_of(g) =~= Set::<A>::empty());
            }
        }
        let x = choose|x: A| config.keys_of(g).contains(x);
        let k = lemma_key_of_keycode(config, m, g, x);
        assert(members.contains(k));
    }
}

/// Handlers with the same layout and the same keys down count the same.
proof fn lemma_same_counts<A: Keycode, Z: Keycode, Q: Queue<Event<Z>>>(
    a: &ComboHandlerSimple<A, Z, Q>,
    b: &ComboHandlerSimple<A, Z, Q>,
)
    requires
        a.valid(),
        b.valid(),
        a.machine().layout == b.machine().layout,
        a.machine().down == b.machine().down,
    ensures
        a.mask_total() == b.mask_total(),
        forall|g: usize|
            g < a.machine().layout.members.len() ==> (#[trigger] a.group(g)).counter == b.group(
                g,
            ).counter && a.group(g).size == b.group(g).size && a.group(g).active_greater == b.group(
                g,
            ).active_greater,
{
    let layout = a.layout();
    let n = a.groups@.len();
    assert(layout == a.machine().layout);
    assert(b.layout() == b.machine().layout);
    assert(layout.members.len() == n);
    assert(b.groups@.len() == n);
    assert forall|g: int| 0 <= g < n implies (#[trigger] a.groups@[g]).counter
        == b.groups@[g].counter && a.groups@[g].size == b.groups@[g].size && a.groups@[g].mask
        == b.groups@[g].mask by {
        a.lemma_size(g as usize);
        b.lemma_size(g as usize);
        assert(b.groups@[g].counter == b.layout().members[g].intersect(b.down@).len());
        assert(a.layout().masking[g] == a.groups@[g].mask);
        assert(b.layout().masking[g] == b.groups@[g].mask);
    }
    assert forall|g: int| 0 <= g < n implies (#[trigger] a.groups@[g]).active_greater
        == b.groups@[g].active_greater by {
        let p = |h: usize|
            layout.below(g as usize, h) && a.groups@[h as int].counter == a.groups@[h as int].size;
        let q = |h: usize|
            layout.below(g as usize, h) && b.groups@[h as int].counter == b.groups@[h as int].size;
        assert forall|h: usize| h < n implies #[trigger] p(h) == q(h) by {
            assert(a.groups@[h as int].counter == b.groups@[h as int].counter);
        }
        lists::lemma_ascending_same(n, p, q);
        assert(a.groups@[g].active_greater == combo::shadow_count(layout, a.groups@, g as usize));
        assert(b.groups@[g].active_greater == combo::shadow_count(layout, b.groups@, g as usize));
    }
    let p = |g: usize| combo::is_mask(a.groups@[g as int]);
    let q = |g: usize| combo::is_mask(b.groups@[g as int]);
    assert forall|g: usize| g < n implies #[trigger] p(g) == q(g) by {
        assert(a.groups@[g as int].counter == b.groups@[g as int].counter);
        assert(a.groups@[g as int].active_greater == b.groups@[g as int].active_greater);
    }
    lists::lemma_ascending_same(n, p, q);
}

/// The key-up event of a key undoes what its key-down event did to the groups: afterwards the
/// handler counts, shadows and masks as before.
pub proof fn release_undoes_press<A: Keycode, Z: Keycode, Q: Queue<Event<Z>>>(
    before: &ComboHandlerSimple<A, Z, Q>,
    pressed: &ComboHandlerSimple<A, Z, Q>,
    after: &ComboHandlerSimple<A, Z, Q>,
    key: usize,
    values: (i16, i16),
)
    requires
        before.valid(),
        pressed.valid(),
        after.valid(),
        key < before.machine().keys.len(),
        !before.machine().down.contains(key),
        before.machine().leads_to(key, Kind::Down, values.0, pressed.machine()),
        pressed.machine().leads_to(key, Kind::Up, values.1, after.machine()),
    ensures
        after.machine().layout == before.machine().layout,
        after.machine().down == before.machine().down,
        after.mask_total() == before.mask_total(),
        forall|g: usize|
            g < before.machine().layout.members.len() ==> (#[trigger] after.group(g)).counter
                == before.group(g).counter && after.group(g).active_greater == before.group(
                g,
            ).active_greater,
{
    let (a, b, c) = (before.machine(), pressed.machine(), after.machine());
    laws::event_keeps_layout(a, key, Kind::Down, values.0, b);
    laws::event_keeps_layout(b, key, Kind::Up, values.1, c);
    assert(a.down.insert(key).remove(key) =~= a.down);
    lemma_same_counts(after, before);
}

} // verus!

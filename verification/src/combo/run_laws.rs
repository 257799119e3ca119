//! What holds of sequences of events that are handled by new handlers.
use crate::combo::model::{KeyState, Layout, Machine};
use crate::combo::policy::Policy;
use crate::combo::policy_laws::Input;
use crate::combo::{group_laws, laws, policy_laws, setup};
use crate::config::Config;
use crate::types::{Event, HandlingResult, Keycode, Kind};
use vstd::prelude::*;

verus! {

/// The keys that are down after the inputs.
pub open spec fn held<Z: Keycode>(layout: Layout<Z>, inputs: Seq<Input>) -> Set<usize>
    decreases inputs.len(),
{
    if inputs.len() == 0 {
        Set::empty()
    } else {
        let before = held(layout, inputs.drop_last());
        match (layout.key_of(inputs.last().code), inputs.last().kind) {
            (Some(key), Kind::Down) => before.insert(key),
            (Some(key), Kind::Up) => before.remove(key),
            _ => before,
        }
    }
}

/// The input is a key-down of a key that is down, or a key-up of a key that is up.
pub open spec fn is_repeated<Z: Keycode>(layout: Layout<Z>, down: Set<usize>, input: Input) -> bool {
    match (layout.key_of(input.code), input.kind) {
        (Some(key), Kind::Down) => down.contains(key),
        (Some(key), Kind::Up) => !down.contains(key),
        _ => false,
    }
}

/// No input is a key-down of a key that is down, or a key-up of a key that is up.
pub open spec fn is_sane<Z: Keycode>(layout: Layout<Z>, inputs: Seq<Input>) -> bool {
    forall|i: int|
        0 <= i < inputs.len() ==> !is_repeated(
            layout,
            held(layout, #[trigger] inputs.take(i)),
            inputs[i],
        )
}

/// The inputs without each key-down of a key that is down and each key-up of a key that is up.
pub open spec fn filtered<Z: Keycode>(layout: Layout<Z>, inputs: Seq<Input>) -> Seq<Input>
    decreases inputs.len(),
{
    if inputs.len() == 0 {
        inputs
    } else {
        let rest = inputs.drop_last();
        if is_repeated(layout, held(layout, rest), inputs.last()) {
            filtered(layout, rest)
        } else {
            filtered(layout, rest).push(inputs.last())
        }
    }
}

/// New handlers of one configuration are the same machine, but for what is in their queues.
pub proof fn new_handlers_are_the_same<A: Keycode, Z: Keycode>(
    config: &Config<A, Z>,
    m: Machine<Z>,
    n: Machine<Z>,
)
    requires
        config.describes(m),
        config.describes(n),
        m.valid(),
        n.valid(),
    ensures
        n == (Machine { events: n.events, ..m }),
{
    lemma_same_codes(m.layout.codes, n.layout.codes);
    assert forall|g: int| 0 <= g < m.layout.members.len() implies m.layout.members[g]
        == n.layout.members[g] by {
        assert forall|k: usize| m.layout.members[g].contains(k) <==> n.layout.members[g].contains(
            k,
        ) by {
            assert(m.layout.members[g as usize as int].contains(k)
                <==> n.layout.members[g as usize as int].contains(k));
        }
        assert(m.layout.members[g] =~= n.layout.members[g]);
    }
    assert(m.layout.members =~= n.layout.members);
    assert(m.layout.actions =~= n.layout.actions);
    assert(m.layout.combos =~= n.layout.combos);
    assert(m.layout.masking =~= n.layout.masking);
    assert(m.layout == n.layout);
    assert(m.keys =~= n.keys);
    assert(m.holders =~= n.holders);
}

/// Positions in ascending order are the same if the same positions occur.
proof fn lemma_same_codes(a: Seq<usize>, b: Seq<usize>)
    requires
        setup::is_ascending(a),
        setup::is_ascending(b),
        forall|code: usize| #[trigger] a.contains(code) <==> b.contains(code),
    ensures
        a == b,
    decreases a.len(),
{
    if a.len() == 0 {
        if b.len() > 0 {
            assert(b.contains(b[0]));
            assert(a.contains(b[0]));
        }
        assert(a =~= b);
    } else {
        assert(a.contains(a[0]));
        assert(b.len() > 0);
        let (x, y) = (a.last(), b.last());
        assert(a.contains(x));
        assert(b.contains(y));
        assert(a.contains(y));
        let i = choose|i: int| 0 <= i < b.len() && b[i] == x;
        let j = choose|j: int| 0 <= j < a.len() && a[j] == y;
        assert(x <= y) by {
            if i < b.len() - 1 {
                assert(b[i] < b[b.len() - 1]);
            }
        }
        assert(y <= x) by {
            if j < a.len() - 1 {
                assert(a[j] < a[a.len() - 1]);
            }
        }
        let (c, d) = (a.drop_last(), b.drop_last());
        assert forall|code: usize| #[trigger] c.contains(code) <==> d.contains(code) by {
            lemma_drop_last_contains(a, code);
            lemma_drop_last_contains(b, code);
            assert(a.contains(code) <==> b.contains(code));
        }
        lemma_same_codes(c, d);
        assert(a =~= c.push(x));
        assert(b =~= d.push(y));
    }
}

/// What is in a list without its last position.
proof fn lemma_drop_last_contains(a: Seq<usize>, code: usize)
    requires
        a.len() > 0,
        setup::is_ascending(a),
    ensures
        a.drop_last().contains(code) <==> a.contains(code) && code != a.last(),
{
    let c = a.drop_last();
    if c.contains(code) {
        let i = choose|i: int| 0 <= i < c.len() && c[i] == code;
        assert(a[i] == code);
        assert(a[i] < a[a.len() - 1]);
    }
    if a.contains(code) && code != a.last() {
        let i = choose|i: int| 0 <= i < a.len() && a[i] == code;
        assert(c[i] == code);
    }
}

/// One input: which keys are down, and what is left alone.
proof fn lemma_input_down<Z: Keycode>(
    policy: Policy,
    m: Machine<Z>,
    input: Input,
    post: Machine<Z>,
    result: HandlingResult,
)
    requires
        m.valid(),
        policy.suits(m),
        policy.accepts(m, input.code, input.kind),
        policy.allows(m, input.code, input.kind, input.value, post, result),
        policy == Policy::Counting ==> !is_repeated(m.layout, m.down, input) && m.is_tidy(),
    ensures
        post.valid(),
        policy.suits(post),
        post.layout == m.layout,
        post.down == match (m.layout.key_of(input.code), input.kind) {
            (Some(key), Kind::Down) => m.down.insert(key),
            (Some(key), Kind::Up) => m.down.remove(key),
            _ => m.down,
        },
{
    policy_laws::input_keeps_valid(policy, m, input, post, result);
    policy_laws::lemma_key_of(m.layout, input.code);
    match m.layout.key_of(input.code) {
        None => {},
        Some(key) => {
            assert(policy == Policy::Counting ==> m.keys[key as int].pending
                == if m.down.contains(key) {
                1
            } else {
                0u64
            });
            assert(policy != Policy::Simple ==> (m.down.contains(key)
                <==> m.keys[key as int].pending > 0));
            if result == HandlingResult::Handled {
                let start = policy_laws::starts_from(policy, m, key, input.kind);
                laws::event_keeps_layout(start, key, input.kind, input.value, post);
            } else {
                assert(m.down.insert(key) =~= m.down || m.down.remove(key) =~= m.down);
            }
        },
    }
}

/// Whatever a simple or a strict handler accepts, the keys that are down are those that the inputs
/// say. The same holds of a handler that counts if the inputs are sane.
pub proof fn run_holds_keys<Z: Keycode>(
    policy: Policy,
    machines: Seq<Machine<Z>>,
    inputs: Seq<Input>,
    results: Seq<HandlingResult>,
)
    requires
        policy_laws::runs(policy, machines, inputs, results),
        machines[0].valid(),
        machines[0].is_tidy(),
        machines[0].down == Set::<usize>::empty(),
        policy == Policy::Counting ==> is_sane(machines[0].layout, inputs),
    ensures
        machines.last().valid(),
        policy.suits(machines.last()),
        machines.last().layout == machines[0].layout,
        machines.last().down == held(machines[0].layout, inputs),
        policy != Policy::Simple ==> machines.last().is_tidy(),
    decreases inputs.len(),
{
    let layout = machines[0].layout;
    if inputs.len() > 0 {
        let n = inputs.len() - 1;
        let (ms, is, rs) = (machines.drop_last(), inputs.drop_last(), results.drop_last());
        policy_laws::lemma_shorter_run(policy, machines, inputs, results);
        lemma_shorter_sane(layout, inputs);
        run_holds_keys(policy, ms, is, rs);
        let (m, post, input) = (machines[n], machines[n + 1], inputs[n]);
        assert(ms.last() == m);
        assert(inputs.take(n) =~= is);
        lemma_input_down(policy, m, input, post, results[n]);
        if policy != Policy::Simple {
            lemma_input_tidy(policy, m, input, post, results[n]);
        }
    }
}

/// One input keeps the counts tidy.
proof fn lemma_input_tidy<Z: Keycode>(
    policy: Policy,
    m: Machine<Z>,
    input: Input,
    post: Machine<Z>,
    result: HandlingResult,
)
    requires
        m.valid(),
        policy != Policy::Simple,
        policy == Policy::Counting ==> !is_repeated(m.layout, m.down, input),
        m.is_tidy(),
        policy.allows(m, input.code, input.kind, input.value, post, result),
    ensures
        post.is_tidy(),
{
    policy_laws::lemma_key_of(m.layout, input.code);
    match m.layout.key_of(input.code) {
        None => {},
        Some(key) => {
            assert(m.keys[key as int].pending == if m.down.contains(key) {
                1
            } else {
                0u64
            });
            if !is_repeated(m.layout, m.down, input) {
                let _ = policy_laws::sane_event_is_handled_alike(
                    policy,
                    m,
                    m,
                    input,
                    post,
                    result,
                );
            }
        },
    }
}

/// Sane inputs are sane without the last one.
proof fn lemma_shorter_sane<Z: Keycode>(layout: Layout<Z>, inputs: Seq<Input>)
    requires
        inputs.len() > 0,
    ensures
        is_sane(layout, inputs) <==> is_sane(layout, inputs.drop_last()) && !is_repeated(
            layout,
            held(layout, inputs.drop_last()),
            inputs.last(),
        ),
{
    let rest = inputs.drop_last();
    assert(inputs.take(inputs.len() - 1) =~= rest);
    assert forall|i: int| 0 <= i < rest.len() implies #[trigger] rest.take(i) =~= inputs.take(
        i,
    ) by {}
    if is_sane(layout, inputs) {
        assert forall|i: int| 0 <= i < rest.len() implies !is_repeated(
            layout,
            held(layout, #[trigger] rest.take(i)),
            rest[i],
        ) by {
            assert(rest.take(i) == inputs.take(i));
        }
    }
    if is_sane(layout, rest) && !is_repeated(layout, held(layout, rest), inputs.last()) {
        assert forall|i: int| 0 <= i < inputs.len() implies !is_repeated(
            layout,
            held(layout, #[trigger] inputs.take(i)),
            inputs[i],
        ) by {
            if i < rest.len() {
                assert(rest.take(i) == inputs.take(i));
            }
        }
    }
}

/// On sane inputs new handlers of one configuration do the same, however they treat others: there
/// is a run of the simple handler with the same inputs, the same results, none of which calls an
/// event repeated, and the same output.
pub proof fn new_handlers_answer_sane_inputs_alike<A: Keycode, Z: Keycode>(
    config: &Config<A, Z>,
    policy: Policy,
    machines: Seq<Machine<Z>>,
    inputs: Seq<Input>,
    results: Seq<HandlingResult>,
    simple: Machine<Z>,
) -> (others: Seq<Machine<Z>>)
    requires
        config.describes(machines[0]),
        machines[0].valid(),
        config.describes(simple),
        simple.valid(),
        simple.events == machines[0].events,
        policy_laws::runs(policy, machines, inputs, results),
        is_sane(machines[0].layout, inputs),
    ensures
        policy_laws::runs(Policy::Simple, others, inputs, results),
        others[0] == simple,
        forall|i: int|
            0 <= i < machines.len() ==> (#[trigger] others[i]).events == machines[i].events,
        forall|i: int|
            0 <= i < results.len() ==> #[trigger] results[i] == match simple.layout.key_of(
                inputs[i].code,
            ) {
                Some(_) => HandlingResult::Handled,
                None => HandlingResult::Unhandled,
            },
{
    let first = machines[0];
    let layout = first.layout;
    new_handlers_are_the_same(config, first, simple);
    assert(simple == first);
    assert(config.outlines(first));
    policy_laws::new_handler_is_sound(config, first);
    assert forall|i: int|
        #![trigger inputs[i]]
        0 <= i < inputs.len() implies machines[i].layout == layout && match machines[i].layout.key_of(
        inputs[i].code,
    ) {
        Some(key) => machines[i].sane(key, inputs[i].kind),
        None => true,
    } by {
        lemma_prefix_run(policy, machines, inputs, results, i);
        lemma_prefix_sane(layout, inputs, i);
        run_holds_keys(policy, machines.take(i + 1), inputs.take(i), results.take(i));
        assert(machines.take(i + 1).last() == machines[i]);
        assert(!is_repeated(layout, held(layout, inputs.take(i)), inputs[i]));
    }
    let others = policy_laws::sane_runs_are_alike(policy, machines, inputs, results, simple);
    assert forall|i: int| 0 <= i < machines.len() implies (#[trigger] others[i]).events
        == machines[i].events by {
        assert(machines[i].is_alike(others[i]));
    }
    assert forall|i: int| 0 <= i < results.len() implies #[trigger] results[i]
        == match simple.layout.key_of(inputs[i].code) {
        Some(_) => HandlingResult::Handled,
        None => HandlingResult::Unhandled,
    } by {
        assert(machines[i].is_alike(others[i]));
        assert(Policy::Simple.allows(
            others[i],
            inputs[i].code,
            inputs[i].kind,
            inputs[i].value,
            others[i + 1],
            results[i],
        ));
        assert(machines[i].layout == layout);
    }
    others
}

/// The first inputs of a run are a run.
proof fn lemma_prefix_run<Z: Keycode>(
    policy: Policy,
    machines: Seq<Machine<Z>>,
    inputs: Seq<Input>,
    results: Seq<HandlingResult>,
    n: int,
)
    requires
        policy_laws::runs(policy, machines, inputs, results),
        0 <= n <= inputs.len(),
    ensures
        policy_laws::runs(policy, machines.take(n + 1), inputs.take(n), results.take(n)),
{
    let (ms, is, rs) = (machines.take(n + 1), inputs.take(n), results.take(n));
    assert forall|i: int|
        #![trigger is[i]]
        0 <= i < is.len() implies policy.accepts(ms[i], is[i].code, is[i].kind) && policy.allows(
        ms[i],
        is[i].code,
        is[i].kind,
        is[i].value,
        ms[i + 1],
        rs[i],
    ) by {
        assert(is[i] == inputs[i]);
    }
}

/// The first of sane inputs are sane.
proof fn lemma_prefix_sane<Z: Keycode>(layout: Layout<Z>, inputs: Seq<Input>, n: int)
    requires
        is_sane(layout, inputs),
        0 <= n <= inputs.len(),
    ensures
        is_sane(layout, inputs.take(n)),
{
    let is = inputs.take(n);
    assert forall|i: int| 0 <= i < is.len() implies !is_repeated(
        layout,
        held(layout, #[trigger] is.take(i)),
        is[i],
    ) by {
        assert(is.take(i) =~= inputs.take(i));
    }
}

/// What is filtered out does not matter to which keys are down, and what is left is sane.
pub proof fn filtered_inputs_are_sane<Z: Keycode>(layout: Layout<Z>, inputs: Seq<Input>)
    ensures
        held(layout, filtered(layout, inputs)) == held(layout, inputs),
        is_sane(layout, filtered(layout, inputs)),
        is_sane(layout, inputs) ==> filtered(layout, inputs) == inputs,
    decreases inputs.len(),
{
    if inputs.len() > 0 {
        let rest = inputs.drop_last();
        let last = inputs.last();
        filtered_inputs_are_sane(layout, rest);
        lemma_shorter_sane(layout, inputs);
        assert(inputs =~= rest.push(last));
        let kept = filtered(layout, rest).push(last);
        assert(kept.drop_last() =~= filtered(layout, rest));
        if is_repeated(layout, held(layout, rest), last) {
            assert(held(layout, inputs) =~= held(layout, rest));
        } else {
            lemma_shorter_sane(layout, kept);
        }
    }
}

/// A strict handler does with any inputs what the simple handler does with the inputs that are
/// left if those that repeat what went before are filtered out: there is a run of the simple
/// handler with these that ends with the same output. The inputs that are filtered out are called
/// repeated, those of unknown keycodes unhandled, and the rest is handled.
pub proof fn strict_handler_filters<A: Keycode, Z: Keycode>(
    config: &Config<A, Z>,
    machines: Seq<Machine<Z>>,
    inputs: Seq<Input>,
    results: Seq<HandlingResult>,
    simple: Machine<Z>,
) -> (other: (Seq<Machine<Z>>, Seq<HandlingResult>))
    requires
        config.describes(machines[0]),
        machines[0].valid(),
        config.describes(simple),
        simple.valid(),
        simple.events == machines[0].events,
        policy_laws::runs(Policy::Strict, machines, inputs, results),
    ensures
        policy_laws::runs(Policy::Simple, other.0, filtered(simple.layout, inputs), other.1),
        other.0[0] == simple,
        other.0.last().events == machines.last().events,
        forall|i: int|
            0 <= i < inputs.len() ==> #[trigger] results[i] == strict_result(
                simple.layout,
                held(simple.layout, inputs.take(i)),
                inputs[i],
            ),
{
    let first = machines[0];
    new_handlers_are_the_same(config, first, simple);
    assert(simple == first);
    assert(config.outlines(first));
    policy_laws::new_handler_is_sound(config, first);
    lemma_strict_filters(machines, inputs, results)
}

/// What a strict handler calls an input while the keys `down` are down.
pub open spec fn strict_result<Z: Keycode>(
    layout: Layout<Z>,
    down: Set<usize>,
    input: Input,
) -> HandlingResult {
    if layout.key_of(input.code) is None {
        HandlingResult::Unhandled
    } else if !is_repeated(layout, down, input) {
        HandlingResult::Handled
    } else if input.kind == Kind::Down {
        HandlingResult::DoubleDown
    } else {
        HandlingResult::DoubleUp
    }
}

/// What a strict handler does with one input.
proof fn lemma_strict_result<Z: Keycode>(
    m: Machine<Z>,
    input: Input,
    post: Machine<Z>,
    result: HandlingResult,
)
    requires
        m.valid(),
        m.is_tidy(),
        Policy::Strict.allows(m, input.code, input.kind, input.value, post, result),
    ensures
        result == strict_result(m.layout, m.down, input),
        is_repeated(m.layout, m.down, input) ==> post == m,
{
    policy_laws::lemma_key_of(m.layout, input.code);
    match m.layout.key_of(input.code) {
        None => {},
        Some(key) => {
            assert(m.keys[key as int].pending == if m.down.contains(key) {
                1
            } else {
                0u64
            });
        },
    }
}

/// A run with one more input.
proof fn lemma_longer_run<Z: Keycode>(
    policy: Policy,
    machines: Seq<Machine<Z>>,
    inputs: Seq<Input>,
    results: Seq<HandlingResult>,
    input: Input,
    post: Machine<Z>,
    result: HandlingResult,
)
    requires
        policy_laws::runs(policy, machines, inputs, results),
        policy.accepts(machines.last(), input.code, input.kind),
        policy.allows(machines.last(), input.code, input.kind, input.value, post, result),
    ensures
        policy_laws::runs(policy, machines.push(post), inputs.push(input), results.push(result)),
{
    let (ms, is, rs) = (machines.push(post), inputs.push(input), results.push(result));
    assert forall|i: int|
        #![trigger is[i]]
        0 <= i < is.len() implies policy.accepts(ms[i], is[i].code, is[i].kind) && policy.allows(
        ms[i],
        is[i].code,
        is[i].kind,
        is[i].value,
        ms[i + 1],
        rs[i],
    ) by {
        if i < inputs.len() {
            assert(is[i] == inputs[i]);
        }
    }
}

/// A strict handler filters, from a machine on whose counts are tidy.
proof fn lemma_strict_filters<Z: Keycode>(
    machines: Seq<Machine<Z>>,
    inputs: Seq<Input>,
    results: Seq<HandlingResult>,
) -> (other: (Seq<Machine<Z>>, Seq<HandlingResult>))
    requires
        machines[0].valid(),
        machines[0].is_tidy(),
        machines[0].down == Set::<usize>::empty(),
        policy_laws::runs(Policy::Strict, machines, inputs, results),
    ensures
        policy_laws::runs(Policy::Simple, other.0, filtered(machines[0].layout, inputs), other.1),
        other.0[0] == machines[0],
        machines.last().is_alike(other.0.last()),
        forall|i: int|
            0 <= i < inputs.len() ==> #[trigger] results[i] == strict_result(
                machines[0].layout,
                held(machines[0].layout, inputs.take(i)),
                inputs[i],
            ),
    decreases inputs.len(),
{
    let layout = machines[0].layout;
    if inputs.len() == 0 {
        assert(machines.last() == machines[0]);
        (seq![machines[0]], Seq::empty())
    } else {
        let n = inputs.len() - 1;
        let (ms, is, rs) = (machines.drop_last(), inputs.drop_last(), results.drop_last());
        policy_laws::lemma_shorter_run(Policy::Strict, machines, inputs, results);
        run_holds_keys(Policy::Strict, ms, is, rs);
        let before = lemma_strict_filters(ms, is, rs);
        let (m, post, input, result) = (machines[n], machines[n + 1], inputs[n], results[n]);
        assert(ms.last() == m);
        assert(inputs.take(n) =~= is);
        lemma_strict_result(m, input, post, result);
        assert forall|i: int| 0 <= i < inputs.len() implies #[trigger] results[i] == strict_result(
            layout,
            held(layout, inputs.take(i)),
            inputs[i],
        ) by {
            if i < n {
                assert(rs[i] == results[i]);
                assert(is.take(i) =~= inputs.take(i));
            }
        }
        if is_repeated(layout, m.down, input) {
            before
        } else {
            let last = policy_laws::sane_event_is_handled_alike(
                Policy::Strict,
                m,
                before.0.last(),
                input,
                post,
                result,
            );
            let kept = filtered(layout, is);
            assert(filtered(layout, inputs) == kept.push(input));
            lemma_longer_run(Policy::Simple, before.0, kept, before.1, input, last, result);
            (before.0.push(last), before.1.push(result))
        }
    }
}

/// There are no more keys below `n` than `n`.
proof fn lemma_keys_below(keys: Set<usize>, n: nat)
    requires
        keys.finite(),
        forall|k: usize| #[trigger] keys.contains(k) ==> k < n,
    ensures
        keys.len() <= n,
    decreases n,
{
    if n == 0 {
        assert(keys =~= Set::empty());
    } else {
        let last = (n - 1) as usize;
        let rest = keys.remove(last);
        assert forall|k: usize| #[trigger] rest.contains(k) implies k < n - 1 by {
            assert(keys.contains(k));
        }
        lemma_keys_below(rest, (n - 1) as nat);
    }
}

/// While keys go down, another one of them not among them, what is known of the combos of a machine
/// stays right. Each key uses up one stamp at most, so the stamps are not used up.
proof fn lemma_presses_cached<Z: Keycode>(
    machines: Seq<Machine<Z>>,
    inputs: Seq<Input>,
    results: Seq<HandlingResult>,
    key: usize,
)
    requires
        policy_laws::runs(Policy::Simple, machines, inputs, results),
        machines[0].valid(),
        machines[0].is_tidy(),
        machines[0].down == Set::<usize>::empty(),
        machines[0].is_cached(),
        machines[0].is_young(),
        machines[0].stamp <= 1,
        forall|i: int| 0 <= i < inputs.len() ==> (#[trigger] inputs[i]).kind == Kind::Down,
        key < machines[0].keys.len(),
        !held(machines[0].layout, inputs).contains(key),
    ensures
        machines.last().is_cached(),
        machines.last().stamp < u64::MAX ==> machines.last().is_young(),
        machines.last().stamp <= 1 + machines.last().down.len(),
    decreases inputs.len(),
{
    if inputs.len() > 0 {
        let n = inputs.len() - 1;
        let (ms, is, rs) = (machines.drop_last(), inputs.drop_last(), results.drop_last());
        policy_laws::lemma_shorter_run(Policy::Simple, machines, inputs, results);
        let (m, post, input) = (machines[n], machines[n + 1], inputs[n]);
        assert(input.kind == Kind::Down);
        assert forall|i: int| 0 <= i < is.len() implies (#[trigger] is[i]).kind == Kind::Down by {
            assert(is[i] == inputs[i]);
        }
        assert(!held(m.layout, is).contains(key)) by {
            assert(!held(machines[0].layout, is).contains(key));
            run_holds_keys(Policy::Simple, ms, is, rs);
            assert(ms.last() == m);
        }
        lemma_presses_cached(ms, is, rs, key);
        run_holds_keys(Policy::Simple, ms, is, rs);
        run_holds_keys(Policy::Simple, machines, inputs, results);
        assert(ms.last() == m);
        policy_laws::lemma_key_of(m.layout, input.code);
        match m.layout.key_of(input.code) {
            None => {},
            Some(pressed) => {
                assert(post.down == m.down.insert(pressed));
                assert(pressed != key);
                let all = m.down.insert(pressed).insert(key);
                assert forall|k: usize| #[trigger] all.contains(k) implies k
                    < m.layout.codes.len() by {
                    assert(k == pressed || k == key || m.down.contains(k));
                }
                lemma_keys_below(all, m.layout.codes.len());
                assert(m.stamp < u64::MAX);
                group_laws::young_machine_is_fresh(m, pressed, input.kind, input.value, post);
                group_laws::cache_stays_right(m, pressed, input.kind, input.value, post);
            },
        }
    }
}

/// Which keys are down after key-down events: those of the events.
proof fn lemma_held_downs<Z: Keycode>(layout: Layout<Z>, inputs: Seq<Input>)
    requires
        forall|i: int| 0 <= i < inputs.len() ==> (#[trigger] inputs[i]).kind == Kind::Down,
    ensures
        forall|k: usize| #[trigger]
            held(layout, inputs).contains(k) <==> exists|i: int|
                0 <= i < inputs.len() && layout.key_of((#[trigger] inputs[i]).code) == Some(k),
    decreases inputs.len(),
{
    if inputs.len() > 0 {
        let rest = inputs.drop_last();
        let n = inputs.len() - 1;
        assert forall|i: int| 0 <= i < rest.len() implies (#[trigger] rest[i]).kind
            == Kind::Down by {
            assert(rest[i] == inputs[i]);
        }
        lemma_held_downs(layout, rest);
        assert(inputs[n].kind == Kind::Down);
        assert forall|k: usize| #[trigger] held(layout, inputs).contains(k) <==> exists|i: int|
            0 <= i < inputs.len() && layout.key_of((#[trigger] inputs[i]).code) == Some(k) by {
            if held(layout, rest).contains(k) {
                let i = choose|i: int|
                    0 <= i < rest.len() && layout.key_of((#[trigger] rest[i]).code) == Some(k);
                assert(inputs[i] == rest[i]);
            }
            if exists|i: int|
                0 <= i < inputs.len() && layout.key_of((#[trigger] inputs[i]).code) == Some(k) {
                let i = choose|i: int|
                    0 <= i < inputs.len() && layout.key_of((#[trigger] inputs[i]).code) == Some(k);
                if i < n {
                    assert(rest[i] == inputs[i]);
                }
            }
        }
    }
}

/// Keycodes at these scalar positions are pressed by the inputs, and nothing else happens.
pub open spec fn presses(inputs: Seq<Input>, codes: Set<usize>) -> bool {
    &&& forall|i: int|
        0 <= i < inputs.len() ==> (#[trigger] inputs[i]).kind == Kind::Down && codes.contains(
            inputs[i].code,
        )
    &&& forall|code: usize| #[trigger]
        codes.contains(code) ==> exists|i: int|
            0 <= i < inputs.len() && (#[trigger] inputs[i]).code == code
}

/// The order in which modifier keys go down does not matter: two new handlers of one configuration
/// whose modifier keys at the scalar positions `codes` went down in different orders answer the
/// press of an action key alike.
pub proof fn modifier_order_does_not_matter<A: Keycode, Z: Keycode>(
    config: &Config<A, Z>,
    codes: Set<usize>,
    first: (Seq<Machine<Z>>, Seq<Input>, Seq<HandlingResult>),
    second: (Seq<Machine<Z>>, Seq<Input>, Seq<HandlingResult>),
    input: Input,
    first_post: (Machine<Z>, HandlingResult),
    second_post: (Machine<Z>, HandlingResult),
) -> (said: Seq<Event<Z>>)
    requires
        config.describes(first.0[0]),
        first.0[0].valid(),
        config.describes(second.0[0]),
        second.0[0].valid(),
        policy_laws::runs(Policy::Simple, first.0, first.1, first.2),
        policy_laws::runs(Policy::Simple, second.0, second.1, second.2),
        presses(first.1, codes),
        presses(second.1, codes),
        input.kind == Kind::Down,
        match first.0[0].layout.key_of(input.code) {
            Some(key) => !first.0[0].layout.is_modifier(key),
            None => true,
        },
        Policy::Simple.accepts(first.0.last(), input.code, input.kind),
        Policy::Simple.allows(
            first.0.last(),
            input.code,
            input.kind,
            input.value,
            first_post.0,
            first_post.1,
        ),
        Policy::Simple.accepts(second.0.last(), input.code, input.kind),
        Policy::Simple.allows(
            second.0.last(),
            input.code,
            input.kind,
            input.value,
            second_post.0,
            second_post.1,
        ),
    ensures
        first_post.1 == second_post.1,
        first_post.0.events == first.0.last().events + said,
        second_post.0.events == second.0.last().events + said,
{
    let (a, b) = (first.0[0], second.0[0]);
    let layout = a.layout;
    new_handlers_are_the_same(config, a, b);
    assert(config.outlines(a) && config.outlines(b));
    policy_laws::new_handler_is_sound(config, a);
    policy_laws::new_handler_is_sound(config, b);
    group_laws::new_handler_is_settled(config, a);
    group_laws::new_handler_is_settled(config, b);
    run_holds_keys(Policy::Simple, first.0, first.1, first.2);
    run_holds_keys(Policy::Simple, second.0, second.1, second.2);
    lemma_same_presses(layout, first.1, second.1, codes);
    let (m, n) = (first.0.last(), second.0.last());
    assert(m.down == n.down && m.layout == n.layout);
    policy_laws::lemma_key_of(layout, input.code);
    match layout.key_of(input.code) {
        None => {
            let said = Seq::<Event<Z>>::empty();
            assert(m.events + said =~= m.events);
            assert(n.events + said =~= n.events);
            said
        },
        Some(key) => {
            lemma_presses_cached(first.0, first.1, first.2, key);
            lemma_presses_cached(second.0, second.1, second.2, key);
            group_laws::press_of_action_key(m, key, input.value, first_post.0);
            group_laws::press_of_action_key(n, key, input.value, second_post.0);
            match layout.spoken(key, m.down) {
                Some(action) => seq![
                    Event { keycode: action, kind: Kind::Down, value: input.value },
                ],
                None => Seq::empty(),
            }
        },
    }
}

/// Pressing the same keys holds the same keys.
proof fn lemma_same_presses<Z: Keycode>(
    layout: Layout<Z>,
    a: Seq<Input>,
    b: Seq<Input>,
    codes: Set<usize>,
)
    requires
        presses(a, codes),
        presses(b, codes),
    ensures
        held(layout, a) == held(layout, b),
{
    lemma_held_downs(layout, a);
    lemma_held_downs(layout, b);
    assert forall|k: usize| #[trigger] held(layout, a).contains(k) <==> held(layout, b).contains(
        k,
    ) by {
        if held(layout, a).contains(k) {
            let i = choose|i: int|
                0 <= i < a.len() && layout.key_of((#[trigger] a[i]).code) == Some(k);
            assert(codes.contains(a[i].code));
            let j = choose|j: int| 0 <= j < b.len() && (#[trigger] b[j]).code == a[i].code;
            assert(layout.key_of(b[j].code) == Some(k));
        }
        if held(layout, b).contains(k) {
            let i = choose|i: int|
                0 <= i < b.len() && layout.key_of((#[trigger] b[i]).code) == Some(k);
            assert(codes.contains(b[i].code));
            let j = choose|j: int| 0 <= j < a.len() && (#[trigger] a[j]).code == b[i].code;
            assert(layout.key_of(a[j].code) == Some(k));
        }
    }
    assert(held(layout, a) =~= held(layout, b));
}

/// How many of the events have the keycode and the kind.
pub open spec fn emitted<Z: Keycode>(events: Seq<Event<Z>>, keycode: Z, kind: Kind) -> nat
    decreases events.len(),
{
    if events.len() == 0 {
        0
    } else {
        emitted(events.drop_last(), keycode, kind) + if events.last().keycode == keycode
            && events.last().kind == kind {
            1nat
        } else {
            0
        }
    }
}

/// The keys that sound the keycode.
spec fn sounders<Z: Keycode>(sounding: Map<usize, Z>, keycode: Z) -> Set<usize> {
    sounding.dom().filter(|k: usize| sounding[k] == keycode)
}

/// The key-down events of a keycode, less its key-up events, are as many as the keys that sound it.
proof fn lemma_replay_counts<Z: Keycode>(events: Seq<Event<Z>>, by: Seq<usize>, keycode: Z)
    requires
        events.len() == by.len(),
        laws::replay(Map::empty(), events, by) is Some,
    ensures
        ({
            let after = laws::replay(Map::empty(), events, by)->0;
            &&& after.dom().finite()
            &&& emitted(events, keycode, Kind::Down) == emitted(events, keycode, Kind::Up)
                + sounders(after, keycode).len()
        }),
    decreases events.len(),
{
    let after = laws::replay(Map::<usize, Z>::empty(), events, by)->0;
    if events.len() == 0 {
        assert(sounders(after, keycode) =~= Set::empty());
    } else {
        lemma_replay_counts(events.drop_last(), by.drop_last(), keycode);
        let before = laws::replay(Map::<usize, Z>::empty(), events.drop_last(), by.drop_last())->0;
        let (event, key) = (events.last(), by.last());
        let (a, b) = (sounders(before, keycode), sounders(after, keycode));
        assert(a.finite());
        match event.kind {
            Kind::Down => {
                assert(!before.dom().contains(key));
                assert(after == before.insert(key, event.keycode));
                if event.keycode == keycode {
                    assert(b =~= a.insert(key));
                } else {
                    assert(b =~= a);
                }
            },
            Kind::Up => {
                assert(after == before.remove(key));
                if event.keycode == keycode {
                    assert(a.contains(key));
                    assert(b =~= a.remove(key));
                } else {
                    assert(b =~= a);
                }
            },
            _ => {},
        }
    }
}

/// The first of events that can be replayed can be replayed.
proof fn lemma_replay_prefix<Z: Keycode>(events: Seq<Event<Z>>, by: Seq<usize>, n: int)
    requires
        events.len() == by.len(),
        laws::replay(Map::empty(), events, by) is Some,
        0 <= n <= events.len(),
    ensures
        laws::replay(Map::empty(), events.take(n), by.take(n)) is Some,
    decreases events.len() - n,
{
    if n == events.len() {
        assert(events.take(n) =~= events);
        assert(by.take(n) =~= by);
    } else {
        lemma_replay_prefix(events, by, n + 1);
        assert(events.take(n + 1).drop_last() =~= events.take(n));
        assert(by.take(n + 1).drop_last() =~= by.take(n));
    }
}

/// What a new handler emits is sane for each output keycode: at no point have more key-up events
/// than key-down events been emitted, and once all keys are up as many of the one as of the other
/// have been.
pub proof fn output_is_balanced<A: Keycode, Z: Keycode>(
    config: &Config<A, Z>,
    policy: Policy,
    machines: Seq<Machine<Z>>,
    inputs: Seq<Input>,
    results: Seq<HandlingResult>,
    keycode: Z,
)
    requires
        config.outlines(machines[0]),
        machines[0].valid(),
        policy_laws::runs(policy, machines, inputs, results),
        policy_laws::is_calm_run(machines, inputs),
    ensures
        ({
            let said = machines.last().events.skip(machines[0].events.len() as int);
            &&& machines.last().events == machines[0].events + said
            &&& forall|n: int|
                0 <= n <= said.len() ==> emitted(#[trigger] said.take(n), keycode, Kind::Up)
                    <= emitted(said.take(n), keycode, Kind::Down)
            &&& machines.last().down == Set::<usize>::empty() ==> emitted(said, keycode, Kind::Up)
                == emitted(said, keycode, Kind::Down)
        }),
{
    let (first, last) = (machines[0], machines.last());
    policy_laws::new_handler_is_sound(config, first);
    policy_laws::run_output_is_sane(policy, machines, inputs, results);
    let said = last.events.skip(first.events.len() as int);
    let by = choose|by: Seq<usize>|
        by.len() == said.len() && #[trigger] laws::replay(first.sounding(), said, by) == Some(
            last.sounding(),
        );
    assert forall|n: int| 0 <= n <= said.len() implies emitted(
        #[trigger] said.take(n),
        keycode,
        Kind::Up,
    ) <= emitted(said.take(n), keycode, Kind::Down) by {
        lemma_replay_prefix(said, by, n);
        lemma_replay_counts(said.take(n), by.take(n), keycode);
    }
    lemma_replay_counts(said, by, keycode);
    if last.down == Set::<usize>::empty() {
        assert(sounders(last.sounding(), keycode) =~= Set::empty());
    }
}

/// How many key-down events of the key have come that no key-up event has made up for. A key-up
/// event that has none to make up for does not count.
pub open spec fn pending_downs<Z: Keycode>(
    layout: Layout<Z>,
    inputs: Seq<Input>,
    key: usize,
) -> nat
    decreases inputs.len(),
{
    if inputs.len() == 0 {
        0
    } else {
        let before = pending_downs(layout, inputs.drop_last(), key);
        if layout.key_of(inputs.last().code) != Some(key) {
            before
        } else if inputs.last().kind == Kind::Down {
            before + 1
        } else if inputs.last().kind == Kind::Up && before > 0 {
            (before - 1) as nat
        } else {
            before
        }
    }
}

/// What a handler that counts calls an input, where so many key-down events of its key have come
/// that no key-up event has made up for.
pub open spec fn counting_result<Z: Keycode>(
    layout: Layout<Z>,
    pending: nat,
    input: Input,
) -> HandlingResult {
    if layout.key_of(input.code) is None {
        HandlingResult::Unhandled
    } else if input.kind == Kind::Down && pending > 0 {
        HandlingResult::DoubleDown
    } else if input.kind == Kind::Up && pending != 1 {
        HandlingResult::DoubleUp
    } else {
        HandlingResult::Handled
    }
}

/// The number of pending key-down events of the key of an input.
pub open spec fn pending_of<Z: Keycode>(
    layout: Layout<Z>,
    inputs: Seq<Input>,
    input: Input,
) -> nat {
    match layout.key_of(input.code) {
        Some(key) => pending_downs(layout, inputs, key),
        None => 0,
    }
}

/// The inputs without each key-down event of a key that has one pending, and without each key-up
/// event but those that make up for the only pending one.
pub open spec fn balanced<Z: Keycode>(layout: Layout<Z>, inputs: Seq<Input>) -> Seq<Input>
    decreases inputs.len(),
{
    if inputs.len() == 0 {
        inputs
    } else {
        let rest = inputs.drop_last();
        let result = counting_result(
            layout,
            pending_of(layout, rest, inputs.last()),
            inputs.last(),
        );
        if result == HandlingResult::DoubleDown || result == HandlingResult::DoubleUp {
            balanced(layout, rest)
        } else {
            balanced(layout, rest).push(inputs.last())
        }
    }
}

/// A handler that counts does with any inputs what the simple handler does with the inputs that are
/// left if only the first key-down event of a key counts, and the key-up event that makes up for
/// the last one: there is a run of the simple handler with these that ends with the same output.
/// The inputs that are left out are called repeated, those of unknown keycodes unhandled, and the
/// rest is handled.
pub proof fn counting_handler_counts<A: Keycode, Z: Keycode>(
    config: &Config<A, Z>,
    machines: Seq<Machine<Z>>,
    inputs: Seq<Input>,
    results: Seq<HandlingResult>,
    simple: Machine<Z>,
) -> (other: (Seq<Machine<Z>>, Seq<HandlingResult>))
    requires
        config.describes(machines[0]),
        machines[0].valid(),
        config.describes(simple),
        simple.valid(),
        simple.events == machines[0].events,
        policy_laws::runs(Policy::Counting, machines, inputs, results),
    ensures
        policy_laws::runs(Policy::Simple, other.0, balanced(simple.layout, inputs), other.1),
        other.0[0] == simple,
        other.0.last().events == machines.last().events,
        forall|i: int|
            0 <= i < inputs.len() ==> #[trigger] results[i] == counting_result(
                simple.layout,
                pending_of(simple.layout, inputs.take(i), inputs[i]),
                inputs[i],
            ),
{
    let first = machines[0];
    new_handlers_are_the_same(config, first, simple);
    assert(simple == first);
    lemma_counting_counts(machines, inputs, results)
}

/// The counts of the machine are the numbers of pending key-down events.
spec fn counts_inputs<Z: Keycode>(m: Machine<Z>, layout: Layout<Z>, inputs: Seq<Input>) -> bool {
    forall|k: usize|
        #![trigger m.keys[k as int]]
        k < m.keys.len() ==> m.keys[k as int].pending == pending_downs(layout, inputs, k) && (
        m.down.contains(k) <==> m.keys[k as int].pending > 0)
}

/// A handler that counts, from a machine on whose counts are zero.
proof fn lemma_counting_counts<Z: Keycode>(
    machines: Seq<Machine<Z>>,
    inputs: Seq<Input>,
    results: Seq<HandlingResult>,
) -> (other: (Seq<Machine<Z>>, Seq<HandlingResult>))
    requires
        machines[0].valid(),
        counts_inputs(machines[0], machines[0].layout, Seq::empty()),
        policy_laws::runs(Policy::Counting, machines, inputs, results),
    ensures
        policy_laws::runs(Policy::Simple, other.0, balanced(machines[0].layout, inputs), other.1),
        other.0[0] == machines[0],
        machines.last().valid(),
        machines.last().layout == machines[0].layout,
        counts_inputs(machines.last(), machines[0].layout, inputs),
        machines.last().is_alike(other.0.last()),
        forall|i: int|
            0 <= i < inputs.len() ==> #[trigger] results[i] == counting_result(
                machines[0].layout,
                pending_of(machines[0].layout, inputs.take(i), inputs[i]),
                inputs[i],
            ),
    decreases inputs.len(),
{
    let layout = machines[0].layout;
    if inputs.len() == 0 {
        assert(machines.last() == machines[0]);
        assert(inputs =~= Seq::<Input>::empty());
        (seq![machines[0]], Seq::empty())
    } else {
        let n = inputs.len() - 1;
        let (ms, is, rs) = (machines.drop_last(), inputs.drop_last(), results.drop_last());
        policy_laws::lemma_shorter_run(Policy::Counting, machines, inputs, results);
        let before = lemma_counting_counts(ms, is, rs);
        let (m, post, input, result) = (machines[n], machines[n + 1], inputs[n], results[n]);
        assert(ms.last() == m);
        assert(inputs.take(n) =~= is);
        lemma_counting_step(m, is, input, post, result);
        assert(inputs =~= is.push(input));
        assert forall|i: int| 0 <= i < inputs.len() implies #[trigger] results[i]
            == counting_result(layout, pending_of(layout, inputs.take(i), inputs[i]), inputs[i]) by {
            if i < n {
                assert(rs[i] == results[i]);
                assert(is.take(i) =~= inputs.take(i));
            }
        }
        if result == HandlingResult::DoubleDown || result == HandlingResult::DoubleUp {
            lemma_alike_chain(before.0.last(), m, post);
            before
        } else {
            let last = lemma_counting_handled(m, is, before.0.last(), input, post, result);
            let kept = balanced(layout, is);
            lemma_longer_run(Policy::Simple, before.0, kept, before.1, input, last, result);
            (before.0.push(last), before.1.push(result))
        }
    }
}

/// Two machines that are like a third one are alike.
proof fn lemma_alike_chain<Z: Keycode>(other: Machine<Z>, m: Machine<Z>, post: Machine<Z>)
    requires
        m.is_alike(other),
        m.is_alike(post),
    ensures
        post.is_alike(other),
{
    assert forall|k: int| 0 <= k < post.keys.len() implies #[trigger] other.keys[k] == (KeyState {
        pending: other.keys[k].pending,
        ..post.keys[k]
    }) by {
        assert(post.keys[k] == (KeyState { pending: post.keys[k].pending, ..m.keys[k] }));
        assert(other.keys[k] == (KeyState { pending: other.keys[k].pending, ..m.keys[k] }));
    }
}

/// What a handler that counts does with one input: the result, and the counts.
proof fn lemma_counting_step<Z: Keycode>(
    m: Machine<Z>,
    inputs: Seq<Input>,
    input: Input,
    post: Machine<Z>,
    result: HandlingResult,
)
    requires
        m.valid(),
        counts_inputs(m, m.layout, inputs),
        Policy::Counting.accepts(m, input.code, input.kind),
        Policy::Counting.allows(m, input.code, input.kind, input.value, post, result),
    ensures
        post.valid(),
        post.layout == m.layout,
        counts_inputs(post, m.layout, inputs.push(input)),
        result == counting_result(m.layout, pending_of(m.layout, inputs, input), input),
        result == HandlingResult::DoubleDown || result == HandlingResult::DoubleUp ==> m.is_alike(
            post,
        ),
{
    let layout = m.layout;
    let all = inputs.push(input);
    assert(all.drop_last() =~= inputs);
    policy_laws::lemma_key_of(layout, input.code);
    assert(m.tracks());
    policy_laws::input_keeps_valid(Policy::Counting, m, input, post, result);
    match layout.key_of(input.code) {
        None => {
            assert(post == m);
            assert forall|k: usize|
                #![trigger post.keys[k as int]]
                k < post.keys.len() implies post.keys[k as int].pending == pending_downs(
                layout,
                all,
                k,
            ) && (post.down.contains(k) <==> post.keys[k as int].pending > 0) by {
                assert(m.keys[k as int].pending == pending_downs(layout, inputs, k));
            }
        },
        Some(key) => {
            let pending = m.keys[key as int].pending;
            assert(pending == pending_downs(layout, inputs, key));
            if result == HandlingResult::Handled {
                let start = policy_laws::starts_from(Policy::Counting, m, key, input.kind);
                policy_laws::lemma_starts_valid(Policy::Counting, m, key, input.kind);
                laws::event_keeps_layout(start, key, input.kind, input.value, post);
                assert forall|k: usize|
                    #![trigger post.keys[k as int]]
                    k < post.keys.len() implies post.keys[k as int].pending == pending_downs(
                    layout,
                    all,
                    k,
                ) && (post.down.contains(k) <==> post.keys[k as int].pending > 0) by {
                    assert(m.keys[k as int].pending == pending_downs(layout, inputs, k));
                    assert(post.keys[k as int].pending == start.keys[k as int].pending);
                }
            } else {
                policy_laws::ignored_event_has_no_effect(Policy::Counting, m, input, post, result);
                assert forall|k: usize|
                    #![trigger post.keys[k as int]]
                    k < post.keys.len() implies post.keys[k as int].pending == pending_downs(
                    layout,
                    all,
                    k,
                ) && (post.down.contains(k) <==> post.keys[k as int].pending > 0) by {
                    assert(m.keys[k as int].pending == pending_downs(layout, inputs, k));
                }
            }
        },
    }
}

/// An input that a handler that counts handles regularly is handled alike by the simple one.
proof fn lemma_counting_handled<Z: Keycode>(
    m: Machine<Z>,
    inputs: Seq<Input>,
    simple: Machine<Z>,
    input: Input,
    post: Machine<Z>,
    result: HandlingResult,
) -> (other: Machine<Z>)
    requires
        m.valid(),
        counts_inputs(m, m.layout, inputs),
        m.is_alike(simple),
        Policy::Counting.allows(m, input.code, input.kind, input.value, post, result),
        result != HandlingResult::DoubleDown,
        result != HandlingResult::DoubleUp,
    ensures
        Policy::Simple.accepts(simple, input.code, input.kind),
        Policy::Simple.allows(simple, input.code, input.kind, input.value, other, result),
        post.is_alike(other),
{
    policy_laws::lemma_key_of(m.layout, input.code);
    match m.layout.key_of(input.code) {
        None => simple,
        Some(key) => {
            let start = policy_laws::starts_from(Policy::Counting, m, key, input.kind);
            policy_laws::lemma_starts_valid(Policy::Counting, m, key, input.kind);
            assert(m.down.contains(key) <==> m.keys[key as int].pending > 0);
            lemma_alike_chain(simple, m, start);
            policy_laws::counts_do_not_matter(
                start,
                simple,
                key,
                input.kind,
                input.value,
                post,
            )
        },
    }
}

/// A handler is prepared for every sane event, whatever its policy, and a strict one for every
/// event. A handler that counts is prepared for every event as long as fewer key-down events are
/// pending than a `u64` can count.
pub proof fn handlers_are_prepared<Z: Keycode>(policy: Policy, m: Machine<Z>, input: Input)
    requires
        m.valid(),
        policy.suits(m),
    ensures
        policy == Policy::Strict ==> policy.accepts(m, input.code, input.kind),
        policy == Policy::Counting ==> policy.accepts(m, input.code, input.kind) || exists|k: int|
            0 <= k < m.keys.len() && (#[trigger] m.keys[k]).pending == u64::MAX,
        policy == Policy::Simple && (forall|k: usize|
            k < m.layout.codes.len() && #[trigger] m.layout.codes[k as int] == input.code ==> !(
            input.kind == Kind::Down && m.down.contains(k) || input.kind == Kind::Up
                && !m.down.contains(k))) ==> policy.accepts(m, input.code, input.kind),
        !(exists|k: usize|
            k < m.layout.codes.len() && #[trigger] m.layout.codes[k as int] == input.code)
            ==> policy.accepts(m, input.code, input.kind),
{
    policy_laws::lemma_key_of(m.layout, input.code);
}

} // verus!

//! What holds of handlers, however they treat sequences of events that are not sane.
use crate::combo::laws;
use crate::combo::model;
use crate::combo::model::{KeyState, Machine};
use crate::combo::policy::Policy;
use crate::config::Config;
use crate::types::{Event, HandlingResult, Keycode, Kind};
use vstd::prelude::*;

verus! {

impl<Z: Keycode> Machine<Z> {
    /// The machines differ in nothing but the counts of pending key-down events.
    pub open spec fn is_alike(self, other: Self) -> bool {
        &&& other.layout == self.layout
        &&& other.down == self.down
        &&& other.holders == self.holders
        &&& other.stamp == self.stamp
        &&& other.events == self.events
        &&& other.keys.len() == self.keys.len()
        &&& forall|k: int|
            0 <= k < self.keys.len() ==> #[trigger] other.keys[k] == (KeyState {
                pending: other.keys[k].pending,
                ..self.keys[k]
            })
    }

    /// The keys that are down have one pending key-down event, the others have none.
    pub open spec fn is_tidy(self) -> bool {
        forall|k: usize|
            k < self.keys.len() ==> (#[trigger] self.keys[k as int]).pending == if self.down.contains(
                k,
            ) {
                1
            } else {
                0u64
            }
    }
}

/// An input event, as a mathematical value.
pub struct Input {
    /// Scalar position of the keycode.
    pub code: usize,
    /// What kind of event.
    pub kind: Kind,
    /// Axis value.
    pub value: i16,
}

/// Handling the inputs one after the other leads from machine to machine, with these results.
pub open spec fn runs<Z: Keycode>(
    policy: Policy,
    machines: Seq<Machine<Z>>,
    inputs: Seq<Input>,
    results: Seq<HandlingResult>,
) -> bool {
    &&& machines.len() == inputs.len() + 1
    &&& results.len() == inputs.len()
    &&& forall|i: int|
        #![trigger inputs[i]]
        0 <= i < inputs.len() ==> {
            &&& policy.accepts(machines[i], inputs[i].code, inputs[i].kind)
            &&& policy.allows(
                machines[i],
                inputs[i].code,
                inputs[i].kind,
                inputs[i].value,
                machines[i + 1],
                results[i],
            )
        }
}

/// No input is a key-down of a key that is down or a key-up of a key that is up.
pub open spec fn is_sane_run<Z: Keycode>(machines: Seq<Machine<Z>>, inputs: Seq<Input>) -> bool {
    forall|i: int|
        #![trigger inputs[i]]
        0 <= i < inputs.len() ==> match machines[i].layout.key_of(inputs[i].code) {
            Some(key) => machines[i].sane(key, inputs[i].kind),
            None => true,
        }
}

/// Machines that are alike take the same ends.
proof fn lemma_alike_closings<Z: Keycode>(m: Machine<Z>, n: Machine<Z>, ended: Seq<usize>)
    requires
        m.is_alike(n),
        forall|i: int| 0 <= i < ended.len() ==> #[trigger] ended[i] < m.keys.len(),
    ensures
        n.closings(ended) == m.closings(ended),
    decreases ended.len(),
{
    if ended.len() > 0 {
        lemma_alike_closings(m, n, ended.drop_last());
        let k = ended.last();
        assert(ended[ended.len() - 1] < m.keys.len());
        assert(n.keys[k as int] == (KeyState {
            pending: n.keys[k as int].pending,
            ..m.keys[k as int]
        }));
        assert(n.closing(k) =~= m.closing(k));
    }
}

/// Machines that are alike empty their groups alike.
proof fn lemma_alike_empties<Z: Keycode>(
    m: Machine<Z>,
    n: Machine<Z>,
    groups: Seq<usize>,
    ended: Seq<usize>,
)
    requires
        m.is_alike(n),
        m.empties(groups, ended),
    ensures
        n.empties(groups, ended),
    decreases groups.len(),
{
    if groups.len() > 0 {
        let last = groups.last();
        let rest = groups.drop_last();
        let held = if rest.contains(last) {
            Set::empty()
        } else {
            m.holders[last as int]
        };
        let cut = choose|cut: int|
            0 <= cut <= ended.len() && m.empties(rest, #[trigger] ended.take(cut))
                && model::lists(ended.skip(cut), held);
        lemma_alike_empties(m, n, rest, ended.take(cut));
        assert(n.empties(rest, ended.take(cut)));
    }
}

/// Keys of machines that are alike act alike.
proof fn lemma_alike_acted<Z: Keycode>(
    m: Machine<Z>,
    n: Machine<Z>,
    key: usize,
    kind: Kind,
    value: i16,
)
    requires
        m.is_alike(n),
        key < m.keys.len(),
    ensures
        m.acted(key, kind, value).is_alike(n.acted(key, kind, value)),
{
    assert(n.keys[key as int] == (KeyState {
        pending: n.keys[key as int].pending,
        ..m.keys[key as int]
    }));
    let state = m.keys[key as int];
    if !m.prompt(key) && !state.open {
    } else if state.stamp == m.stamp {
        match state.active {
            Some(combo) => {
                lemma_alike_combined(m, n, key, combo, kind, value);
            },
            None => {},
        }
    } else {
        let a = m.with_key(key, KeyState { stamp: m.stamp, ..state });
        let b = n.with_key(key, KeyState { stamp: n.stamp, ..n.keys[key as int] });
        assert(a.is_alike(b));
        match m.layout.winner(key, m.down) {
            Some(combo) => {
                let group = m.layout.group_at(key, combo);
                assert(a.using(group).is_alike(b.using(group))) by {
                    assert forall|k: int| 0 <= k < a.keys.len() implies #[trigger] b.using(
                        group,
                    ).keys[k] == (KeyState {
                        pending: b.using(group).keys[k].pending,
                        ..a.using(group).keys[k]
                    }) by {
                        assert(b.keys[k] == (KeyState { pending: b.keys[k].pending, ..a.keys[k] }));
                        assert(b.prompt(k as usize) == a.prompt(k as usize));
                    }
                }
                lemma_alike_combined(a.using(group), b.using(group), key, combo, kind, value);
            },
            None => {},
        }
    }
}

/// Keys of machines that are alike act alike through a combo.
proof fn lemma_alike_combined<Z: Keycode>(
    m: Machine<Z>,
    n: Machine<Z>,
    key: usize,
    combo: usize,
    kind: Kind,
    value: i16,
)
    requires
        m.is_alike(n),
        key < m.keys.len(),
    ensures
        m.combined(key, combo, kind, value).is_alike(n.combined(key, combo, kind, value)),
{
    assert(n.keys[key as int] == (KeyState {
        pending: n.keys[key as int].pending,
        ..m.keys[key as int]
    }));
    assert(n.prompt(key) == m.prompt(key));
}

/// The keys that end are keys.
proof fn lemma_ended_keys<Z: Keycode>(m: Machine<Z>, groups: Seq<usize>, ended: Seq<usize>)
    requires
        m.valid(),
        m.empties(groups, ended),
        forall|i: int| 0 <= i < groups.len() ==> #[trigger] groups[i] < m.holders.len(),
    ensures
        forall|i: int| 0 <= i < ended.len() ==> #[trigger] ended[i] < m.keys.len(),
    decreases groups.len(),
{
    if groups.len() > 0 {
        let last = groups.last();
        let rest = groups.drop_last();
        let held = if rest.contains(last) {
            Set::empty()
        } else {
            m.holders[last as int]
        };
        let cut = choose|cut: int|
            0 <= cut <= ended.len() && m.empties(rest, #[trigger] ended.take(cut))
                && model::lists(ended.skip(cut), held);
        lemma_ended_keys(m, rest, ended.take(cut));
        assert(groups[groups.len() - 1] == last);
        assert forall|i: int| 0 <= i < ended.len() implies #[trigger] ended[i] < m.keys.len() by {
            if i < cut {
                assert(ended.take(cut)[i] == ended[i]);
            } else {
                assert(ended.skip(cut)[i - cut] == ended[i]);
                assert(ended.skip(cut).to_set().contains(ended[i]));
                assert(m.holders[last as int].contains(ended[i]));
            }
        }
    }
}

/// Machines that are alike answer an event alike: the counts of pending key-down events do not
/// matter.
pub proof fn counts_do_not_matter<Z: Keycode>(
    m: Machine<Z>,
    n: Machine<Z>,
    key: usize,
    kind: Kind,
    value: i16,
    post: Machine<Z>,
) -> (other: Machine<Z>)
    requires
        m.valid(),
        m.is_alike(n),
        key < m.keys.len(),
        m.leads_to(key, kind, value, post),
    ensures
        n.leads_to(key, kind, value, other),
        post.is_alike(other),
{
    let ended = choose|ended: Seq<usize>| #[trigger]
        m.empties(m.emptied(key, kind), ended) && post == m.after(key, kind, value, ended);
    laws::lemma_emptied(m, key, kind);
    lemma_ended_keys(m, m.emptied(key, kind), ended);
    lemma_alike_closings(m, n, ended);
    assert(n.completes(key) =~= m.completes(key));
    assert(n.leaves(key) =~= m.leaves(key));
    assert(n.emptied(key, kind) == m.emptied(key, kind));
    lemma_alike_empties(m, n, m.emptied(key, kind), ended);
    let other = n.after(key, kind, value, ended);
    assert(n.empties(n.emptied(key, kind), ended));
    match kind {
        Kind::Down => {
            let a = m.lowered(key, ended);
            let b = n.lowered(key, ended);
            assert(a.is_alike(b)) by {
                assert forall|k: int| 0 <= k < a.keys.len() implies #[trigger] b.keys[k]
                    == (KeyState { pending: b.keys[k].pending, ..a.keys[k] }) by {
                    assert(n.keys[k] == (KeyState { pending: n.keys[k].pending, ..m.keys[k] }));
                    assert(n.prompt(k as usize) == m.prompt(k as usize));
                    assert(n.spends(n.completed(key), k as usize) == m.spends(
                        m.completed(key),
                        k as usize,
                    ));
                }
                assert(b.holders =~= a.holders);
            }
            lemma_alike_acted(a, b, key, kind, value);
        },
        Kind::Up => {
            let a = m.raised(key, ended);
            let b = n.raised(key, ended);
            assert(a.is_alike(b)) by {
                assert(b.holders =~= a.holders);
                assert forall|k: int| 0 <= k < a.keys.len() implies #[trigger] b.keys[k]
                    == (KeyState { pending: b.keys[k].pending, ..a.keys[k] }) by {
                    assert(n.keys[k] == (KeyState { pending: n.keys[k].pending, ..m.keys[k] }));
                }
            }
            assert(b.keys[key as int] == (KeyState {
                pending: b.keys[key as int].pending,
                ..a.keys[key as int]
            }));
            assert(a.finished(key).is_alike(b.finished(key)));
        },
        _ => {
            let a = m.moved(key);
            let b = n.moved(key);
            assert(n.keys[key as int] == (KeyState {
                pending: n.keys[key as int].pending,
                ..m.keys[key as int]
            }));
            assert(a.is_alike(b));
            lemma_alike_acted(a, b, key, kind, value);
        },
    }
    other
}

/// The key of a keycode is a key.
pub(super) proof fn lemma_key_of<Z: Keycode>(layout: model::Layout<Z>, code: usize)
    ensures
        layout.key_of(code) is Some ==> layout.key_of(code)->0 < layout.codes.len()
            && layout.codes[layout.key_of(code)->0 as int] == code,
{
}

/// A change of the counts keeps the machine in order.
proof fn lemma_counting_valid<Z: Keycode>(m: Machine<Z>, key: usize, pending: u64)
    requires
        m.valid(),
        key < m.keys.len(),
    ensures
        m.counting(key, pending).valid(),
        m.is_alike(m.counting(key, pending)),
        m.counting(key, pending).is_alike(m),
{
    let n = m.counting(key, pending);
    assert forall|k: usize|
        k < n.keys.len() && (#[trigger] n.keys[k as int]).active is Some implies n.keys[k as int].active->0
        < n.layout.combos[k as int].len() by {
        assert(m.keys[k as int].active is Some);
    }
}

/// As long as events are sane, it does not matter how the handler would treat others: every
/// handler does what the simple one does, and calls the event handled.
pub proof fn sane_event_is_handled_alike<Z: Keycode>(
    policy: Policy,
    m: Machine<Z>,
    simple: Machine<Z>,
    input: Input,
    post: Machine<Z>,
    result: HandlingResult,
) -> (other: Machine<Z>)
    requires
        m.valid(),
        m.is_alike(simple),
        policy != Policy::Simple ==> m.is_tidy(),
        policy.allows(m, input.code, input.kind, input.value, post, result),
        match m.layout.key_of(input.code) {
            Some(key) => m.sane(key, input.kind),
            None => true,
        },
    ensures
        m.layout.key_of(input.code) is Some ==> result == HandlingResult::Handled,
        Policy::Simple.accepts(simple, input.code, input.kind),
        Policy::Simple.allows(simple, input.code, input.kind, input.value, other, result),
        post.is_alike(other),
        policy != Policy::Simple ==> post.is_tidy(),
{
    lemma_key_of(m.layout, input.code);
    match m.layout.key_of(input.code) {
        None => simple,
        Some(key) => {
            let (kind, value) = (input.kind, input.value);
            let start = if policy == Policy::Simple {
                m
            } else {
                match kind {
                    Kind::Down => m.counting(key, 1),
                    Kind::Up => m.counting(key, 0),
                    _ => m,
                }
            };
            assert(policy != Policy::Simple ==> m.keys[key as int].pending == if m.down.contains(
                key,
            ) {
                1
            } else {
                0u64
            });
            lemma_counting_valid(m, key, 1);
            lemma_counting_valid(m, key, 0);
            assert(start.is_alike(simple)) by {
                assert forall|k: int| 0 <= k < m.keys.len() implies #[trigger] simple.keys[k]
                    == (KeyState { pending: simple.keys[k].pending, ..start.keys[k] }) by {
                    assert(simple.keys[k] == (KeyState {
                        pending: simple.keys[k].pending,
                        ..m.keys[k]
                    }));
                }
            }
            assert(start.leads_to(key, kind, value, post));
            let other = counts_do_not_matter(start, simple, key, kind, value, post);
            laws::event_keeps_layout(start, key, kind, value, post);
            if policy != Policy::Simple {
                assert forall|k: usize| k < post.keys.len() implies (
                #[trigger] post.keys[k as int]).pending == if post.down.contains(k) {
                    1
                } else {
                    0u64
                } by {
                    assert(m.keys[k as int].pending == if m.down.contains(k) {
                        1
                    } else {
                        0u64
                    });
                }
            }
            other
        },
    }
}

/// An event keeps the machine in order.
pub proof fn event_keeps_valid<Z: Keycode>(
    m: Machine<Z>,
    key: usize,
    kind: Kind,
    value: i16,
    post: Machine<Z>,
)
    requires
        m.valid(),
        key < m.keys.len(),
        m.leads_to(key, kind, value, post),
    ensures
        post.valid(),
        m.events.is_prefix_of(post.events),
{
    let ended = choose|ended: Seq<usize>| #[trigger]
        m.empties(m.emptied(key, kind), ended) && post == m.after(key, kind, value, ended);
    match kind {
        Kind::Down => {
            let l = m.lowered(key, ended);
            lemma_shape_valid(m, l);
            laws::lemma_acted_valid(l, key, kind, value);
        },
        Kind::Up => {
            let r = m.raised(key, ended);
            lemma_shape_valid(m, r);
            if r.keys[key as int].active is Some {
                assert(r.layout.group_at(key, r.keys[key as int].active->0)
                    < r.layout.members.len());
            }
            lemma_shape_valid(r, post);
        },
        _ => {
            let l = m.moved(key);
            lemma_shape_valid(m, l);
            laws::lemma_acted_valid(l, key, kind, value);
        },
    }
}

/// A machine whose keys stand for the same combos, and whose groups hold less, is in order.
proof fn lemma_shape_valid<Z: Keycode>(m: Machine<Z>, p: Machine<Z>)
    requires
        m.valid(),
        p.layout == m.layout,
        p.down.finite(),
        forall|k: usize| #[trigger] p.down.contains(k) ==> k < m.keys.len(),
        p.keys.len() == m.keys.len(),
        p.holders.len() == m.holders.len(),
        forall|k: int|
            0 <= k < m.keys.len() ==> (#[trigger] p.keys[k]).active == m.keys[k].active,
        forall|g: int|
            0 <= g < m.holders.len() ==> (#[trigger] p.holders[g]).subset_of(m.holders[g]),
    ensures
        p.valid(),
{
    assert forall|k: usize|
        k < p.keys.len() && (#[trigger] p.keys[k as int]).active is Some implies p.keys[k as int].active->0
        < p.layout.combos[k as int].len() by {
        assert(m.keys[k as int].active is Some);
    }
    assert forall|g: usize, k: usize|
        g < p.holders.len() && #[trigger] p.holders[g as int].contains(k) implies k
        < p.keys.len() by {
        assert(p.holders[g as int].subset_of(m.holders[g as int]));
        assert(m.holders[g as int].contains(k));
    }
    assert forall|g: usize| g < p.holders.len() implies (
    #[trigger] p.holders[g as int]).finite() by {
        assert(m.holders[g as int].finite());
        assert(p.holders[g as int].subset_of(m.holders[g as int]));
        vstd::set_lib::lemma_len_subset(p.holders[g as int], m.holders[g as int]);
    }
}

/// Whatever the handler does with an input, the machine stays in order and one that the handler
/// can be in, the layout stays the same, and output is only added.
pub proof fn input_keeps_valid<Z: Keycode>(
    policy: Policy,
    m: Machine<Z>,
    input: Input,
    post: Machine<Z>,
    result: HandlingResult,
)
    requires
        m.valid(),
        policy.suits(m),
        policy.accepts(m, input.code, input.kind),
        policy.allows(m, input.code, input.kind, input.value, post, result),
    ensures
        post.valid(),
        policy.suits(post),
        post.layout == m.layout,
        m.events.is_prefix_of(post.events),
{
    lemma_key_of(m.layout, input.code);
    match m.layout.key_of(input.code) {
        None => {},
        Some(key) => {
            let start = starts_from(policy, m, key, input.kind);
            lemma_starts_valid(policy, m, key, input.kind);
            if result == HandlingResult::Handled {
                event_keeps_valid(start, key, input.kind, input.value, post);
                laws::event_keeps_layout(start, key, input.kind, input.value, post);
                if policy != Policy::Simple {
                    lemma_handled_tracks(policy, m, key, input, post);
                }
            } else {
                let pending = m.keys[key as int].pending;
                if input.kind == Kind::Down {
                    lemma_counting_valid(m, key, (pending + 1) as u64);
                } else {
                    lemma_counting_valid(m, key, (pending - 1) as u64);
                }
            }
        },
    }
}

/// The machine that an event which is handled regularly starts from.
pub(super) open spec fn starts_from<Z: Keycode>(
    policy: Policy,
    m: Machine<Z>,
    key: usize,
    kind: Kind,
) -> Machine<Z> {
    match (policy, kind) {
        (Policy::Simple, _) => m,
        (_, Kind::Down) => m.counting(key, 1),
        (_, Kind::Up) => m.counting(key, 0),
        _ => m,
    }
}

/// The machine that an event starts from is in order.
pub(super) proof fn lemma_starts_valid<Z: Keycode>(policy: Policy, m: Machine<Z>, key: usize, kind: Kind)
    requires
        m.valid(),
        key < m.keys.len(),
    ensures
        starts_from(policy, m, key, kind).valid(),
        m.is_alike(starts_from(policy, m, key, kind)),
{
    lemma_counting_valid(m, key, 1);
    lemma_counting_valid(m, key, 0);
}

/// The counts go on to tell which keys are down.
proof fn lemma_handled_tracks<Z: Keycode>(
    policy: Policy,
    m: Machine<Z>,
    key: usize,
    input: Input,
    post: Machine<Z>,
)
    requires
        policy != Policy::Simple,
        m.valid(),
        m.tracks(),
        m.layout.key_of(input.code) == Some(key),
        key < m.keys.len(),
        policy.allows(m, input.code, input.kind, input.value, post, HandlingResult::Handled),
    ensures
        post.tracks(),
{
    let start = starts_from(policy, m, key, input.kind);
    lemma_starts_valid(policy, m, key, input.kind);
    laws::event_keeps_layout(start, key, input.kind, input.value, post);
    assert forall|k: usize|
        k < post.keys.len() implies (post.down.contains(k) <==> (
    #[trigger] post.keys[k as int]).pending > 0) by {
        assert(m.down.contains(k) <==> m.keys[k as int].pending > 0);
    }
}

/// A strict handler is prepared for every event.
pub proof fn strict_accepts_everything<Z: Keycode>(m: Machine<Z>, input: Input)
    ensures
        Policy::Strict.accepts(m, input.code, input.kind),
{
}

/// An event that is not handled regularly has no effect but on the counts.
pub proof fn ignored_event_has_no_effect<Z: Keycode>(
    policy: Policy,
    m: Machine<Z>,
    input: Input,
    post: Machine<Z>,
    result: HandlingResult,
)
    requires
        m.valid(),
        policy.allows(m, input.code, input.kind, input.value, post, result),
        result != HandlingResult::Handled,
    ensures
        m.is_alike(post),
        result == HandlingResult::Unhandled || policy == Policy::Strict ==> post == m,
{
    lemma_key_of(m.layout, input.code);
    match m.layout.key_of(input.code) {
        None => {},
        Some(key) => {
            let pending = m.keys[key as int].pending;
            lemma_counting_valid(m, key, (pending + 1) as u64);
            lemma_counting_valid(m, key, (pending - 1) as u64);
        },
    }
}

/// A handler that counts has an effect only when the first key-down of a key comes, and when as
/// many key-up events as key-down events have come.
pub proof fn counting_acts_when_balanced<Z: Keycode>(
    m: Machine<Z>,
    key: usize,
    input: Input,
    post: Machine<Z>,
    result: HandlingResult,
)
    requires
        m.layout.key_of(input.code) == Some(key),
        Policy::Counting.allows(m, input.code, input.kind, input.value, post, result),
    ensures
        input.kind == Kind::Down ==> (result == HandlingResult::Handled
            <==> m.keys[key as int].pending == 0),
        input.kind == Kind::Up ==> (result == HandlingResult::Handled
            <==> m.keys[key as int].pending == 1),
{
}

/// The axis of a key that is down moves only while the key is steady.
pub open spec fn is_calm_run<Z: Keycode>(machines: Seq<Machine<Z>>, inputs: Seq<Input>) -> bool {
    forall|i: int|
        #![trigger inputs[i]]
        0 <= i < inputs.len() && inputs[i].kind != Kind::Down && inputs[i].kind != Kind::Up
            ==> match machines[i].layout.key_of(inputs[i].code) {
            Some(key) => machines[i].down.contains(key) ==> machines[i].is_steady(key),
            None => true,
        }
}

/// A run without its last input.
pub(super) proof fn lemma_shorter_run<Z: Keycode>(
    policy: Policy,
    machines: Seq<Machine<Z>>,
    inputs: Seq<Input>,
    results: Seq<HandlingResult>,
)
    requires
        inputs.len() > 0,
        runs(policy, machines, inputs, results),
    ensures
        runs(policy, machines.drop_last(), inputs.drop_last(), results.drop_last()),
        is_sane_run(machines, inputs) ==> is_sane_run(machines.drop_last(), inputs.drop_last()),
        is_calm_run(machines, inputs) ==> is_calm_run(machines.drop_last(), inputs.drop_last()),
{
    let (ms, is, rs) = (machines.drop_last(), inputs.drop_last(), results.drop_last());
    assert forall|i: int|
        #![trigger is[i]]
        0 <= i < is.len() implies policy.accepts(ms[i], is[i].code, is[i].kind) && policy.allows(
        ms[i],
        is[i].code,
        is[i].kind,
        is[i].value,
        ms[i + 1],
        rs[i],
    ) by {
        assert(is[i] == inputs[i]);
    }
    if is_sane_run(machines, inputs) {
        assert forall|i: int|
            #![trigger is[i]]
            0 <= i < is.len() implies match ms[i].layout.key_of(is[i].code) {
            Some(key) => ms[i].sane(key, is[i].kind),
            None => true,
        } by {
            assert(is[i] == inputs[i]);
        }
    }
    if is_calm_run(machines, inputs) {
        assert forall|i: int|
            #![trigger is[i]]
            0 <= i < is.len() && is[i].kind != Kind::Down && is[i].kind != Kind::Up implies match ms[i].layout.key_of(
        is[i].code) {
            Some(key) => ms[i].down.contains(key) ==> ms[i].is_steady(key),
            None => true,
        } by {
            assert(is[i] == inputs[i]);
        }
    }
}

/// On sane sequences all handlers do the same: there is a run of the simple handler with the same
/// inputs, results and output.
pub proof fn sane_runs_are_alike<Z: Keycode>(
    policy: Policy,
    machines: Seq<Machine<Z>>,
    inputs: Seq<Input>,
    results: Seq<HandlingResult>,
    simple: Machine<Z>,
) -> (others: Seq<Machine<Z>>)
    requires
        runs(policy, machines, inputs, results),
        is_sane_run(machines, inputs),
        machines[0].valid(),
        machines[0].is_alike(simple),
        policy != Policy::Simple ==> machines[0].is_tidy(),
    ensures
        runs(Policy::Simple, others, inputs, results),
        others[0] == simple,
        forall|i: int|
            0 <= i < machines.len() ==> (#[trigger] machines[i]).valid() && machines[i].is_alike(
                others[i],
            ),
        policy != Policy::Simple ==> machines.last().is_tidy(),
    decreases inputs.len(),
{
    if inputs.len() == 0 {
        seq![simple]
    } else {
        let n = inputs.len() - 1;
        lemma_shorter_run(policy, machines, inputs, results);
        let (ms, is, rs) = (machines.drop_last(), inputs.drop_last(), results.drop_last());
        let before = sane_runs_are_alike(policy, ms, is, rs, simple);
        assert(ms[n] == machines[n]);
        assert(ms[n].is_alike(before[n]));
        let m = machines[n];
        let input = inputs[n];
        let last = sane_event_is_handled_alike(
            policy,
            m,
            before[n],
            input,
            machines[n + 1],
            results[n],
        );
        let others = before.push(last);
        assert forall|i: int|
            #![trigger inputs[i]]
            0 <= i < inputs.len() implies Policy::Simple.accepts(
            others[i],
            inputs[i].code,
            inputs[i].kind,
        ) && Policy::Simple.allows(
            others[i],
            inputs[i].code,
            inputs[i].kind,
            inputs[i].value,
            others[i + 1],
            results[i],
        ) by {
            if i < n {
                assert(is[i] == inputs[i]);
            }
        }
        lemma_key_of(m.layout, input.code);
        assert(machines[n + 1].valid()) by {
            match m.layout.key_of(input.code) {
                None => {},
                Some(key) => {
                    let start = starts_from(policy, m, key, input.kind);
                    lemma_starts_valid(policy, m, key, input.kind);
                    assert(policy != Policy::Simple ==> m.keys[key as int].pending
                        == if m.down.contains(key) {
                        1
                    } else {
                        0u64
                    });
                    event_keeps_valid(start, key, input.kind, input.value, machines[n + 1]);
                },
            }
        }
        assert forall|i: int| 0 <= i < machines.len() implies (#[trigger] machines[i]).valid()
            && machines[i].is_alike(others[i]) by {
            if i <= n {
                assert(ms[i] == machines[i]);
            }
        }
        others
    }
}

/// Machines that are alike sound alike.
proof fn lemma_alike_sound<Z: Keycode>(m: Machine<Z>, n: Machine<Z>)
    requires
        m.is_alike(n),
    ensures
        n.is_sound() == m.is_sound(),
        n.sounding() == m.sounding(),
{
    assert forall|k: int| 0 <= k < m.keys.len() implies (#[trigger] n.keys[k]).active
        == m.keys[k].active && n.prompt(k as usize) == m.prompt(k as usize) && n.output(k as usize)
        == m.output(k as usize) && n.keys[k].open == m.keys[k].open && n.keys[k].latching
        == m.keys[k].latching by {
        assert(n.keys[k] == (KeyState { pending: n.keys[k].pending, ..m.keys[k] }));
    }
    assert forall|k: usize| #[trigger] n.sounds(k) == m.sounds(k) && (m.sounds(k) ==> n.output(k)
        == m.output(k)) by {
        if k < m.keys.len() {
            assert(n.keys[k as int].active == m.keys[k as int].active);
        }
    }
    assert(n.sounding() =~= m.sounding());
    if m.is_sound() {
        lemma_alike_is_sound(m, n);
    }
    if n.is_sound() {
        assert(n.is_alike(m));
        lemma_alike_is_sound(n, m);
    }
}

/// A machine that is like a sound one is sound.
proof fn lemma_alike_is_sound<Z: Keycode>(m: Machine<Z>, n: Machine<Z>)
    requires
        m.is_alike(n),
        m.is_sound(),
    ensures
        n.is_sound(),
{
    assert forall|k: usize|
        k < n.keys.len() && (#[trigger] n.keys[k as int]).active is Some implies n.keys[k as int].active->0
        < n.layout.combos[k as int].len() by {
        assert(m.keys[k as int].active is Some);
    }
    assert forall|g: usize, k: usize|
        g < n.holders.len() && #[trigger] n.holders[g as int].contains(k) implies {
        &&& n.down.contains(k)
        &&& n.keys[k as int].active is Some
        &&& n.layout.group_at(k, n.keys[k as int].active->0) == g
        &&& !n.keys[k as int].latching
        &&& n.prompt(k) && n.output(k) is Some ==> n.keys[k as int].open
    } by {
        assert(m.holders[g as int].contains(k));
        assert(n.keys[k as int] == (KeyState {
            pending: n.keys[k as int].pending,
            ..m.keys[k as int]
        }));
        assert(n.prompt(k) == m.prompt(k));
        assert(n.output(k) == m.output(k));
    }
}

/// The events that the second machine has emitted more than the first are due to keys that make
/// them a sane sequence.
pub open spec fn is_sane_output<Z: Keycode>(first: Machine<Z>, last: Machine<Z>) -> bool {
    let said = last.events.skip(first.events.len() as int);
    &&& last.events == first.events + said
    &&& exists|by: Seq<usize>|
        by.len() == said.len() && #[trigger] laws::replay(first.sounding(), said, by) == Some(
            last.sounding(),
        )
}

/// What a handler emits is a sane sequence for each key, whatever the handler and the inputs that
/// it accepts.
pub proof fn run_output_is_sane<Z: Keycode>(
    policy: Policy,
    machines: Seq<Machine<Z>>,
    inputs: Seq<Input>,
    results: Seq<HandlingResult>,
)
    requires
        runs(policy, machines, inputs, results),
        is_calm_run(machines, inputs),
        machines[0].is_sound(),
        policy.suits(machines[0]),
    ensures
        machines.last().is_sound(),
        policy.suits(machines.last()),
        is_sane_output(machines[0], machines.last()),
    decreases inputs.len(),
{
    let first = machines[0];
    if inputs.len() == 0 {
        let said = first.events.skip(first.events.len() as int);
        assert(said =~= Seq::<Event<Z>>::empty());
        assert(first.events =~= first.events + said);
        assert(laws::replay(first.sounding(), said, Seq::<usize>::empty()) == Some(
            first.sounding(),
        ));
    } else {
        let n = inputs.len() - 1;
        lemma_shorter_run(policy, machines, inputs, results);
        let (ms, is, rs) = (machines.drop_last(), inputs.drop_last(), results.drop_last());
        run_output_is_sane(policy, ms, is, rs);
        let m = machines[n];
        let post = machines[n + 1];
        let input = inputs[n];
        assert(ms.last() == m);
        assert(ms[0] == first);
        lemma_input_answer(policy, m, input, post, results[n]);
        input_keeps_valid(policy, m, input, post, results[n]);
        lemma_answers_add(first, m, post);
    }
}

/// One answer after the others.
proof fn lemma_answers_add<Z: Keycode>(first: Machine<Z>, m: Machine<Z>, post: Machine<Z>)
    requires
        is_sane_output(first, m),
        is_sane_output(m, post),
    ensures
        is_sane_output(first, post),
{
    let a = m.events.skip(first.events.len() as int);
    let b = post.events.skip(m.events.len() as int);
    let all = post.events.skip(first.events.len() as int);
    let by_a = choose|by: Seq<usize>|
        by.len() == a.len() && #[trigger] laws::replay(first.sounding(), a, by) == Some(
            m.sounding(),
        );
    let by_b = choose|by: Seq<usize>|
        by.len() == b.len() && #[trigger] laws::replay(m.sounding(), b, by) == Some(
            post.sounding(),
        );
    assert(all =~= a + b);
    assert(post.events =~= first.events + all);
    laws::lemma_replay_add(first.sounding(), a, by_a, b, by_b);
    assert(laws::replay(first.sounding(), all, by_a + by_b) == Some(post.sounding()));
}

/// What a handler answers to an input is sane.
proof fn lemma_input_answer<Z: Keycode>(
    policy: Policy,
    m: Machine<Z>,
    input: Input,
    post: Machine<Z>,
    result: HandlingResult,
)
    requires
        m.is_sound(),
        policy.suits(m),
        policy.accepts(m, input.code, input.kind),
        policy.allows(m, input.code, input.kind, input.value, post, result),
        input.kind != Kind::Down && input.kind != Kind::Up ==> match m.layout.key_of(input.code) {
            Some(key) => m.down.contains(key) ==> m.is_steady(key),
            None => true,
        },
    ensures
        post.is_sound(),
        is_sane_output(m, post),
{
    lemma_key_of(m.layout, input.code);
    if result != HandlingResult::Handled {
        ignored_event_has_no_effect(policy, m, input, post, result);
        lemma_alike_sound(m, post);
        let said = post.events.skip(m.events.len() as int);
        assert(said =~= Seq::<Event<Z>>::empty());
        assert(post.events =~= m.events + said);
        assert(laws::replay(m.sounding(), said, Seq::<usize>::empty()) == Some(post.sounding()));
    } else {
        let key = m.layout.key_of(input.code)->0;
        let start = starts_from(policy, m, key, input.kind);
        lemma_starts_valid(policy, m, key, input.kind);
        lemma_alike_sound(m, start);
        assert(policy != Policy::Simple ==> (m.down.contains(key) <==> m.keys[key as int].pending
            > 0));
        assert(start.is_steady(key) == m.is_steady(key)) by {
            assert(start.sounds(key) == m.sounds(key)) by {
                assert(start.sounding().dom().contains(key) == m.sounding().dom().contains(key));
            }
        }
        laws::output_is_sane(start, key, input.kind, input.value, post);
        let said = post.events.skip(m.events.len() as int);
        let by = choose|by: Seq<usize>|
            {
                &&& by.len() == said.len()
                &&& #[trigger] laws::replay(start.sounding(), said, by) == Some(post.sounding())
                &&& forall|i: int|
                    0 <= i < said.len() && (#[trigger] said[i]).kind == Kind::Down ==> by[i] == key
            };
        assert(laws::replay(m.sounding(), said, by) == Some(post.sounding()));
    }
}

/// A new handler is sound, no key sounds, and its counts tell which keys are down: none.
pub proof fn new_handler_is_sound<A: Keycode, Z: Keycode>(config: &Config<A, Z>, m: Machine<Z>)
    requires
        m.valid(),
        config.outlines(m),
    ensures
        m.is_sound(),
        m.sounding() == Map::<usize, Z>::empty(),
        m.is_tidy(),
        forall|policy: Policy| #[trigger] policy.suits(m),
{
    assert(m.sounding() =~= Map::<usize, Z>::empty());
}

} // verus!

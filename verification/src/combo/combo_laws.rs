//! What a key does between its press and its release, whatever other keys do meanwhile.
use crate::combo::conflict_laws::{gives_way, is_meant, is_muted, is_pressed, stands};
use crate::combo::key_laws::{acts_on_press, is_drawn_in, is_dropped, is_ousted, relies_on};
use crate::combo::key_laws::{saying, ups, voice, waits};
use crate::combo::model::Machine;
use crate::combo::policy::Policy;
use crate::combo::policy_laws::Input;
use crate::combo::{conflict_laws, group_laws, key_laws, laws, policy_laws};
use crate::types::{Event, HandlingResult, Keycode, Kind};
use vstd::prelude::*;

verus! {

/// A simple handler goes through the machines, without an event of the key, and each machine is
/// orderly. The axis of a key that is down moves only while the key is steady, and the stamps are
/// not used up.
pub open spec fn is_pause<Z: Keycode>(
    machines: Seq<Machine<Z>>,
    inputs: Seq<Input>,
    results: Seq<HandlingResult>,
    key: usize,
) -> bool {
    &&& policy_laws::runs(Policy::Simple, machines, inputs, results)
    &&& policy_laws::is_calm_run(machines, inputs)
    &&& machines[0].is_orderly()
    &&& machines[0].is_young()
    &&& machines[0].stamp + inputs.len() < u64::MAX
    &&& forall|i: int|
        #![trigger inputs[i]]
        0 <= i < inputs.len() ==> machines[0].layout.key_of(inputs[i].code) != Some(key)
}

/// A pause without its last input.
proof fn lemma_shorter_pause<Z: Keycode>(
    machines: Seq<Machine<Z>>,
    inputs: Seq<Input>,
    results: Seq<HandlingResult>,
    key: usize,
)
    requires
        inputs.len() > 0,
        is_pause(machines, inputs, results, key),
    ensures
        is_pause(machines.drop_last(), inputs.drop_last(), results.drop_last(), key),
{
    policy_laws::lemma_shorter_run(Policy::Simple, machines, inputs, results);
    let is = inputs.drop_last();
    assert forall|i: int|
        #![trigger is[i]]
        0 <= i < is.len() implies machines[0].layout.key_of(is[i].code) != Some(key) by {
        assert(is[i] == inputs[i]);
    }
}

/// Sane inputs, of any length that does not use up the stamps, keep a machine orderly, and its
/// layout.
pub proof fn run_keeps_order<Z: Keycode>(
    machines: Seq<Machine<Z>>,
    inputs: Seq<Input>,
    results: Seq<HandlingResult>,
)
    requires
        policy_laws::runs(Policy::Simple, machines, inputs, results),
        policy_laws::is_calm_run(machines, inputs),
        machines[0].is_orderly(),
        machines[0].is_young(),
        machines[0].stamp + inputs.len() < u64::MAX,
    ensures
        machines.last().layout == machines[0].layout,
        machines.last().keys.len() == machines[0].keys.len(),
        machines.last().is_orderly(),
        machines.last().is_young(),
        machines.last().is_fresh(),
        machines.last().stamp <= machines[0].stamp + inputs.len(),
    decreases inputs.len(),
{
    if inputs.len() > 0 {
        let n = inputs.len() - 1;
        let (ms, is, rs) = (machines.drop_last(), inputs.drop_last(), results.drop_last());
        policy_laws::lemma_shorter_run(Policy::Simple, machines, inputs, results);
        run_keeps_order(ms, is, rs);
        let (m, post, input) = (machines[n], machines[n + 1], inputs[n]);
        assert(ms.last() == m);
        policy_laws::lemma_key_of(m.layout, input.code);
        match m.layout.key_of(input.code) {
            None => {},
            Some(key) => {
                group_laws::young_machine_is_fresh(m, key, input.kind, input.value, post);
                key_laws::event_keeps_order(m, key, input.kind, input.value, post);
                laws::event_keeps_layout(m, key, input.kind, input.value, post);
            },
        }
    }
    assert(machines.last().is_fresh());
}

/// What other keys do to a key does not give its release an effect, nor change what the key stands
/// for, how it acts, or whether it is down.
pub proof fn pause_leaves_key<Z: Keycode>(
    machines: Seq<Machine<Z>>,
    inputs: Seq<Input>,
    results: Seq<HandlingResult>,
    key: usize,
)
    requires
        is_pause(machines, inputs, results, key),
        key < machines[0].keys.len(),
    ensures
        machines.last().is_orderly(),
        machines.last().is_fresh(),
        machines.last().layout == machines[0].layout,
        machines.last().keys.len() == machines[0].keys.len(),
        machines.last().down.contains(key) == machines[0].down.contains(key),
        machines.last().keys[key as int].active == machines[0].keys[key as int].active,
        machines.last().keys[key as int].immediate == machines[0].keys[key as int].immediate,
        machines.last().keys[key as int].latching == machines[0].keys[key as int].latching,
        machines.last().keys[key as int].open ==> machines[0].keys[key as int].open,
    decreases inputs.len(),
{
    run_keeps_order(machines, inputs, results);
    if inputs.len() > 0 {
        let n = inputs.len() - 1;
        let (ms, is, rs) = (machines.drop_last(), inputs.drop_last(), results.drop_last());
        lemma_shorter_pause(machines, inputs, results, key);
        pause_leaves_key(ms, is, rs, key);
        run_keeps_order(ms, is, rs);
        let (m, post, input) = (machines[n], machines[n + 1], inputs[n]);
        assert(ms.last() == m);
        policy_laws::lemma_key_of(m.layout, input.code);
        match m.layout.key_of(input.code) {
            None => {},
            Some(pressed) => {
                assert(pressed != key);
                lemma_other_event(m, pressed, input.kind, input.value, post, key);
            },
        }
    }
}

/// An event of another key.
proof fn lemma_other_event<Z: Keycode>(
    m: Machine<Z>,
    key: usize,
    kind: Kind,
    value: i16,
    post: Machine<Z>,
    other: usize,
)
    requires
        m.is_orderly(),
        m.is_fresh(),
        key < m.keys.len(),
        other < m.keys.len(),
        other != key,
        m.sane(key, kind),
        m.leads_to(key, kind, value, post),
    ensures
        post.down.contains(other) == m.down.contains(other),
        post.keys[other as int].active == m.keys[other as int].active,
        post.keys[other as int].immediate == m.keys[other as int].immediate,
        post.keys[other as int].latching == m.keys[other as int].latching,
        post.keys[other as int].open ==> m.keys[other as int].open,
{
    laws::event_keeps_layout(m, key, kind, value, post);
    match kind {
        Kind::Down => key_laws::press_sets_other_key(m, key, value, post, other),
        Kind::Up => key_laws::release_sets_keys(m, key, value, post, other),
        _ => key_laws::axis_sets_other_key(m, key, kind, value, post, other),
    }
}

/// A key whose release has no effect is released in silence: nothing is emitted but the ends of the
/// combos of the groups that it is part of, and no end of a combo of its own.
pub proof fn closed_key_is_released_in_silence<Z: Keycode>(
    m: Machine<Z>,
    key: usize,
    value: i16,
    post: Machine<Z>,
) -> (ended: Seq<usize>)
    requires
        m.is_orderly(),
        key < m.keys.len(),
        m.down.contains(key),
        !m.keys[key as int].open,
        m.leads_to(key, Kind::Up, value, post),
    ensures
        forall|k: usize| #[trigger] ended.contains(k) <==> is_dropped(m, k, key),
        post.events == m.events + ups(m, ended),
        is_dropped(m, key, key) ==> ups(m, seq![key]) == Seq::<Event<Z>>::empty(),
{
    let ended = key_laws::release_emits(m, key, value, post);
    let closed = m.events + ups(m, ended);
    assert(closed + Seq::<Event<Z>>::empty() =~= closed);
    if is_dropped(m, key, key) {
        lemma_silent_end(m, key);
    }
    ended
}

/// A key whose release has no effect emits nothing when its combo ends.
proof fn lemma_silent_end<Z: Keycode>(m: Machine<Z>, key: usize)
    requires
        m.is_sound(),
        !m.keys[key as int].open,
        exists|g: usize| g < m.holders.len() && #[trigger] m.holders[g as int].contains(key),
    ensures
        ups(m, seq![key]) == Seq::<Event<Z>>::empty(),
{
    let g = choose|g: usize| g < m.holders.len() && #[trigger] m.holders[g as int].contains(key);
    assert(m.prompt(key) && m.output(key) is Some ==> m.keys[key as int].open);
    assert(waits(m, key) == !m.prompt(key));
    let one = seq![key];
    assert(one.drop_last() =~= Seq::<usize>::empty());
    assert(one.last() == key);
    assert(ups(m, one.drop_last()) =~= Seq::<Event<Z>>::empty());
    assert(ups(m, one) =~= Seq::<Event<Z>>::empty());
}

/// A key that is pressed while something mutes it, and that stands for no combo, says nothing, from
/// its press to its release, whatever other keys do meanwhile. It does not matter whether it waits
/// for key-up.
pub proof fn muted_key_is_silent<Z: Keycode>(
    m: Machine<Z>,
    key: usize,
    value: i16,
    machines: Seq<Machine<Z>>,
    inputs: Seq<Input>,
    results: Seq<HandlingResult>,
    post: Machine<Z>,
) -> (ended: (Seq<usize>, Seq<usize>))
    requires
        m.is_orderly(),
        m.is_fresh(),
        key < m.keys.len(),
        !m.down.contains(key),
        m.leads_to(key, Kind::Down, value, machines[0]),
        is_muted(m.layout, m.down.insert(key)),
        forall|c: usize| !#[trigger] stands(m.layout, key, c, m.down.insert(key)),
        is_pause(machines, inputs, results, key),
        machines.last().leads_to(key, Kind::Up, value, post),
    ensures
        !ended.0.contains(key),
        machines[0].events == m.events + ups(m, ended.0),
        post.events == machines.last().events + ups(machines.last(), ended.1),
        ended.1.contains(key) ==> ups(machines.last(), seq![key]) == Seq::<Event<Z>>::empty(),
{
    let pressed = machines[0];
    let down = m.down.insert(key);
    key_laws::press_sets_key(m, key, value, pressed);
    let answer = key_laws::press_emits(m, key, value, pressed);
    laws::event_keeps_layout(m, key, Kind::Down, value, pressed);
    assert(answer.1 is None);
    let closed = m.events + ups(m, answer.0);
    assert(closed + Seq::<Event<Z>>::empty() =~= closed);
    if is_ousted(m, key, down) {
        let g = choose|g: usize|
            g < m.holders.len() && #[trigger] m.holders[g as int].contains(key) && gives_way(
                m.layout,
                g,
                down,
            );
        assert(m.down.contains(key));
    }
    pause_leaves_key(machines, inputs, results, key);
    let last = closed_key_is_released_in_silence(machines.last(), key, value, post);
    (answer.0, last)
}

/// The group is pressed and does not give way, all the time.
pub open spec fn stays_in_force<Z: Keycode>(machines: Seq<Machine<Z>>, group: usize) -> bool {
    forall|i: int|
        #![trigger machines[i]]
        0 <= i < machines.len() ==> is_pressed(machines[i].layout, group, machines[i].down)
            && !gives_way(machines[i].layout, group, machines[i].down)
}

/// A key that acts through a group goes on to do so as long as the group is pressed and does not
/// give way, whatever other keys do.
pub proof fn combo_lasts_as_long_as_its_group<Z: Keycode>(
    machines: Seq<Machine<Z>>,
    inputs: Seq<Input>,
    results: Seq<HandlingResult>,
    key: usize,
    group: usize,
)
    requires
        is_pause(machines, inputs, results, key),
        key < machines[0].keys.len(),
        group < machines[0].layout.members.len(),
        machines[0].holders[group as int].contains(key),
        stays_in_force(machines, group),
    ensures
        machines.last().holders[group as int].contains(key),
    decreases inputs.len(),
{
    if inputs.len() > 0 {
        let n = inputs.len() - 1;
        let (ms, is, rs) = (machines.drop_last(), inputs.drop_last(), results.drop_last());
        lemma_shorter_pause(machines, inputs, results, key);
        assert forall|i: int|
            #![trigger ms[i]]
            0 <= i < ms.len() implies is_pressed(ms[i].layout, group, ms[i].down) && !gives_way(
            ms[i].layout,
            group,
            ms[i].down,
        ) by {
            assert(ms[i] == machines[i]);
        }
        combo_lasts_as_long_as_its_group(ms, is, rs, key, group);
        run_keeps_order(ms, is, rs);
        let (m, post, input) = (machines[n], machines[n + 1], inputs[n]);
        assert(ms.last() == m);
        policy_laws::lemma_key_of(m.layout, input.code);
        match m.layout.key_of(input.code) {
            None => {},
            Some(other) => {
                assert(other != key);
                laws::event_keeps_layout(m, other, input.kind, input.value, post);
                match input.kind {
                    Kind::Down => {
                        key_laws::press_sets_groups(m, other, input.value, post, group, key);
                    },
                    Kind::Up => {
                        assert(is_pressed(post.layout, group, post.down));
                        assert(!m.layout.members[group as int].contains(other));
                        key_laws::release_sets_groups(m, other, input.value, post, group, key);
                    },
                    _ => {
                        let _ = key_laws::axis_emits(m, other, input.kind, input.value, post);
                    },
                }
            },
        }
    }
}

/// A key that is not latching, and that stands for a combo on its press, acts through the combo's
/// group for as long as that is pressed and does not give way. When a key of the group is
/// released, the combo ends: its key-up event is emitted, unless the key waits for key-up, and the
/// release of the key itself has no effect any more.
pub proof fn combo_ends_with_its_group<Z: Keycode>(
    m: Machine<Z>,
    key: usize,
    value: i16,
    combo: usize,
    machines: Seq<Machine<Z>>,
    inputs: Seq<Input>,
    results: Seq<HandlingResult>,
    modifier: usize,
    post: Machine<Z>,
)
    requires
        m.is_orderly(),
        m.is_fresh(),
        key < m.keys.len(),
        !m.down.contains(key),
        !m.keys[key as int].latching,
        acts_on_press(m, key),
        stands(m.layout, key, combo, m.down.insert(key)),
        m.leads_to(key, Kind::Down, value, machines[0]),
        is_pause(machines, inputs, results, key),
        stays_in_force(machines, m.layout.combos[key as int][combo as int].group),
        modifier != key,
        m.layout.members[m.layout.combos[key as int][combo as int].group as int].contains(modifier),
        machines.last().leads_to(modifier, Kind::Up, value, post),
    ensures
        !post.keys[key as int].open,
        match m.layout.combos[key as int][combo as int].action {
            Some(keycode) => !waits(m, key) ==> post.events.skip(
                machines.last().events.len() as int,
            ).contains(Event { keycode, kind: Kind::Up, value: 0 }),
            None => true,
        },
{
    let pressed = machines[0];
    let last = machines.last();
    let group = m.layout.combos[key as int][combo as int].group;
    assert(is_pressed(m.layout, group, m.down.insert(key)));
    key_laws::press_sets_key(m, key, value, pressed);
    key_laws::press_sets_groups(m, key, value, pressed, group, key);
    laws::event_keeps_layout(m, key, Kind::Down, value, pressed);
    pause_leaves_key(machines, inputs, results, key);
    combo_lasts_as_long_as_its_group(machines, inputs, results, key, group);
    assert(is_pressed(machines[machines.len() - 1].layout, group, last.down));
    assert(last.down.contains(modifier));
    assert(last.holders[group as int].contains(key));
    assert(is_dropped(last, key, modifier));
    key_laws::release_sets_keys(last, modifier, value, post, key);
    let ended = key_laws::release_emits(last, modifier, value, post);
    assert(ended.contains(key));
    assert(waits(last, key) == waits(m, key));
    match m.layout.combos[key as int][combo as int].action {
        Some(keycode) => {
            if !waits(m, key) {
                let up = Event { keycode, kind: Kind::Up, value: 0i16 };
                lemma_ups_contain(last, ended, key, up);
                let i = choose|i: int| 0 <= i < ups(last, ended).len() && ups(last, ended)[i] == up;
                assert(post.events.skip(last.events.len() as int)[i] == up);
            }
        },
        None => {},
    }
}

/// The ends of combos have the part of each key.
proof fn lemma_ups_contain<Z: Keycode>(
    m: Machine<Z>,
    ended: Seq<usize>,
    key: usize,
    event: Event<Z>,
)
    requires
        ended.contains(key),
        !waits(m, key),
        m.keys[key as int].active is Some,
        saying(voice(m, key), Kind::Up, 0) == seq![event],
    ensures
        ups(m, ended).contains(event),
    decreases ended.len(),
{
    let rest = ups(m, ended.drop_last());
    if ended.last() == key {
        assert(ups(m, ended)[rest.len() as int] == event);
    } else {
        let at = choose|at: int| 0 <= at < ended.len() && ended[at] == key;
        assert(ended.drop_last()[at] == key);
        lemma_ups_contain(m, ended.drop_last(), key, event);
        let i = choose|i: int| 0 <= i < rest.len() && rest[i] == event;
        assert(ups(m, ended)[i] == event);
    }
}

/// The release of an action key ends what its press began: if nothing happens in between, exactly
/// two events are emitted, of what the key means, or none if it means nothing.
pub proof fn tap_goes_down_and_up<Z: Keycode>(
    m: Machine<Z>,
    key: usize,
    value: i16,
    pressed: Machine<Z>,
    post: Machine<Z>,
) -> (said: Option<Z>)
    requires
        m.is_orderly(),
        m.is_young(),
        m.stamp < u64::MAX - 1,
        key < m.keys.len(),
        !m.down.contains(key),
        forall|g: usize|
            g < m.layout.members.len() ==> !#[trigger] m.layout.members[g as int].contains(key),
        m.leads_to(key, Kind::Down, value, pressed),
        pressed.leads_to(key, Kind::Up, value, post),
    ensures
        is_meant(m.layout, key, m.down, said),
        post.events == m.events + saying(said, Kind::Down, value) + saying(said, Kind::Up, 0),
{
    let down = m.down.insert(key);
    group_laws::young_machine_is_fresh(m, key, Kind::Down, value, pressed);
    key_laws::event_keeps_order(m, key, Kind::Down, value, pressed);
    laws::event_keeps_layout(m, key, Kind::Down, value, pressed);
    assert(!waits(m, key));
    group_laws::press_of_action_key(m, key, value, pressed);
    let said = m.layout.spoken(key, m.down);
    conflict_laws::spoken_is_meant(m.layout, key, m.down);
    key_laws::press_sets_key(m, key, value, pressed);
    let ended = key_laws::release_emits(pressed, key, value, post);
    assert(!waits(pressed, key));
    assert(ended =~= Seq::<usize>::empty()) by {
        if ended.len() > 0 {
            assert(ended.contains(ended[0]));
            assert(is_dropped(pressed, ended[0], key));
        }
    }
    assert(pressed.events + ups(pressed, ended) =~= pressed.events);
    lemma_action_key_means(m, key, pressed);
    said
}

/// What an action key stands for after its press, and whether its release has an effect.
proof fn lemma_action_key_means<Z: Keycode>(m: Machine<Z>, key: usize, pressed: Machine<Z>)
    requires
        m.valid(),
        key < m.keys.len(),
        !m.down.contains(key),
        forall|g: usize|
            g < m.layout.members.len() ==> !#[trigger] m.layout.members[g as int].contains(key),
        pressed.layout == m.layout,
        forall|c: usize| #[trigger]
            stands(m.layout, key, c, m.down.insert(key)) ==> pressed.keys[key as int].active
                == Some(c) && pressed.keys[key as int].open
                == (m.layout.combos[key as int][c as int].action is Some),
        (forall|c: usize| !#[trigger] stands(m.layout, key, c, m.down.insert(key)))
            ==> pressed.keys[key as int].active is None && pressed.keys[key as int].open
            == !is_muted(m.layout, m.down.insert(key)),
    ensures
        m.layout.spoken(key, m.down) == if pressed.keys[key as int].open {
            voice(pressed, key)
        } else {
            None
        },
{
    let down = m.down.insert(key);
    assert forall|g: usize| #[trigger] m.layout.full(g, m.down) == m.layout.full(g, down) by {
        if g < m.layout.members.len() {
            assert(!m.layout.members[g as int].contains(key));
            assert(m.layout.members[g as int].subset_of(m.down)
                == m.layout.members[g as int].subset_of(down)) by {
                if m.layout.members[g as int].subset_of(down) {
                    assert forall|k: usize| m.layout.members[g as int].contains(
                        k,
                    ) implies m.down.contains(k) by {
                        assert(down.contains(k));
                    }
                }
            }
        }
    }
    group_laws::winner_depends_on_groups(m.layout, key, m.down, down);
    conflict_laws::spoken_is_meant(m.layout, key, down);
    assert(is_meant(m.layout, key, down, m.layout.spoken(key, down)));
    if exists|c: usize| #[trigger] stands(m.layout, key, c, down) {
        let c = choose|c: usize| #[trigger] stands(m.layout, key, c, down);
        assert(is_meant(m.layout, key, down, m.layout.combos[key as int][c as int].action));
    }
}

/// A modifier key that waits for key-up performs its action at key-up if it was not used: if it is
/// pressed and released and nothing happens in between, its key-down and its key-up event end what
/// is emitted. It is used if it completes a group of several keys, and what it means is that of
/// its press.
pub proof fn unused_modifier_acts_at_release<Z: Keycode>(
    m: Machine<Z>,
    key: usize,
    value: i16,
    pressed: Machine<Z>,
    post: Machine<Z>,
) -> (answer: (Seq<usize>, Seq<usize>, Option<Z>))
    requires
        m.is_orderly(),
        m.is_young(),
        m.stamp < u64::MAX - 1,
        key < m.keys.len(),
        !m.down.contains(key),
        waits(m, key),
        forall|c: usize|
            c < m.layout.combos[key as int].len() ==> !m.layout.members[(
            #[trigger] m.layout.combos[key as int][c as int]).group as int].contains(key),
        m.leads_to(key, Kind::Down, value, pressed),
        pressed.leads_to(key, Kind::Up, value, post),
    ensures
        pressed.events == m.events + ups(m, answer.0),
        acts_on_press(m, key) ==> is_meant(m.layout, key, m.down.insert(key), answer.2),
        post.events == pressed.events + ups(pressed, answer.1) + if acts_on_press(m, key) {
            saying(answer.2, Kind::Down, 0) + saying(answer.2, Kind::Up, 0)
        } else {
            Seq::empty()
        },
{
    let down = m.down.insert(key);
    group_laws::young_machine_is_fresh(m, key, Kind::Down, value, pressed);
    key_laws::event_keeps_order(m, key, Kind::Down, value, pressed);
    laws::event_keeps_layout(m, key, Kind::Down, value, pressed);
    let first = key_laws::press_emits(m, key, value, pressed);
    let closed = m.events + ups(m, first.0);
    assert(closed + Seq::<Event<Z>>::empty() =~= closed);
    key_laws::press_sets_key(m, key, value, pressed);
    let ended = key_laws::release_emits(pressed, key, value, post);
    assert(waits(pressed, key));
    let silence = Seq::<Event<Z>>::empty();
    assert(silence + silence =~= silence);
    if is_dropped(pressed, key, key) {
        let g = choose|g: usize|
            g < pressed.holders.len() && #[trigger] pressed.holders[g as int].contains(key)
                && pressed.layout.members[g as int].contains(key);
        let c = pressed.keys[key as int].active->0;
        assert(pressed.layout.group_at(key, c) == g);
        assert(m.layout.combos[key as int][c as int].group == g);
    }
    if acts_on_press(m, key) {
        if exists|c: usize| #[trigger] stands(m.layout, key, c, down) {
            let c = choose|c: usize| #[trigger] stands(m.layout, key, c, down);
            let group = m.layout.combos[key as int][c as int].group;
            assert(!m.layout.members[group as int].contains(key));
            assert(set![key].contains(key));
            lemma_meant_once(m, key, c, first.1);
        }
    }
    (first.0, ended, first.1)
}

/// A key that stands for a combo means its action.
proof fn lemma_meant_once<Z: Keycode>(m: Machine<Z>, key: usize, c: usize, said: Option<Z>)
    requires
        m.valid(),
        key < m.keys.len(),
        stands(m.layout, key, c, m.down.insert(key)),
        is_meant(m.layout, key, m.down.insert(key), said),
    ensures
        said == m.layout.combos[key as int][c as int].action,
{
    let down = m.down.insert(key);
    conflict_laws::spoken_is_meant(m.layout, key, down);
    assert(is_meant(m.layout, key, down, m.layout.combos[key as int][c as int].action));
}

/// A key that does not wait for key-up, and that does not act through a group because it is latching
/// or stands for no combo, goes on to do what it does until it is released, whatever other keys do:
/// its release emits its key-up event, after the ends of the combos of the groups that it is part
/// of.
pub proof fn key_lasts_until_its_release<Z: Keycode>(
    machines: Seq<Machine<Z>>,
    inputs: Seq<Input>,
    results: Seq<HandlingResult>,
    key: usize,
    value: i16,
    post: Machine<Z>,
) -> (ended: Seq<usize>)
    requires
        is_pause(machines, inputs, results, key),
        key < machines[0].keys.len(),
        machines[0].down.contains(key),
        machines[0].keys[key as int].open,
        !waits(machines[0], key),
        machines[0].keys[key as int].latching || machines[0].keys[key as int].active is None,
        machines.last().leads_to(key, Kind::Up, value, post),
    ensures
        forall|k: usize| #[trigger] ended.contains(k) <==> is_dropped(machines.last(), k, key),
        !ended.contains(key),
        post.events == machines.last().events + ups(machines.last(), ended) + saying(
            voice(machines[0], key),
            Kind::Up,
            0,
        ),
{
    lemma_stays_open(machines, inputs, results, key);
    pause_leaves_key(machines, inputs, results, key);
    let last = machines.last();
    let ended = key_laws::release_emits(last, key, value, post);
    assert(waits(last, key) == waits(machines[0], key));
    assert(voice(last, key) == voice(machines[0], key));
    if is_dropped(last, key, key) {
        let g = choose|g: usize|
            g < last.holders.len() && #[trigger] last.holders[g as int].contains(key)
                && last.layout.members[g as int].contains(key);
        assert(!last.keys[key as int].latching && last.keys[key as int].active is Some);
    }
    ended
}

/// The release of a key that does not act through a group, and does not wait for key-up, keeps its
/// effect.
proof fn lemma_stays_open<Z: Keycode>(
    machines: Seq<Machine<Z>>,
    inputs: Seq<Input>,
    results: Seq<HandlingResult>,
    key: usize,
)
    requires
        is_pause(machines, inputs, results, key),
        key < machines[0].keys.len(),
        machines[0].keys[key as int].open,
        !waits(machines[0], key),
        machines[0].keys[key as int].latching || machines[0].keys[key as int].active is None,
    ensures
        machines.last().keys[key as int].open,
    decreases inputs.len(),
{
    if inputs.len() > 0 {
        let n = inputs.len() - 1;
        let (ms, is, rs) = (machines.drop_last(), inputs.drop_last(), results.drop_last());
        lemma_shorter_pause(machines, inputs, results, key);
        lemma_stays_open(ms, is, rs, key);
        pause_leaves_key(ms, is, rs, key);
        let (m, post, input) = (machines[n], machines[n + 1], inputs[n]);
        assert(ms.last() == m);
        assert(waits(m, key) == waits(machines[0], key));
        assert forall|g: usize| g < m.holders.len() implies !(
        #[trigger] m.holders[g as int]).contains(key) by {
            if m.holders[g as int].contains(key) {
                assert(!m.keys[key as int].latching && m.keys[key as int].active is Some);
            }
        }
        policy_laws::lemma_key_of(m.layout, input.code);
        match m.layout.key_of(input.code) {
            None => {},
            Some(other) => {
                assert(other != key);
                match input.kind {
                    Kind::Down => key_laws::press_sets_other_key(m, other, input.value, post, key),
                    Kind::Up => key_laws::release_sets_keys(m, other, input.value, post, key),
                    _ => key_laws::axis_sets_other_key(
                        m,
                        other,
                        input.kind,
                        input.value,
                        post,
                        key,
                    ),
                }
            },
        }
    }
}

/// An event of another key uses the modifier key: it completes a group of several keys that has
/// both, or the other key acts through a combo for which the modifier key is the only modifier.
pub open spec fn is_used_by<Z: Keycode>(m: Machine<Z>, key: usize, other: usize, kind: Kind) -> bool {
    match kind {
        Kind::Down => {
            ||| is_drawn_in(m.layout, other, key, m.down.insert(other))
            ||| acts_on_press(m, other) && relies_on(m.layout, other, key, m.down.insert(other))
        },
        Kind::Up => false,
        _ => relies_on(m.layout, other, key, m.down),
    }
}

/// No event of another key uses the modifier key.
pub open spec fn is_unused<Z: Keycode>(
    machines: Seq<Machine<Z>>,
    inputs: Seq<Input>,
    key: usize,
) -> bool {
    forall|i: int|
        #![trigger inputs[i]]
        0 <= i < inputs.len() ==> match machines[i].layout.key_of(inputs[i].code) {
            Some(other) => !is_used_by(machines[i], key, other, inputs[i].kind),
            None => true,
        }
}

/// A modifier key that waits for key-up performs its action when it is released, if no event of
/// another key has used it since its press: its key-down and its key-up event are emitted, after the
/// ends of the combos of the groups that it is part of.
pub proof fn unused_modifier_acts_in_the_end<Z: Keycode>(
    machines: Seq<Machine<Z>>,
    inputs: Seq<Input>,
    results: Seq<HandlingResult>,
    key: usize,
    value: i16,
    post: Machine<Z>,
) -> (ended: Seq<usize>)
    requires
        is_pause(machines, inputs, results, key),
        key < machines[0].keys.len(),
        machines[0].down.contains(key),
        machines[0].keys[key as int].open,
        machines[0].keys[key as int].active is None,
        waits(machines[0], key),
        is_unused(machines, inputs, key),
        machines.last().leads_to(key, Kind::Up, value, post),
    ensures
        forall|k: usize| #[trigger] ended.contains(k) <==> is_dropped(machines.last(), k, key),
        post.events == machines.last().events + ups(machines.last(), ended) + (saying(
            machines[0].layout.actions[key as int],
            Kind::Down,
            0,
        ) + saying(machines[0].layout.actions[key as int], Kind::Up, 0)),
{
    lemma_stays_unused(machines, inputs, results, key);
    pause_leaves_key(machines, inputs, results, key);
    let last = machines.last();
    let ended = key_laws::release_emits(last, key, value, post);
    assert(waits(last, key) == waits(machines[0], key));
    if is_dropped(last, key, key) {
        let g = choose|g: usize|
            g < last.holders.len() && #[trigger] last.holders[g as int].contains(key)
                && last.layout.members[g as int].contains(key);
        assert(last.keys[key as int].active is Some);
    }
    ended
}

/// The release of a modifier key that no event uses keeps its effect.
proof fn lemma_stays_unused<Z: Keycode>(
    machines: Seq<Machine<Z>>,
    inputs: Seq<Input>,
    results: Seq<HandlingResult>,
    key: usize,
)
    requires
        is_pause(machines, inputs, results, key),
        key < machines[0].keys.len(),
        machines[0].keys[key as int].open,
        machines[0].keys[key as int].active is None,
        is_unused(machines, inputs, key),
    ensures
        machines.last().keys[key as int].open,
    decreases inputs.len(),
{
    if inputs.len() > 0 {
        let n = inputs.len() - 1;
        let (ms, is, rs) = (machines.drop_last(), inputs.drop_last(), results.drop_last());
        lemma_shorter_pause(machines, inputs, results, key);
        assert forall|i: int|
            #![trigger is[i]]
            0 <= i < is.len() implies match ms[i].layout.key_of(is[i].code) {
            Some(other) => !is_used_by(ms[i], key, other, is[i].kind),
            None => true,
        } by {
            assert(is[i] == inputs[i]);
        }
        lemma_stays_unused(ms, is, rs, key);
        pause_leaves_key(ms, is, rs, key);
        let (m, post, input) = (machines[n], machines[n + 1], inputs[n]);
        assert(ms.last() == m);
        assert forall|g: usize| g < m.holders.len() implies !(
        #[trigger] m.holders[g as int]).contains(key) by {
            if m.holders[g as int].contains(key) {
                assert(m.keys[key as int].active is Some);
            }
        }
        policy_laws::lemma_key_of(m.layout, input.code);
        match m.layout.key_of(input.code) {
            None => {},
            Some(other) => {
                assert(other != key);
                assert(!is_used_by(m, key, other, inputs[n].kind));
                match input.kind {
                    Kind::Down => key_laws::press_sets_other_key(m, other, input.value, post, key),
                    Kind::Up => key_laws::release_sets_keys(m, other, input.value, post, key),
                    _ => key_laws::axis_sets_other_key(
                        m,
                        other,
                        input.kind,
                        input.value,
                        post,
                        key,
                    ),
                }
            },
        }
    }
}

/// A modifier key that waits for key-up does not perform its action if an event of another key has
/// used it: from then on its release has no effect, whatever other keys do.
pub proof fn used_modifier_is_silent<Z: Keycode>(
    m: Machine<Z>,
    key: usize,
    other: usize,
    kind: Kind,
    value: i16,
    machines: Seq<Machine<Z>>,
    inputs: Seq<Input>,
    results: Seq<HandlingResult>,
    post: Machine<Z>,
) -> (ended: Seq<usize>)
    requires
        m.is_orderly(),
        m.is_fresh(),
        key < m.keys.len(),
        other < m.keys.len(),
        other != key,
        m.down.contains(key),
        waits(m, key),
        m.sane(other, kind),
        is_used_by(m, key, other, kind),
        m.leads_to(other, kind, value, machines[0]),
        is_pause(machines, inputs, results, key),
        machines.last().leads_to(key, Kind::Up, value, post),
    ensures
        !machines[0].keys[key as int].open,
        post.events == machines.last().events + ups(machines.last(), ended),
        ended.contains(key) ==> ups(machines.last(), seq![key]) == Seq::<Event<Z>>::empty(),
{
    laws::event_keeps_layout(m, other, kind, value, machines[0]);
    match kind {
        Kind::Down => key_laws::press_sets_other_key(m, other, value, machines[0], key),
        Kind::Up => {},
        _ => key_laws::axis_sets_other_key(m, other, kind, value, machines[0], key),
    }
    pause_leaves_key(machines, inputs, results, key);
    closed_key_is_released_in_silence(machines.last(), key, value, post)
}

} // verus!

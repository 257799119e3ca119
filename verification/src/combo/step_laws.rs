//! What every event does, whatever events came before, told by the sets of keys alone.
use crate::combo::conflict_laws::{is_meant, is_muted, is_next, is_pressed, stands};
use crate::combo::key_laws::{
    acts_on_press, is_drawn_in, is_only_modifier, relies_on, saying, ups, voice, waits,
};
use crate::combo::model::{KeyState, Layout, Machine};
use crate::combo::policy::Policy;
use crate::combo::policy_laws::Input;
use crate::combo::{conflict_laws, group_laws, key_laws, laws, lists, model, policy_laws};
use crate::types::{Event, HandlingResult, Keycode, Kind};
use vstd::prelude::*;

verus! {

/// With the key that is pressed a group is pressed that has it and all keys of the group, and more,
/// and no group has keys between the two. Of several groups with the same keys only the first is
/// overtaken.
pub open spec fn is_overtaken<Z: Keycode>(
    layout: Layout<Z>,
    g: usize,
    key: usize,
    down: Set<usize>,
) -> bool {
    let keys = layout.members[g as int];
    &&& keys != Set::<usize>::empty()
    &&& forall|h: usize| h < g ==> #[trigger] layout.members[h as int] != keys
    &&& exists|b: usize| #[trigger]
        is_pressed(layout, b, down) && layout.members[b as int].contains(key) && is_next(
            layout,
            g,
            b,
        )
}

/// The press of the key ends the combo of the other key.
pub open spec fn ends_by_press<Z: Keycode>(m: Machine<Z>, key: usize, other: usize) -> bool {
    exists|g: usize|
        g < m.holders.len() && #[trigger] m.holders[g as int].contains(other) && is_overtaken(
            m.layout,
            g,
            key,
            m.down.insert(key),
        )
}

/// The release of the key ends the combo of the other key.
pub open spec fn ends_by_release<Z: Keycode>(m: Machine<Z>, key: usize, other: usize) -> bool {
    exists|g: usize|
        g < m.holders.len() && #[trigger] m.holders[g as int].contains(other) && is_pressed(
            m.layout,
            g,
            m.down,
        ) && m.layout.members[g as int].contains(key)
}

impl<Z: Keycode> Machine<Z> {
    /// What holds of every machine that any run leads to.
    pub open spec fn is_regular(self) -> bool {
        &&& self.valid()
        &&& self.is_cached()
        &&& self.is_spent()
    }
}

/// Emptying groups hands out the keys that act through one of them.
proof fn lemma_emptied_keys<Z: Keycode>(m: Machine<Z>, groups: Seq<usize>, ended: Seq<usize>)
    requires
        m.empties(groups, ended),
    ensures
        forall|k: usize| #[trigger]
            ended.contains(k) <==> exists|g: usize| #[trigger]
                groups.contains(g) && m.holders[g as int].contains(k),
    decreases groups.len(),
{
    if groups.len() > 0 {
        let last = groups.last();
        let rest = groups.drop_last();
        let held = if rest.contains(last) {
            Set::empty()
        } else {
            m.holders[last as int]
        };
        let cut = choose|cut: int|
            0 <= cut <= ended.len() && m.empties(rest, #[trigger] ended.take(cut))
                && model::lists(ended.skip(cut), held);
        let (a, b) = (ended.take(cut), ended.skip(cut));
        lemma_emptied_keys(m, rest, a);
        assert(ended =~= a + b);
        assert(groups =~= rest.push(last));
        assert forall|k: usize| #[trigger] ended.contains(k) <==> exists|g: usize| #[trigger]
            groups.contains(g) && m.holders[g as int].contains(k) by {
            lists::lemma_add_contains(a, b, k);
            assert(b.to_set().contains(k) <==> b.contains(k));
            lists::lemma_push_contains(rest, last, last);
            if exists|g: usize| #[trigger] groups.contains(g) && m.holders[g as int].contains(k) {
                let g = choose|g: usize| #[trigger]
                    groups.contains(g) && m.holders[g as int].contains(k);
                lists::lemma_push_contains(rest, last, g);
                if rest.contains(g) {
                    assert(rest.contains(g) && m.holders[g as int].contains(k));
                }
            }
            if a.contains(k) {
                let g = choose|g: usize| #[trigger]
                    rest.contains(g) && m.holders[g as int].contains(k);
                lists::lemma_push_contains(rest, last, g);
                assert(groups.contains(g) && m.holders[g as int].contains(k));
            }
        }
    }
}

/// A group that the press completes a larger group over is overtaken.
proof fn lemma_overtaken<Z: Keycode>(m: Machine<Z>, key: usize, g: usize)
    requires
        m.valid(),
        g < m.layout.members.len(),
    ensures
        m.overtaken(key).contains(g) == is_overtaken(m.layout, g, key, m.down.insert(key)),
{
    let layout = m.layout;
    let down = m.down.insert(key);
    laws::lemma_subgroups_of(layout, m.completed(key));
    lists::lemma_ascending(layout.members.len(), m.completes(key));
    if m.overtaken(key).contains(g) {
        let b = choose|b: usize| #[trigger] m.completed(key).contains(b) && layout.below(g, b);
        assert((m.completes(key))(b));
        assert(layout.inside(g, b));
        assert(layout.members[g as int] != Set::<usize>::empty()) by {
            if layout.members[g as int] == Set::<usize>::empty() {
                assert(layout.members[g as int].disjoint(layout.members[b as int]));
            }
        }
        conflict_laws::lemma_next(layout, g, b);
        conflict_laws::lemma_pressed(layout, b, down);
        assert(is_pressed(layout, b, down));
    }
    if is_overtaken(layout, g, key, down) {
        let b = choose|b: usize| #[trigger]
            is_pressed(layout, b, down) && layout.members[b as int].contains(key) && is_next(
                layout,
                g,
                b,
            );
        conflict_laws::lemma_next(layout, g, b);
        conflict_laws::lemma_pressed(layout, b, down);
        assert((m.completes(key))(b));
        assert(m.completed(key).contains(b) && layout.below(g, b));
    }
}

/// What a key that goes down does to the keys and groups.
proof fn lemma_lowered<Z: Keycode>(m: Machine<Z>, key: usize, ended: Seq<usize>)
    requires
        m.is_regular(),
        m.is_fresh(),
        key < m.keys.len(),
        !m.down.contains(key),
        m.empties(m.overtaken(key), ended),
    ensures
        forall|k: usize| #[trigger] ended.contains(k) <==> ends_by_press(m, key, k),
        ({
            let l = m.lowered(key, ended);
            &&& l.is_regular()
            &&& l.events == m.events + ups(m, ended)
            &&& forall|j: int|
                0 <= j < m.keys.len() ==> #[trigger] l.keys[j] == (KeyState {
                    open: (j == key || m.keys[j].open) && !(waits(m, j as usize) && is_drawn_in(
                        m.layout,
                        key,
                        j as usize,
                        m.down.insert(key),
                    )) && !ends_by_press(m, key, j as usize),
                    ..m.keys[j]
                })
            &&& forall|g: usize, k: usize|
                g < m.holders.len() ==> (#[trigger] l.holders[g as int].contains(k)
                    <==> m.holders[g as int].contains(k) && !is_overtaken(
                    m.layout,
                    g,
                    key,
                    m.down.insert(key),
                ))
        }),
{
    let layout = m.layout;
    let l = m.lowered(key, ended);
    let down = m.down.insert(key);
    laws::lemma_emptied(m, key, Kind::Down);
    assert(m.emptied(key, Kind::Down) == m.overtaken(key));
    lemma_emptied_keys(m, m.overtaken(key), ended);
    assert forall|g: usize| g < layout.members.len() implies #[trigger] m.overtaken(key).contains(g)
        == is_overtaken(layout, g, key, down) by {
        lemma_overtaken(m, key, g);
    }
    assert forall|k: usize| #[trigger] ended.contains(k) <==> ends_by_press(m, key, k) by {
        if ended.contains(k) {
            let g = choose|g: usize| #[trigger]
                m.overtaken(key).contains(g) && m.holders[g as int].contains(k);
            let at = choose|at: int| 0 <= at < m.overtaken(key).len() && m.overtaken(key)[at] == g;
            assert(m.emptied(key, Kind::Down)[at] < m.holders.len());
            assert(m.holders[g as int].contains(k));
        }
        if ends_by_press(m, key, k) {
            let g = choose|g: usize|
                g < m.holders.len() && #[trigger] m.holders[g as int].contains(k) && is_overtaken(
                    layout,
                    g,
                    key,
                    down,
                );
            assert(m.overtaken(key).contains(g) && m.holders[g as int].contains(k));
        }
    }
    key_laws::lemma_ups(m, ended);
    group_laws::lemma_lowered_cached(m, key, ended);
    group_laws::lemma_lowered_shape(m, key, ended);
    assert forall|j: int| 0 <= j < m.keys.len() implies #[trigger] l.keys[j] == (KeyState {
        open: (j == key || m.keys[j].open) && !(waits(m, j as usize) && is_drawn_in(
            layout,
            key,
            j as usize,
            down,
        )) && !ends_by_press(m, key, j as usize),
        ..m.keys[j]
    }) by {
        key_laws::lemma_waits(m, j as usize);
        key_laws::lemma_spends(m, key, j as usize);
        assert(ended.contains(j as usize) == ends_by_press(m, key, j as usize));
    }
    assert forall|g: usize, k: usize|
        g < m.holders.len() implies (#[trigger] l.holders[g as int].contains(k)
        <==> m.holders[g as int].contains(k) && !is_overtaken(layout, g, key, down)) by {
        assert(m.overtaken(key).contains(g) == is_overtaken(layout, g, key, down));
    }
    lists::lemma_ascending(layout.members.len(), m.completes(key));
    assert forall|k: usize, j: usize|
        #![trigger l.keys[k as int], l.keys[j as int]]
        k < l.keys.len() && j < l.keys.len() && l.keys[k as int].stamp == l.stamp
            && is_only_modifier(l, k, j) && waits(l, j) implies !l.keys[j as int].open by {
        assert(m.keys[k as int].stamp == l.keys[k as int].stamp);
        assert(m.completed(key).len() == 0);
        assert(is_only_modifier(m, k, j));
        assert(waits(m, j));
        let group = layout.group_at(k, m.keys[k as int].active->0);
        assert(group < layout.members.len());
        if j == key {
            key_laws::lemma_only_key(layout.members[group as int], key);
            assert(layout.members[group as int].subset_of(down));
            assert((m.completes(key))(group));
            assert(m.completed(key).contains(group));
        }
    }
}

/// Every press: what it emits, and what it makes of its key, of the other keys and of the groups,
/// whatever events came before.
pub proof fn every_press<Z: Keycode>(
    m: Machine<Z>,
    key: usize,
    value: i16,
    post: Machine<Z>,
) -> (answer: (Seq<usize>, Option<Z>))
    requires
        m.is_regular(),
        m.is_fresh(),
        key < m.keys.len(),
        !m.down.contains(key),
        m.leads_to(key, Kind::Down, value, post),
    ensures
        post.is_regular(),
        post.layout == m.layout,
        post.down == m.down.insert(key),
        post.keys.len() == m.keys.len(),
        // what is emitted
        forall|k: usize| #[trigger] answer.0.contains(k) <==> ends_by_press(m, key, k),
        is_meant(m.layout, key, post.down, answer.1),
        post.events == m.events + ups(m, answer.0) + if waits(m, key) {
            Seq::empty()
        } else {
            saying(answer.1, Kind::Down, value)
        },
        // the key
        post.keys[key as int].immediate == m.keys[key as int].immediate,
        post.keys[key as int].latching == m.keys[key as int].latching,
        forall|c: usize|
            acts_now(m, key) && #[trigger] stands(m.layout, key, c, post.down) ==> {
                &&& post.keys[key as int].active == Some(c)
                &&& post.keys[key as int].open <==> m.layout.combos[key as int][c as int].action
                    is Some && !(waits(m, key)
                    && m.layout.members[m.layout.combos[key as int][c as int].group as int]
                    == set![key])
            },
        acts_now(m, key) && (forall|c: usize| !#[trigger] stands(m.layout, key, c, post.down))
            ==> {
            &&& post.keys[key as int].active is None
            &&& post.keys[key as int].open <==> !is_muted(m.layout, post.down) && (!ends_by_press(
                m,
                key,
                key,
            ) || m.layout.actions[key as int] is Some)
        },
        !acts_now(m, key) ==> {
            &&& post.keys[key as int].active == m.keys[key as int].active
            &&& !post.keys[key as int].open
        },
        // the other keys
        forall|j: usize|
            j < m.keys.len() && j != key ==> {
                &&& (#[trigger] post.keys[j as int]) == (KeyState {
                    open: post.keys[j as int].open,
                    ..m.keys[j as int]
                })
                &&& post.keys[j as int].open <==> {
                    &&& m.keys[j as int].open
                    &&& !ends_by_press(m, key, j)
                    &&& waits(m, j) ==> !is_drawn_in(m.layout, key, j, post.down) && !(acts_now(
                        m,
                        key,
                    ) && relies_on(m.layout, key, j, post.down))
                }
            },
        // the groups
        forall|g: usize, k: usize|
            g < m.holders.len() ==> (#[trigger] post.holders[g as int].contains(k) <==> {
                ||| m.holders[g as int].contains(k) && !is_overtaken(m.layout, g, key, post.down)
                ||| k == key && joins(m, key, g)
            }),
{
    let layout = m.layout;
    let ended = choose|ended: Seq<usize>| #[trigger]
        m.empties(m.emptied(key, Kind::Down), ended) && post == m.after(
            key,
            Kind::Down,
            value,
            ended,
        );
    let l = m.lowered(key, ended);
    let down = m.down.insert(key);
    let w = layout.winner(key, down);
    let said = layout.spoken(key, down);
    lemma_lowered(m, key, ended);
    group_laws::cache_stays_right(m, key, Kind::Down, value, post);
    policy_laws::event_keeps_valid(m, key, Kind::Down, value, post);
    key_laws::lemma_stands(layout, key, down);
    conflict_laws::spoken_is_meant(layout, key, down);
    conflict_laws::masking_takes_a_pressed_group(layout, down);
    assert(l.keys[key as int].immediate == m.keys[key as int].immediate);
    assert(waits(l, key) == waits(m, key));
    key_laws::lemma_waits(l, key);
    let closed = m.events + ups(m, ended);
    assert(closed + Seq::<Event<Z>>::empty() =~= closed);
    if w is Some {
        assert(stands(layout, key, w->0, down));
        assert(layout.wins(key, w->0, down));
    }
    assert forall|j: int| 0 <= j < m.keys.len() implies waits(l, j as usize) == waits(
        m,
        #[trigger] (j as usize),
    ) by {
        assert(l.keys[j].immediate == m.keys[j].immediate);
    }
    if acts_now(m, key) {
        key_laws::lemma_acted(l, key, Kind::Down, value);
        key_laws::lemma_acted_spent(l, key, Kind::Down, value);
        assert forall|j: usize| j < m.keys.len() && j != key implies relies_on(
            layout,
            key,
            j,
            down,
        ) == (w is Some && layout.members[layout.group_at(key, w->0) as int] == set![j])
            && #[trigger] post.keys[j as int] == (KeyState {
            open: l.keys[j as int].open && !(waits(m, j) && w is Some
                && layout.members[layout.group_at(key, w->0) as int] == set![j]),
            ..l.keys[j as int]
        }) by {}
        assert forall|g: usize, k: usize| g < m.holders.len() implies (
        #[trigger] post.holders[g as int].contains(k) <==> {
            ||| m.holders[g as int].contains(k) && !is_overtaken(layout, g, key, down)
            ||| k == key && joins(m, key, g)
        }) by {
            assert(l.holders[g as int].contains(k) <==> m.holders[g as int].contains(k)
                && !is_overtaken(layout, g, key, down));
            assert(joins(m, key, g) == (w is Some && g == layout.group_at(key, w->0)
                && !m.keys[key as int].latching));
        }
    } else {
        assert(post == l);
    }
    (ended, said)
}

/// The key acts on its press.
pub open spec fn acts_now<Z: Keycode>(m: Machine<Z>, key: usize) -> bool {
    acts_on_press(m, key) && !(waits(m, key) && ends_by_press(m, key, key))
}

/// The key joins the group when it is pressed: it acts, is not latching, and stands for a combo with
/// the group.
pub open spec fn joins<Z: Keycode>(m: Machine<Z>, key: usize, g: usize) -> bool {
    &&& acts_now(m, key)
    &&& !m.keys[key as int].latching
    &&& exists|c: usize| #[trigger]
        stands(m.layout, key, c, m.down.insert(key))
            && m.layout.combos[key as int][c as int].group == g
}

/// Every release: what it emits, and what it makes of the keys and the groups, whatever events came
/// before.
pub proof fn every_release<Z: Keycode>(
    m: Machine<Z>,
    key: usize,
    value: i16,
    post: Machine<Z>,
) -> (ended: Seq<usize>)
    requires
        m.is_regular(),
        m.is_fresh(),
        key < m.keys.len(),
        m.down.contains(key),
        m.leads_to(key, Kind::Up, value, post),
    ensures
        post.is_regular(),
        post.layout == m.layout,
        post.down == m.down.remove(key),
        post.keys.len() == m.keys.len(),
        // what is emitted
        forall|k: usize| #[trigger] ended.contains(k) <==> ends_by_release(m, key, k),
        post.events == m.events + ups(m, ended) + if !m.keys[key as int].open || ends_by_release(
            m,
            key,
            key,
        ) {
            Seq::empty()
        } else if waits(m, key) {
            saying(voice(m, key), Kind::Down, 0) + saying(voice(m, key), Kind::Up, 0)
        } else {
            saying(voice(m, key), Kind::Up, 0)
        },
        // the keys
        forall|j: usize|
            j < m.keys.len() ==> #[trigger] post.keys[j as int] == (KeyState {
                open: m.keys[j as int].open && !ends_by_release(m, key, j),
                ..m.keys[j as int]
            }),
        // the groups
        forall|g: usize, k: usize|
            g < m.holders.len() ==> (#[trigger] post.holders[g as int].contains(k) <==> {
                &&& m.holders[g as int].contains(k)
                &&& !(is_pressed(m.layout, g, m.down) && m.layout.members[g as int].contains(key))
                &&& !(k == key && match m.keys[key as int].active {
                    Some(c) => m.layout.combos[key as int][c as int].group == g,
                    None => false,
                })
            }),
{
    let layout = m.layout;
    let ended = choose|ended: Seq<usize>| #[trigger]
        m.empties(m.emptied(key, Kind::Up), ended) && post == m.after(key, Kind::Up, value, ended);
    let r = m.raised(key, ended);
    laws::lemma_emptied(m, key, Kind::Up);
    assert(m.emptied(key, Kind::Up) == m.left(key));
    lemma_emptied_keys(m, m.left(key), ended);
    lists::lemma_ascending(layout.members.len(), m.leaves(key));
    assert forall|g: usize| g < layout.members.len() implies #[trigger] m.left(key).contains(g) == (
    is_pressed(layout, g, m.down) && layout.members[g as int].contains(key)) by {
        conflict_laws::lemma_pressed(layout, g, m.down);
        assert((m.leaves(key))(g) == (layout.members[g as int].contains(key) && layout.full(
            g,
            m.down,
        )));
    }
    assert forall|k: usize| #[trigger] ended.contains(k) <==> ends_by_release(m, key, k) by {
        if ended.contains(k) {
            let g = choose|g: usize| #[trigger]
                m.left(key).contains(g) && m.holders[g as int].contains(k);
            let at = choose|at: int| 0 <= at < m.left(key).len() && m.left(key)[at] == g;
            assert(m.emptied(key, Kind::Up)[at] < m.holders.len());
            assert(m.holders[g as int].contains(k));
        }
        if ends_by_release(m, key, k) {
            let g = choose|g: usize|
                g < m.holders.len() && #[trigger] m.holders[g as int].contains(k) && is_pressed(
                    layout,
                    g,
                    m.down,
                ) && layout.members[g as int].contains(key);
            assert(m.left(key).contains(g) && m.holders[g as int].contains(k));
        }
    }
    group_laws::cache_stays_right(m, key, Kind::Up, value, post);
    policy_laws::event_keeps_valid(m, key, Kind::Up, value, post);
    key_laws::lemma_ups(m, ended);
    key_laws::lemma_waits(m, key);
    assert(r.prompt(key) == m.prompt(key));
    assert(r.output(key) == voice(m, key));
    assert forall|j: usize| j < m.keys.len() implies #[trigger] post.keys[j as int] == (KeyState {
        open: m.keys[j as int].open && !ends_by_release(m, key, j),
        ..m.keys[j as int]
    }) by {
        assert(ended.contains(j) == ends_by_release(m, key, j));
    }
    if m.keys[key as int].active is Some {
        assert(layout.group_at(key, m.keys[key as int].active->0) < layout.members.len());
    }
    assert forall|g: usize, k: usize| g < m.holders.len() implies (
    #[trigger] post.holders[g as int].contains(k) <==> {
        &&& m.holders[g as int].contains(k)
        &&& !(is_pressed(layout, g, m.down) && layout.members[g as int].contains(key))
        &&& !(k == key && match m.keys[key as int].active {
            Some(c) => layout.combos[key as int][c as int].group == g,
            None => false,
        })
    }) by {
        assert(m.left(key).contains(g) == (is_pressed(layout, g, m.down)
            && layout.members[g as int].contains(key)));
        assert(r.holders[g as int].contains(k) <==> m.holders[g as int].contains(k) && !m.left(
            key,
        ).contains(g));
    }
    let closed = m.events + ups(m, ended);
    let out = voice(m, key);
    assert(closed + Seq::<Event<Z>>::empty() =~= closed);
    assert(ended.contains(key) == ends_by_release(m, key, key));
    assert(r.keys[key as int].open == (m.keys[key as int].open && !ends_by_release(m, key, key)));
    if r.keys[key as int].open {
        if waits(m, key) {
            match out {
                Some(action) => {
                    assert(post.events =~= closed + (saying(out, Kind::Down, 0) + saying(
                        out,
                        Kind::Up,
                        0,
                    )));
                },
                None => {
                    assert(saying(out, Kind::Down, 0) + saying(out, Kind::Up, 0)
                        =~= Seq::<Event<Z>>::empty());
                },
            }
        } else {
            assert(post.events =~= closed + saying(out, Kind::Up, 0));
        }
    }
    assert forall|k: usize, j: usize|
        #![trigger post.keys[k as int], post.keys[j as int]]
        k < post.keys.len() && j < post.keys.len() && post.keys[k as int].stamp == post.stamp
            && is_only_modifier(post, k, j) && waits(post, j) implies !post.keys[j as int].open by {
        assert(m.keys[k as int].stamp == post.keys[k as int].stamp);
        assert(is_only_modifier(m, k, j));
        assert(waits(m, j));
    }
    ended
}

/// Any sane events keep a machine regular: what every press, every release and every event of an
/// axis does holds after any run that does not use up the stamps.
pub proof fn every_run_is_regular<Z: Keycode>(
    machines: Seq<Machine<Z>>,
    inputs: Seq<Input>,
    results: Seq<HandlingResult>,
)
    requires
        policy_laws::runs(Policy::Simple, machines, inputs, results),
        machines[0].is_regular(),
        machines[0].is_young(),
        machines[0].stamp + inputs.len() < u64::MAX,
    ensures
        machines.last().layout == machines[0].layout,
        machines.last().is_regular(),
        machines.last().is_young(),
        machines.last().is_fresh(),
        machines.last().stamp <= machines[0].stamp + inputs.len(),
    decreases inputs.len(),
{
    if inputs.len() > 0 {
        let n = inputs.len() - 1;
        let (ms, is, rs) = (machines.drop_last(), inputs.drop_last(), results.drop_last());
        policy_laws::lemma_shorter_run(Policy::Simple, machines, inputs, results);
        every_run_is_regular(ms, is, rs);
        let (m, post, input) = (machines[n], machines[n + 1], inputs[n]);
        assert(ms.last() == m);
        policy_laws::lemma_key_of(m.layout, input.code);
        match m.layout.key_of(input.code) {
            None => {},
            Some(key) => {
                group_laws::young_machine_is_fresh(m, key, input.kind, input.value, post);
                laws::event_keeps_layout(m, key, input.kind, input.value, post);
                match input.kind {
                    Kind::Down => {
                        let _ = every_press(m, key, input.value, post);
                    },
                    Kind::Up => {
                        let _ = every_release(m, key, input.value, post);
                    },
                    _ => {
                        policy_laws::event_keeps_valid(m, key, input.kind, input.value, post);
                        group_laws::cache_stays_right(m, key, input.kind, input.value, post);
                        key_laws::lemma_axis(m, key, input.kind, input.value, post);
                    },
                }
            },
        }
    }
    assert(machines.last().is_fresh());
}

} // verus!

//! What holds of every machine, whatever the configuration and the events.
use crate::combo::{lists, model};
use crate::combo::model::{KeyState, Machine};
use crate::types::{Event, Keycode, Kind};
use vstd::prelude::*;

verus! {

impl<Z: Keycode> Machine<Z> {
    /// The keys that are down after an event of a key.
    pub open spec fn down_after(self, key: usize, kind: Kind) -> Set<usize> {
        match kind {
            Kind::Down => self.down.insert(key),
            Kind::Up => self.down.remove(key),
            _ => self.down,
        }
    }

    /// The machines differ in which keys are open, in the keys' combos and when they were
    /// determined, in what the groups hold, and in the output.
    pub(super) open spec fn akin(self, other: Self) -> bool {
        &&& self.layout == other.layout
        &&& self.down == other.down
        &&& self.stamp == other.stamp
        &&& self.keys.len() == other.keys.len()
        &&& forall|k: int|
            #![trigger other.keys[k]]
            0 <= k < self.keys.len() ==> {
                &&& other.keys[k].immediate == self.keys[k].immediate
                &&& other.keys[k].latching == self.keys[k].latching
                &&& other.keys[k].pending == self.keys[k].pending
            }
    }
}

/// What a key's action leaves alone.
proof fn lemma_acted_akin<Z: Keycode>(m: Machine<Z>, key: usize, kind: Kind, value: i16)
    requires
        key < m.keys.len(),
    ensures
        m.akin(m.acted(key, kind, value)),
{
    let state = m.keys[key as int];
    if !m.prompt(key) && !state.open {
    } else if state.stamp == m.stamp {
        match state.active {
            Some(combo) => {
                lemma_combined_akin(m, key, combo, kind, value);
            },
            None => {
                lemma_plain_akin(m, key, kind, value);
            },
        }
    } else {
        let stamped = m.with_key(
            key,
            KeyState { stamp: m.stamp, ..state },
        );
        assert(m.akin(stamped));
        match m.layout.winner(key, m.down) {
            Some(combo) => {
                let group = m.layout.group_at(key, combo);
                let used = stamped.using(group);
                assert(stamped.akin(used));
                lemma_combined_akin(used, key, combo, kind, value);
            },
            None => {
                lemma_plain_akin(stamped, key, kind, value);
            },
        }
    }
}

/// What acting without a combo leaves alone.
proof fn lemma_plain_akin<Z: Keycode>(m: Machine<Z>, key: usize, kind: Kind, value: i16)
    requires
        key < m.keys.len(),
    ensures
        m.akin(m.plain(key, kind, value)),
{
}

/// What acting through a combo leaves alone.
proof fn lemma_combined_akin<Z: Keycode>(
    m: Machine<Z>,
    key: usize,
    combo: usize,
    kind: Kind,
    value: i16,
)
    requires
        key < m.keys.len(),
    ensures
        m.akin(m.combined(key, combo, kind, value)),
{
}

/// An event changes neither the layout nor the counts of pending key-down events, and which keys
/// are down as its kind says.
pub proof fn event_keeps_layout<Z: Keycode>(
    m: Machine<Z>,
    key: usize,
    kind: Kind,
    value: i16,
    post: Machine<Z>,
)
    requires
        key < m.keys.len(),
        m.leads_to(key, kind, value, post),
    ensures
        post.layout == m.layout,
        post.down == m.down_after(key, kind),
        post.keys.len() == m.keys.len(),
        forall|k: int|
            0 <= k < m.keys.len() ==> (#[trigger] post.keys[k]).pending == m.keys[k].pending,
{
    let ended = choose|ended: Seq<usize>| #[trigger]
        m.empties(m.emptied(key, kind), ended) && post == m.after(key, kind, value, ended);
    match kind {
        Kind::Down => {
            lemma_acted_akin(m.lowered(key, ended), key, kind, value);
        },
        Kind::Up => {},
        _ => {
            lemma_acted_akin(m.moved(key), key, kind, value);
        },
    }
}

impl<Z: Keycode> Machine<Z> {
    /// The key has emitted a key-down event that no key-up event has followed.
    pub open spec fn sounds(self, key: usize) -> bool {
        &&& key < self.keys.len()
        &&& self.down.contains(key)
        &&& self.prompt(key)
        &&& self.keys[key as int].open
        &&& self.output(key) is Some
    }

    /// The keys that have emitted a key-down event that no key-up event has followed, each with
    /// the keycode of that event.
    pub open spec fn sounding(self) -> Map<usize, Z> {
        Map::new(|k: usize| self.sounds(k), |k: usize| self.output(k)->0)
    }

    /// The key sounds, and goes on to sound the same if its axis moves: it is latching, no group
    /// has been completed or left since its combo was determined, and nothing masks it.
    pub open spec fn is_steady(self, key: usize) -> bool {
        let state = self.keys[key as int];
        &&& self.sounds(key)
        &&& state.latching
        &&& state.stamp == self.stamp
        &&& state.active is Some || !self.layout.masked(self.down)
    }

    /// A key that acts through a group is down, stands for a combo of that group, and is not
    /// latching. Unless it waits for key-up its release has an effect, if the combo has an action.
    pub open spec fn is_sound(self) -> bool {
        &&& self.valid()
        &&& forall|g: usize, k: usize|
            g < self.holders.len() && #[trigger] self.holders[g as int].contains(k) ==> {
                &&& self.down.contains(k)
                &&& self.keys[k as int].active is Some
                &&& self.layout.group_at(k, self.keys[k as int].active->0) == g
                &&& !self.keys[k as int].latching
                &&& self.prompt(k) && self.output(k) is Some ==> self.keys[k as int].open
            }
    }
}

/// What the keys `by`, to which the events are due, sound after the events, if they sound `held`
/// before: a key goes down only if it does not sound, and goes up only if it does, with the same
/// keycode.
pub open spec fn replay<Z: Keycode>(
    held: Map<usize, Z>,
    events: Seq<Event<Z>>,
    by: Seq<usize>,
) -> Option<Map<usize, Z>>
    decreases events.len(),
{
    if events.len() == 0 {
        Some(held)
    } else {
        match replay(held, events.drop_last(), by.drop_last()) {
            None => None,
            Some(before) => {
                let event = events.last();
                let key = by.last();
                match event.kind {
                    Kind::Down => if before.dom().contains(key) {
                        None
                    } else {
                        Some(before.insert(key, event.keycode))
                    },
                    Kind::Up => if before.dom().contains(key) && before[key] == event.keycode {
                        Some(before.remove(key))
                    } else {
                        None
                    },
                    _ => Some(before),
                }
            },
        }
    }
}

/// One event after the others.
proof fn lemma_replay_push<Z: Keycode>(
    held: Map<usize, Z>,
    events: Seq<Event<Z>>,
    by: Seq<usize>,
    event: Event<Z>,
    key: usize,
)
    requires
        events.len() == by.len(),
    ensures
        replay(held, events.push(event), by.push(key)) == match replay(held, events, by) {
            None => None,
            Some(before) => replay(before, seq![event], seq![key]),
        },
{
    assert(events.push(event).drop_last() =~= events);
    assert(by.push(key).drop_last() =~= by);
    let one = seq![event];
    assert(one.drop_last() =~= Seq::<Event<Z>>::empty());
    match replay(held, events, by) {
        None => {},
        Some(before) => {
            assert(replay(before, one.drop_last(), seq![key].drop_last()) == Some(before));
        },
    }
}

/// Some events after the others.
pub(super) proof fn lemma_replay_add<Z: Keycode>(
    held: Map<usize, Z>,
    first: Seq<Event<Z>>,
    first_by: Seq<usize>,
    rest: Seq<Event<Z>>,
    rest_by: Seq<usize>,
)
    requires
        first.len() == first_by.len(),
        rest.len() == rest_by.len(),
    ensures
        replay(held, first + rest, first_by + rest_by) == match replay(held, first, first_by) {
            None => None,
            Some(before) => replay(before, rest, rest_by),
        },
    decreases rest.len(),
{
    if rest.len() == 0 {
        assert(first + rest =~= first);
        assert(first_by + rest_by =~= first_by);
    } else {
        lemma_replay_add(held, first, first_by, rest.drop_last(), rest_by.drop_last());
        assert((first + rest).drop_last() =~= first + rest.drop_last());
        assert((first_by + rest_by).drop_last() =~= first_by + rest_by.drop_last());
        assert((first + rest).last() == rest.last());
        assert((first_by + rest_by).last() == rest_by.last());
    }
}

/// The key acts through some group.
spec fn is_holder<Z: Keycode>(m: Machine<Z>, key: usize) -> bool {
    exists|g: usize| g < m.holders.len() && #[trigger] m.holders[g as int].contains(key)
}

/// The keys that have a part in what the end of their combos emits.
spec fn closers<Z: Keycode>(m: Machine<Z>, ended: Seq<usize>) -> Seq<usize>
    decreases ended.len(),
{
    if ended.len() == 0 {
        Seq::empty()
    } else if m.closing(ended.last()).len() > 0 {
        closers(m, ended.drop_last()).push(ended.last())
    } else {
        closers(m, ended.drop_last())
    }
}

/// Emptying groups hands out each key that acts through one of them, once.
pub(super) proof fn lemma_empties<Z: Keycode>(m: Machine<Z>, groups: Seq<usize>, ended: Seq<usize>)
    requires
        m.is_sound(),
        m.empties(groups, ended),
        forall|i: int| 0 <= i < groups.len() ==> #[trigger] groups[i] < m.holders.len(),
    ensures
        ended.no_duplicates(),
        forall|k: usize| #[trigger]
            ended.contains(k) <==> exists|g: usize| #[trigger]
                groups.contains(g) && m.holders[g as int].contains(k),
    decreases groups.len(),
{
    if groups.len() == 0 {
    } else {
        let last = groups.last();
        let rest = groups.drop_last();
        let held = if rest.contains(last) {
            Set::empty()
        } else {
            m.holders[last as int]
        };
        let cut = choose|cut: int|
            0 <= cut <= ended.len() && m.empties(rest, #[trigger] ended.take(cut))
                && model::lists(ended.skip(cut), held);
        let a = ended.take(cut);
        let b = ended.skip(cut);
        lemma_empties(m, rest, a);
        assert(ended =~= a + b);
        assert forall|k: usize| #[trigger] ended.contains(k) <==> exists|g: usize| #[trigger]
            groups.contains(g) && m.holders[g as int].contains(k) by {
            lists::lemma_add_contains(a, b, k);
            assert(b.to_set().contains(k) <==> b.contains(k));
            if exists|g: usize| #[trigger]
                groups.contains(g) && m.holders[g as int].contains(k) {
                let g = choose|g: usize| #[trigger]
                    groups.contains(g) && m.holders[g as int].contains(k);
                lists::lemma_push_contains(rest, last, g);
                assert(groups =~= rest.push(last));
                if rest.contains(g) {
                    assert(a.contains(k));
                }
            }
            if a.contains(k) {
                let g = choose|g: usize| #[trigger]
                    rest.contains(g) && m.holders[g as int].contains(k);
                lists::lemma_push_contains(rest, last, g);
                assert(groups =~= rest.push(last));
                assert(groups.contains(g));
            }
            if b.contains(k) {
                assert(groups[groups.len() - 1] == last);
                assert(groups.contains(last));
            }
        }
        assert forall|i: int, j: int|
            0 <= i < ended.len() && 0 <= j < ended.len() && i != j implies ended[i]
            != ended[j] by {
            if i < cut && j < cut {
                assert(a[i] != a[j]);
            } else if i >= cut && j >= cut {
                assert(b[i - cut] != b[j - cut]);
            } else {
                let x = if i < cut { i } else { j };
                let y = if i < cut { j } else { i };
                let k = a[x];
                assert(a.contains(k));
                let g = choose|g: usize| #[trigger]
                    rest.contains(g) && m.holders[g as int].contains(k);
                let at = choose|at: int| 0 <= at < rest.len() && rest[at] == g;
                assert(groups[at] == g);
                if b[y - cut] == k {
                    assert(b.to_set().contains(k));
                    assert(m.holders[last as int].contains(k));
                    assert(groups[groups.len() - 1] == last);
                }
            }
        }
    }
}

/// What the end of combos emits is due to keys that sound, and makes them stop.
proof fn lemma_closings_replay<Z: Keycode>(m: Machine<Z>, ended: Seq<usize>)
    requires
        m.is_sound(),
        ended.no_duplicates(),
        forall|i: int| 0 <= i < ended.len() ==> is_holder(m, #[trigger] ended[i]),
    ensures
        m.closings(ended).len() == closers(m, ended).len(),
        forall|i: int|
            0 <= i < m.closings(ended).len() ==> (#[trigger] m.closings(ended)[i]).kind == Kind::Up,
        replay(m.sounding(), m.closings(ended), closers(m, ended)) == Some(
            m.sounding().remove_keys(ended.to_set()),
        ),
    decreases ended.len(),
{
    if ended.len() == 0 {
        assert(m.sounding().remove_keys(ended.to_set()) =~= m.sounding());
    } else {
        let rest = ended.drop_last();
        let key = ended.last();
        assert forall|i: int| 0 <= i < rest.len() implies is_holder(m, #[trigger] rest[i]) by {
            assert(is_holder(m, ended[i]));
        }
        lemma_closings_replay(m, rest);
        assert(is_holder(m, ended[ended.len() - 1]));
        let g = choose|g: usize| g < m.holders.len() && #[trigger] m.holders[g as int].contains(
            key,
        );
        assert(m.holders[g as int].contains(key));
        assert(m.sounds(key) == (m.closing(key).len() > 0));
        assert(!rest.contains(key)) by {
            if rest.contains(key) {
                let at = choose|at: int| 0 <= at < rest.len() && rest[at] == key;
                assert(ended[at] == ended[ended.len() - 1]);
            }
        }
        let before = m.sounding().remove_keys(rest.to_set());
        let after = m.sounding().remove_keys(ended.to_set());
        assert forall|k: usize| #[trigger] ended.to_set().contains(k) <==> rest.to_set().contains(
            k,
        ) || k == key by {
            lists::lemma_push_contains(rest, key, k);
            assert(ended =~= rest.push(key));
        }
        if m.closing(key).len() > 0 {
            let event = m.closing(key)[0];
            assert(m.closings(ended) =~= m.closings(rest).push(event));
            lemma_replay_push(
                m.sounding(),
                m.closings(rest),
                closers(m, rest),
                event,
                key,
            );
            assert(before.dom().contains(key));
            assert(before[key] == event.keycode);
            let one = seq![event];
            assert(one.drop_last() =~= Seq::<Event<Z>>::empty());
            assert(replay(before, one.drop_last(), seq![key].drop_last()) == Some(before));
            assert(replay(before, one, seq![key]) == Some(before.remove(key)));
            assert(before.remove(key) =~= after);
        } else {
            assert(m.closings(ended) =~= m.closings(rest));
            assert(before =~= after);
        }
    }
}

/// What a key's action comes to: `p` is the machine after it.
pub(super) open spec fn acts<Z: Keycode>(m: Machine<Z>, p: Machine<Z>, key: usize, kind: Kind) -> bool {
    let said = p.events.skip(m.events.len() as int);
    &&& m.akin(p)
    &&& p.holders.len() == m.holders.len()
    &&& forall|j: int|
        #![trigger p.keys[j]]
        0 <= j < m.keys.len() && j != key ==> {
            &&& p.keys[j].active == m.keys[j].active
            &&& p.keys[j].stamp == m.keys[j].stamp
            &&& p.keys[j].open ==> m.keys[j].open
            &&& m.prompt(j as usize) ==> p.keys[j].open == m.keys[j].open
        }
    &&& p.keys[key as int].active is Some ==> p.keys[key as int].active->0
        < m.layout.combos[key as int].len()
    &&& forall|g: usize, k: usize|
        g < m.holders.len() && #[trigger] p.holders[g as int].contains(k)
            ==> m.holders[g as int].contains(k) || {
            &&& k == key
            &&& p.keys[key as int].active is Some
            &&& m.layout.group_at(key, p.keys[key as int].active->0) == g
            &&& !m.keys[key as int].latching
            &&& m.prompt(key) && p.output(key) is Some ==> p.keys[key as int].open
        }
    &&& forall|g: usize|
        #![trigger p.holders[g as int]]
        g < m.holders.len() && m.holders[g as int].finite() ==> p.holders[g as int].finite()
    &&& p.events == m.events + said
    &&& said.len() <= 1
    &&& said.len() == 1 ==> said[0].kind == kind && m.prompt(key) && p.keys[key as int].open
        && p.output(key) == Some(said[0].keycode)
    &&& said.len() == 0 ==> !(m.prompt(key) && p.keys[key as int].open && p.output(key) is Some)
}

/// Acting without a combo.
proof fn lemma_plain_acts<Z: Keycode>(m: Machine<Z>, key: usize, kind: Kind, value: i16)
    requires
        m.valid(),
        key < m.keys.len(),
    ensures
        acts(m, m.plain(key, kind, value), key, kind),
{
    let p = m.plain(key, kind, value);
    let said = p.events.skip(m.events.len() as int);
    assert(m.akin(p));
    assert(p.prompt(key) == m.prompt(key));
    assert(p.output(key) == m.layout.actions[key as int]);
    match m.layout.actions[key as int] {
        Some(action) if m.prompt(key) && !m.layout.masked(m.down) => {
            assert(said =~= seq![Event { keycode: action, kind, value }]);
            assert(p.events =~= m.events + said);
        },
        _ => {
            assert(said =~= Seq::<Event<Z>>::empty());
            assert(p.events =~= m.events + said);
        },
    }
}

/// Acting through a combo.
proof fn lemma_combined_acts<Z: Keycode>(
    m: Machine<Z>,
    key: usize,
    combo: usize,
    kind: Kind,
    value: i16,
)
    requires
        m.valid(),
        key < m.keys.len(),
        combo < m.layout.combos[key as int].len(),
    ensures
        acts(m, m.combined(key, combo, kind, value), key, kind),
{
    let p = m.combined(key, combo, kind, value);
    let said = p.events.skip(m.events.len() as int);
    assert(m.layout.group_at(key, combo) < m.layout.members.len());
    lemma_combined_akin(m, key, combo, kind, value);
    assert(p.prompt(key) == m.prompt(key));
    assert(p.keys[key as int].active == Some(combo));
    assert(p.output(key) == m.layout.combos[key as int][combo as int].action);
    match m.layout.combos[key as int][combo as int].action {
        Some(action) if m.prompt(key) => {
            assert(said =~= seq![Event { keycode: action, kind, value }]);
            assert(p.events =~= m.events + said);
        },
        _ => {
            assert(said =~= Seq::<Event<Z>>::empty());
            assert(p.events =~= m.events + said);
        },
    }
}

/// Whatever a key's action comes to.
pub(super) proof fn lemma_acted_acts<Z: Keycode>(m: Machine<Z>, key: usize, kind: Kind, value: i16)
    requires
        m.valid(),
        key < m.keys.len(),
    ensures
        acts(m, m.acted(key, kind, value), key, kind),
{
    let p = m.acted(key, kind, value);
    let state = m.keys[key as int];
    lemma_acted_akin(m, key, kind, value);
    if !m.prompt(key) && !state.open {
        assert(p.events.skip(m.events.len() as int) =~= Seq::<Event<Z>>::empty());
        assert(m.events + p.events.skip(m.events.len() as int) =~= m.events);
    } else if state.stamp == m.stamp {
        match state.active {
            Some(combo) => {
                lemma_combined_acts(m, key, combo, kind, value);
            },
            None => {
                lemma_plain_acts(m, key, kind, value);
            },
        }
    } else {
        let stamped = m.with_key(key, KeyState { stamp: m.stamp, ..state });
        lemma_stays_valid(m, stamped);
        match m.layout.winner(key, m.down) {
            Some(combo) => {
                let used = stamped.using(m.layout.group_at(key, combo));
                lemma_stays_valid(m, used);
                assert(m.layout.wins(key, combo, m.down));
                lemma_combined_acts(used, key, combo, kind, value);
                assert(used.prompt(key) == m.prompt(key));
                assert forall|j: int|
                    #![trigger p.keys[j]]
                    0 <= j < m.keys.len() && j != key implies {
                    &&& p.keys[j].active == m.keys[j].active
                    &&& p.keys[j].stamp == m.keys[j].stamp
                    &&& p.keys[j].open ==> m.keys[j].open
                    &&& m.prompt(j as usize) ==> p.keys[j].open == m.keys[j].open
                } by {
                    assert(used.keys[j].active == m.keys[j].active);
                    assert(stamped.prompt(j as usize) == m.prompt(j as usize));
                    assert(used.prompt(j as usize) == m.prompt(j as usize));
                }
                assert(p.output(key) == used.combined(key, combo, kind, value).output(key));
            },
            None => {
                lemma_plain_acts(stamped, key, kind, value);
                assert(stamped.prompt(key) == m.prompt(key));
                assert forall|j: int|
                    #![trigger p.keys[j]]
                    0 <= j < m.keys.len() && j != key implies {
                    &&& p.keys[j].active == m.keys[j].active
                    &&& p.keys[j].stamp == m.keys[j].stamp
                    &&& p.keys[j].open ==> m.keys[j].open
                    &&& m.prompt(j as usize) ==> p.keys[j].open == m.keys[j].open
                } by {
                    assert(stamped.keys[j] == m.keys[j]);
                    assert(stamped.prompt(j as usize) == m.prompt(j as usize));
                }
            },
        }
    }
}

/// A machine with the same layout and holders, whose keys stand for combos in range, is in order.
proof fn lemma_stays_valid<Z: Keycode>(m: Machine<Z>, p: Machine<Z>)
    requires
        m.valid(),
        p.layout == m.layout,
        p.down == m.down,
        p.holders == m.holders,
        p.keys.len() == m.keys.len(),
        forall|k: int|
            0 <= k < m.keys.len() ==> (#[trigger] p.keys[k]).active == m.keys[k].active,
    ensures
        p.valid(),
{
    assert forall|k: usize|
        k < p.keys.len() && (#[trigger] p.keys[k as int]).active is Some implies p.keys[k as int].active->0
        < p.layout.combos[k as int].len() by {
        assert(m.keys[k as int].active is Some);
    }
}

/// The neighbouring subgroups of several groups are those of each.
pub(super) proof fn lemma_subgroups_of<Z: Keycode>(layout: model::Layout<Z>, groups: Seq<usize>)
    requires
        layout.members.len() <= usize::MAX,
    ensures
        forall|p: usize| #[trigger]
            layout.subgroups_of(groups).contains(p) <==> p < layout.members.len() && exists|g: usize|
                #[trigger] groups.contains(g) && layout.below(p, g),
    decreases groups.len(),
{
    let f = |b: usize| layout.subgroups(b);
    if groups.len() == 0 {
        assert(layout.subgroups_of(groups).len() == 0);
    } else {
        let rest = groups.drop_last();
        let last = groups.last();
        lemma_subgroups_of(layout, rest);
        rest.lemma_flat_map_push(f, last);
        assert(groups =~= rest.push(last));
        let below = |a: usize| layout.below(a, last);
        lists::lemma_ascending(layout.members.len(), below);
        assert forall|p: usize| #[trigger] layout.subgroups_of(groups).contains(p) <==> p
            < layout.members.len() && exists|g: usize| #[trigger]
            groups.contains(g) && layout.below(p, g) by {
            lists::lemma_add_contains(layout.subgroups_of(rest), layout.subgroups(last), p);
            lists::lemma_push_contains(rest, last, last);
            assert(layout.subgroups(last).contains(p) <==> p < layout.members.len() && below(p));
            if exists|g: usize| #[trigger] rest.contains(g) && layout.below(p, g) {
                let g = choose|g: usize| #[trigger] rest.contains(g) && layout.below(p, g);
                lists::lemma_push_contains(rest, last, g);
                assert(groups.contains(g) && layout.below(p, g));
            }
            if exists|g: usize| #[trigger] groups.contains(g) && layout.below(p, g) {
                let g = choose|g: usize| #[trigger] groups.contains(g) && layout.below(p, g);
                lists::lemma_push_contains(rest, last, g);
            }
            assert(groups.contains(last));
        }
    }
}

/// The groups that an event empties are groups.
pub(super) proof fn lemma_emptied<Z: Keycode>(m: Machine<Z>, key: usize, kind: Kind)
    requires
        m.valid(),
    ensures
        forall|i: int|
            0 <= i < m.emptied(key, kind).len() ==> #[trigger] m.emptied(key, kind)[i]
                < m.holders.len(),
{
    let emptied = m.emptied(key, kind);
    match kind {
        Kind::Down => {
            lemma_subgroups_of(m.layout, m.completed(key));
            assert forall|i: int| 0 <= i < emptied.len() implies #[trigger] emptied[i]
                < m.holders.len() by {
                assert(m.layout.subgroups_of(m.completed(key)).contains(emptied[i]));
            }
        },
        Kind::Up => {
            lists::lemma_ascending(m.layout.members.len(), m.leaves(key));
        },
        _ => {},
    }
}

/// The events between the two machines are due to keys that make them a sane sequence. Those that
/// are key-down events are due to `key`.
pub open spec fn is_sane_answer<Z: Keycode>(m: Machine<Z>, key: usize, post: Machine<Z>) -> bool {
    let said = post.events.skip(m.events.len() as int);
    &&& post.events == m.events + said
    &&& exists|by: Seq<usize>|
        {
            &&& by.len() == said.len()
            &&& #[trigger] replay(m.sounding(), said, by) == Some(post.sounding())
            &&& forall|i: int|
                0 <= i < said.len() && (#[trigger] said[i]).kind == Kind::Down ==> by[i] == key
        }
}

/// If the events of each key are a sane sequence, so are the events that are emitted for each
/// key: no key-down of a key that sounds, and no key-up of one that does not. Only the key of an
/// event goes down in return. (The axis of a key that is down moves only while the key is steady.)
pub proof fn output_is_sane<Z: Keycode>(
    m: Machine<Z>,
    key: usize,
    kind: Kind,
    value: i16,
    post: Machine<Z>,
)
    requires
        m.is_sound(),
        key < m.keys.len(),
        m.sane(key, kind),
        kind != Kind::Down && kind != Kind::Up && m.down.contains(key) ==> m.is_steady(key),
        m.leads_to(key, kind, value, post),
    ensures
        post.is_sound(),
        is_sane_answer(m, key, post),
{
    let ended = choose|ended: Seq<usize>| #[trigger]
        m.empties(m.emptied(key, kind), ended) && post == m.after(key, kind, value, ended);
    let emptied = m.emptied(key, kind);
    lemma_emptied(m, key, kind);
    lemma_empties(m, emptied, ended);
    assert forall|i: int| 0 <= i < ended.len() implies is_holder(m, #[trigger] ended[i]) by {
        assert(ended.contains(ended[i]));
        let g = choose|g: usize| #[trigger]
            emptied.contains(g) && m.holders[g as int].contains(ended[i]);
        let at = choose|at: int| 0 <= at < emptied.len() && emptied[at] == g;
        assert(emptied[at] < m.holders.len());
        assert(m.holders[g as int].contains(ended[i]));
    }
    lemma_closings_replay(m, ended);
    match kind {
        Kind::Down => {
            lemma_lowered_sound(m, key, ended);
            lemma_down_answer(m, key, kind, value, ended);
        },
        Kind::Up => {
            lemma_up_answer(m, key, ended);
        },
        _ => {
            lemma_axis_answer(m, key, kind, value);
        },
    }
}

/// Keys that act through groups that are not emptied do not end.
proof fn lemma_not_ended<Z: Keycode>(
    m: Machine<Z>,
    groups: Seq<usize>,
    ended: Seq<usize>,
    g: usize,
    k: usize,
)
    requires
        m.is_sound(),
        forall|k: usize| #[trigger]
            ended.contains(k) <==> exists|g: usize| #[trigger]
                groups.contains(g) && m.holders[g as int].contains(k),
        forall|i: int| 0 <= i < groups.len() ==> #[trigger] groups[i] < m.holders.len(),
        g < m.holders.len(),
        m.holders[g as int].contains(k),
        !groups.contains(g),
    ensures
        !ended.contains(k),
{
    if ended.contains(k) {
        let h = choose|h: usize| #[trigger]
            groups.contains(h) && m.holders[h as int].contains(k);
        let at = choose|at: int| 0 <= at < groups.len() && groups[at] == h;
        assert(groups[at] < m.holders.len());
        assert(m.holders[h as int].contains(k));
        assert(m.holders[g as int].contains(k));
    }
}

/// A key that goes down keeps the machine sound.
proof fn lemma_lowered_sound<Z: Keycode>(m: Machine<Z>, key: usize, ended: Seq<usize>)
    requires
        m.is_sound(),
        key < m.keys.len(),
        !m.down.contains(key),
        forall|k: usize| #[trigger]
            ended.contains(k) <==> exists|g: usize| #[trigger]
                m.overtaken(key).contains(g) && m.holders[g as int].contains(k),
        forall|i: int|
            0 <= i < m.overtaken(key).len() ==> #[trigger] m.overtaken(key)[i] < m.holders.len(),
    ensures
        m.lowered(key, ended).is_sound(),
        forall|g: usize|
            g < m.holders.len() ==> !(#[trigger] m.lowered(key, ended).holders[g as int]).contains(
                key,
            ),
{
    let l = m.lowered(key, ended);
    assert forall|k: usize|
        k < l.keys.len() && (#[trigger] l.keys[k as int]).active is Some implies l.keys[k as int].active->0
        < l.layout.combos[k as int].len() by {
        assert(m.keys[k as int].active is Some);
    }
    assert forall|g: usize, k: usize|
        g < l.holders.len() && #[trigger] l.holders[g as int].contains(k) implies k
        < l.keys.len() && {
        &&& l.down.contains(k)
        &&& l.keys[k as int].active is Some
        &&& l.layout.group_at(k, l.keys[k as int].active->0) == g
        &&& !l.keys[k as int].latching
        &&& l.prompt(k) && l.output(k) is Some ==> l.keys[k as int].open
    } by {
        assert(m.holders[g as int].contains(k));
        lemma_not_ended(m, m.overtaken(key), ended, g, k);
        assert(l.prompt(k) == m.prompt(k));
        assert(l.output(k) == m.output(k));
    }
    assert forall|g: usize| g < l.holders.len() implies (
    #[trigger] l.holders[g as int]).finite() by {
        assert(m.holders[g as int].finite());
    }
    assert forall|g: usize|
        g < m.holders.len() implies !(#[trigger] l.holders[g as int]).contains(key) by {
        if l.holders[g as int].contains(key) {
            assert(m.holders[g as int].contains(key));
        }
    }
}

/// A key's action keeps the machine sound.
proof fn lemma_acted_sound<Z: Keycode>(m: Machine<Z>, key: usize, kind: Kind, value: i16)
    requires
        m.is_sound(),
        key < m.keys.len(),
        m.down.contains(key) || m.keys[key as int].latching,
        forall|g: usize|
            g < m.holders.len() ==> !(#[trigger] m.holders[g as int]).contains(key),
    ensures
        m.acted(key, kind, value).is_sound(),
{
    let p = m.acted(key, kind, value);
    lemma_acted_acts(m, key, kind, value);
    assert forall|k: usize|
        k < p.keys.len() && (#[trigger] p.keys[k as int]).active is Some implies p.keys[k as int].active->0
        < p.layout.combos[k as int].len() by {
        if k != key {
            assert(m.keys[k as int].active is Some);
        }
    }
    assert forall|g: usize, k: usize|
        g < p.holders.len() && #[trigger] p.holders[g as int].contains(k) implies k
        < p.keys.len() && {
        &&& p.down.contains(k)
        &&& p.keys[k as int].active is Some
        &&& p.layout.group_at(k, p.keys[k as int].active->0) == g
        &&& !p.keys[k as int].latching
        &&& p.prompt(k) && p.output(k) is Some ==> p.keys[k as int].open
    } by {
        assert(p.keys[k as int].latching == m.keys[k as int].latching) by {
            assert(k == key || m.holders[g as int].contains(k));
        }
        if m.holders[g as int].contains(k) {
            assert(k != key);
            assert(p.keys[k as int].active == m.keys[k as int].active);
            assert(p.prompt(k) == m.prompt(k));
            assert(p.output(k) == m.output(k));
        } else {
            assert(k == key);
            assert(p.prompt(k) == m.prompt(k));
        }
    }
    assert forall|g: usize| g < p.holders.len() implies (
    #[trigger] p.holders[g as int]).finite() by {
        assert(m.holders[g as int].finite());
    }
}

/// What a key-down event is answered.
proof fn lemma_down_answer<Z: Keycode>(
    m: Machine<Z>,
    key: usize,
    kind: Kind,
    value: i16,
    ended: Seq<usize>,
)
    requires
        m.is_sound(),
        kind == Kind::Down,
        key < m.keys.len(),
        !m.down.contains(key),
        m.lowered(key, ended).is_sound(),
        forall|g: usize|
            g < m.holders.len() ==> !(#[trigger] m.lowered(key, ended).holders[g as int]).contains(
                key,
            ),
        m.closings(ended).len() == closers(m, ended).len(),
        forall|i: int|
            0 <= i < m.closings(ended).len() ==> (#[trigger] m.closings(ended)[i]).kind == Kind::Up,
        replay(m.sounding(), m.closings(ended), closers(m, ended)) == Some(
            m.sounding().remove_keys(ended.to_set()),
        ),
    ensures
        m.lowered(key, ended).acted(key, kind, value).is_sound(),
        is_sane_answer(m, key, m.lowered(key, ended).acted(key, kind, value)),
{
    let l = m.lowered(key, ended);
    let p = l.acted(key, kind, value);
    lemma_acted_sound(l, key, kind, value);
    lemma_acted_acts(l, key, kind, value);
    let said = p.events.skip(l.events.len() as int);
    let closing = m.closings(ended);
    let all = p.events.skip(m.events.len() as int);
    assert(all =~= closing + said);
    assert(p.events =~= m.events + all);
    let quiet = m.sounding().remove_keys(ended.to_set());
    assert(p.prompt(key) == l.prompt(key));
    assert forall|k: usize| k != key implies #[trigger] p.sounds(k) == quiet.dom().contains(k) && (
    p.sounds(k) ==> p.output(k) == m.output(k)) by {
        if k < m.keys.len() {
            assert(l.prompt(k) == m.prompt(k));
            assert(p.prompt(k) == m.prompt(k));
            assert(l.keys[k as int].active == m.keys[k as int].active);
            assert(p.keys[k as int].active == m.keys[k as int].active);
            assert(p.output(k) == m.output(k));
            assert(ended.to_set().contains(k) == ended.contains(k));
        }
    }
    assert(!quiet.dom().contains(key));
    if said.len() == 0 {
        assert(p.sounding() =~= quiet);
        assert(all =~= closing);
        let by = closers(m, ended);
        assert(replay(m.sounding(), all, by) == Some(p.sounding()));
    } else {
        let event = said[0];
        assert(said =~= seq![event]);
        let by = closers(m, ended).push(key);
        assert(all =~= closing.push(event));
        lemma_replay_push(m.sounding(), closing, closers(m, ended), event, key);
        let one = seq![event];
        assert(one.drop_last() =~= Seq::<Event<Z>>::empty());
        assert(replay(quiet, one.drop_last(), seq![key].drop_last()) == Some(quiet));
        assert(p.sounds(key));
        assert(p.sounding() =~= quiet.insert(key, event.keycode));
        assert(replay(m.sounding(), all, by) == Some(p.sounding()));
    }
}

/// What a key-up event is answered.
proof fn lemma_up_answer<Z: Keycode>(m: Machine<Z>, key: usize, ended: Seq<usize>)
    requires
        m.is_sound(),
        key < m.keys.len(),
        m.down.contains(key),
        forall|k: usize| #[trigger]
            ended.contains(k) <==> exists|g: usize| #[trigger]
                m.left(key).contains(g) && m.holders[g as int].contains(k),
        forall|i: int|
            0 <= i < m.left(key).len() ==> #[trigger] m.left(key)[i] < m.holders.len(),
        m.closings(ended).len() == closers(m, ended).len(),
        forall|i: int|
            0 <= i < m.closings(ended).len() ==> (#[trigger] m.closings(ended)[i]).kind == Kind::Up,
        replay(m.sounding(), m.closings(ended), closers(m, ended)) == Some(
            m.sounding().remove_keys(ended.to_set()),
        ),
    ensures
        m.raised(key, ended).finished(key).is_sound(),
        is_sane_answer(m, key, m.raised(key, ended).finished(key)),
{
    let r = m.raised(key, ended);
    let p = r.finished(key);
    let closing = m.closings(ended);
    let all = p.events.skip(m.events.len() as int);
    let quiet = m.sounding().remove_keys(ended.to_set());
    assert(r.prompt(key) == m.prompt(key));
    assert(r.output(key) == m.output(key));
    if m.keys[key as int].active is Some {
        assert(m.layout.group_at(key, m.keys[key as int].active->0) < m.layout.members.len());
    }
    // the machine stays sound
    assert forall|k: usize|
        k < p.keys.len() && (#[trigger] p.keys[k as int]).active is Some implies p.keys[k as int].active->0
        < p.layout.combos[k as int].len() by {
        assert(m.keys[k as int].active is Some);
    }
    assert forall|g: usize, k: usize|
        g < p.holders.len() && #[trigger] p.holders[g as int].contains(k) implies k
        < p.keys.len() && {
        &&& p.down.contains(k)
        &&& p.keys[k as int].active is Some
        &&& p.layout.group_at(k, p.keys[k as int].active->0) == g
        &&& !p.keys[k as int].latching
        &&& p.prompt(k) && p.output(k) is Some ==> p.keys[k as int].open
    } by {
        assert(r.holders[g as int].contains(k));
        assert(m.holders[g as int].contains(k));
        lemma_not_ended(m, m.left(key), ended, g, k);
        assert(p.prompt(k) == m.prompt(k));
        assert(p.output(k) == m.output(k));
    }
    assert forall|g: usize| g < p.holders.len() implies (
    #[trigger] p.holders[g as int]).finite() by {
        assert(m.holders[g as int].finite());
    }
    // the answer
    assert forall|k: usize| k != key implies #[trigger] p.sounds(k) == quiet.dom().contains(k) && (
    p.sounds(k) ==> p.output(k) == m.output(k)) by {
        if k < m.keys.len() {
            assert(p.prompt(k) == m.prompt(k));
            assert(p.output(k) == m.output(k));
            assert(ended.to_set().contains(k) == ended.contains(k));
        }
    }
    assert(!p.sounds(key));
    let sounded = m.sounds(key) && !ended.contains(key);
    assert(ended.to_set().contains(key) == ended.contains(key));
    assert(quiet.dom().contains(key) == sounded);
    let by = closers(m, ended);
    match m.output(key) {
        Some(action) if r.keys[key as int].open => {
            let up = Event { keycode: action, kind: Kind::Up, value: 0 };
            if m.prompt(key) {
                assert(all =~= closing.push(up));
                lemma_replay_push(m.sounding(), closing, by, up, key);
                assert(replay(quiet, seq![up], seq![key]) == Some(quiet.remove(key))) by {
                    assert(seq![up].drop_last() =~= Seq::<Event<Z>>::empty());
                    assert(replay(quiet, seq![up].drop_last(), seq![key].drop_last()) == Some(
                        quiet,
                    ));
                }
                assert(p.sounding() =~= quiet.remove(key));
                assert(p.events =~= m.events + all);
                assert(replay(m.sounding(), all, by.push(key)) == Some(p.sounding()));
            } else {
                let down = Event { keycode: action, kind: Kind::Down, value: 0 };
                let once = closing.push(down);
                assert(all =~= once.push(up));
                lemma_replay_push(m.sounding(), closing, by, down, key);
                lemma_replay_push(m.sounding(), once, by.push(key), up, key);
                let held = quiet.insert(key, action);
                assert(replay(quiet, seq![down], seq![key]) == Some(held)) by {
                    assert(seq![down].drop_last() =~= Seq::<Event<Z>>::empty());
                    assert(replay(quiet, seq![down].drop_last(), seq![key].drop_last()) == Some(
                        quiet,
                    ));
                }
                assert(replay(held, seq![up], seq![key]) == Some(held.remove(key))) by {
                    assert(seq![up].drop_last() =~= Seq::<Event<Z>>::empty());
                    assert(replay(held, seq![up].drop_last(), seq![key].drop_last()) == Some(
                        held,
                    ));
                }
                assert(held.remove(key) =~= quiet);
                assert(p.sounding() =~= quiet);
                assert(p.events =~= m.events + all);
                assert(replay(m.sounding(), all, by.push(key).push(key)) == Some(p.sounding()));
            }
        },
        _ => {
            assert(all =~= closing);
            assert(p.events =~= m.events + all);
            assert(p.sounding() =~= quiet);
            assert(replay(m.sounding(), all, by) == Some(p.sounding()));
        },
    }
}

/// What an event of the axis of a key is answered.
proof fn lemma_axis_answer<Z: Keycode>(m: Machine<Z>, key: usize, kind: Kind, value: i16)
    requires
        m.is_sound(),
        key < m.keys.len(),
        kind != Kind::Down,
        kind != Kind::Up,
        m.down.contains(key) ==> m.is_steady(key),
    ensures
        m.moved(key).acted(key, kind, value).is_sound(),
        is_sane_answer(m, key, m.moved(key).acted(key, kind, value)),
{
    let l = m.moved(key);
    let p = l.acted(key, kind, value);
    lemma_stays_valid(m, l);
    assert forall|g: usize, k: usize|
        g < l.holders.len() && #[trigger] l.holders[g as int].contains(k) implies k != key
        && l.keys[k as int] == m.keys[k as int] && l.prompt(k) == m.prompt(k) && l.output(k)
        == m.output(k) by {
        assert(m.holders[g as int].contains(k));
    }
    assert(l.is_sound());
    lemma_acted_sound(l, key, kind, value);
    lemma_acted_acts(l, key, kind, value);
    let said = p.events.skip(m.events.len() as int);
    assert(l.prompt(key));
    if m.down.contains(key) {
        assert(p.output(key) == m.output(key));
        assert(p.sounds(key));
    }
    assert forall|k: usize| #[trigger] p.sounds(k) == m.sounds(k) && (p.sounds(k) ==> p.output(k)
        == m.output(k)) by {
        if k < m.keys.len() && k != key {
            assert(l.keys[k as int] == m.keys[k as int]);
            assert(l.prompt(k) == m.prompt(k));
            assert(p.prompt(k) == m.prompt(k));
            assert(p.output(k) == m.output(k));
        }
    }
    assert(p.sounding() =~= m.sounding());
    if said.len() == 0 {
        assert(replay(m.sounding(), said, Seq::<usize>::empty()) == Some(p.sounding()));
    } else {
        assert(said =~= seq![said[0]]);
        assert(said.drop_last() =~= Seq::<Event<Z>>::empty());
        assert(replay(m.sounding(), said.drop_last(), seq![key].drop_last()) == Some(
            m.sounding(),
        ));
        assert(replay(m.sounding(), said, seq![key]) == Some(p.sounding()));
    }
}

/// A key's action keeps the machine in order, and only adds to the output.
pub(super) proof fn lemma_acted_valid<Z: Keycode>(m: Machine<Z>, key: usize, kind: Kind, value: i16)
    requires
        m.valid(),
        key < m.keys.len(),
    ensures
        m.acted(key, kind, value).valid(),
        m.events.is_prefix_of(m.acted(key, kind, value).events),
{
    let p = m.acted(key, kind, value);
    lemma_acted_acts(m, key, kind, value);
    assert forall|k: usize|
        k < p.keys.len() && (#[trigger] p.keys[k as int]).active is Some implies p.keys[k as int].active->0
        < p.layout.combos[k as int].len() by {
        if k != key {
            assert(m.keys[k as int].active is Some);
        }
    }
    assert forall|g: usize, k: usize|
        g < p.holders.len() && #[trigger] p.holders[g as int].contains(k) implies k
        < p.keys.len() by {
        if k != key {
            assert(m.holders[g as int].contains(k));
        }
    }
    assert forall|g: usize| g < p.holders.len() implies (
    #[trigger] p.holders[g as int]).finite() by {
        assert(m.holders[g as int].finite());
    }
}

} // verus!

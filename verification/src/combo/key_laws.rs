//! What the events of a key do to it and to the other keys, told by the sets of keys alone.
use crate::combo::conflict_laws::{gives_way, is_meant, is_muted, is_next, is_pressed, stands};
use crate::combo::model::{KeyState, Layout, Machine};
use crate::combo::{conflict_laws, group_laws, laws, lists, model};
use crate::types::{Event, Keycode, Kind};
use vstd::prelude::*;

verus! {

/// The key is a modifier key that waits for key-up.
pub open spec fn waits<Z: Keycode>(m: Machine<Z>, key: usize) -> bool {
    &&& !m.keys[key as int].immediate
    &&& exists|g: usize|
        g < m.layout.members.len() && #[trigger] m.layout.members[g as int].contains(key)
}

/// The action of the combo through which the key acted last, or else its own.
pub open spec fn voice<Z: Keycode>(m: Machine<Z>, key: usize) -> Option<Z> {
    match m.keys[key as int].active {
        Some(combo) => m.layout.combos[key as int][combo as int].action,
        None => m.layout.actions[key as int],
    }
}

/// An event, if there is something to say.
pub open spec fn saying<Z: Keycode>(said: Option<Z>, kind: Kind, value: i16) -> Seq<Event<Z>> {
    match said {
        Some(keycode) => seq![Event { keycode, kind, value }],
        None => Seq::empty(),
    }
}

/// The key-up events of the combos of the keys, but for keys that wait for key-up.
pub open spec fn ups<Z: Keycode>(m: Machine<Z>, keys: Seq<usize>) -> Seq<Event<Z>>
    decreases keys.len(),
{
    if keys.len() == 0 {
        Seq::empty()
    } else {
        ups(m, keys.drop_last()) + if waits(m, keys.last()) || m.keys[keys.last() as int].active
            is None {
            Seq::empty()
        } else {
            saying(voice(m, keys.last()), Kind::Up, 0)
        }
    }
}

/// The combo of the key ends when the keys `down` are down, because its group gives way.
pub open spec fn is_ousted<Z: Keycode>(m: Machine<Z>, key: usize, down: Set<usize>) -> bool {
    exists|g: usize|
        g < m.holders.len() && #[trigger] m.holders[g as int].contains(key) && gives_way(
            m.layout,
            g,
            down,
        )
}

/// The combo of the key ends with the release of the other key, because that is part of its group.
pub open spec fn is_dropped<Z: Keycode>(m: Machine<Z>, key: usize, released: usize) -> bool {
    exists|g: usize|
        g < m.holders.len() && #[trigger] m.holders[g as int].contains(key)
            && m.layout.members[g as int].contains(released)
}

/// With the pressed key a group is pressed that has both keys, and the other key is not its only
/// one.
pub open spec fn is_drawn_in<Z: Keycode>(
    layout: Layout<Z>,
    pressed: usize,
    other: usize,
    down: Set<usize>,
) -> bool {
    exists|g: usize| #[trigger]
        is_pressed(layout, g, down) && layout.members[g as int].contains(pressed)
            && layout.members[g as int].contains(other) && layout.members[g as int] != set![other]
}

/// The key stands for a combo for which the other key is the only modifier.
pub open spec fn relies_on<Z: Keycode>(
    layout: Layout<Z>,
    key: usize,
    other: usize,
    down: Set<usize>,
) -> bool {
    exists|c: usize| #[trigger]
        stands(layout, key, c, down)
            && layout.members[layout.combos[key as int][c as int].group as int] == set![other]
}

/// The combo through which the key acted last has the other key as its only modifier.
pub open spec fn is_only_modifier<Z: Keycode>(m: Machine<Z>, key: usize, other: usize) -> bool {
    match m.keys[key as int].active {
        Some(combo) => m.layout.members[m.layout.combos[key as int][combo as int].group as int]
            == set![other],
        None => false,
    }
}

impl<Z: Keycode> Machine<Z> {
    /// A key that waits for key-up is spent as long as the combo of another key is known to be the
    /// one for which it is the only modifier.
    pub open spec fn is_spent(self) -> bool {
        forall|k: usize, j: usize|
            #![trigger self.keys[k as int], self.keys[j as int]]
            k < self.keys.len() && j < self.keys.len() && self.keys[k as int].stamp == self.stamp
                && is_only_modifier(self, k, j) && waits(self, j) ==> !self.keys[j as int].open
    }

    /// What holds of every machine that a run leads to.
    pub open spec fn is_orderly(self) -> bool {
        &&& self.is_sound()
        &&& self.is_settled()
        &&& self.is_cached()
        &&& self.is_spent()
    }
}

/// A key waits for key-up exactly if it is not prompt.
pub(super) proof fn lemma_waits<Z: Keycode>(m: Machine<Z>, key: usize)
    ensures
        waits(m, key) == !m.prompt(key),
{
}

/// What the ends of combos emit.
pub(super) proof fn lemma_ups<Z: Keycode>(m: Machine<Z>, ended: Seq<usize>)
    ensures
        m.closings(ended) == ups(m, ended),
    decreases ended.len(),
{
    if ended.len() > 0 {
        lemma_ups(m, ended.drop_last());
        let k = ended.last();
        lemma_waits(m, k);
        assert(m.closing(k) =~= if waits(m, k) || m.keys[k as int].active is None {
            Seq::empty()
        } else {
            saying(voice(m, k), Kind::Up, 0)
        });
    }
}

/// A group with one key, and a key of it.
pub(super) proof fn lemma_only_key(members: Set<usize>, key: usize)
    requires
        members.finite(),
    ensures
        (members.len() == 1 && members.contains(key)) == (members == set![key]),
        members.contains(key) ==> (members.len() > 1) == (members != set![key]),
{
    if members.len() == 1 && members.contains(key) {
        let x = members.choose();
        assert(members.remove(key).len() == 0);
        assert(members.remove(key) =~= Set::<usize>::empty());
        assert(members =~= set![key]);
    }
    if members == set![key] {
        assert(set![key].len() == 1);
    }
    if members.contains(key) && members.len() == 0 {
        assert(members =~= Set::<usize>::empty());
    }
}

/// A key acts: what it is afterwards, what it says, and what it does to others.
pub(super) proof fn lemma_acted<Z: Keycode>(m: Machine<Z>, key: usize, kind: Kind, value: i16)
    requires
        m.valid(),
        key < m.keys.len(),
        m.is_cached(),
        m.is_spent(),
        waits(m, key) ==> m.keys[key as int].open,
    ensures
        ({
            let p = m.acted(key, kind, value);
            let w = m.layout.winner(key, m.down);
            &&& p.layout == m.layout
            &&& p.down == m.down
            &&& p.stamp == m.stamp
            &&& p.keys.len() == m.keys.len()
            &&& p.holders.len() == m.holders.len()
            &&& p.keys[key as int] == (KeyState {
                active: w,
                stamp: m.stamp,
                open: match w {
                    Some(c) => m.layout.combos[key as int][c as int].action is Some && (!waits(
                        m,
                        key,
                    ) || m.layout.members[m.layout.group_at(key, c) as int] != set![key]),
                    None => !m.layout.masked(m.down) && (m.keys[key as int].open
                        || m.layout.actions[key as int] is Some),
                },
                ..m.keys[key as int]
            })
            &&& forall|j: int|
                0 <= j < m.keys.len() && j != key ==> #[trigger] p.keys[j] == (KeyState {
                    open: m.keys[j].open && !(waits(m, j as usize) && w is Some
                        && m.layout.members[m.layout.group_at(key, w->0) as int] == set![
                        j as usize,
                    ]),
                    ..m.keys[j]
                })
            &&& forall|g: int|
                0 <= g < m.holders.len() ==> #[trigger] p.holders[g] == if w is Some && g
                    == m.layout.group_at(key, w->0) && !m.keys[key as int].latching {
                    m.holders[g].insert(key)
                } else {
                    m.holders[g]
                }
            &&& p.events == m.events + if waits(m, key) {
                Seq::empty()
            } else {
                saying(m.layout.spoken(key, m.down), kind, value)
            }
        }),
{
    let p = m.acted(key, kind, value);
    let w = m.layout.winner(key, m.down);
    let state = m.keys[key as int];
    lemma_waits(m, key);
    assert(m.events + Seq::<Event<Z>>::empty() =~= m.events);
    if w is Some {
        assert(m.layout.wins(key, w->0, m.down));
        let group = m.layout.group_at(key, w->0);
        assert(group < m.layout.members.len());
        assert(m.layout.members[group as int].finite());
    }
    if state.stamp == m.stamp {
        assert(state.active == w);
        match w {
            Some(combo) => {
                let group = m.layout.group_at(key, combo);
                assert forall|j: usize|
                    j < m.keys.len() && waits(m, j) && m.layout.members[group as int]
                        == set![j] implies !(#[trigger] m.keys[j as int]).open by {
                    assert(m.keys[key as int].stamp == m.stamp);
                }
                assert(p == m.combined(key, combo, kind, value));
            },
            None => {
                assert(p == m.plain(key, kind, value));
            },
        }
    } else {
        let stamped = m.with_key(key, KeyState { stamp: m.stamp, ..state });
        assert(stamped.prompt(key) == m.prompt(key));
        match w {
            Some(combo) => {
                let group = m.layout.group_at(key, combo);
                let used = stamped.using(group);
                assert(p == used.combined(key, combo, kind, value));
                assert(used.prompt(key) == m.prompt(key));
                assert forall|j: int| 0 <= j < m.keys.len() implies #[trigger] used.keys[j]
                    == (KeyState {
                    open: m.keys[j].open && !(waits(m, j as usize)
                        && m.layout.members[group as int] == set![j as usize]),
                    ..stamped.keys[j]
                }) by {
                    lemma_only_key(m.layout.members[group as int], j as usize);
                    lemma_waits(m, j as usize);
                    assert(stamped.prompt(j as usize) == m.prompt(j as usize));
                }
            },
            None => {
                assert(p == stamped.plain(key, kind, value));
            },
        }
    }
}

/// Acting keeps spent what is spent.
pub(super) proof fn lemma_acted_spent<Z: Keycode>(m: Machine<Z>, key: usize, kind: Kind, value: i16)
    requires
        m.valid(),
        key < m.keys.len(),
        m.is_cached(),
        m.is_spent(),
        waits(m, key) ==> m.keys[key as int].open,
    ensures
        m.acted(key, kind, value).is_spent(),
{
    let p = m.acted(key, kind, value);
    lemma_acted(m, key, kind, value);
    assert forall|k: usize, j: usize|
        #![trigger p.keys[k as int], p.keys[j as int]]
        k < p.keys.len() && j < p.keys.len() && p.keys[k as int].stamp == p.stamp
            && is_only_modifier(p, k, j) && waits(p, j) implies !p.keys[j as int].open by {
        assert(waits(m, j)) by {
            assert(p.keys[j as int].immediate == m.keys[j as int].immediate);
        }
        if k != key {
            assert(p.keys[k as int].active == m.keys[k as int].active);
            assert(is_only_modifier(m, k, j));
            assert(m.keys[k as int].stamp == m.stamp);
            assert(!m.keys[j as int].open);
        }
    }
}

/// A key goes down: what becomes of the other keys, and of the groups.
proof fn lemma_lowered<Z: Keycode>(m: Machine<Z>, key: usize, ended: Seq<usize>)
    requires
        m.is_orderly(),
        m.is_fresh(),
        key < m.keys.len(),
        !m.down.contains(key),
        m.empties(m.overtaken(key), ended),
    ensures
        ended.no_duplicates(),
        forall|k: usize| #[trigger]
            ended.contains(k) <==> is_ousted(m, k, m.down.insert(key)),
        !is_ousted(m, key, m.down.insert(key)),
        ({
            let l = m.lowered(key, ended);
            let down = m.down.insert(key);
            &&& l.valid()
            &&& l.is_cached()
            &&& l.is_spent()
            &&& l.down == down
            &&& l.events == m.events + ups(m, ended)
            &&& forall|j: int|
                0 <= j < m.keys.len() ==> #[trigger] l.keys[j] == (KeyState {
                    open: (j == key || m.keys[j].open) && !(waits(m, j as usize) && is_drawn_in(
                        m.layout,
                        key,
                        j as usize,
                        down,
                    )) && !is_ousted(m, j as usize, down),
                    ..m.keys[j]
                })
            &&& forall|g: usize, k: usize|
                g < m.holders.len() ==> (#[trigger] l.holders[g as int].contains(k)
                    <==> m.holders[g as int].contains(k) && !gives_way(m.layout, g, down))
        }),
{
    let layout = m.layout;
    let l = m.lowered(key, ended);
    let down = m.down.insert(key);
    laws::lemma_emptied(m, key, Kind::Down);
    assert(m.emptied(key, Kind::Down) == m.overtaken(key));
    laws::lemma_empties(m, m.overtaken(key), ended);
    laws::lemma_subgroups_of(layout, m.completed(key));
    lists::lemma_ascending(layout.members.len(), m.completes(key));
    assert forall|g: usize, k: usize|
        g < m.holders.len() && #[trigger] m.holders[g as int].contains(k) implies m.overtaken(
        key,
    ).contains(g) == gives_way(layout, g, down) by {
        assert(layout.full(g, m.down));
        conflict_laws::lemma_pressed(layout, g, m.down);
        conflict_laws::lemma_gives_way(layout, g, down);
        if m.overtaken(key).contains(g) {
            let b = choose|b: usize| #[trigger]
                m.completed(key).contains(b) && layout.below(g, b);
            assert((m.completes(key))(b));
            assert(layout.below(g, b) && layout.full(b, down));
        }
        if layout.shadowed(g, down) {
            let b = choose|b: usize| #[trigger] layout.below(g, b) && layout.full(b, down);
            if layout.members[b as int].contains(key) {
                assert((m.completes(key))(b));
                assert(m.completed(key).contains(b) && layout.below(g, b));
            } else {
                assert(layout.members[b as int].subset_of(m.down));
                assert(layout.below(g, b) && layout.full(b, m.down));
            }
        }
    }
    assert forall|k: usize| #[trigger] ended.contains(k) <==> is_ousted(m, k, down) by {
        if ended.contains(k) {
            let g = choose|g: usize| #[trigger]
                m.overtaken(key).contains(g) && m.holders[g as int].contains(k);
            let at = choose|at: int| 0 <= at < m.overtaken(key).len() && m.overtaken(key)[at] == g;
            assert(m.emptied(key, Kind::Down)[at] < m.holders.len());
            assert(m.holders[g as int].contains(k));
        }
        if is_ousted(m, k, down) {
            let g = choose|g: usize|
                g < m.holders.len() && #[trigger] m.holders[g as int].contains(k) && gives_way(
                    layout,
                    g,
                    down,
                );
            assert(m.overtaken(key).contains(g) && m.holders[g as int].contains(k));
        }
    }
    if is_ousted(m, key, down) {
        let g = choose|g: usize|
            g < m.holders.len() && #[trigger] m.holders[g as int].contains(key) && gives_way(
                layout,
                g,
                down,
            );
        assert(m.down.contains(key));
    }
    lemma_ups(m, ended);
    group_laws::lemma_lowered_cached(m, key, ended);
    group_laws::lemma_lowered_shape(m, key, ended);
    assert forall|j: usize| j < m.keys.len() implies #[trigger] m.spends(m.completed(key), j)
        == is_drawn_in(layout, key, j, down) by {
        lemma_spends(m, key, j);
    }
    assert forall|j: int| 0 <= j < m.keys.len() implies #[trigger] l.keys[j] == (KeyState {
        open: (j == key || m.keys[j].open) && !(waits(m, j as usize) && is_drawn_in(
            layout,
            key,
            j as usize,
            down,
        )) && !is_ousted(m, j as usize, down),
        ..m.keys[j]
    }) by {
        lemma_waits(m, j as usize);
        assert(m.spends(m.completed(key), j as usize) == is_drawn_in(
            layout,
            key,
            j as usize,
            down,
        ));
        assert(ended.contains(j as usize) == is_ousted(m, j as usize, down));
    }
    assert forall|k: usize, j: usize|
        #![trigger l.keys[k as int], l.keys[j as int]]
        k < l.keys.len() && j < l.keys.len() && l.keys[k as int].stamp == l.stamp
            && is_only_modifier(l, k, j) && waits(l, j) implies !l.keys[j as int].open by {
        assert(m.keys[k as int].stamp == l.keys[k as int].stamp);
        assert(m.completed(key).len() == 0);
        assert(is_only_modifier(m, k, j));
        assert(waits(m, j));
        let group = layout.group_at(k, m.keys[k as int].active->0);
        assert(group < layout.members.len());
        if j == key {
            lemma_only_key(layout.members[group as int], key);
            assert(layout.members[group as int].subset_of(down));
            assert((m.completes(key))(group));
            assert(m.completed(key).contains(group));
        }
    }
}

/// A press draws in the keys that it spends.
pub(super) proof fn lemma_spends<Z: Keycode>(m: Machine<Z>, key: usize, j: usize)
    requires
        m.valid(),
    ensures
        m.spends(m.completed(key), j) == is_drawn_in(m.layout, key, j, m.down.insert(key)),
{
    let layout = m.layout;
    let down = m.down.insert(key);
    lists::lemma_ascending(layout.members.len(), m.completes(key));
    if m.spends(m.completed(key), j) {
        let g = choose|g: usize| #[trigger]
            m.completed(key).contains(g) && layout.members[g as int].len() > 1
                && layout.members[g as int].contains(j);
        assert((m.completes(key))(g));
        lemma_only_key(layout.members[g as int], j);
        conflict_laws::lemma_pressed(layout, g, down);
        assert(is_pressed(layout, g, down));
    }
    if is_drawn_in(layout, key, j, down) {
        let g = choose|g: usize| #[trigger]
            is_pressed(layout, g, down) && layout.members[g as int].contains(key)
                && layout.members[g as int].contains(j) && layout.members[g as int] != set![j];
        conflict_laws::lemma_pressed(layout, g, down);
        assert((m.completes(key))(g));
        lemma_only_key(layout.members[g as int], j);
        assert(m.completed(key).contains(g));
    }
}

/// With the key that is pressed the group `b` is pressed, which has it and is next to the group `a`.
pub open spec fn is_taken_over<Z: Keycode>(
    layout: Layout<Z>,
    a: usize,
    b: usize,
    key: usize,
    down: Set<usize>,
) -> bool {
    &&& is_pressed(layout, b, down)
    &&& layout.members[b as int].contains(key)
    &&& is_next(layout, a, b)
}

/// The combos of the keys end group by group: in the order of the groups that take theirs over, and
/// then in the order of their own groups.
pub open spec fn ends_in_turn<Z: Keycode>(
    m: Machine<Z>,
    key: usize,
    ended: Seq<usize>,
) -> bool {
    let down = m.down.insert(key);
    forall|x: int, y: int, g: usize, h: usize|
        #![trigger m.holders[g as int].contains(ended[x]), m.holders[h as int].contains(ended[y])]
        0 <= x < y < ended.len() && g < m.holders.len() && h < m.holders.len() && g != h
            && m.holders[g as int].contains(ended[x]) && m.holders[h as int].contains(ended[y])
            ==> exists|c: usize| #[trigger]
            is_taken_over(m.layout, g, c, key, down) && forall|d: usize| #[trigger]
                is_taken_over(m.layout, h, d, key, down) ==> c < d || c == d && g < h
}

/// Of two keys that end, the group of the first one is emptied first.
proof fn lemma_emptied_first<Z: Keycode>(
    m: Machine<Z>,
    groups: Seq<usize>,
    ended: Seq<usize>,
    x: int,
    y: int,
    g: usize,
    h: usize,
) -> (i: int)
    requires
        m.is_sound(),
        m.empties(groups, ended),
        forall|i: int| 0 <= i < groups.len() ==> #[trigger] groups[i] < m.holders.len(),
        0 <= x < y < ended.len(),
        g < m.holders.len(),
        h < m.holders.len(),
        g != h,
        m.holders[g as int].contains(ended[x]),
        m.holders[h as int].contains(ended[y]),
    ensures
        0 <= i < groups.len(),
        groups[i] == g,
        forall|j: int| 0 <= j < groups.len() && #[trigger] groups[j] == h ==> i < j,
    decreases groups.len(),
{
    let last = groups.last();
    let rest = groups.drop_last();
    let held = if rest.contains(last) {
        Set::empty()
    } else {
        m.holders[last as int]
    };
    let cut = choose|cut: int|
        0 <= cut <= ended.len() && m.empties(rest, #[trigger] ended.take(cut)) && model::lists(
            ended.skip(cut),
            held,
        );
    let (a, b) = (ended.take(cut), ended.skip(cut));
    laws::lemma_empties(m, rest, a);
    assert(groups[groups.len() - 1] == last);
    if y < cut {
        assert(a[x] == ended[x] && a[y] == ended[y]);
        let i = lemma_emptied_first(m, rest, a, x, y, g, h);
        assert(groups[i] == g);
        assert forall|j: int| 0 <= j < groups.len() && #[trigger] groups[j] == h implies i < j by {
            if j < rest.len() {
                assert(rest[j] == h);
            }
        }
        i
    } else {
        assert(b[y - cut] == ended[y]);
        assert(b.to_set().contains(ended[y]));
        assert(m.holders[last as int].contains(ended[y]));
        assert(h == last);
        if x >= cut {
            assert(b[x - cut] == ended[x]);
            assert(b.to_set().contains(ended[x]));
            assert(m.holders[last as int].contains(ended[x]));
            assert(g == last);
        }
        assert(a[x] == ended[x]);
        assert(a.contains(ended[x]));
        let f = choose|f: usize| #[trigger]
            rest.contains(f) && m.holders[f as int].contains(ended[x]);
        let i = choose|i: int| 0 <= i < rest.len() && rest[i] == f;
        assert(groups[i] == f);
        assert(groups[i] < m.holders.len());
        assert(m.holders[f as int].contains(ended[x]));
        assert(f == g);
        assert forall|j: int| 0 <= j < groups.len() && #[trigger] groups[j] == h implies i < j by {
            if j < rest.len() {
                assert(rest[j] == last);
                assert(rest.contains(last));
            }
        }
        i
    }
}

/// Where the subgroups of the group at a position start, among those of several groups.
spec fn start_of<Z: Keycode>(layout: Layout<Z>, groups: Seq<usize>, p: int) -> int {
    layout.subgroups_of(groups.take(p)).len() as int
}

/// The subgroups of one more group.
proof fn lemma_more_subgroups<Z: Keycode>(layout: Layout<Z>, groups: Seq<usize>)
    requires
        groups.len() > 0,
    ensures
        layout.subgroups_of(groups) == layout.subgroups_of(groups.drop_last()) + layout.subgroups(
            groups.last(),
        ),
{
    let f = |b: usize| layout.subgroups(b);
    groups.drop_last().lemma_flat_map_push(f, groups.last());
    assert(groups =~= groups.drop_last().push(groups.last()));
}

/// Each of the subgroups of several groups is at some position of those of one of them.
proof fn lemma_block<Z: Keycode>(layout: Layout<Z>, groups: Seq<usize>, i: int) -> (at: (int, int))
    requires
        0 <= i < layout.subgroups_of(groups).len(),
    ensures
        0 <= at.0 < groups.len(),
        0 <= at.1 < layout.subgroups(groups[at.0]).len(),
        i == start_of(layout, groups, at.0) + at.1,
        layout.subgroups_of(groups)[i] == layout.subgroups(groups[at.0])[at.1],
    decreases groups.len(),
{
    if groups.len() == 0 {
        let f = |b: usize| layout.subgroups(b);
        assert(groups.map_values(f) =~= Seq::empty());
        (0, 0)
    } else {
        let rest = groups.drop_last();
        let n = groups.len() - 1;
        lemma_more_subgroups(layout, groups);
        let before = layout.subgroups_of(rest);
        if i < before.len() {
            let at = lemma_block(layout, rest, i);
            assert(rest.take(at.0) =~= groups.take(at.0));
            at
        } else {
            assert(groups.take(n) =~= rest);
            (n, i - before.len())
        }
    }
}

/// The subgroups of the group at a position are among those of several groups, from where they
/// start.
proof fn lemma_block_at<Z: Keycode>(layout: Layout<Z>, groups: Seq<usize>, p: int, r: int)
    requires
        0 <= p < groups.len(),
        0 <= r < layout.subgroups(groups[p]).len(),
    ensures
        0 <= start_of(layout, groups, p) + r < layout.subgroups_of(groups).len(),
        layout.subgroups_of(groups)[start_of(layout, groups, p) + r] == layout.subgroups(
            groups[p],
        )[r],
    decreases groups.len(),
{
    let rest = groups.drop_last();
    lemma_more_subgroups(layout, groups);
    if p < rest.len() {
        lemma_block_at(layout, rest, p, r);
        assert(rest.take(p) =~= groups.take(p));
    } else {
        assert(groups.take(p) =~= rest);
    }
}

/// The subgroups of a group come before those of a later one.
proof fn lemma_blocks_in_order<Z: Keycode>(layout: Layout<Z>, groups: Seq<usize>, p: int, q: int)
    requires
        0 <= p < q < groups.len(),
    ensures
        start_of(layout, groups, p) + layout.subgroups(groups[p]).len() <= start_of(
            layout,
            groups,
            q,
        ),
    decreases q - p,
{
    let taken = groups.take(q);
    lemma_more_subgroups(layout, taken);
    assert(taken.drop_last() =~= groups.take(q - 1));
    assert(taken.last() == groups[q - 1]);
    if p < q - 1 {
        lemma_blocks_in_order(layout, groups, p, q - 1);
    }
}

/// A press ends combos in turn.
proof fn lemma_ends_in_turn<Z: Keycode>(m: Machine<Z>, key: usize, ended: Seq<usize>)
    requires
        m.is_sound(),
        m.is_settled(),
        m.empties(m.overtaken(key), ended),
    ensures
        ends_in_turn(m, key, ended),
{
    let layout = m.layout;
    let down = m.down.insert(key);
    let over = m.completed(key);
    let all = m.overtaken(key);
    laws::lemma_emptied(m, key, Kind::Down);
    assert(m.emptied(key, Kind::Down) == all);
    lists::lemma_ascending(layout.members.len(), m.completes(key));
    assert forall|x: int, y: int, g: usize, h: usize|
        #![trigger m.holders[g as int].contains(ended[x]), m.holders[h as int].contains(ended[y])]
        0 <= x < y < ended.len() && g < m.holders.len() && h < m.holders.len() && g != h
            && m.holders[g as int].contains(ended[x]) && m.holders[h as int].contains(
            ended[y],
        ) implies exists|c: usize| #[trigger]
        is_taken_over(layout, g, c, key, down) && forall|d: usize| #[trigger]
            is_taken_over(layout, h, d, key, down) ==> c < d || c == d && g < h by {
        let i = lemma_emptied_first(m, all, ended, x, y, g, h);
        let at = lemma_block(layout, over, i);
        let c = over[at.0];
        let below_c = |a: usize| layout.below(a, c);
        lists::lemma_ascending(layout.members.len(), below_c);
        assert(layout.subgroups(c)[at.1] == g);
        assert(below_c(g));
        assert(over.contains(c));
        assert((m.completes(key))(c));
        assert(layout.full(g, m.down));
        assert(layout.full(h, m.down));
        conflict_laws::lemma_pressed(layout, g, m.down);
        conflict_laws::lemma_pressed(layout, h, m.down);
        conflict_laws::lemma_pressed(layout, c, down);
        conflict_laws::lemma_next(layout, g, c);
        assert(is_taken_over(layout, g, c, key, down));
        // the other key ends too, so its group is the first one with its keys
        laws::lemma_empties(m, all, ended);
        laws::lemma_subgroups_of(layout, over);
        assert(ended.contains(ended[y]));
        let f = choose|f: usize| #[trigger] all.contains(f) && m.holders[f as int].contains(ended[y]);
        let spot = choose|spot: int| 0 <= spot < all.len() && all[spot] == f;
        assert(all[spot] < m.holders.len());
        assert(m.holders[f as int].contains(ended[y]));
        assert(f == h);
        let e = choose|e: usize| #[trigger] over.contains(e) && layout.below(h, e);
        assert forall|d: usize| #[trigger] is_taken_over(layout, h, d, key, down) implies c < d || c
            == d && g < h by {
            conflict_laws::lemma_pressed(layout, d, down);
            conflict_laws::lemma_next(layout, h, d);
            assert(layout.below(h, d));
            assert((m.completes(key))(d));
            assert(over.contains(d));
            let q = choose|q: int| 0 <= q < over.len() && over[q] == d;
            let below_d = |a: usize| layout.below(a, d);
            lists::lemma_ascending(layout.members.len(), below_d);
            assert(below_d(h));
            assert(layout.subgroups(d).contains(h));
            let s = choose|s: int|
                0 <= s < layout.subgroups(d).len() && layout.subgroups(d)[s] == h;
            lemma_block_at(layout, over, q, s);
            let j = start_of(layout, over, q) + s;
            assert(all[j] == h);
            if q < at.0 {
                lemma_blocks_in_order(layout, over, q, at.0);
            } else if at.0 < q {
                assert(over[at.0] < over[q]);
            } else {
                assert(at.1 < s);
                assert(layout.subgroups(c)[at.1] < layout.subgroups(c)[s]);
            }
        }
    }
}

/// What a press emits: the key-up events of the combos whose groups give way to one that the press
/// completes, each once and group by group, and then what the key means. A modifier key that waits
/// for key-up says nothing itself.
pub proof fn press_emits<Z: Keycode>(
    m: Machine<Z>,
    key: usize,
    value: i16,
    post: Machine<Z>,
) -> (answer: (Seq<usize>, Option<Z>))
    requires
        m.is_orderly(),
        m.is_fresh(),
        key < m.keys.len(),
        !m.down.contains(key),
        m.leads_to(key, Kind::Down, value, post),
    ensures
        answer.0.no_duplicates(),
        ends_in_turn(m, key, answer.0),
        forall|k: usize| #[trigger]
            answer.0.contains(k) <==> is_ousted(m, k, m.down.insert(key)),
        is_meant(m.layout, key, m.down.insert(key), answer.1),
        post.events == m.events + ups(m, answer.0) + if waits(m, key) {
            Seq::empty()
        } else {
            saying(answer.1, Kind::Down, value)
        },
{
    let ended = lemma_press(m, key, value, post);
    let said = m.layout.spoken(key, m.down.insert(key));
    conflict_laws::spoken_is_meant(m.layout, key, m.down.insert(key));
    (ended, said)
}

/// Everything about a press.
proof fn lemma_press<Z: Keycode>(
    m: Machine<Z>,
    key: usize,
    value: i16,
    post: Machine<Z>,
) -> (ended: Seq<usize>)
    requires
        m.is_orderly(),
        m.is_fresh(),
        key < m.keys.len(),
        !m.down.contains(key),
        m.leads_to(key, Kind::Down, value, post),
    ensures
        ended.no_duplicates(),
        ends_in_turn(m, key, ended),
        forall|k: usize| #[trigger]
            ended.contains(k) <==> is_ousted(m, k, m.down.insert(key)),
        ({
            let down = m.down.insert(key);
            let w = m.layout.winner(key, down);
            let acts = !waits(m, key) || !is_drawn_in(m.layout, key, key, down);
            &&& post.layout == m.layout
            &&& post.down == down
            &&& post.keys.len() == m.keys.len()
            &&& post.holders.len() == m.holders.len()
            &&& post.is_spent()
            &&& post.events == m.events + ups(m, ended) + if waits(m, key) {
                Seq::empty()
            } else {
                saying(m.layout.spoken(key, down), Kind::Down, value)
            }
            &&& post.keys[key as int].immediate == m.keys[key as int].immediate
            &&& post.keys[key as int].latching == m.keys[key as int].latching
            &&& post.keys[key as int].active == if acts {
                w
            } else {
                m.keys[key as int].active
            }
            &&& post.keys[key as int].open == (acts && match w {
                Some(c) => m.layout.combos[key as int][c as int].action is Some && (!waits(m, key)
                    || m.layout.members[m.layout.group_at(key, c) as int] != set![key]),
                None => !m.layout.masked(down),
            })
            &&& forall|j: int|
                0 <= j < m.keys.len() && j != key ==> #[trigger] post.keys[j] == (KeyState {
                    open: m.keys[j].open && !is_ousted(m, j as usize, down) && !(waits(
                        m,
                        j as usize,
                    ) && (is_drawn_in(m.layout, key, j as usize, down) || acts && w is Some
                        && m.layout.members[m.layout.group_at(key, w->0) as int] == set![
                        j as usize,
                    ])),
                    ..m.keys[j]
                })
            &&& forall|g: usize, k: usize|
                g < m.holders.len() ==> (#[trigger] post.holders[g as int].contains(k)
                    <==> m.holders[g as int].contains(k) && !gives_way(m.layout, g, down) || k
                    == key && acts && w is Some && g == m.layout.group_at(key, w->0)
                    && !m.keys[key as int].latching)
        }),
{
    let ended = choose|ended: Seq<usize>| #[trigger]
        m.empties(m.emptied(key, Kind::Down), ended) && post == m.after(
            key,
            Kind::Down,
            value,
            ended,
        );
    lemma_ends_in_turn(m, key, ended);
    let l = m.lowered(key, ended);
    let down = m.down.insert(key);
    lemma_lowered(m, key, ended);
    assert(l.keys[key as int].immediate == m.keys[key as int].immediate);
    assert(waits(l, key) == waits(m, key));
    let acts = !waits(m, key) || !is_drawn_in(m.layout, key, key, down);
    assert(l.keys[key as int].open == acts);
    lemma_waits(l, key);
    if acts {
        lemma_acted(l, key, Kind::Down, value);
        lemma_acted_spent(l, key, Kind::Down, value);
        assert forall|j: int| 0 <= j < m.keys.len() implies waits(l, j as usize) == waits(
            m,
            #[trigger] (j as usize),
        ) by {
            assert(l.keys[j].immediate == m.keys[j].immediate);
        }
        assert forall|g: usize, k: usize|
            g < m.holders.len() implies (#[trigger] post.holders[g as int].contains(k)
            <==> m.holders[g as int].contains(k) && !gives_way(m.layout, g, down) || k == key
            && acts && m.layout.winner(key, down) is Some && g == m.layout.group_at(
            key,
            m.layout.winner(key, down)->0,
        ) && !m.keys[key as int].latching) by {
            assert(l.holders[g as int].contains(k) <==> m.holders[g as int].contains(k)
                && !gives_way(m.layout, g, down));
        }
        let closed = m.events + ups(m, ended);
        if waits(m, key) {
            assert(closed + Seq::<Event<Z>>::empty() =~= closed);
        }
    } else {
        assert(post == l);
        let closed = m.events + ups(m, ended);
        assert(closed + Seq::<Event<Z>>::empty() =~= closed);
    }
    ended
}

/// The key acts on its press: it does not wait for key-up, or the press does not complete a group of
/// several keys with it.
pub open spec fn acts_on_press<Z: Keycode>(m: Machine<Z>, key: usize) -> bool {
    !waits(m, key) || !is_drawn_in(m.layout, key, key, m.down.insert(key))
}

/// What a press makes of its key. If the key acts, it acts through the combo that it stands for.
/// Its release has an effect exactly if that combo has an action (and the key does not wait for
/// key-up as the only modifier of its own combo), or if it stands for none and nothing mutes it.
/// While something mutes it, its release has no effect, even if it waits for key-up.
pub proof fn press_sets_key<Z: Keycode>(m: Machine<Z>, key: usize, value: i16, post: Machine<Z>)
    requires
        m.is_orderly(),
        m.is_fresh(),
        key < m.keys.len(),
        !m.down.contains(key),
        m.leads_to(key, Kind::Down, value, post),
    ensures
        post.down == m.down.insert(key),
        post.keys[key as int].immediate == m.keys[key as int].immediate,
        post.keys[key as int].latching == m.keys[key as int].latching,
        !acts_on_press(m, key) ==> !post.keys[key as int].open && post.keys[key as int].active
            == m.keys[key as int].active,
        forall|c: usize|
            acts_on_press(m, key) && #[trigger] stands(m.layout, key, c, post.down) ==> {
                &&& post.keys[key as int].active == Some(c)
                &&& post.keys[key as int].open <==> m.layout.combos[key as int][c as int].action
                    is Some && !(waits(m, key)
                    && m.layout.members[m.layout.combos[key as int][c as int].group as int]
                    == set![key])
            },
        acts_on_press(m, key) && (forall|c: usize| !#[trigger]
            stands(m.layout, key, c, post.down)) ==> {
            &&& post.keys[key as int].active is None
            &&& post.keys[key as int].open <==> !is_muted(m.layout, post.down)
        },
{
    let ended = lemma_press(m, key, value, post);
    let down = m.down.insert(key);
    conflict_laws::masking_takes_a_pressed_group(m.layout, down);
    lemma_stands(m.layout, key, down);
}

/// The combo that wins is the one that the key stands for.
pub(super) proof fn lemma_stands<Z: Keycode>(layout: Layout<Z>, key: usize, down: Set<usize>)
    requires
        layout.valid(),
        key < layout.codes.len(),
    ensures
        forall|c: usize| #[trigger]
            stands(layout, key, c, down) <==> layout.winner(key, down) == Some(c),
        layout.winner(key, down) is None <==> forall|c: usize| !#[trigger]
            stands(layout, key, c, down),
{
    assert forall|c: usize| #[trigger] stands(layout, key, c, down) <==> layout.winner(key, down)
        == Some(c) by {
        conflict_laws::combo_wins_without_conflict(layout, key, c, down);
    }
    if layout.winner(key, down) is Some {
        assert(stands(layout, key, layout.winner(key, down)->0, down));
    }
}

/// What a press makes of another key. It only takes away the effect of the other key's release:
/// if the group of the other key's combo gives way, or if the other key waits for key-up and is
/// either drawn into a group of several keys, or the only modifier of the combo through which the
/// key acts.
pub proof fn press_sets_other_key<Z: Keycode>(
    m: Machine<Z>,
    key: usize,
    value: i16,
    post: Machine<Z>,
    other: usize,
)
    requires
        m.is_orderly(),
        m.is_fresh(),
        key < m.keys.len(),
        !m.down.contains(key),
        m.leads_to(key, Kind::Down, value, post),
        other < m.keys.len(),
        other != key,
    ensures
        post.keys[other as int] == (KeyState { open: post.keys[other as int].open, ..m.keys[other as int] }),
        post.keys[other as int].open <==> {
            &&& m.keys[other as int].open
            &&& !is_ousted(m, other, m.down.insert(key))
            &&& waits(m, other) ==> {
                &&& !is_drawn_in(m.layout, key, other, m.down.insert(key))
                &&& !(acts_on_press(m, key) && relies_on(m.layout, key, other, m.down.insert(key)))
            }
        },
{
    let ended = lemma_press(m, key, value, post);
    let down = m.down.insert(key);
    lemma_stands(m.layout, key, down);
    assert(post.keys[other as int].open == (m.keys[other as int].open && !is_ousted(m, other, down)
        && !(waits(m, other) && (is_drawn_in(m.layout, key, other, down) || acts_on_press(m, key)
        && m.layout.winner(key, down) is Some && m.layout.members[m.layout.group_at(
        key,
        m.layout.winner(key, down)->0,
    ) as int] == set![other]))));
    if m.layout.winner(key, down) is Some {
        assert(stands(m.layout, key, m.layout.winner(key, down)->0, down));
    }
}

/// Through which groups keys act after a press: those that acted through a group go on unless the
/// group gives way, and a key that acts joins the group of the combo that it stands for, masking or
/// not, unless it is latching.
pub proof fn press_sets_groups<Z: Keycode>(
    m: Machine<Z>,
    key: usize,
    value: i16,
    post: Machine<Z>,
    group: usize,
    other: usize,
)
    requires
        m.is_orderly(),
        m.is_fresh(),
        key < m.keys.len(),
        !m.down.contains(key),
        m.leads_to(key, Kind::Down, value, post),
        group < m.layout.members.len(),
    ensures
        post.holders[group as int].contains(other) <==> {
            ||| m.holders[group as int].contains(other) && !gives_way(
                m.layout,
                group,
                m.down.insert(key),
            )
            ||| other == key && acts_on_press(m, key) && !m.keys[key as int].latching
                && exists|c: usize| #[trigger]
                stands(m.layout, key, c, m.down.insert(key))
                    && m.layout.combos[key as int][c as int].group == group
        },
{
    let ended = lemma_press(m, key, value, post);
    let down = m.down.insert(key);
    lemma_stands(m.layout, key, down);
    if m.layout.winner(key, down) is Some {
        assert(stands(m.layout, key, m.layout.winner(key, down)->0, down));
    }
}

/// The combos of the keys end group by group, in the order in which the groups are declared.
pub open spec fn ends_in_order<Z: Keycode>(m: Machine<Z>, ended: Seq<usize>) -> bool {
    forall|x: int, y: int, g: usize, h: usize|
        #![trigger m.holders[g as int].contains(ended[x]), m.holders[h as int].contains(ended[y])]
        0 <= x < y < ended.len() && g < m.holders.len() && h < m.holders.len()
            && m.holders[g as int].contains(ended[x]) && m.holders[h as int].contains(ended[y])
            ==> g <= h
}

/// Emptying groups one after the other ends combos in their order.
proof fn lemma_empties_in_order<Z: Keycode>(m: Machine<Z>, groups: Seq<usize>, ended: Seq<usize>)
    requires
        m.is_sound(),
        m.empties(groups, ended),
        forall|i: int| 0 <= i < groups.len() ==> #[trigger] groups[i] < m.holders.len(),
        forall|i: int, j: int|
            0 <= i < j < groups.len() ==> #[trigger] groups[i] < #[trigger] groups[j],
    ensures
        ends_in_order(m, ended),
    decreases groups.len(),
{
    if groups.len() > 0 {
        let last = groups.last();
        let rest = groups.drop_last();
        let held = if rest.contains(last) {
            Set::empty()
        } else {
            m.holders[last as int]
        };
        let cut = choose|cut: int|
            0 <= cut <= ended.len() && m.empties(rest, #[trigger] ended.take(cut))
                && model::lists(ended.skip(cut), held);
        let (a, b) = (ended.take(cut), ended.skip(cut));
        lemma_empties_in_order(m, rest, a);
        laws::lemma_empties(m, rest, a);
        assert forall|x: int, y: int, g: usize, h: usize|
            #![trigger m.holders[g as int].contains(ended[x]), m.holders[h as int].contains(ended[y])]
            0 <= x < y < ended.len() && g < m.holders.len() && h < m.holders.len()
                && m.holders[g as int].contains(ended[x]) && m.holders[h as int].contains(
                ended[y],
            ) implies g <= h by {
            if y < cut {
                assert(a[x] == ended[x] && a[y] == ended[y]);
                assert(m.holders[g as int].contains(a[x]));
                assert(m.holders[h as int].contains(a[y]));
            } else {
                assert(b[y - cut] == ended[y]);
                assert(b.to_set().contains(ended[y]));
                assert(groups[groups.len() - 1] == last);
                assert(m.holders[last as int].contains(ended[y]));
                assert(h == last);
                if x >= cut {
                    assert(b[x - cut] == ended[x]);
                    assert(b.to_set().contains(ended[x]));
                    assert(m.holders[last as int].contains(ended[x]));
                } else {
                    assert(a[x] == ended[x]);
                    assert(a.contains(ended[x]));
                    let f = choose|f: usize| #[trigger]
                        rest.contains(f) && m.holders[f as int].contains(ended[x]);
                    let at = choose|at: int| 0 <= at < rest.len() && rest[at] == f;
                    assert(groups[at] == f);
                    assert(groups[at] < groups[groups.len() - 1]);
                    assert(m.holders[f as int].contains(ended[x]));
                    assert(f == g);
                }
            }
        }
    }
}

/// Everything about a release.
proof fn lemma_release<Z: Keycode>(
    m: Machine<Z>,
    key: usize,
    value: i16,
    post: Machine<Z>,
) -> (ended: Seq<usize>)
    requires
        m.is_sound(),
        m.is_settled(),
        key < m.keys.len(),
        m.down.contains(key),
        m.leads_to(key, Kind::Up, value, post),
    ensures
        ended.no_duplicates(),
        ends_in_order(m, ended),
        forall|k: usize| #[trigger] ended.contains(k) <==> is_dropped(m, k, key),
        post.layout == m.layout,
        post.down == m.down.remove(key),
        post.keys.len() == m.keys.len(),
        post.holders.len() == m.holders.len(),
        m.is_spent() && m.is_fresh() ==> post.is_spent(),
        post.events == m.events + ups(m, ended) + if m.keys[key as int].open && !is_dropped(
            m,
            key,
            key,
        ) {
            if waits(m, key) {
                saying(voice(m, key), Kind::Down, 0) + saying(voice(m, key), Kind::Up, 0)
            } else {
                saying(voice(m, key), Kind::Up, 0)
            }
        } else {
            Seq::empty()
        },
        forall|j: int|
            0 <= j < m.keys.len() ==> #[trigger] post.keys[j] == (KeyState {
                open: m.keys[j].open && !is_dropped(m, j as usize, key),
                ..m.keys[j]
            }),
        forall|g: usize, k: usize|
            g < m.holders.len() ==> (#[trigger] post.holders[g as int].contains(k)
                <==> m.holders[g as int].contains(k) && k != key
                && !m.layout.members[g as int].contains(key)),
{
    let layout = m.layout;
    let ended = choose|ended: Seq<usize>| #[trigger]
        m.empties(m.emptied(key, Kind::Up), ended) && post == m.after(key, Kind::Up, value, ended);
    let r = m.raised(key, ended);
    laws::lemma_emptied(m, key, Kind::Up);
    assert(m.emptied(key, Kind::Up) == m.left(key));
    laws::lemma_empties(m, m.left(key), ended);
    lists::lemma_ascending(layout.members.len(), m.leaves(key));
    lemma_empties_in_order(m, m.left(key), ended);
    assert forall|g: usize, k: usize|
        g < m.holders.len() && #[trigger] m.holders[g as int].contains(k) implies m.left(
        key,
    ).contains(g) == layout.members[g as int].contains(key) by {
        assert(layout.full(g, m.down));
        assert((m.leaves(key))(g) == layout.members[g as int].contains(key));
    }
    assert forall|k: usize| #[trigger] ended.contains(k) <==> is_dropped(m, k, key) by {
        if ended.contains(k) {
            let g = choose|g: usize| #[trigger]
                m.left(key).contains(g) && m.holders[g as int].contains(k);
            let at = choose|at: int| 0 <= at < m.left(key).len() && m.left(key)[at] == g;
            assert(m.emptied(key, Kind::Up)[at] < m.holders.len());
            assert(m.holders[g as int].contains(k));
        }
        if is_dropped(m, k, key) {
            let g = choose|g: usize|
                g < m.holders.len() && #[trigger] m.holders[g as int].contains(k)
                    && layout.members[g as int].contains(key);
            assert(m.left(key).contains(g) && m.holders[g as int].contains(k));
        }
    }
    lemma_ups(m, ended);
    lemma_waits(m, key);
    assert(r.prompt(key) == m.prompt(key));
    assert(r.output(key) == voice(m, key));
    assert forall|j: int| 0 <= j < m.keys.len() implies #[trigger] post.keys[j] == (KeyState {
        open: m.keys[j].open && !is_dropped(m, j as usize, key),
        ..m.keys[j]
    }) by {
        assert(ended.contains(j as usize) == is_dropped(m, j as usize, key));
    }
    if m.keys[key as int].active is Some {
        assert(layout.group_at(key, m.keys[key as int].active->0) < layout.members.len());
    }
    assert forall|g: usize, k: usize|
        g < m.holders.len() implies (#[trigger] post.holders[g as int].contains(k)
        <==> m.holders[g as int].contains(k) && k != key && !layout.members[g as int].contains(
        key,
    )) by {
        if m.holders[g as int].contains(k) {
            assert(m.left(key).contains(g) == layout.members[g as int].contains(key));
            assert(layout.group_at(k, m.keys[k as int].active->0) == g);
        }
        assert(r.holders[g as int].contains(k) ==> m.holders[g as int].contains(k));
        assert(post.holders[g as int].contains(k) ==> r.holders[g as int].contains(k));
    }
    let closed = m.events + ups(m, ended);
    let out = voice(m, key);
    assert(closed + Seq::<Event<Z>>::empty() =~= closed);
    assert(ended.contains(key) == is_dropped(m, key, key));
    assert(r.keys[key as int].open == (m.keys[key as int].open && !is_dropped(m, key, key)));
    if r.keys[key as int].open {
        if waits(m, key) {
            match out {
                Some(action) => {
                    assert(post.events =~= closed + (saying(out, Kind::Down, 0) + saying(
                        out,
                        Kind::Up,
                        0,
                    )));
                },
                None => {
                    assert(saying(out, Kind::Down, 0) + saying(out, Kind::Up, 0)
                        =~= Seq::<Event<Z>>::empty());
                },
            }
        } else {
            assert(post.events =~= closed + saying(out, Kind::Up, 0));
        }
    }
    if m.is_spent() && m.is_fresh() {
        assert forall|k: usize, j: usize|
            #![trigger post.keys[k as int], post.keys[j as int]]
            k < post.keys.len() && j < post.keys.len() && post.keys[k as int].stamp == post.stamp
                && is_only_modifier(post, k, j) && waits(post, j) implies !post.keys[j as int].open by {
            assert(m.keys[k as int].stamp == post.keys[k as int].stamp);
            assert(is_only_modifier(m, k, j));
            assert(waits(m, j));
        }
    }
    ended
}

/// What a release emits: the key-up events of the combos of the groups that the key is part of,
/// each once and group by group, and then the end of what the key itself does. A key whose release
/// has no effect, or whose combo ended, says nothing itself. A modifier key that waited for key-up
/// goes down and up.
pub proof fn release_emits<Z: Keycode>(
    m: Machine<Z>,
    key: usize,
    value: i16,
    post: Machine<Z>,
) -> (ended: Seq<usize>)
    requires
        m.is_sound(),
        m.is_settled(),
        key < m.keys.len(),
        m.down.contains(key),
        m.leads_to(key, Kind::Up, value, post),
    ensures
        ended.no_duplicates(),
        ends_in_order(m, ended),
        forall|k: usize| #[trigger] ended.contains(k) <==> is_dropped(m, k, key),
        post.events == m.events + ups(m, ended) + if !m.keys[key as int].open || is_dropped(
            m,
            key,
            key,
        ) {
            Seq::empty()
        } else if waits(m, key) {
            saying(voice(m, key), Kind::Down, 0) + saying(voice(m, key), Kind::Up, 0)
        } else {
            saying(voice(m, key), Kind::Up, 0)
        },
{
    lemma_release(m, key, value, post)
}

/// What a release makes of a key: its release has an effect afterwards only if it had before, and
/// if it does not act through a group of which the released key is part.
pub proof fn release_sets_keys<Z: Keycode>(
    m: Machine<Z>,
    key: usize,
    value: i16,
    post: Machine<Z>,
    other: usize,
)
    requires
        m.is_sound(),
        m.is_settled(),
        key < m.keys.len(),
        m.down.contains(key),
        m.leads_to(key, Kind::Up, value, post),
        other < m.keys.len(),
    ensures
        post.down == m.down.remove(key),
        post.keys[other as int] == (KeyState { open: post.keys[other as int].open, ..m.keys[other as int] }),
        post.keys[other as int].open <==> m.keys[other as int].open && !is_dropped(m, other, key),
{
    let ended = lemma_release(m, key, value, post);
}

/// Through which groups keys act after a release: those that acted through a group of which the
/// released key is not part go on, but not the released key.
pub proof fn release_sets_groups<Z: Keycode>(
    m: Machine<Z>,
    key: usize,
    value: i16,
    post: Machine<Z>,
    group: usize,
    other: usize,
)
    requires
        m.is_sound(),
        m.is_settled(),
        key < m.keys.len(),
        m.down.contains(key),
        m.leads_to(key, Kind::Up, value, post),
        group < m.layout.members.len(),
    ensures
        post.holders[group as int].contains(other) <==> {
            &&& m.holders[group as int].contains(other)
            &&& other != key
            &&& !m.layout.members[group as int].contains(key)
        },
{
    let ended = lemma_release(m, key, value, post);
}

/// Everything about an event of an axis.
pub(super) proof fn lemma_axis<Z: Keycode>(
    m: Machine<Z>,
    key: usize,
    kind: Kind,
    value: i16,
    post: Machine<Z>,
)
    requires
        m.valid(),
        m.is_cached(),
        m.is_spent(),
        key < m.keys.len(),
        kind != Kind::Down,
        kind != Kind::Up,
        m.leads_to(key, kind, value, post),
    ensures
        ({
            let w = m.layout.winner(key, m.down);
            &&& post.layout == m.layout
            &&& post.down == m.down
            &&& post.holders =~= m.holders
            &&& post.keys.len() == m.keys.len()
            &&& post.is_spent()
            &&& post.events == m.events + saying(m.layout.spoken(key, m.down), kind, value)
            &&& post.keys[key as int].immediate
            &&& post.keys[key as int].latching
            &&& post.keys[key as int].active == w
            &&& post.keys[key as int].open == match w {
                Some(c) => m.layout.combos[key as int][c as int].action is Some,
                None => !m.layout.masked(m.down),
            }
            &&& forall|j: int|
                0 <= j < m.keys.len() && j != key ==> #[trigger] post.keys[j] == (KeyState {
                    open: m.keys[j].open && !(waits(m, j as usize) && w is Some
                        && m.layout.members[m.layout.group_at(key, w->0) as int] == set![
                        j as usize,
                    ]),
                    ..m.keys[j]
                })
        }),
{
    let l = m.moved(key);
    group_laws::lemma_moved_shape(m, key);
    assert(post == l.acted(key, kind, value));
    assert forall|k: usize|
        k < l.keys.len() && (#[trigger] l.keys[k as int]).stamp == l.stamp implies l.keys[k as int].active
        == l.layout.winner(k, l.down) by {
        assert(m.keys[k as int].stamp == l.keys[k as int].stamp);
    }
    assert forall|k: usize, j: usize|
        #![trigger l.keys[k as int], l.keys[j as int]]
        k < l.keys.len() && j < l.keys.len() && l.keys[k as int].stamp == l.stamp
            && is_only_modifier(l, k, j) && waits(l, j) implies !l.keys[j as int].open by {
        assert(m.keys[k as int].stamp == l.keys[k as int].stamp);
        assert(is_only_modifier(m, k, j));
        assert(j != key);
        assert(waits(m, j));
        assert(!m.keys[j as int].open);
    }
    lemma_acted(l, key, kind, value);
    lemma_acted_spent(l, key, kind, value);
    assert forall|j: int| 0 <= j < m.keys.len() && j != key implies #[trigger] post.keys[j]
        == (KeyState {
        open: m.keys[j].open && !(waits(m, j as usize) && m.layout.winner(key, m.down) is Some
            && m.layout.members[m.layout.group_at(key, m.layout.winner(key, m.down)->0) as int]
            == set![j as usize]),
        ..m.keys[j]
    }) by {
        assert(l.keys[j] == m.keys[j]);
        assert(waits(l, j as usize) == waits(m, j as usize));
    }
}

/// What an event of an axis emits: an event of the same kind and with the same value, of what the
/// key means. From then on the key does not wait for key-up, and is latching. Its release has an
/// effect exactly if it says something, or has nothing to say and is not muted.
pub proof fn axis_emits<Z: Keycode>(
    m: Machine<Z>,
    key: usize,
    kind: Kind,
    value: i16,
    post: Machine<Z>,
) -> (said: Option<Z>)
    requires
        m.valid(),
        m.is_cached(),
        m.is_spent(),
        key < m.keys.len(),
        kind != Kind::Down,
        kind != Kind::Up,
        m.leads_to(key, kind, value, post),
    ensures
        is_meant(m.layout, key, m.down, said),
        post.events == m.events + saying(said, kind, value),
        post.down == m.down,
        post.holders == m.holders,
        post.keys[key as int].immediate,
        post.keys[key as int].latching,
        forall|c: usize| #[trigger]
            stands(m.layout, key, c, m.down) ==> post.keys[key as int].active == Some(c)
                && post.keys[key as int].open == (said is Some),
        (forall|c: usize| !#[trigger] stands(m.layout, key, c, m.down))
            ==> post.keys[key as int].active is None && post.keys[key as int].open == !is_muted(
            m.layout,
            m.down,
        ),
{
    lemma_axis(m, key, kind, value, post);
    conflict_laws::masking_takes_a_pressed_group(m.layout, m.down);
    conflict_laws::spoken_is_meant(m.layout, key, m.down);
    lemma_stands(m.layout, key, m.down);
    m.layout.spoken(key, m.down)
}

/// What an event of an axis makes of another key: its release loses its effect if it waits for
/// key-up and is the only modifier of the combo that the key stands for.
pub proof fn axis_sets_other_key<Z: Keycode>(
    m: Machine<Z>,
    key: usize,
    kind: Kind,
    value: i16,
    post: Machine<Z>,
    other: usize,
)
    requires
        m.valid(),
        m.is_cached(),
        m.is_spent(),
        key < m.keys.len(),
        kind != Kind::Down,
        kind != Kind::Up,
        m.leads_to(key, kind, value, post),
        other < m.keys.len(),
        other != key,
    ensures
        post.keys[other as int] == (KeyState { open: post.keys[other as int].open, ..m.keys[other as int] }),
        post.keys[other as int].open <==> m.keys[other as int].open && !(waits(m, other)
            && relies_on(m.layout, key, other, m.down)),
{
    lemma_axis(m, key, kind, value, post);
    lemma_stands(m.layout, key, m.down);
    let w = m.layout.winner(key, m.down);
    assert(post.keys[other as int].open == (m.keys[other as int].open && !(waits(m, other) && w
        is Some && m.layout.members[m.layout.group_at(key, w->0) as int] == set![other])));
    if w is Some {
        assert(stands(m.layout, key, w->0, m.down));
    }
}

/// Every event keeps a machine orderly. (The axis of a key that is down moves only while the key is
/// steady.)
pub proof fn event_keeps_order<Z: Keycode>(
    m: Machine<Z>,
    key: usize,
    kind: Kind,
    value: i16,
    post: Machine<Z>,
)
    requires
        m.is_orderly(),
        m.is_fresh(),
        key < m.keys.len(),
        m.sane(key, kind),
        kind != Kind::Down && kind != Kind::Up && m.down.contains(key) ==> m.is_steady(key),
        m.leads_to(key, kind, value, post),
    ensures
        post.is_orderly(),
{
    laws::output_is_sane(m, key, kind, value, post);
    group_laws::groups_stay_settled(m, key, kind, value, post);
    group_laws::cache_stays_right(m, key, kind, value, post);
    match kind {
        Kind::Down => {
            let ended = lemma_press(m, key, value, post);
        },
        Kind::Up => {
            let ended = lemma_release(m, key, value, post);
        },
        _ => {
            lemma_axis(m, key, kind, value, post);
        },
    }
}

} // verus!

//! What holds of groups: which combo wins, what a key press emits, and when combos end.
use crate::combo::model::{KeyState, Layout, Machine};
use crate::combo::{laws, lists};
use crate::config::Config;
use crate::types::{Event, Keycode, Kind};
use vstd::prelude::*;

verus! {

impl<Z: Keycode> Layout<Z> {
    /// What the key stands for while the keys `down` are down: the action of the combo that wins,
    /// or its own action unless something masks it.
    pub open spec fn spoken(self, key: usize, down: Set<usize>) -> Option<Z> {
        match self.winner(key, down) {
            Some(combo) => self.combos[key as int][combo as int].action,
            None => if self.masked(down) {
                None
            } else {
                self.actions[key as int]
            },
        }
    }

    /// No earlier group has the same keys.
    pub open spec fn is_first(self, group: usize) -> bool {
        forall|c: usize|
            c < group ==> #[trigger] self.members[c as int] != self.members[group as int]
    }
}

impl<Z: Keycode> Machine<Z> {
    /// A key whose combo was determined since the last change of a group stands for what wins.
    pub open spec fn is_cached(self) -> bool {
        forall|k: usize|
            k < self.keys.len() && (#[trigger] self.keys[k as int]).stamp == self.stamp
                ==> self.keys[k as int].active == self.layout.winner(k, self.down)
    }

    /// No key remembers the stamp that comes next.
    pub open spec fn is_fresh(self) -> bool {
        forall|k: usize|
            k < self.keys.len() ==> (#[trigger] self.keys[k as int]).stamp
                != self.stamp.wrapping_add(1)
    }

    /// A group through which keys act is down, and no larger group has replaced it.
    pub open spec fn is_settled(self) -> bool {
        forall|g: usize, k: usize|
            g < self.holders.len() && #[trigger] self.holders[g as int].contains(k)
                ==> self.layout.full(g, self.down) && !self.layout.shadowed(g, self.down)
    }
}

/// At most one combo wins.
pub proof fn winner_is_unique<Z: Keycode>(
    layout: Layout<Z>,
    key: usize,
    a: usize,
    b: usize,
    down: Set<usize>,
)
    requires
        layout.wins(key, a, down),
        layout.wins(key, b, down),
    ensures
        a == b,
        layout.winner(key, down) == Some(a),
{
    if a < b {
        assert(!layout.full(layout.group_at(key, a), down));
    }
    if b < a {
        assert(!layout.full(layout.group_at(key, b), down));
    }
    let c = layout.winner(key, down)->0;
    assert(layout.wins(key, c, down));
    if a < c {
        assert(!layout.full(layout.group_at(key, a), down));
    }
    if c < a {
        assert(!layout.full(layout.group_at(key, c), down));
    }
}

/// Which combo wins depends on which groups are down, and on nothing else. So it does not matter
/// in which order modifier keys go down.
pub proof fn winner_depends_on_groups<Z: Keycode>(
    layout: Layout<Z>,
    key: usize,
    a: Set<usize>,
    b: Set<usize>,
)
    requires
        forall|g: usize| #[trigger] layout.full(g, a) == layout.full(g, b),
    ensures
        layout.winner(key, a) == layout.winner(key, b),
        layout.masked(a) == layout.masked(b),
        layout.spoken(key, a) == layout.spoken(key, b),
{
    assert forall|g: usize| #[trigger] layout.shadowed(g, a) == layout.shadowed(g, b) by {
        if layout.shadowed(g, a) {
            let h = choose|h: usize| #[trigger] layout.below(g, h) && layout.full(h, a);
            assert(layout.below(g, h) && layout.full(h, b));
        }
        if layout.shadowed(g, b) {
            let h = choose|h: usize| #[trigger] layout.below(g, h) && layout.full(h, b);
            assert(layout.full(h, a) == layout.full(h, b));
            assert(layout.below(g, h) && layout.full(h, a));
        }
    }
    lemma_wins_same(layout, key, a, b);
    lemma_wins_same(layout, key, b, a);
    if layout.winner(key, a) is Some {
        let c = layout.winner(key, a)->0;
        assert(layout.wins(key, c, a));
        assert(layout.wins(key, c, b));
        winner_is_unique(layout, key, c, c, b);
    } else if layout.winner(key, b) is Some {
        let c = layout.winner(key, b)->0;
        assert(layout.wins(key, c, b));
        assert(layout.wins(key, c, a));
    }
    if layout.masked(a) {
        let g = choose|g: usize| #[trigger] layout.in_force(g, a) && layout.masking[g as int];
        assert(layout.full(g, a) == layout.full(g, b));
        assert(layout.in_force(g, b) && layout.masking[g as int]);
    }
    if layout.masked(b) {
        let g = choose|g: usize| #[trigger] layout.in_force(g, b) && layout.masking[g as int];
        assert(layout.full(g, a) == layout.full(g, b));
        assert(layout.in_force(g, a) && layout.masking[g as int]);
    }
}

/// A combo that wins goes on to win.
proof fn lemma_wins_same<Z: Keycode>(
    layout: Layout<Z>,
    key: usize,
    a: Set<usize>,
    b: Set<usize>,
)
    requires
        forall|g: usize| #[trigger] layout.full(g, a) == layout.full(g, b),
        forall|g: usize| #[trigger] layout.shadowed(g, a) == layout.shadowed(g, b),
    ensures
        forall|c: usize| layout.wins(key, c, a) ==> #[trigger] layout.wins(key, c, b),
{
    assert forall|c: usize| layout.wins(key, c, a) implies #[trigger] layout.wins(key, c, b) by {
        let group = layout.group_at(key, c);
        assert(layout.full(group, a) == layout.full(group, b));
        assert(layout.shadowed(group, a) == layout.shadowed(group, b));
        assert forall|other: usize| other < c implies !layout.full(
            #[trigger] layout.group_at(key, other),
            b,
        ) by {
            let h = layout.group_at(key, other);
            assert(layout.full(h, a) == layout.full(h, b));
        }
        assert forall|other: usize|
            other < layout.combos[key as int].len() && layout.full(
                #[trigger] layout.group_at(key, other),
                b,
            ) implies layout.group_at(key, other) == group || layout.inside(
            layout.group_at(key, other),
            group,
        ) by {
            let h = layout.group_at(key, other);
            assert(layout.full(h, a) == layout.full(h, b));
        }
        assert forall|other: usize| #[trigger] layout.crosses(group, other) implies !layout.full(
            other,
            b,
        ) by {
            assert(layout.full(other, a) == layout.full(other, b));
        }
    }
}

/// Unless a key completes a group, its press does not change which groups are down.
proof fn lemma_press_keeps_full<Z: Keycode>(m: Machine<Z>, key: usize)
    requires
        m.valid(),
        !m.down.contains(key),
        m.completed(key).len() == 0,
    ensures
        forall|g: usize| #[trigger]
            m.layout.full(g, m.down) == m.layout.full(g, m.down.insert(key)),
{
    assert forall|g: usize| #[trigger]
        m.layout.full(g, m.down) == m.layout.full(g, m.down.insert(key)) by {
        if g < m.layout.members.len() {
            lists::lemma_ascending(m.layout.members.len(), m.completes(key));
            if m.layout.members[g as int].contains(key) {
                if m.layout.full(g, m.down.insert(key)) {
                    assert((m.completes(key))(g));
                    assert(m.completed(key).contains(g));
                }
            } else {
                assert(m.layout.members[g as int].subset_of(m.down) == m.layout.members[g as int].subset_of(
                m.down.insert(key)));
            }
        }
    }
}

/// Unless a key leaves a group, its release does not change which groups are down.
proof fn lemma_release_keeps_full<Z: Keycode>(m: Machine<Z>, key: usize)
    requires
        m.valid(),
        m.left(key).len() == 0,
    ensures
        forall|g: usize| #[trigger]
            m.layout.full(g, m.down) == m.layout.full(g, m.down.remove(key)),
{
    assert forall|g: usize| #[trigger]
        m.layout.full(g, m.down) == m.layout.full(g, m.down.remove(key)) by {
        if g < m.layout.members.len() {
            lists::lemma_ascending(m.layout.members.len(), m.leaves(key));
            if m.layout.members[g as int].contains(key) {
                if m.layout.full(g, m.down) {
                    assert((m.leaves(key))(g));
                    assert(m.left(key).contains(g));
                }
            } else {
                assert(m.layout.members[g as int].subset_of(m.down) == m.layout.members[g as int].subset_of(
                m.down.remove(key)));
            }
        }
    }
}

/// What a key stands for after it acted.
proof fn lemma_acted_cached<Z: Keycode>(m: Machine<Z>, key: usize, kind: Kind, value: i16)
    requires
        m.valid(),
        key < m.keys.len(),
        m.keys[key as int].stamp == m.stamp ==> m.keys[key as int].active == m.layout.winner(
            key,
            m.down,
        ),
    ensures
        ({
            let p = m.acted(key, kind, value);
            &&& p.keys[key as int].stamp == m.stamp ==> p.keys[key as int].active
                == m.layout.winner(key, m.down)
            &&& m.prompt(key) || m.keys[key as int].open ==> p.keys[key as int].stamp == m.stamp
        }),
{
    let state = m.keys[key as int];
    let stamped = m.with_key(key, KeyState { stamp: m.stamp, ..state });
    match m.layout.winner(key, m.down) {
        Some(combo) => {
            let used = stamped.using(m.layout.group_at(key, combo));
            assert(used.keys[key as int].stamp == m.stamp);
        },
        None => {},
    }
}

/// What is known of a key's combo stays right. (It would not if the stamp that comes next were one
/// that a key remembers, which takes as many changes of groups as there are stamps.)
pub proof fn cache_stays_right<Z: Keycode>(
    m: Machine<Z>,
    key: usize,
    kind: Kind,
    value: i16,
    post: Machine<Z>,
)
    requires
        m.valid(),
        key < m.keys.len(),
        m.sane(key, kind),
        m.is_cached(),
        m.is_fresh(),
        m.leads_to(key, kind, value, post),
    ensures
        post.is_cached(),
{
    let ended = choose|ended: Seq<usize>| #[trigger]
        m.empties(m.emptied(key, kind), ended) && post == m.after(key, kind, value, ended);
    match kind {
        Kind::Down => {
            let l = m.lowered(key, ended);
            lemma_lowered_cached(m, key, ended);
            lemma_lowered_shape(m, key, ended);
            laws::lemma_acted_acts(l, key, kind, value);
            assert(m.keys[key as int].stamp == l.keys[key as int].stamp);
            lemma_acted_cached(l, key, kind, value);
            assert forall|k: usize|
                k < post.keys.len() && (#[trigger] post.keys[k as int]).stamp
                    == post.stamp implies post.keys[k as int].active == post.layout.winner(
                k,
                post.down,
            ) by {
                if k != key {
                    assert(l.keys[k as int].stamp == post.keys[k as int].stamp);
                }
            }
        },
        Kind::Up => {
            assert forall|k: usize|
                k < post.keys.len() && (#[trigger] post.keys[k as int]).stamp
                    == post.stamp implies post.keys[k as int].active == post.layout.winner(
                k,
                post.down,
            ) by {
                assert(m.keys[k as int].stamp == post.keys[k as int].stamp);
                if m.left(key).len() == 0 {
                    lemma_release_keeps_full(m, key);
                    winner_depends_on_groups(m.layout, k, m.down, m.down.remove(key));
                }
            }
        },
        _ => {
            let l = m.moved(key);
            lemma_moved_shape(m, key);
            laws::lemma_acted_acts(l, key, kind, value);
            assert(m.keys[key as int].stamp == l.keys[key as int].stamp);
            lemma_acted_cached(l, key, kind, value);
            assert forall|k: usize|
                k < post.keys.len() && (#[trigger] post.keys[k as int]).stamp
                    == post.stamp implies post.keys[k as int].active == post.layout.winner(
                k,
                post.down,
            ) by {
                if k != key {
                    assert(l.keys[k as int] == m.keys[k as int]);
                }
            }
        },
    }
}

/// What is known of the combos stays right when a key goes down.
pub(super) proof fn lemma_lowered_cached<Z: Keycode>(m: Machine<Z>, key: usize, ended: Seq<usize>)
    requires
        m.valid(),
        key < m.keys.len(),
        !m.down.contains(key),
        m.is_cached(),
        m.is_fresh() || m.completed(key).len() == 0,
    ensures
        m.lowered(key, ended).is_cached(),
{
    let l = m.lowered(key, ended);
    assert forall|k: usize|
        k < l.keys.len() && (#[trigger] l.keys[k as int]).stamp == l.stamp implies l.keys[k as int].active
        == l.layout.winner(k, l.down) by {
        assert(m.keys[k as int].stamp == l.keys[k as int].stamp);
        if m.completed(key).len() == 0 {
            lemma_press_keeps_full(m, key);
            winner_depends_on_groups(m.layout, k, m.down, m.down.insert(key));
        }
    }
}

/// A key that goes down keeps the machine in order.
pub(super) proof fn lemma_lowered_shape<Z: Keycode>(m: Machine<Z>, key: usize, ended: Seq<usize>)
    requires
        m.valid(),
        key < m.keys.len(),
    ensures
        m.lowered(key, ended).valid(),
{
    let l = m.lowered(key, ended);
    assert forall|k: usize|
        k < l.keys.len() && (#[trigger] l.keys[k as int]).active is Some implies l.keys[k as int].active->0
        < l.layout.combos[k as int].len() by {
        assert(m.keys[k as int].active is Some);
    }
    assert forall|g: usize, k: usize|
        g < l.holders.len() && #[trigger] l.holders[g as int].contains(k) implies k
        < l.keys.len() by {
        assert(m.holders[g as int].contains(k));
    }
    assert forall|g: usize| g < l.holders.len() implies (
    #[trigger] l.holders[g as int]).finite() by {
        assert(m.holders[g as int].finite());
    }
}

/// A key whose axis moves keeps the machine in order.
pub(super) proof fn lemma_moved_shape<Z: Keycode>(m: Machine<Z>, key: usize)
    requires
        m.valid(),
        key < m.keys.len(),
    ensures
        m.moved(key).valid(),
{
    let l = m.moved(key);
    assert forall|k: usize|
        k < l.keys.len() && (#[trigger] l.keys[k as int]).active is Some implies l.keys[k as int].active->0
        < l.layout.combos[k as int].len() by {
        assert(m.keys[k as int].active is Some);
    }
}

/// What a prompt key says when it acts.
proof fn lemma_acted_says<Z: Keycode>(m: Machine<Z>, key: usize, kind: Kind, value: i16)
    requires
        m.valid(),
        key < m.keys.len(),
        m.prompt(key),
        m.keys[key as int].stamp == m.stamp ==> m.keys[key as int].active == m.layout.winner(
            key,
            m.down,
        ),
    ensures
        m.acted(key, kind, value).events == m.events + match m.layout.spoken(key, m.down) {
            Some(action) => seq![Event { keycode: action, kind, value }],
            None => Seq::empty(),
        },
{
    let p = m.acted(key, kind, value);
    let state = m.keys[key as int];
    let said = match m.layout.spoken(key, m.down) {
        Some(action) => seq![Event { keycode: action, kind, value }],
        None => Seq::<Event<Z>>::empty(),
    };
    assert(m.events + Seq::<Event<Z>>::empty() =~= m.events);
    if state.stamp != m.stamp {
        let stamped = m.with_key(key, KeyState { stamp: m.stamp, ..state });
        assert(stamped.prompt(key));
        match m.layout.winner(key, m.down) {
            Some(combo) => {
                let used = stamped.using(m.layout.group_at(key, combo));
                assert(used.prompt(key)) by {
                    assert(used.keys[key as int].immediate == state.immediate);
                }
                assert(used.events == m.events);
                assert(p.events == m.events + said);
            },
            None => {
                assert(p.events == m.events + said);
            },
        }
    } else {
        assert(p.events == m.events + said);
    }
}

/// A key that acts on key-down says on its press what it stands for: after the ends of the combos
/// that the press ends comes a key-down event, if there is an action.
pub proof fn press_says_what_wins<Z: Keycode>(
    m: Machine<Z>,
    key: usize,
    value: i16,
    post: Machine<Z>,
)
    requires
        m.valid(),
        key < m.keys.len(),
        !m.down.contains(key),
        m.prompt(key),
        m.is_cached(),
        m.is_fresh() || m.completed(key).len() == 0,
        m.leads_to(key, Kind::Down, value, post),
    ensures
        exists|ended: Seq<usize>| #[trigger]
            m.empties(m.overtaken(key), ended) && post.events == m.events + m.closings(ended)
                + match m.layout.spoken(key, m.down.insert(key)) {
                Some(action) => seq![Event { keycode: action, kind: Kind::Down, value }],
                None => Seq::empty(),
            },
{
    let ended = choose|ended: Seq<usize>| #[trigger]
        m.empties(m.emptied(key, Kind::Down), ended) && post == m.after(
            key,
            Kind::Down,
            value,
            ended,
        );
    let l = m.lowered(key, ended);
    lemma_lowered_cached(m, key, ended);
    lemma_lowered_shape(m, key, ended);
    assert(l.prompt(key) == m.prompt(key));
    assert(l.keys[key as int].stamp == l.stamp ==> l.keys[key as int].active == l.layout.winner(
        key,
        l.down,
    ));
    lemma_acted_says(l, key, Kind::Down, value);
    assert(m.empties(m.overtaken(key), ended));
}

/// What the press of an action key emits depends on the keys that are down, and on nothing else:
/// not on the order in which they went down, nor on how long ago.
pub proof fn press_of_action_key<Z: Keycode>(
    m: Machine<Z>,
    key: usize,
    value: i16,
    post: Machine<Z>,
)
    requires
        m.valid(),
        key < m.keys.len(),
        !m.down.contains(key),
        !m.layout.is_modifier(key),
        m.is_cached(),
        m.leads_to(key, Kind::Down, value, post),
    ensures
        post.events == m.events + match m.layout.spoken(key, m.down) {
            Some(action) => seq![Event { keycode: action, kind: Kind::Down, value }],
            None => Seq::empty(),
        },
{
    lists::lemma_ascending(m.layout.members.len(), m.completes(key));
    if m.completed(key).len() > 0 {
        let g = m.completed(key)[0];
        assert((m.completes(key))(g));
        assert(m.layout.members[g as int].contains(key));
    }
    press_says_what_wins(m, key, value, post);
    let ended = choose|ended: Seq<usize>| #[trigger]
        m.empties(m.overtaken(key), ended) && post.events == m.events + m.closings(ended)
            + match m.layout.spoken(key, m.down.insert(key)) {
            Some(action) => seq![Event { keycode: action, kind: Kind::Down, value }],
            None => Seq::empty(),
        };
    laws::lemma_subgroups_of(m.layout, m.completed(key));
    assert(m.overtaken(key).len() == 0) by {
        if m.overtaken(key).len() > 0 {
            assert(m.layout.subgroups_of(m.completed(key)).contains(m.overtaken(key)[0]));
        }
    }
    assert(ended.len() == 0);
    assert(m.events + m.closings(ended) =~= m.events);
    lemma_press_keeps_full(m, key);
    winner_depends_on_groups(m.layout, key, m.down, m.down.insert(key));
}

/// A group has been replaced exactly if some larger group is down. (Of several groups with the same
/// keys this is about the first.)
pub proof fn replaced_by_any_larger_group<Z: Keycode>(
    layout: Layout<Z>,
    group: usize,
    down: Set<usize>,
)
    requires
        layout.valid(),
        group < layout.members.len(),
        layout.is_first(group),
    ensures
        layout.shadowed(group, down) <==> exists|b: usize| #[trigger]
            layout.inside(group, b) && layout.full(b, down),
{
    if layout.shadowed(group, down) {
        let b = choose|b: usize| #[trigger] layout.below(group, b) && layout.full(b, down);
        assert(layout.inside(group, b));
    }
    if exists|b: usize| #[trigger] layout.inside(group, b) && layout.full(b, down) {
        let b = choose|b: usize| #[trigger] layout.inside(group, b) && layout.full(b, down);
        lemma_neighbour_below(layout, group, b, down);
    }
}

/// Between a group and a larger one that is down lies a neighbour that is down.
proof fn lemma_neighbour_below<Z: Keycode>(
    layout: Layout<Z>,
    group: usize,
    b: usize,
    down: Set<usize>,
)
    requires
        layout.valid(),
        layout.is_first(group),
        layout.inside(group, b),
        layout.full(b, down),
    ensures
        layout.shadowed(group, down),
    decreases layout.members[b as int].len(),
{
    if exists|c: usize| #[trigger] layout.inside(group, c) && layout.inside(c, b) {
        let c = choose|c: usize| #[trigger] layout.inside(group, c) && layout.inside(c, b);
        let (small, large) = (layout.members[c as int], layout.members[b as int]);
        assert(large.finite());
        vstd::set_lib::lemma_len_subset(small, large);
        if small.len() == large.len() {
            vstd::set_lib::lemma_subset_equality(small, large);
        }
        assert(layout.full(c, down));
        lemma_neighbour_below(layout, group, c, down);
    } else {
        assert(layout.below(group, b));
    }
}

/// The combo that wins has no conflict: its group is down, no larger group is, no overlapping group
/// is, and the groups of the key's other combos that are down are within its group. (Of several
/// groups with the same keys, the part about larger groups is about the first.)
pub proof fn winner_has_no_conflict<Z: Keycode>(
    layout: Layout<Z>,
    key: usize,
    combo: usize,
    down: Set<usize>,
)
    requires
        layout.valid(),
        key < layout.codes.len(),
        layout.winner(key, down) == Some(combo),
    ensures
        combo < layout.combos[key as int].len(),
        ({
            let group = layout.group_at(key, combo);
            &&& layout.full(group, down)
            &&& layout.is_first(group) ==> forall|b: usize| #[trigger]
                layout.inside(group, b) ==> !layout.full(b, down)
            &&& forall|b: usize| #[trigger] layout.crosses(group, b) ==> !layout.full(b, down)
            &&& forall|other: usize|
                other < layout.combos[key as int].len() && layout.full(
                    #[trigger] layout.group_at(key, other),
                    down,
                ) ==> layout.group_at(key, other) == group || layout.inside(
                    layout.group_at(key, other),
                    group,
                )
        }),
{
    assert(layout.wins(key, combo, down));
    let group = layout.group_at(key, combo);
    assert(group < layout.members.len());
    if layout.is_first(group) {
        replaced_by_any_larger_group(layout, group, down);
        assert forall|b: usize| #[trigger] layout.inside(group, b) implies !layout.full(
            b,
            down,
        ) by {}
    }
}

/// Several groups of combos of the key are down, and none of the key's combos has a group that is
/// down and that the groups of all of these are within: no combo wins, and the key stands for its
/// own action.
pub proof fn conflict_nullifies<Z: Keycode>(
    layout: Layout<Z>,
    key: usize,
    a: usize,
    b: usize,
    down: Set<usize>,
)
    requires
        key < layout.codes.len(),
        a < layout.combos[key as int].len(),
        b < layout.combos[key as int].len(),
        layout.full(layout.group_at(key, a), down),
        layout.full(layout.group_at(key, b), down),
        forall|c: usize|
            c < layout.combos[key as int].len() && layout.full(
                #[trigger] layout.group_at(key, c),
                down,
            ) ==> {
                ||| layout.group_at(key, a) != layout.group_at(key, c) && !layout.inside(
                    layout.group_at(key, a),
                    layout.group_at(key, c),
                )
                ||| layout.group_at(key, b) != layout.group_at(key, c) && !layout.inside(
                    layout.group_at(key, b),
                    layout.group_at(key, c),
                )
            },
    ensures
        layout.winner(key, down) is None,
        !layout.masked(down) ==> layout.spoken(key, down) == layout.actions[key as int],
{
    if layout.winner(key, down) is Some {
        let c = layout.winner(key, down)->0;
        assert(layout.wins(key, c, down));
        assert(layout.full(layout.group_at(key, c), down));
    }
}

/// A group that overlaps with all groups of the key's combos that are down is down: no combo wins,
/// and the key stands for its own action.
pub proof fn overlap_nullifies<Z: Keycode>(
    layout: Layout<Z>,
    key: usize,
    group: usize,
    down: Set<usize>,
)
    requires
        key < layout.codes.len(),
        layout.full(group, down),
        forall|c: usize|
            c < layout.combos[key as int].len() && layout.full(
                #[trigger] layout.group_at(key, c),
                down,
            ) ==> layout.crosses(layout.group_at(key, c), group),
    ensures
        layout.winner(key, down) is None,
        !layout.masked(down) ==> layout.spoken(key, down) == layout.actions[key as int],
{
    if layout.winner(key, down) is Some {
        let c = layout.winner(key, down)->0;
        assert(layout.wins(key, c, down));
        assert(layout.full(layout.group_at(key, c), down));
        assert(layout.crosses(layout.group_at(key, c), group));
    }
}

/// While a masking group is down that no larger group has replaced, a key without a combo that wins
/// says nothing.
pub proof fn masking_group_mutes<Z: Keycode>(
    layout: Layout<Z>,
    key: usize,
    group: usize,
    down: Set<usize>,
)
    requires
        layout.masking[group as int],
        layout.in_force(group, down),
        layout.winner(key, down) is None,
    ensures
        layout.spoken(key, down) is None,
{
    assert(layout.in_force(group, down) && layout.masking[group as int]);
}

/// Which group a key joins when it acts.
proof fn lemma_acted_joins<Z: Keycode>(m: Machine<Z>, key: usize, kind: Kind, value: i16)
    requires
        m.valid(),
        key < m.keys.len(),
        m.keys[key as int].stamp == m.stamp ==> m.keys[key as int].active == m.layout.winner(
            key,
            m.down,
        ),
    ensures
        forall|g: usize, k: usize|
            g < m.holders.len() && #[trigger] m.acted(key, kind, value).holders[g as int].contains(
                k,
            ) ==> m.holders[g as int].contains(k) || m.layout.full(g, m.down)
                && !m.layout.shadowed(g, m.down),
{
    let p = m.acted(key, kind, value);
    laws::lemma_acted_acts(m, key, kind, value);
    lemma_acted_cached(m, key, kind, value);
    assert forall|g: usize, k: usize|
        g < m.holders.len() && #[trigger] p.holders[g as int].contains(k)
            && !m.holders[g as int].contains(k) implies m.layout.full(g, m.down)
        && !m.layout.shadowed(g, m.down) by {
        if !m.prompt(key) && !m.keys[key as int].open {
            assert(p == m);
        }
        let c = p.keys[key as int].active->0;
        assert(p.keys[key as int].active == m.layout.winner(key, m.down));
        assert(m.layout.wins(key, c, m.down));
    }
}

/// Keys act only through groups that are down and that no larger group has replaced.
pub proof fn groups_stay_settled<Z: Keycode>(
    m: Machine<Z>,
    key: usize,
    kind: Kind,
    value: i16,
    post: Machine<Z>,
)
    requires
        m.valid(),
        key < m.keys.len(),
        m.sane(key, kind),
        m.is_cached(),
        m.is_fresh(),
        m.is_settled(),
        m.leads_to(key, kind, value, post),
    ensures
        post.is_settled(),
{
    let ended = choose|ended: Seq<usize>| #[trigger]
        m.empties(m.emptied(key, kind), ended) && post == m.after(key, kind, value, ended);
    laws::event_keeps_layout(m, key, kind, value, post);
    match kind {
        Kind::Down => {
            let l = m.lowered(key, ended);
            lemma_lowered_cached(m, key, ended);
            lemma_lowered_shape(m, key, ended);
            lemma_lowered_settled(m, key, ended);
            assert(l.keys[key as int].stamp == l.stamp ==> l.keys[key as int].active
                == l.layout.winner(key, l.down));
            lemma_acted_joins(l, key, kind, value);
            laws::lemma_acted_acts(l, key, kind, value);
            assert forall|g: usize, k: usize|
                g < post.holders.len() && #[trigger] post.holders[g as int].contains(
                    k,
                ) implies post.layout.full(g, post.down) && !post.layout.shadowed(
                g,
                post.down,
            ) by {
                if l.holders[g as int].contains(k) {
                    assert(l.layout.full(g, l.down));
                }
            }
        },
        Kind::Up => {
            let r = m.raised(key, ended);
            if r.keys[key as int].active is Some {
                assert(m.keys[key as int].active is Some);
                assert(r.layout.group_at(key, r.keys[key as int].active->0)
                    < r.layout.members.len());
            }
            lists::lemma_ascending(m.layout.members.len(), m.leaves(key));
            assert forall|g: usize, k: usize|
                g < post.holders.len() && #[trigger] post.holders[g as int].contains(
                    k,
                ) implies post.layout.full(g, post.down) && !post.layout.shadowed(
                g,
                post.down,
            ) by {
                assert(r.holders[g as int].contains(k));
                assert(!m.left(key).contains(g));
                assert(m.holders[g as int].contains(k));
                assert(m.layout.full(g, m.down));
                assert(!(m.leaves(key))(g));
                assert(m.layout.members[g as int].subset_of(m.down.remove(key)));
                if post.layout.shadowed(g, post.down) {
                    let b = choose|b: usize| #[trigger]
                        m.layout.below(g, b) && m.layout.full(b, post.down);
                    assert(m.layout.members[b as int].subset_of(m.down));
                    assert(m.layout.below(g, b) && m.layout.full(b, m.down));
                }
            }
        },
        _ => {
            let l = m.moved(key);
            lemma_moved_shape(m, key);
            assert(m.keys[key as int].stamp == l.keys[key as int].stamp);
            lemma_acted_joins(l, key, kind, value);
            laws::lemma_acted_acts(l, key, kind, value);
            assert forall|g: usize, k: usize|
                g < post.holders.len() && #[trigger] post.holders[g as int].contains(
                    k,
                ) implies post.layout.full(g, post.down) && !post.layout.shadowed(
                g,
                post.down,
            ) by {
                if l.holders[g as int].contains(k) {
                    assert(m.holders[g as int].contains(k));
                }
            }
        },
    }
}

/// A key that goes down empties the groups that are replaced.
proof fn lemma_lowered_settled<Z: Keycode>(m: Machine<Z>, key: usize, ended: Seq<usize>)
    requires
        m.valid(),
        key < m.keys.len(),
        m.is_settled(),
    ensures
        m.lowered(key, ended).is_settled(),
{
    let l = m.lowered(key, ended);
    laws::lemma_subgroups_of(m.layout, m.completed(key));
    lists::lemma_ascending(m.layout.members.len(), m.completes(key));
    assert forall|g: usize, k: usize|
        g < l.holders.len() && #[trigger] l.holders[g as int].contains(k) implies l.layout.full(
        g,
        l.down,
    ) && !l.layout.shadowed(g, l.down) by {
        assert(!m.overtaken(key).contains(g));
        assert(m.holders[g as int].contains(k));
        assert(m.layout.full(g, m.down));
        if l.layout.shadowed(g, l.down) {
            let b = choose|b: usize| #[trigger]
                m.layout.below(g, b) && m.layout.full(b, l.down);
            if m.layout.members[b as int].contains(key) {
                assert((m.completes(key))(b));
                assert(m.completed(key).contains(b) && m.layout.below(g, b));
                assert(m.layout.subgroups_of(m.completed(key)).contains(g));
            } else {
                assert(m.layout.members[b as int].subset_of(m.down));
                assert(m.layout.below(g, b) && m.layout.full(b, m.down));
            }
        }
    }
}

/// A group that is down deactivates its subgroups: no key acts through them. (Of several groups
/// with the same keys this is about the first.)
pub proof fn larger_group_deactivates_subgroups<Z: Keycode>(
    m: Machine<Z>,
    group: usize,
    subgroup: usize,
)
    requires
        m.valid(),
        m.is_settled(),
        m.layout.full(group, m.down),
        m.layout.inside(subgroup, group),
        m.layout.is_first(subgroup),
    ensures
        m.holders[subgroup as int] == Set::<usize>::empty(),
{
    replaced_by_any_larger_group(m.layout, subgroup, m.down);
    assert(m.layout.inside(subgroup, group) && m.layout.full(group, m.down));
    assert forall|k: usize| !m.holders[subgroup as int].contains(k) by {}
    assert(m.holders[subgroup as int] =~= Set::<usize>::empty());
}

/// When a group is left, the combos of the keys that act through it end: those keys do not sound
/// any more, and for each that sounded there is a key-up event.
pub proof fn released_group_ends_combos<Z: Keycode>(
    m: Machine<Z>,
    key: usize,
    value: i16,
    post: Machine<Z>,
    group: usize,
    other: usize,
)
    requires
        m.is_sound(),
        key < m.keys.len(),
        m.down.contains(key),
        m.leads_to(key, Kind::Up, value, post),
        group < m.layout.members.len(),
        m.layout.members[group as int].contains(key),
        m.layout.full(group, m.down),
        m.holders[group as int].contains(other),
    ensures
        post.holders[group as int] == Set::<usize>::empty(),
        !post.keys[other as int].open,
        !post.sounds(other),
        m.sounds(other) ==> post.events.skip(m.events.len() as int).contains(
            Event { keycode: m.output(other)->0, kind: Kind::Up, value: 0 },
        ),
{
    let ended = choose|ended: Seq<usize>| #[trigger]
        m.empties(m.emptied(key, Kind::Up), ended) && post == m.after(key, Kind::Up, value, ended);
    let r = m.raised(key, ended);
    lists::lemma_ascending(m.layout.members.len(), m.leaves(key));
    assert((m.leaves(key))(group));
    assert(m.left(key).contains(group));
    laws::lemma_emptied(m, key, Kind::Up);
    laws::lemma_empties(m, m.left(key), ended);
    assert(m.left(key).contains(group) && m.holders[group as int].contains(other));
    assert(ended.contains(other));
    assert(r.holders[group as int] == Set::<usize>::empty());
    assert(!r.keys[other as int].open);
    if r.keys[key as int].active is Some {
        assert(m.keys[key as int].active is Some);
        assert(r.layout.group_at(key, r.keys[key as int].active->0) < r.layout.members.len());
    }
    assert(post.holders[group as int] =~= Set::<usize>::empty());
    if m.sounds(other) {
        let up = Event { keycode: m.output(other)->0, kind: Kind::Up, value: 0 };
        lemma_closings_contain(m, ended, other, up);
        let closing = m.closings(ended);
        let at = choose|at: int| 0 <= at < closing.len() && closing[at] == up;
        let said = post.events.skip(m.events.len() as int);
        assert(said[at] == up);
    }
}

/// What several ends emit has the part of each.
proof fn lemma_closings_contain<Z: Keycode>(
    m: Machine<Z>,
    ended: Seq<usize>,
    key: usize,
    event: Event<Z>,
)
    requires
        ended.contains(key),
        m.closing(key) == seq![event],
    ensures
        m.closings(ended).contains(event),
    decreases ended.len(),
{
    let rest = m.closings(ended.drop_last());
    let last = m.closing(ended.last());
    if ended.last() == key {
        assert((rest + last)[rest.len() as int] == event);
    } else {
        let at = choose|at: int| 0 <= at < ended.len() && ended[at] == key;
        assert(ended.drop_last()[at] == key);
        lemma_closings_contain(m, ended.drop_last(), key, event);
        let i = choose|i: int| 0 <= i < rest.len() && rest[i] == event;
        assert((rest + last)[i] == event);
    }
}

/// A latching key goes on to sound, whatever becomes of the group of its combo: events of other
/// keys do not matter to it.
pub proof fn latching_key_outlasts_its_group<Z: Keycode>(
    m: Machine<Z>,
    key: usize,
    kind: Kind,
    value: i16,
    post: Machine<Z>,
    other: usize,
)
    requires
        m.is_sound(),
        key < m.keys.len(),
        other < m.keys.len(),
        other != key,
        m.keys[other as int].latching,
        m.leads_to(key, kind, value, post),
    ensures
        post.keys[other as int].active == m.keys[other as int].active,
        post.sounds(other) == m.sounds(other),
{
    let ended = choose|ended: Seq<usize>| #[trigger]
        m.empties(m.emptied(key, kind), ended) && post == m.after(key, kind, value, ended);
    laws::lemma_emptied(m, key, kind);
    laws::lemma_empties(m, m.emptied(key, kind), ended);
    if ended.contains(other) {
        let emptied = m.emptied(key, kind);
        let g = choose|g: usize| #[trigger]
            emptied.contains(g) && m.holders[g as int].contains(other);
        let at = choose|at: int| 0 <= at < emptied.len() && emptied[at] == g;
        assert(emptied[at] < m.holders.len());
        assert(m.holders[g as int].contains(other));
    }
    match kind {
        Kind::Down => {
            let l = m.lowered(key, ended);
            lemma_lowered_shape(m, key, ended);
            laws::lemma_acted_acts(l, key, kind, value);
            assert(l.prompt(other) == m.prompt(other));
            assert(post.prompt(other) == m.prompt(other));
            assert(l.keys[other as int].active == m.keys[other as int].active);
            assert(post.keys[other as int].active == l.keys[other as int].active);
            assert(post.output(other) == m.output(other));
        },
        Kind::Up => {
            assert(post.prompt(other) == m.prompt(other));
            assert(post.output(other) == m.output(other));
        },
        _ => {
            let l = m.moved(key);
            lemma_moved_shape(m, key);
            laws::lemma_acted_acts(l, key, kind, value);
            assert(l.keys[other as int] == m.keys[other as int]);
            assert(l.prompt(other) == m.prompt(other));
            assert(post.prompt(other) == m.prompt(other));
            assert(post.keys[other as int].active == m.keys[other as int].active);
            assert(post.output(other) == m.output(other));
        },
    }
}

/// A combo is ordered: an event of a key does not change what another key stands for, nor does it
/// give the other key's release an effect.
pub proof fn event_leaves_other_combos<Z: Keycode>(
    m: Machine<Z>,
    key: usize,
    kind: Kind,
    value: i16,
    post: Machine<Z>,
    other: usize,
)
    requires
        m.valid(),
        key < m.keys.len(),
        other < m.keys.len(),
        other != key,
        m.leads_to(key, kind, value, post),
    ensures
        post.keys[other as int].active == m.keys[other as int].active,
        post.output(other) == m.output(other),
        post.keys[other as int].open ==> m.keys[other as int].open,
{
    let ended = choose|ended: Seq<usize>| #[trigger]
        m.empties(m.emptied(key, kind), ended) && post == m.after(key, kind, value, ended);
    laws::event_keeps_layout(m, key, kind, value, post);
    match kind {
        Kind::Down => {
            let l = m.lowered(key, ended);
            lemma_lowered_shape(m, key, ended);
            laws::lemma_acted_acts(l, key, kind, value);
            assert(l.keys[other as int].active == m.keys[other as int].active);
            assert(post.keys[other as int].active == l.keys[other as int].active);
        },
        Kind::Up => {},
        _ => {
            let l = m.moved(key);
            lemma_moved_shape(m, key);
            laws::lemma_acted_acts(l, key, kind, value);
            assert(l.keys[other as int] == m.keys[other as int]);
            assert(post.keys[other as int].active == m.keys[other as int].active);
        },
    }
}

/// A modifier key that waits for key-up says nothing itself on its press.
pub proof fn delayed_key_is_silent_on_press<Z: Keycode>(
    m: Machine<Z>,
    key: usize,
    value: i16,
    post: Machine<Z>,
)
    requires
        m.valid(),
        key < m.keys.len(),
        !m.prompt(key),
        m.leads_to(key, Kind::Down, value, post),
    ensures
        exists|ended: Seq<usize>| #[trigger]
            m.empties(m.overtaken(key), ended) && post.events == m.events + m.closings(ended),
{
    let ended = choose|ended: Seq<usize>| #[trigger]
        m.empties(m.emptied(key, Kind::Down), ended) && post == m.after(
            key,
            Kind::Down,
            value,
            ended,
        );
    let l = m.lowered(key, ended);
    lemma_lowered_shape(m, key, ended);
    laws::lemma_acted_acts(l, key, Kind::Down, value);
    assert(l.prompt(key) == m.prompt(key));
    let said = post.events.skip(l.events.len() as int);
    assert(said =~= Seq::<Event<Z>>::empty());
    assert(post.events =~= m.events + m.closings(ended));
    assert(m.empties(m.overtaken(key), ended));
}

/// A modifier key that waits for key-up acts on its release, unless it has been spent: a key-down
/// and a key-up event follow the ends of the combos that the release ends.
pub proof fn delayed_key_acts_on_release<Z: Keycode>(
    m: Machine<Z>,
    key: usize,
    value: i16,
    post: Machine<Z>,
)
    requires
        m.is_sound(),
        key < m.keys.len(),
        m.down.contains(key),
        !m.prompt(key),
        m.leads_to(key, Kind::Up, value, post),
    ensures
        exists|ended: Seq<usize>| #[trigger]
            m.empties(m.left(key), ended) && post.events == m.events + m.closings(ended) + (
            match m.output(key) {
                Some(action) if m.keys[key as int].open && !ended.contains(key) => seq![
                    Event { keycode: action, kind: Kind::Down, value: 0 },
                    Event { keycode: action, kind: Kind::Up, value: 0 },
                ],
                _ => Seq::empty(),
            }),
{
    let ended = choose|ended: Seq<usize>| #[trigger]
        m.empties(m.emptied(key, Kind::Up), ended) && post == m.after(key, Kind::Up, value, ended);
    let r = m.raised(key, ended);
    assert(r.prompt(key) == m.prompt(key));
    assert(r.output(key) == m.output(key));
    let closed = m.events + m.closings(ended);
    assert(closed + Seq::<Event<Z>>::empty() =~= closed);
    assert(m.empties(m.left(key), ended));
}

/// A modifier key that waits for key-up is spent when a group of several keys, of which it is one,
/// is completed.
pub proof fn completed_group_spends_keys<Z: Keycode>(
    m: Machine<Z>,
    key: usize,
    value: i16,
    post: Machine<Z>,
    group: usize,
    other: usize,
)
    requires
        m.valid(),
        key < m.keys.len(),
        m.leads_to(key, Kind::Down, value, post),
        m.completed(key).contains(group),
        m.layout.members[group as int].len() > 1,
        m.layout.members[group as int].contains(other),
        other < m.keys.len(),
        !m.prompt(other),
    ensures
        !post.keys[other as int].open,
{
    let ended = choose|ended: Seq<usize>| #[trigger]
        m.empties(m.emptied(key, Kind::Down), ended) && post == m.after(
            key,
            Kind::Down,
            value,
            ended,
        );
    let l = m.lowered(key, ended);
    lemma_lowered_shape(m, key, ended);
    assert(m.spends(m.completed(key), other));
    assert(!l.keys[other as int].open);
    laws::lemma_acted_acts(l, key, Kind::Down, value);
    if other == key {
        assert(l.prompt(key) == m.prompt(key));
        assert(l.acted(key, Kind::Down, value) == l);
    } else {
        assert(post.keys[other as int].open ==> l.keys[other as int].open);
    }
}

/// A modifier key that waits for key-up is spent when an action key acts through a combo for which
/// it is the only modifier.
pub proof fn combo_spends_its_only_modifier<Z: Keycode>(
    m: Machine<Z>,
    key: usize,
    value: i16,
    post: Machine<Z>,
    combo: usize,
    other: usize,
)
    requires
        m.valid(),
        key < m.keys.len(),
        !m.down.contains(key),
        !m.layout.is_modifier(key),
        m.keys[key as int].stamp != m.stamp,
        m.layout.winner(key, m.down) == Some(combo),
        m.layout.members[m.layout.group_at(key, combo) as int] == set![other],
        other < m.keys.len(),
        !m.prompt(other),
        m.leads_to(key, Kind::Down, value, post),
    ensures
        !post.keys[other as int].open,
{
    let ended = choose|ended: Seq<usize>| #[trigger]
        m.empties(m.emptied(key, Kind::Down), ended) && post == m.after(
            key,
            Kind::Down,
            value,
            ended,
        );
    let l = m.lowered(key, ended);
    lemma_lowered_shape(m, key, ended);
    lists::lemma_ascending(m.layout.members.len(), m.completes(key));
    if m.completed(key).len() > 0 {
        let g = m.completed(key)[0];
        assert((m.completes(key))(g));
        assert(m.layout.members[g as int].contains(key));
    }
    lemma_press_keeps_full(m, key);
    winner_depends_on_groups(m.layout, key, m.down, m.down.insert(key));
    let group = m.layout.group_at(key, combo);
    assert(m.layout.members[group as int].len() == 1);
    let stamped = l.with_key(key, KeyState { stamp: l.stamp, ..l.keys[key as int] });
    let used = stamped.using(group);
    assert(m.prompt(key));
    assert(other != key);
    assert(stamped.prompt(other) == m.prompt(other));
    assert(!used.keys[other as int].open);
    assert(l.prompt(key));
    assert(post == used.combined(key, combo, Kind::Down, value));
}

impl<Z: Keycode> Machine<Z> {
    /// The stamps have not been used up: the keys remember stamps up to the current one.
    pub open spec fn is_young(self) -> bool {
        &&& self.stamp < u64::MAX
        &&& forall|k: usize|
            k < self.keys.len() ==> 0 <= (#[trigger] self.keys[k as int]).stamp <= self.stamp
    }
}

/// As long as the stamps have not been used up, no key remembers the one that comes next. Each event
/// uses up one stamp at most.
pub proof fn young_machine_is_fresh<Z: Keycode>(
    m: Machine<Z>,
    key: usize,
    kind: Kind,
    value: i16,
    post: Machine<Z>,
)
    requires
        m.valid(),
        key < m.keys.len(),
        m.is_young(),
        m.leads_to(key, kind, value, post),
    ensures
        m.is_fresh(),
        post.stamp <= m.stamp + 1,
        post.stamp < u64::MAX ==> post.is_young(),
{
    let ended = choose|ended: Seq<usize>| #[trigger]
        m.empties(m.emptied(key, kind), ended) && post == m.after(key, kind, value, ended);
    match kind {
        Kind::Down => {
            let l = m.lowered(key, ended);
            lemma_lowered_shape(m, key, ended);
            lemma_acted_stamp(l, key, kind, value);
            assert forall|k: usize| k < post.keys.len() implies 0 <= (
            #[trigger] post.keys[k as int]).stamp <= post.stamp by {
                assert(l.keys[k as int].stamp == m.keys[k as int].stamp);
            }
        },
        Kind::Up => {
            assert forall|k: usize| k < post.keys.len() implies 0 <= (
            #[trigger] post.keys[k as int]).stamp <= post.stamp by {
                assert(post.keys[k as int].stamp == m.keys[k as int].stamp);
            }
        },
        _ => {
            let l = m.moved(key);
            lemma_moved_shape(m, key);
            lemma_acted_stamp(l, key, kind, value);
            assert forall|k: usize| k < post.keys.len() implies 0 <= (
            #[trigger] post.keys[k as int]).stamp <= post.stamp by {
                assert(l.keys[k as int].stamp == m.keys[k as int].stamp);
            }
        },
    }
}

/// The stamps that keys remember after one of them acted.
proof fn lemma_acted_stamp<Z: Keycode>(m: Machine<Z>, key: usize, kind: Kind, value: i16)
    requires
        m.valid(),
        key < m.keys.len(),
    ensures
        ({
            let p = m.acted(key, kind, value);
            &&& p.stamp == m.stamp
            &&& p.keys.len() == m.keys.len()
            &&& forall|k: int|
                0 <= k < m.keys.len() ==> (#[trigger] p.keys[k]).stamp == m.keys[k].stamp
                    || p.keys[k].stamp == m.stamp
        }),
{
    let p = m.acted(key, kind, value);
    laws::lemma_acted_acts(m, key, kind, value);
    let state = m.keys[key as int];
    let stamped = m.with_key(key, KeyState { stamp: m.stamp, ..state });
    match m.layout.winner(key, m.down) {
        Some(combo) => {
            let used = stamped.using(m.layout.group_at(key, combo));
            assert(used.keys[key as int].stamp == m.stamp);
        },
        None => {},
    }
    assert(p.keys[key as int].stamp == state.stamp || p.keys[key as int].stamp == m.stamp);
}

/// A group without keys has no effect: it is never in force, it is next to no other group, and none
/// of its combos is ever what a key stands for.
pub proof fn empty_group_has_no_effect<Z: Keycode>(
    layout: Layout<Z>,
    group: usize,
    key: usize,
    down: Set<usize>,
)
    requires
        layout.valid(),
        group < layout.members.len(),
        layout.members[group as int].len() == 0,
    ensures
        !layout.in_force(group, down),
        forall|b: usize| !#[trigger] layout.inside(group, b) && !layout.inside(b, group),
        forall|b: usize| !#[trigger] layout.crosses(group, b) && !layout.crosses(b, group),
        match layout.winner(key, down) {
            Some(combo) => layout.group_at(key, combo) != group,
            None => true,
        },
{
    assert(layout.members[group as int].finite());
    assert(layout.members[group as int] =~= Set::empty());
}

/// What is known of the combos of a new handler is right, no key acts through a group, and all
/// stamps but the first ones are left.
pub proof fn new_handler_is_settled<A: Keycode, Z: Keycode>(config: &Config<A, Z>, m: Machine<Z>)
    requires
        config.outlines(m),
    ensures
        m.is_cached(),
        m.is_settled(),
        m.is_young(),
{
}

} // verus!

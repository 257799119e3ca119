//! How an event of a key is resolved.
use crate::combo;
use crate::combo::model::Machine;
use crate::combo::types::{Group, Key, Queue};
use crate::combo::{groups, lists, model, sets, ComboHandlerSimple};
use crate::types::{Event, Keycode, Kind};
use vstd::prelude::*;

verus! {

/// All the keys of the group are down.
spec fn active(group: Group) -> bool {
    group.counter == group.size
}

impl<A: Keycode, Z: Keycode, Q: Queue<Event<Z>>> ComboHandlerSimple<A, Z, Q> {
    /// What stays as it is throughout.
    spec fn same_tables(&self, pre: &Self) -> bool {
        &&& self.domain == pre.domain
        &&& self.keys_combos@ == pre.keys_combos@
        &&& self.keys_groups@ == pre.keys_groups@
        &&& self.groups_keys@ == pre.groups_keys@
        &&& self.groups_pred@ == pre.groups_pred@
        &&& self.groups_intersect@ == pre.groups_intersect@
        &&& self.codes@ == pre.codes@
        &&& self.keys@.len() == pre.keys@.len()
        &&& self.groups@.len() == pre.groups@.len()
        &&& forall|k: int|
            #![trigger self.keys@[k]]
            0 <= k < self.keys@.len() ==> {
                &&& self.keys@[k].action == pre.keys@[k].action
                &&& self.keys@[k].combos == pre.keys@[k].combos
                &&& self.keys@[k].groups == pre.keys@[k].groups
            }
        &&& forall|g: int|
            #![trigger self.groups@[g]]
            0 <= g < self.groups@.len() ==> {
                &&& self.groups@[g].index == pre.groups@[g].index
                &&& self.groups@[g].mask == pre.groups@[g].mask
                &&& self.groups@[g].greater == pre.groups@[g].greater
                &&& self.groups@[g].pred == pre.groups@[g].pred
                &&& self.groups@[g].intersect == pre.groups@[g].intersect
                &&& self.groups@[g].keys == pre.groups@[g].keys
                &&& self.groups@[g].size == pre.groups@[g].size
            }
    }

    /// Handlers with the same tables have the same layout.
    proof fn lemma_same_tables(&self, pre: &Self)
        requires
            self.same_tables(pre),
        ensures
            self.layout() == pre.layout(),
            pre.tables() ==> self.tables(),
    {
        assert(self.layout() =~= pre.layout()) by {
            assert(self.layout().actions =~= pre.layout().actions);
            assert(self.layout().combos =~= pre.layout().combos);
            assert(self.layout().members =~= pre.layout().members);
            assert(self.layout().masking =~= pre.layout().masking);
        }
        if pre.tables() {
            assert forall|k: int| 0 <= k < self.keys@.len() implies #[trigger] self.key_tables(
                k,
            ) by {
                assert(pre.key_tables(k));
                assert(self.keys@[k].groups == pre.keys@[k].groups);
            }
            assert forall|g: int| 0 <= g < self.groups@.len() implies #[trigger] self.group_tables(
                g,
            ) by {
                assert(pre.group_tables(g));
                assert(self.groups@[g].index == pre.groups@[g].index);
            }
        }
    }

    /// A key is part of a group exactly if its range of groups says so.
    proof fn lemma_is_modifier(&self, k: usize)
        requires
            self.tables(),
            k < self.keys@.len(),
            self.layout().members.len() <= usize::MAX,
        ensures
            self.keys@[k as int].spec_is_modifier() == self.layout().is_modifier(k),
    {
        assert(self.key_tables(k as int));
        let layout = self.layout();
        let p = |g: usize| layout.members[g as int].contains(k);
        lists::lemma_tally_positive(layout.members.len(), p);
        if layout.is_modifier(k) {
            let g = choose|g: usize|
                g < layout.members.len() && #[trigger] layout.members[g as int].contains(k);
            assert(p(g));
        }
    }

    /// The size of a group is the number of its keys.
    pub(super) proof fn lemma_size(&self, g: usize)
        requires
            self.tables(),
            g < self.groups@.len(),
        ensures
            self.layout().members[g as int].finite(),
            self.groups@[g as int].size == self.layout().members[g as int].len(),
    {
        assert(self.group_tables(g as int));
        self.groups@[g as int].keys.of(self.groups_keys@).unique_seq_to_set();
    }

    /// The handler is at the machine `m`, but for which keys are open, what the groups hold, and
    /// what has been emitted.
    spec fn follows(&self, m: Machine<Z>) -> bool {
        &&& self.tables()
        &&& m.valid()
        &&& m.layout == self.layout()
        &&& m.stamp == self.cache_counter
        &&& forall|j: int|
            #![trigger self.keys@[j]]
            0 <= j < self.keys@.len() ==> combo::key_state(self.keys@[j]) == (model::KeyState {
                open: self.keys@[j].open,
                ..m.keys[j]
            })
    }

    /// Since the machine `m` the groups `done` have been emptied, which ended the combos of the
    /// keys `ended`.
    spec fn draining(&self, m: Machine<Z>, done: Seq<usize>, ended: Seq<usize>) -> bool {
        &&& forall|g: int|
            #![trigger self.groups@[g]]
            0 <= g < self.groups@.len() ==> sets::set_contents(self.groups@[g].active_combos)
                == if done.contains(g as usize) {
                Set::empty()
            } else {
                m.holders[g]
            }
        &&& self.events.pending() == m.events + m.closings(ended)
        &&& m.empties(done, ended)
    }
}

/// How many keys of a group are down, when one more of them goes down.
proof fn lemma_one_more(members: Set<usize>, down: Set<usize>, key: usize)
    requires
        members.finite(),
        members.contains(key),
        !down.contains(key),
    ensures
        members.intersect(down.insert(key)).len() == members.intersect(down).len() + 1,
{
    assert(members.intersect(down.insert(key)) =~= members.intersect(down).insert(key));
}

/// A key that is not part of a group does not matter to it.
proof fn lemma_no_more(members: Set<usize>, down: Set<usize>, key: usize)
    requires
        !members.contains(key),
    ensures
        members.intersect(down.insert(key)) == members.intersect(down),
        members.intersect(down.remove(key)) == members.intersect(down),
{
    assert(members.intersect(down.insert(key)) =~= members.intersect(down));
    assert(members.intersect(down.remove(key)) =~= members.intersect(down));
}

/// A group is full exactly if as many of its keys are down as it has.
pub(super) proof fn lemma_full(members: Set<usize>, down: Set<usize>)
    requires
        members.finite(),
    ensures
        members.intersect(down).len() <= members.len(),
        members.intersect(down).len() == members.len() <==> members.subset_of(down),
{
    vstd::set_lib::lemma_len_intersect(members, down);
    if members.subset_of(down) {
        assert(members.intersect(down) =~= members);
    }
    if members.intersect(down).len() == members.len() {
        vstd::set_lib::lemma_subset_equality(members.intersect(down), members);
    }
}

/// A group that overlaps with another has keys.
proof fn lemma_not_empty(other: Set<usize>, members: Set<usize>)
    requires
        members.finite(),
        !other.disjoint(members),
    ensures
        members.len() > 0,
{
    let key = choose|key: usize| other.contains(key) && members.contains(key);
    assert(members.contains(key));
}

/// How the number of active neighbours above `p` changes with one group.
proof fn lemma_shadow_step<Z: Keycode>(
    layout: model::Layout<Z>,
    before: Seq<Group>,
    after: Seq<Group>,
    g: usize,
    p: usize,
)
    requires
        before.len() == after.len() <= usize::MAX,
        g < before.len(),
        forall|i: int|
            #![trigger after[i]]
            0 <= i < before.len() && i != g ==> active(after[i]) == active(before[i]),
    ensures
        combo::shadow_count(layout, after, p) == combo::shadow_count(layout, before, p) + (
        if layout.below(p, g) && active(after[g as int]) {
            1int
        } else {
            0
        }) - (if layout.below(p, g) && active(before[g as int]) {
            1int
        } else {
            0
        }),
        combo::shadow_count(layout, after, p) <= after.len(),
{
    let a = |b: usize| layout.below(p, b) && before[b as int].counter == before[b as int].size;
    let z = |b: usize| layout.below(p, b) && after[b as int].counter == after[b as int].size;
    assert forall|i: usize| i < before.len() && i != g implies #[trigger] a(i) == z(i) by {
        assert(active(after[i as int]) == active(before[i as int]));
    }
    if a(g) && !z(g) {
        lists::lemma_tally_more(before.len(), z, a, g);
    } else if !a(g) && z(g) {
        lists::lemma_tally_more(before.len(), a, z, g);
    } else {
        lists::lemma_ascending_same(before.len(), a, z);
    }
    lists::lemma_tally_positive(after.len(), z);
}

/// One more group is emptied.
proof fn lemma_empties_push<Z: Keycode>(
    m: Machine<Z>,
    done: Seq<usize>,
    ended: Seq<usize>,
    group: usize,
    more: Seq<usize>,
)
    requires
        m.empties(done, ended),
        model::lists(
            more,
            if done.contains(group) {
                Set::empty()
            } else {
                m.holders[group as int]
            },
        ),
    ensures
        m.empties(done.push(group), ended + more),
{
    let all = ended + more;
    let cut = ended.len() as int;
    let rest = done.push(group).drop_last();
    assert(rest =~= done);
    assert(all.take(cut) =~= ended);
    assert(all.skip(cut) =~= more);
    assert(m.empties(rest, all.take(cut)));
}

/// What several ends emit, one after the other.
proof fn lemma_closings_add<Z: Keycode>(m: Machine<Z>, a: Seq<usize>, b: Seq<usize>)
    ensures
        m.closings(a + b) == m.closings(a) + m.closings(b),
    decreases b.len(),
{
    if b.len() == 0 {
        assert(a + b =~= a);
        assert(m.closings(a) + m.closings(b) =~= m.closings(a));
    } else {
        lemma_closings_add(m, a, b.drop_last());
        assert((a + b).drop_last() =~= a + b.drop_last());
        assert((a + b).last() == b.last());
        assert(m.closings(a + b) =~= m.closings(a) + m.closings(b));
    }
}

/// What ends emit, according to the handler and to the machine.
proof fn lemma_closings<A: Keycode, Z: Keycode, Q: Queue<Event<Z>>>(
    handler: ComboHandlerSimple<A, Z, Q>,
    m: Machine<Z>,
    ended: Seq<usize>,
)
    requires
        handler.follows(m),
        forall|i: int| 0 <= i < ended.len() ==> #[trigger] ended[i] < handler.keys@.len(),
    ensures
        groups::key_closings(handler.keys@, handler.keys_combos@, ended) == m.closings(ended),
    decreases ended.len(),
{
    if ended.len() > 0 {
        lemma_closings(handler, m, ended.drop_last());
        let k = ended.last();
        assert(k < handler.keys@.len());
        handler.lemma_is_modifier(k);
        assert(combo::key_state(handler.keys@[k as int]) == (model::KeyState {
            open: handler.keys@[k as int].open,
            ..m.keys[k as int]
        }));
        assert(groups::key_closing(handler.keys@[k as int], handler.keys_combos@) =~= m.closing(k));
    }
}

impl<A: Keycode, Z: Keycode, Q: Queue<Event<Z>>> ComboHandlerSimple<A, Z, Q> {
    /// Nothing but the keys' `open` has changed.
    spec fn same_but_open(&self, pre: &Self) -> bool {
        &&& self.same_tables(pre)
        &&& self.groups@ == pre.groups@
        &&& self.masks == pre.masks
        &&& self.cache_counter == pre.cache_counter
        &&& self.events == pre.events
        &&& self.down@ == pre.down@
    }

    /// Spends the keys of a group that wait for key-up.
    fn spend(&mut self, group: usize)
        requires
            old(self).tables(),
            group < old(self).groups@.len(),
            forall|k: usize| #[trigger]
                old(self).layout().members[group as int].contains(k) ==> k < old(self).keys@.len(),
        ensures
            final(self).same_but_open(old(self)),
            forall|j: int|
                0 <= j < old(self).keys@.len() ==> #[trigger] final(self).keys@[j] == (Key {
                    open: old(self).keys@[j].open && (!old(self).keys@[j].spec_is_modifier()
                        || old(self).keys@[j].immediate
                        || !old(self).layout().members[group as int].contains(j as usize)),
                    ..old(self).keys@[j]
                }),
    {
        let ghost pre = *self;
        let range = self.groups[group].keys;
        let ghost members = range.of(self.groups_keys@);
        proof {
            assert(self.group_tables(group as int));
            assert(self.layout().members[group as int] == members.to_set());
        }
        let count: usize = range.len();
        let mut i: usize = 0;
        while i < count
            invariant
                pre.tables(),
                group < pre.groups@.len(),
                forall|k: usize| #[trigger]
                    pre.layout().members[group as int].contains(k) ==> k < pre.keys@.len(),
                range == pre.groups@[group as int].keys,
                range.valid(),
                0 <= range.first(),
                range.past() <= pre.groups_keys@.len(),
                members == range.of(pre.groups_keys@),
                pre.layout().members[group as int] == members.to_set(),
                count == range.past() - range.first(),
                i <= count,
                self.same_but_open(&pre),
                forall|j: int|
                    0 <= j < pre.keys@.len() ==> #[trigger] self.keys@[j] == (Key {
                        open: pre.keys@[j].open && (!pre.keys@[j].spec_is_modifier()
                            || pre.keys@[j].immediate || !members.take(i as int).contains(
                            j as usize,
                        )),
                        ..pre.keys@[j]
                    }),
            decreases count - i,
        {
            let ghost mid = self.keys@;
            let key = self.groups_keys[range.ind(i)];
            proof {
                assert(key == members[i as int]);
                assert(members.to_set().contains(key));
                assert(pre.layout().members[group as int].contains(key));
                assert(self.keys.len() == pre.keys@.len());
                assert(members.take(i + 1) =~= members.take(i as int).push(key));
            }
            self.keys[key].open = self.keys[key].open && self.keys[key].is_immediate();
            proof {
                assert forall|j: int| 0 <= j < pre.keys@.len() implies #[trigger] self.keys@[j]
                    == (Key {
                    open: pre.keys@[j].open && (!pre.keys@[j].spec_is_modifier()
                        || pre.keys@[j].immediate || !members.take(i + 1).contains(j as usize)),
                    ..pre.keys@[j]
                }) by {
                    lists::lemma_push_contains(members.take(i as int), key, j as usize);
                    assert(mid[j].open == (pre.keys@[j].open && (!pre.keys@[j].spec_is_modifier()
                        || pre.keys@[j].immediate || !members.take(i as int).contains(
                        j as usize,
                    ))));
                }
            }
            i += 1;
        }
        proof {
            assert(members.take(i as int) =~= members);
        }
    }
}

impl<A: Keycode, Z: Keycode, Q: Queue<Event<Z>>> ComboHandlerSimple<A, Z, Q> {
    /// The keys' active combos are in range.
    proof fn lemma_in_order(&self, m: Machine<Z>)
        requires
            self.follows(m),
        ensures
            forall|k: int|
                0 <= k < self.keys@.len() ==> groups::combos_in_order(
                    #[trigger] self.keys@[k],
                    self.keys_combos@,
                ),
    {
        assert forall|k: int| 0 <= k < self.keys@.len() implies groups::combos_in_order(
            #[trigger] self.keys@[k],
            self.keys_combos@,
        ) by {
            assert(self.key_tables(k));
            assert(combo::key_state(self.keys@[k]).active == m.keys[k].active);
            assert(m.keys[k as usize as int].active is Some ==> m.keys[k].active->0
                < m.layout.combos[k].len());
        }
    }

    /// Ends the combos of a group.
    fn end_combos(
        &mut self,
        group: usize,
        Ghost(m): Ghost<Machine<Z>>,
        Ghost(done): Ghost<Seq<usize>>,
        Ghost(ended): Ghost<Seq<usize>>,
    ) -> (all: Ghost<Seq<usize>>)
        requires
            old(self).follows(m),
            old(self).draining(m, done, ended),
            group < old(self).groups@.len(),
        ensures
            final(self).same_tables(old(self)),
            final(self).follows(m),
            final(self).draining(m, done.push(group), all@),
            final(self).masks == old(self).masks,
            final(self).cache_counter == old(self).cache_counter,
            final(self).down@ == old(self).down@,
            forall|g: int|
                0 <= g < old(self).groups@.len() ==> #[trigger] final(self).groups@[g] == (Group {
                    active_combos: final(self).groups@[g].active_combos,
                    ..old(self).groups@[g]
                }),
            forall|j: int|
                0 <= j < old(self).keys@.len() ==> #[trigger] final(self).keys@[j] == (Key {
                    open: final(self).keys@[j].open,
                    ..old(self).keys@[j]
                }),
            forall|j: int|
                0 <= j < old(self).keys@.len() && (old(self).keys@[j].open ==> !ended.contains(
                    j as usize,
                )) ==> (#[trigger] final(self).keys@[j]).open == (old(self).keys@[j].open
                    && !all@.contains(j as usize)),
            forall|j: usize| #[trigger] ended.contains(j) ==> all@.contains(j),
    {
        let ghost pre = *self;
        proof {
            self.lemma_in_order(m);
            let held = sets::set_contents(self.groups@[group as int].active_combos);
            assert forall|k: usize| #[trigger] held.contains(k) implies k < self.keys@.len() by {
                assert(m.holders[group as int].contains(k));
            }
        }
        let closed = groups::close_active_combos(
            &mut self.groups,
            group,
            &mut self.keys,
            &self.keys_combos,
            &mut self.events,
        );
        let ghost more = closed@;
        proof {
            assert(self.groups.len() == pre.groups@.len());
            assert(self.keys.len() == pre.keys@.len());
            self.lemma_same_tables(&pre);
            lemma_empties_push(m, done, ended, group, more);
            assert forall|i: int| 0 <= i < more.len() implies #[trigger] more[i]
                < pre.keys@.len() by {
                assert(more.to_set().contains(more[i]));
                assert(m.holders[group as int].contains(more[i]));
            }
            lemma_closings(pre, m, more);
            lemma_closings_add(m, ended, more);
            assert(self.events.pending() =~= m.events + m.closings(ended + more));
            assert forall|g: int| 0 <= g < self.groups@.len() implies sets::set_contents(
                (#[trigger] self.groups@[g]).active_combos,
            ) == (if done.push(group).contains(g as usize) {
                Set::empty()
            } else {
                m.holders[g]
            }) by {
                lists::lemma_push_contains(done, group, g as usize);
                assert(sets::set_contents(pre.groups@[g].active_combos) == if done.contains(
                    g as usize,
                ) {
                    Set::empty()
                } else {
                    m.holders[g]
                });
            }
            assert forall|j: int| 0 <= j < self.keys@.len() && (pre.keys@[j].open
                ==> !ended.contains(j as usize)) implies (#[trigger] self.keys@[j]).open == (
            pre.keys@[j].open && !(ended + more).contains(j as usize)) by {
                lists::lemma_add_contains(ended, more, j as usize);
            }
            assert forall|j: usize| #[trigger] ended.contains(j) implies (ended + more).contains(
                j,
            ) by {
                lists::lemma_add_contains(ended, more, j);
            }
            assert(self.follows(m)) by {
                assert forall|j: int|
                    #![trigger self.keys@[j]]
                    0 <= j < self.keys@.len() implies combo::key_state(self.keys@[j]) == (
                model::KeyState { open: self.keys@[j].open, ..m.keys[j] }) by {
                    assert(combo::key_state(pre.keys@[j]) == (model::KeyState {
                        open: pre.keys@[j].open,
                        ..m.keys[j]
                    }));
                }
            }
        }
        Ghost(ended + more)
    }
}

impl<A: Keycode, Z: Keycode, Q: Queue<Event<Z>>> ComboHandlerSimple<A, Z, Q> {
    /// The list of neighbouring subgroups of a group.
    proof fn lemma_subgroups(&self, group: usize)
        requires
            self.tables(),
            group < self.groups@.len(),
            self.groups@.len() <= usize::MAX,
        ensures
            forall|p: usize| #[trigger]
                self.layout().subgroups(group).contains(p) <==> p < self.groups@.len()
                    && self.layout().below(p, group),
            forall|i: int|
                0 <= i < self.layout().subgroups(group).len() ==> #[trigger] self.layout().subgroups(
                    group,
                )[i] < self.groups@.len(),
            self.layout().subgroups(group).no_duplicates(),
    {
        let layout = self.layout();
        let p = |a: usize| layout.below(a, group);
        lists::lemma_ascending(layout.members.len(), p);
        lists::lemma_ascending_distinct(layout.members.len(), p);
    }

    /// The group is active now: it shadows its neighbouring subgroups, whose combos end.
    fn overtake(
        &mut self,
        group: usize,
        Ghost(m): Ghost<Machine<Z>>,
        Ghost(done): Ghost<Seq<usize>>,
        Ghost(ended): Ghost<Seq<usize>>,
    ) -> (all: Ghost<Seq<usize>>)
        requires
            old(self).follows(m),
            old(self).draining(m, done, ended),
            group < old(self).groups@.len(),
            old(self).masks == combo::mask_count(old(self).groups@),
            forall|p: int|
                0 <= p < old(self).groups@.len() && m.layout.below(p as usize, group) ==> (
                #[trigger] old(self).groups@[p]).active_greater < usize::MAX,
        ensures
            final(self).same_tables(old(self)),
            final(self).follows(m),
            final(self).draining(m, done + m.layout.subgroups(group), all@),
            final(self).masks == combo::mask_count(final(self).groups@),
            final(self).cache_counter == old(self).cache_counter,
            final(self).down@ == old(self).down@,
            forall|g: int|
                0 <= g < old(self).groups@.len() ==> #[trigger] final(self).groups@[g] == (Group {
                    active_combos: final(self).groups@[g].active_combos,
                    active_greater: (old(self).groups@[g].active_greater + (if m.layout.below(
                        g as usize,
                        group,
                    ) {
                        1int
                    } else {
                        0
                    })) as usize,
                    ..old(self).groups@[g]
                }),
            forall|j: int|
                0 <= j < old(self).keys@.len() ==> #[trigger] final(self).keys@[j] == (Key {
                    open: final(self).keys@[j].open,
                    ..old(self).keys@[j]
                }),
            forall|j: int|
                0 <= j < old(self).keys@.len() && (old(self).keys@[j].open ==> !ended.contains(
                    j as usize,
                )) ==> (#[trigger] final(self).keys@[j]).open == (old(self).keys@[j].open
                    && !all@.contains(j as usize)),
            forall|j: usize| #[trigger] ended.contains(j) ==> all@.contains(j),
    {
        let ghost pre = *self;
        let ghost below = m.layout.subgroups(group);
        let ghost mut all = ended;
        let range = self.groups[group].pred;
        proof {
            assert(self.groups.len() == pre.groups@.len());
            assert(self.group_tables(group as int));
            assert(range.of(self.groups_pred@) == below);
            self.lemma_subgroups(group);
            assert(below.take(0) =~= Seq::<usize>::empty());
            assert(done + below.take(0) =~= done);
            assert forall|x: int|
                0 <= x < below.len() implies pre.groups@[#[trigger] below[x] as int].active_greater
                < usize::MAX by {
                assert(below.contains(below[x]));
                assert(m.layout.below(below[x], group));
            }
        }
        let count: usize = range.len();
        let mut i: usize = 0;
        while i < count
            invariant
                pre.follows(m),
                pre.groups@.len() <= usize::MAX,
                group < pre.groups@.len(),
                below == m.layout.subgroups(group),
                below == range.of(pre.groups_pred@),
                below.no_duplicates(),
                forall|x: int| 0 <= x < below.len() ==> #[trigger] below[x] < pre.groups@.len(),
                range.valid(),
                0 <= range.first(),
                range.past() <= pre.groups_pred@.len(),
                count == range.past() - range.first(),
                i <= count,
                forall|x: int|
                    0 <= x < below.len() ==> pre.groups@[#[trigger] below[x] as int].active_greater
                        < usize::MAX,
                self.same_tables(&pre),
                self.follows(m),
                self.draining(m, done + below.take(i as int), all),
                self.masks == combo::mask_count(self.groups@),
                self.cache_counter == pre.cache_counter,
                self.down@ == pre.down@,
                forall|g: int|
                    0 <= g < pre.groups@.len() ==> #[trigger] self.groups@[g] == (Group {
                        active_combos: self.groups@[g].active_combos,
                        active_greater: (pre.groups@[g].active_greater + (if below.take(
                            i as int,
                        ).contains(g as usize) {
                            1int
                        } else {
                            0
                        })) as usize,
                        ..pre.groups@[g]
                    }),
                forall|j: int|
                    0 <= j < pre.keys@.len() ==> #[trigger] self.keys@[j] == (Key {
                        open: self.keys@[j].open,
                        ..pre.keys@[j]
                    }),
                forall|j: int|
                    0 <= j < pre.keys@.len() && (pre.keys@[j].open ==> !ended.contains(
                        j as usize,
                    )) ==> (#[trigger] self.keys@[j]).open == (pre.keys@[j].open && !all.contains(
                        j as usize,
                    )),
                forall|j: usize| #[trigger] ended.contains(j) ==> all.contains(j),
            decreases count - i,
        {
            let ghost start = *self;
            let sub = self.groups_pred[range.ind(i)];
            proof {
                assert(sub == below[i as int]);
                assert(below.take(i + 1) =~= below.take(i as int).push(sub));
                assert(done + below.take(i + 1) =~= (done + below.take(i as int)).push(sub));
                assert(!below.take(i as int).contains(sub));
                assert(self.groups@[sub as int].active_greater
                    == pre.groups@[sub as int].active_greater);
            }
            groups::shadow(&mut self.groups, &mut self.masks, sub);
            let ghost shadowed = *self;
            proof {
                assert forall|g: int| 0 <= g < start.groups@.len() implies sets::set_contents(
                    (#[trigger] self.groups@[g]).active_combos,
                ) == sets::set_contents(start.groups@[g].active_combos) by {}
                assert(self.same_tables(&start));
                self.lemma_same_tables(&start);
                assert(self.follows(m));
                assert(self.draining(m, done + below.take(i as int), all)) by {
                    assert forall|g: int|
                        #![trigger self.groups@[g]]
                        0 <= g < self.groups@.len() implies sets::set_contents(
                        self.groups@[g].active_combos,
                    ) == (if (done + below.take(i as int)).contains(g as usize) {
                        Set::empty()
                    } else {
                        m.holders[g]
                    }) by {
                        assert(sets::set_contents(start.groups@[g].active_combos) == if (done
                            + below.take(i as int)).contains(g as usize) {
                            Set::empty()
                        } else {
                            m.holders[g]
                        });
                    }
                }
            }
            let closed = self.end_combos(
                sub,
                Ghost(m),
                Ghost(done + below.take(i as int)),
                Ghost(all),
            );
            proof {
                assert forall|g: int| 0 <= g < pre.groups@.len() implies #[trigger] self.groups@[g]
                    == (Group {
                    active_combos: self.groups@[g].active_combos,
                    active_greater: (pre.groups@[g].active_greater + (if below.take(
                        i + 1,
                    ).contains(g as usize) {
                        1int
                    } else {
                        0
                    })) as usize,
                    ..pre.groups@[g]
                }) by {
                    lists::lemma_push_contains(below.take(i as int), sub, g as usize);
                    assert(start.groups@[g] == (Group {
                        active_combos: start.groups@[g].active_combos,
                        active_greater: (pre.groups@[g].active_greater + (if below.take(
                            i as int,
                        ).contains(g as usize) {
                            1int
                        } else {
                            0
                        })) as usize,
                        ..pre.groups@[g]
                    }));
                    assert(self.groups@[g] == (Group {
                        active_combos: self.groups@[g].active_combos,
                        ..shadowed.groups@[g]
                    }));
                }
                assert forall|j: int| 0 <= j < pre.keys@.len() && (pre.keys@[j].open
                    ==> !ended.contains(j as usize)) implies (#[trigger] self.keys@[j]).open == (
                pre.keys@[j].open && !closed@.contains(j as usize)) by {
                    assert(start.keys@[j].open == (pre.keys@[j].open && !all.contains(j as usize)));
                }
                lemma_mask_same(shadowed.groups@, self.groups@);
                all = closed@;
            }
            i += 1;
        }
        proof {
            assert(below.take(i as int) =~= below);
        }
        Ghost(all)
    }
}

/// The number of masking groups does not depend on what the groups hold.
proof fn lemma_mask_same(before: Seq<Group>, after: Seq<Group>)
    requires
        before.len() == after.len() <= usize::MAX,
        forall|g: int|
            0 <= g < before.len() ==> #[trigger] after[g] == (Group {
                active_combos: after[g].active_combos,
                ..before[g]
            }),
    ensures
        combo::mask_count(after) == combo::mask_count(before),
{
    let p = |i: usize| combo::is_mask(before[i as int]);
    let q = |i: usize| combo::is_mask(after[i as int]);
    assert forall|i: usize| i < before.len() implies #[trigger] p(i) == q(i) by {
        assert(after[i as int] == (Group {
            active_combos: after[i as int].active_combos,
            ..before[i as int]
        }));
    }
    lists::lemma_ascending_same(before.len(), p, q);
}

impl<A: Keycode, Z: Keycode, Q: Queue<Event<Z>>> ComboHandlerSimple<A, Z, Q> {
    /// While the key goes down: the groups below `bound` have been dealt with, which ended the
    /// combos of the keys `ended`.
    spec fn lowering(&self, pre: &Self, key: usize, bound: nat, ended: Seq<usize>) -> bool {
        let m = pre.machine();
        let entered = model::ascending(bound, m.completes(key));
        &&& self.same_tables(pre)
        &&& self.down@ == pre.down@
        &&& self.cache_counter == pre.cache_counter
        &&& forall|j: int|
            0 <= j < pre.keys@.len() ==> #[trigger] self.keys@[j] == (Key {
                open: {
                    &&& j == key || pre.keys@[j].open
                    &&& m.prompt(j as usize) || !m.spends(entered, j as usize)
                    &&& !ended.contains(j as usize)
                },
                ..pre.keys@[j]
            })
        &&& forall|g: int|
            0 <= g < pre.groups@.len() ==> (#[trigger] self.groups@[g]).counter
                == pre.groups@[g].counter + (if g < bound && m.layout.members[g].contains(key) {
                1int
            } else {
                0
            })
        &&& forall|g: int|
            0 <= g < pre.groups@.len() ==> (#[trigger] self.groups@[g]).active_greater
                == combo::shadow_count(m.layout, self.groups@, g as usize)
        &&& self.masks == combo::mask_count(self.groups@)
        &&& self.draining(m, m.layout.subgroups_of(entered), ended)
    }

    /// Handlers that differ in which keys are open, in the groups' counters and in the output
    /// follow the same machine.
    proof fn lemma_follows(&self, pre: &Self)
        requires
            pre.tables(),
            pre.machine().valid(),
            self.same_tables(pre),
            self.cache_counter == pre.cache_counter,
            forall|j: int|
                0 <= j < pre.keys@.len() ==> #[trigger] self.keys@[j] == (Key {
                    open: self.keys@[j].open,
                    ..pre.keys@[j]
                }),
        ensures
            self.follows(pre.machine()),
    {
        self.lemma_same_tables(pre);
        let m = pre.machine();
        assert forall|j: int|
            #![trigger self.keys@[j]]
            0 <= j < self.keys@.len() implies combo::key_state(self.keys@[j]) == (
        model::KeyState { open: self.keys@[j].open, ..m.keys[j] }) by {
            assert(self.keys@[j] == (Key { open: self.keys@[j].open, ..pre.keys@[j] }));
        }
    }

    /// The key, which goes down, counts for the group. Tells whether this completes the group.
    fn enter_group(
        &mut self,
        key: usize,
        group: usize,
        Ghost(pre): Ghost<Self>,
        Ghost(ended): Ghost<Seq<usize>>,
    ) -> (entered: (bool, Ghost<Seq<usize>>))
        requires
            pre.valid(),
            key < pre.keys@.len(),
            !pre.down@.contains(key),
            group < pre.groups@.len(),
            pre.layout().members[group as int].contains(key),
            old(self).lowering(&pre, key, group as nat, ended),
        ensures
            final(self).lowering(&pre, key, (group + 1) as nat, entered.1@),
            entered.0 == (pre.machine().completes(key))(group),
    {
        let ghost m = pre.machine();
        let ghost start = *self;
        let ghost before = model::ascending(group as nat, m.completes(key));
        let ghost after = model::ascending((group + 1) as nat, m.completes(key));
        let ghost members = m.layout.members[group as int];
        proof {
            assert(self.groups.len() == pre.groups@.len());
            assert(self.keys.len() == pre.keys@.len());
            assert(pre.group_tables(group as int));
            pre.lemma_size(group);
            lemma_full(members, pre.down@);
            lemma_full(members, pre.down@.insert(key));
            lemma_one_more(members, pre.down@, key);
            self.lemma_same_tables(&pre);
            assert(self.groups@[group as int].counter == pre.groups@[group as int].counter);
            assert(self.groups@[group as int].size == pre.groups@[group as int].size);
        }
        groups::count_member(&mut self.groups, &mut self.masks, group);
        let ghost counted = *self;
        proof {
            assert forall|p: usize| p < pre.groups@.len() implies #[trigger] combo::shadow_count(
                m.layout,
                counted.groups@,
                p,
            ) == start.groups@[p as int].active_greater + (if m.layout.below(p, group) && active(
                counted.groups@[group as int],
            ) {
                1int
            } else {
                0
            }) && combo::shadow_count(m.layout, counted.groups@, p) <= usize::MAX by {
                lemma_shadow_step(m.layout, start.groups@, counted.groups@, group, p);
            }
            assert(counted.same_tables(&pre));
            counted.lemma_follows(&pre);
        }
        if !self.groups[group].is_active() {
            proof {
                assert(after == before);
                assert forall|g: int| 0 <= g < pre.groups@.len() implies (
                #[trigger] self.groups@[g]).active_greater == combo::shadow_count(
                    m.layout,
                    self.groups@,
                    g as usize,
                ) by {
                    assert(combo::shadow_count(m.layout, counted.groups@, g as usize)
                        == start.groups@[g].active_greater);
                }
                assert(self.draining(m, m.layout.subgroups_of(after), ended)) by {
                    assert forall|g: int|
                        #![trigger self.groups@[g]]
                        0 <= g < self.groups@.len() implies sets::set_contents(
                        self.groups@[g].active_combos,
                    ) == (if m.layout.subgroups_of(after).contains(g as usize) {
                        Set::empty()
                    } else {
                        m.holders[g]
                    }) by {
                        assert(start.groups@[g].active_combos == self.groups@[g].active_combos);
                    }
                }
            }
            return (false, Ghost(ended));
        }
        proof {
            assert(after == before.push(group));
            before.lemma_flat_map_push(|b: usize| m.layout.subgroups(b), group);
            assert(m.layout.subgroups_of(after) == m.layout.subgroups_of(before)
                + m.layout.subgroups(group));
        }
        let size: usize = self.groups[group].keys.len();
        if size > 1 {
            // groups of one do not spend their key
            self.spend(group);
        }
        let ghost spent = *self;
        proof {
            spent.lemma_follows(&pre);
            assert(spent.draining(m, m.layout.subgroups_of(before), ended)) by {
                assert forall|g: int|
                    #![trigger spent.groups@[g]]
                    0 <= g < spent.groups@.len() implies sets::set_contents(
                    spent.groups@[g].active_combos,
                ) == (if m.layout.subgroups_of(before).contains(g as usize) {
                    Set::empty()
                } else {
                    m.holders[g]
                }) by {
                    assert(start.groups@[g].active_combos == spent.groups@[g].active_combos);
                }
            }
            assert forall|p: int|
                0 <= p < spent.groups@.len() && m.layout.below(p as usize, group) implies (
            #[trigger] spent.groups@[p]).active_greater < usize::MAX by {
                assert(combo::shadow_count(m.layout, counted.groups@, p as usize)
                    == start.groups@[p].active_greater + 1);
            }
        }
        let all = self.overtake(
            group,
            Ghost(m),
            Ghost(m.layout.subgroups_of(before)),
            Ghost(ended),
        );
        proof {
            assert forall|g: int| 0 <= g < pre.groups@.len() implies (
            #[trigger] self.groups@[g]).active_greater == combo::shadow_count(
                m.layout,
                self.groups@,
                g as usize,
            ) by {
                assert(combo::shadow_count(m.layout, counted.groups@, g as usize)
                    == start.groups@[g].active_greater + (if m.layout.below(g as usize, group) {
                    1int
                } else {
                    0
                }));
                lemma_shadow_step(m.layout, counted.groups@, self.groups@, group, g as usize);
            }
            assert forall|j: int| 0 <= j < pre.keys@.len() implies #[trigger] self.keys@[j]
                == (Key {
                open: {
                    &&& j == key || pre.keys@[j].open
                    &&& m.prompt(j as usize) || !m.spends(after, j as usize)
                    &&& !all@.contains(j as usize)
                },
                ..pre.keys@[j]
            }) by {
                pre.lemma_is_modifier(j as usize);
                lemma_spends_push(m, before, group, j as usize);
                assert(start.keys@[j].open == {
                    &&& j == key || pre.keys@[j].open
                    &&& m.prompt(j as usize) || !m.spends(before, j as usize)
                    &&& !ended.contains(j as usize)
                });
                assert(counted.keys@[j] == start.keys@[j]);
                assert(spent.keys@[j].open == (start.keys@[j].open && (size <= 1 || m.prompt(
                    j as usize,
                ) || !members.contains(j as usize))));
                assert(self.keys@[j].open == (spent.keys@[j].open && !all@.contains(j as usize)));
            }
        }
        (true, all)
    }
}

impl<A: Keycode, Z: Keycode, Q: Queue<Event<Z>>> ComboHandlerSimple<A, Z, Q> {
    /// Groups that the key is not part of need nothing.
    proof fn lemma_lowering_skip(
        &self,
        pre: &Self,
        key: usize,
        a: nat,
        b: nat,
        ended: Seq<usize>,
    )
        requires
            self.lowering(pre, key, a, ended),
            a <= b <= pre.groups@.len() <= usize::MAX,
            forall|g: usize|
                a <= g < b ==> !(#[trigger] pre.machine().layout.members[g as int]).contains(key),
        ensures
            self.lowering(pre, key, b, ended),
            model::ascending(b, pre.machine().completes(key)) == model::ascending(
                a,
                pre.machine().completes(key),
            ),
    {
        let m = pre.machine();
        assert forall|g: usize| a <= g < b implies !#[trigger] (m.completes(key))(g) by {
            assert(!m.layout.members[g as int].contains(key));
        }
        lists::lemma_ascending_gap(a, b, m.completes(key));
        assert forall|g: int| 0 <= g < pre.groups@.len() implies (
        #[trigger] self.groups@[g]).counter == pre.groups@[g].counter + (if g < b
            && m.layout.members[g].contains(key) {
            1int
        } else {
            0
        }) by {
            if a <= g < b {
                assert(!m.layout.members[g as usize as int].contains(key));
            }
        }
    }

    /// Makes the cached combos invalid, if asked to.
    fn invalidate_cache(&mut self, invalidate_cache: bool)
        ensures
            *final(self) == (ComboHandlerSimple {
                cache_counter: if invalidate_cache {
                    old(self).cache_counter.wrapping_add(1)
                } else {
                    old(self).cache_counter
                },
                ..*old(self)
            }),
    {
        if invalidate_cache {
            self.cache_counter = self.cache_counter.wrapping_add(1);
        }
    }

    /// The key goes down. Returns the keys whose combos end.
    fn lower(&mut self, key: usize) -> (ended: Ghost<Seq<usize>>)
        requires
            old(self).valid(),
            key < old(self).machine().keys.len(),
            !old(self).machine().down.contains(key),
        ensures
            final(self).valid(),
            old(self).machine().empties(old(self).machine().overtaken(key), ended@),
            final(self).machine() == old(self).machine().lowered(key, ended@),
    {
        let ghost pre = *self;
        let ghost m = self.machine();
        let ghost n = self.groups@.len();
        let ghost whole = m.layout.groups_of(key);
        let ghost member = |g: usize| m.layout.members[g as int].contains(key);
        let ghost mut ended: Seq<usize> = Seq::empty();
        let range = self.keys[key].groups;
        proof {
            assert(self.groups.len() == n);
            assert(self.key_tables(key as int));
            lists::lemma_ascending(n, member);
            assert(whole == model::ascending(n, member));
            lists::lemma_ascending_between(n, member, 0);
        }
        self.keys[key].open();
        let mut changed = false;
        let count: usize = range.len();
        let mut i: usize = 0;
        proof {
            let none = model::ascending(0, m.completes(key));
            assert(none =~= Seq::<usize>::empty());
            assert(m.layout.subgroups_of(none).len() == 0);
            assert(self.events.pending() =~= m.events + m.closings(ended));
            assert(m.empties(m.layout.subgroups_of(none), ended));
            assert(self.lowering(&pre, key, 0, ended));
            let first = if whole.len() > 0 { whole[0] as nat } else { n };
            assert forall|g: usize| 0 <= g < first implies !(
            #[trigger] pre.machine().layout.members[g as int]).contains(key) by {
                assert(!member(g));
            }
            self.lemma_lowering_skip(&pre, key, 0, first, ended);
        }
        while i < count
            invariant
                pre.valid(),
                m == pre.machine(),
                n == pre.groups@.len() <= usize::MAX,
                key < pre.keys@.len(),
                !pre.down@.contains(key),
                member == |g: usize| m.layout.members[g as int].contains(key),
                whole == model::ascending(n, member),
                whole == range.of(pre.keys_groups@),
                range.valid(),
                0 <= range.first(),
                range.past() <= pre.keys_groups@.len(),
                count == range.past() - range.first(),
                i <= count,
                self.lowering(
                    &pre,
                    key,
                    if i < whole.len() {
                        whole[i as int] as nat
                    } else {
                        n
                    },
                    ended,
                ),
                changed == (model::ascending(
                    if i < whole.len() {
                        whole[i as int] as nat
                    } else {
                        n
                    },
                    m.completes(key),
                ).len() > 0),
            decreases count - i,
        {
            let group = self.keys_groups[range.ind(i)];
            let ghost next = if i + 1 < whole.len() { whole[i + 1] as nat } else { n };
            proof {
                assert(group == whole[i as int]);
                lists::lemma_ascending(n, member);
                lists::lemma_ascending_between(n, member, i + 1);
                assert(member(group));
                if i + 1 < whole.len() {
                    assert(whole[i as int] < whole[i + 1]);
                }
                assert forall|g: usize| group + 1 <= g < next implies !(
                #[trigger] pre.machine().layout.members[g as int]).contains(key) by {
                    assert(!member(g));
                }
            }
            let (entered, all) = self.enter_group(key, group, Ghost(pre), Ghost(ended));
            if entered {
                changed = true;
            }
            proof {
                self.lemma_lowering_skip(&pre, key, (group + 1) as nat, next, all@);
                ended = all@;
            }
            i += 1;
        }
        let ghost last = *self;
        self.invalidate_cache(changed);
        self.down = Ghost(pre.down@.insert(key));
        proof {
            let lowered = m.lowered(key, ended);
            self.lemma_same_tables(&pre);
            assert(self.layout() == m.layout);
            assert forall|j: int| 0 <= j < m.keys.len() implies #[trigger] self.machine().keys[j]
                == lowered.keys[j] by {
                assert(last.keys@[j] == self.keys@[j]);
                assert(m.keys[j] == combo::key_state(pre.keys@[j]));
            }
            assert(self.machine().keys =~= lowered.keys);
            assert forall|g: int| 0 <= g < n implies #[trigger] self.machine().holders[g]
                == lowered.holders[g] by {
                assert(last.groups@[g] == self.groups@[g]);
            }
            assert(self.machine().holders =~= lowered.holders);
            assert(self.machine() =~= lowered);
            lemma_lowered_valid(m, key, ended);
            assert forall|g: int| 0 <= g < n implies (#[trigger] self.groups@[g]).counter
                == self.layout().members[g].intersect(self.down@).len() by {
                assert(last.groups@[g].counter == pre.groups@[g].counter + (
                if m.layout.members[g].contains(key) {
                    1int
                } else {
                    0
                }));
                pre.lemma_size(g as usize);
                assert(pre.groups@[g].counter == m.layout.members[g].intersect(pre.down@).len());
                if m.layout.members[g].contains(key) {
                    lemma_one_more(m.layout.members[g], pre.down@, key);
                } else {
                    lemma_no_more(m.layout.members[g], pre.down@, key);
                }
            }
        }
        Ghost(ended)
    }
}

/// A key that goes down leaves the machine in order.
proof fn lemma_lowered_valid<Z: Keycode>(m: Machine<Z>, key: usize, ended: Seq<usize>)
    requires
        m.valid(),
        key < m.keys.len(),
    ensures
        m.lowered(key, ended).valid(),
{
    let lowered = m.lowered(key, ended);
    assert forall|k: usize|
        k < lowered.keys.len() && (
        #[trigger] lowered.keys[k as int]).active is Some implies lowered.keys[k as int].active->0
        < lowered.layout.combos[k as int].len() by {
        assert(m.keys[k as int].active is Some);
    }
    assert forall|g: usize, k: usize|
        g < lowered.holders.len() && #[trigger] lowered.holders[g as int].contains(k) implies k
        < lowered.keys.len() by {
        assert(m.holders[g as int].contains(k));
    }
    assert forall|g: usize| g < lowered.holders.len() implies (
    #[trigger] lowered.holders[g as int]).finite() by {
        assert(m.holders[g as int].finite());
    }
}

impl<A: Keycode, Z: Keycode, Q: Queue<Event<Z>>> ComboHandlerSimple<A, Z, Q> {
    /// The group is not active any more: it does not shadow its neighbouring subgroups.
    fn give_way(&mut self, group: usize)
        requires
            old(self).tables(),
            group < old(self).groups@.len(),
            old(self).masks == combo::mask_count(old(self).groups@),
            forall|p: int|
                0 <= p < old(self).groups@.len() && old(self).layout().below(p as usize, group)
                    ==> (#[trigger] old(self).groups@[p]).active_greater > 0,
        ensures
            final(self).same_tables(old(self)),
            final(self).keys@ == old(self).keys@,
            final(self).events == old(self).events,
            final(self).masks == combo::mask_count(final(self).groups@),
            final(self).cache_counter == old(self).cache_counter,
            final(self).down@ == old(self).down@,
            forall|g: int|
                0 <= g < old(self).groups@.len() ==> #[trigger] final(self).groups@[g] == (Group {
                    active_greater: (old(self).groups@[g].active_greater - (
                    if old(self).layout().below(g as usize, group) {
                        1int
                    } else {
                        0
                    })) as usize,
                    ..old(self).groups@[g]
                }),
    {
        let ghost pre = *self;
        let ghost below = self.layout().subgroups(group);
        let range = self.groups[group].pred;
        proof {
            assert(self.groups.len() == pre.groups@.len());
            assert(self.group_tables(group as int));
            self.lemma_subgroups(group);
            assert(below.take(0) =~= Seq::<usize>::empty());
            assert forall|x: int|
                0 <= x < below.len() implies pre.groups@[#[trigger] below[x] as int].active_greater
                > 0 by {
                assert(below.contains(below[x]));
                assert(pre.layout().below(below[x], group));
            }
        }
        let count: usize = range.len();
        let mut i: usize = 0;
        while i < count
            invariant
                group < pre.groups@.len() <= usize::MAX,
                below == range.of(pre.groups_pred@),
                below.no_duplicates(),
                forall|x: int| 0 <= x < below.len() ==> #[trigger] below[x] < pre.groups@.len(),
                forall|x: int|
                    0 <= x < below.len() ==> pre.groups@[#[trigger] below[x] as int].active_greater
                        > 0,
                range.valid(),
                0 <= range.first(),
                range.past() <= pre.groups_pred@.len(),
                count == range.past() - range.first(),
                i <= count,
                self.same_tables(&pre),
                self.keys@ == pre.keys@,
                self.events == pre.events,
                self.masks == combo::mask_count(self.groups@),
                self.cache_counter == pre.cache_counter,
                self.down@ == pre.down@,
                forall|g: int|
                    0 <= g < pre.groups@.len() ==> #[trigger] self.groups@[g] == (Group {
                        active_greater: (pre.groups@[g].active_greater - (if below.take(
                            i as int,
                        ).contains(g as usize) {
                            1int
                        } else {
                            0
                        })) as usize,
                        ..pre.groups@[g]
                    }),
            decreases count - i,
        {
            let ghost start = *self;
            let sub = self.groups_pred[range.ind(i)];
            proof {
                assert(sub == below[i as int]);
                assert(below.take(i + 1) =~= below.take(i as int).push(sub));
                assert(!below.take(i as int).contains(sub));
            }
            groups::unshadow(&mut self.groups, &mut self.masks, sub);
            proof {
                assert forall|g: int| 0 <= g < pre.groups@.len() implies #[trigger] self.groups@[g]
                    == (Group {
                    active_greater: (pre.groups@[g].active_greater - (if below.take(
                        i + 1,
                    ).contains(g as usize) {
                        1int
                    } else {
                        0
                    })) as usize,
                    ..pre.groups@[g]
                }) by {
                    lists::lemma_push_contains(below.take(i as int), sub, g as usize);
                    assert(start.groups@[g] == (Group {
                        active_greater: (pre.groups@[g].active_greater - (if below.take(
                            i as int,
                        ).contains(g as usize) {
                            1int
                        } else {
                            0
                        })) as usize,
                        ..pre.groups@[g]
                    }));
                }
            }
            i += 1;
        }
        proof {
            assert(below.take(i as int) =~= below);
        }
    }

    /// While the key goes up: the groups below `bound` have been dealt with, which ended the
    /// combos of the keys `ended`.
    spec fn raising(&self, pre: &Self, key: usize, bound: nat, ended: Seq<usize>) -> bool {
        let m = pre.machine();
        &&& self.same_tables(pre)
        &&& self.down@ == pre.down@
        &&& self.cache_counter == pre.cache_counter
        &&& forall|j: int|
            0 <= j < pre.keys@.len() ==> #[trigger] self.keys@[j] == (Key {
                open: pre.keys@[j].open && !ended.contains(j as usize),
                ..pre.keys@[j]
            })
        &&& forall|g: int|
            0 <= g < pre.groups@.len() ==> (#[trigger] self.groups@[g]).counter
                == pre.groups@[g].counter - (if g < bound && m.layout.members[g].contains(key) {
                1int
            } else {
                0
            })
        &&& forall|g: int|
            0 <= g < pre.groups@.len() ==> (#[trigger] self.groups@[g]).active_greater
                == combo::shadow_count(m.layout, self.groups@, g as usize)
        &&& self.masks == combo::mask_count(self.groups@)
        &&& self.draining(m, model::ascending(bound, m.leaves(key)), ended)
    }

    /// The key, which goes up, does not count for the group any more. Tells whether the group was
    /// complete.
    fn leave_group(
        &mut self,
        key: usize,
        group: usize,
        Ghost(pre): Ghost<Self>,
        Ghost(ended): Ghost<Seq<usize>>,
    ) -> (left: (bool, Ghost<Seq<usize>>))
        requires
            pre.valid(),
            key < pre.keys@.len(),
            pre.down@.contains(key),
            group < pre.groups@.len(),
            pre.layout().members[group as int].contains(key),
            old(self).raising(&pre, key, group as nat, ended),
        ensures
            final(self).raising(&pre, key, (group + 1) as nat, left.1@),
            left.0 == (pre.machine().leaves(key))(group),
    {
        let ghost m = pre.machine();
        let ghost start = *self;
        let ghost before = model::ascending(group as nat, m.leaves(key));
        let ghost after = model::ascending((group + 1) as nat, m.leaves(key));
        let ghost members = m.layout.members[group as int];
        proof {
            assert(self.groups.len() == pre.groups@.len());
            assert(self.keys.len() == pre.keys@.len());
            pre.lemma_size(group);
            lemma_full(members, pre.down@);
            assert(members.intersect(pre.down@).contains(key));
            self.lemma_same_tables(&pre);
            self.lemma_follows(&pre);
            assert(self.groups@[group as int].counter == pre.groups@[group as int].counter);
            assert(self.groups@[group as int].size == pre.groups@[group as int].size);
        }
        let was_active = self.groups[group].is_active();
        let mut closed: Ghost<Seq<usize>> = Ghost(ended);
        if was_active {
            proof {
                assert(after == before.push(group));
                assert forall|p: int|
                    0 <= p < pre.groups@.len() && m.layout.below(p as usize, group) implies (
                #[trigger] start.groups@[p]).active_greater > 0 by {
                    lemma_shadowing(m.layout, start.groups@, group, p as usize);
                }
            }
            self.give_way(group);
            let ghost given = *self;
            proof {
                given.lemma_follows(&pre);
                assert(given.draining(m, before, ended)) by {
                    assert forall|g: int|
                        #![trigger given.groups@[g]]
                        0 <= g < given.groups@.len() implies sets::set_contents(
                        given.groups@[g].active_combos,
                    ) == (if before.contains(g as usize) {
                        Set::empty()
                    } else {
                        m.holders[g]
                    }) by {
                        assert(start.groups@[g].active_combos == given.groups@[g].active_combos);
                    }
                }
            }
            closed = self.end_combos(group, Ghost(m), Ghost(before), Ghost(ended));
            proof {
                lemma_mask_same(given.groups@, self.groups@);
                assert forall|g: int| 0 <= g < pre.groups@.len() implies (
                #[trigger] self.groups@[g]).counter == start.groups@[g].counter
                    && self.groups@[g].active_greater == start.groups@[g].active_greater - (
                if m.layout.below(g as usize, group) {
                    1int
                } else {
                    0
                }) by {
                    assert(given.groups@[g].counter == start.groups@[g].counter);
                    if m.layout.below(g as usize, group) {
                        lemma_shadowing(m.layout, start.groups@, group, g as usize);
                    }
                }
                assert forall|j: int| 0 <= j < pre.keys@.len() implies #[trigger] self.keys@[j]
                    == (Key {
                    open: pre.keys@[j].open && !closed@.contains(j as usize),
                    ..pre.keys@[j]
                }) by {
                    assert(given.keys@[j] == start.keys@[j]);
                    assert(start.keys@[j].open == (pre.keys@[j].open && !ended.contains(
                        j as usize,
                    )));
                }
            }
        } else {
            proof {
                assert(after == before);
            }
        }
        let ghost ready = *self;
        proof {
            assert(ready.same_tables(&pre));
            assert(ready.groups@[group as int].counter == pre.groups@[group as int].counter);
            assert(ready.groups@[group as int].size == pre.groups@[group as int].size);
        }
        groups::discount_member(&mut self.groups, &mut self.masks, group);
        proof {
            assert(self.same_tables(&pre));
            assert forall|g: int| 0 <= g < pre.groups@.len() implies (
            #[trigger] self.groups@[g]).active_greater == combo::shadow_count(
                m.layout,
                self.groups@,
                g as usize,
            ) by {
                assert(ready.groups@[g].counter == start.groups@[g].counter);
                assert forall|x: int|
                    #![trigger self.groups@[x]]
                    0 <= x < start.groups@.len() && x != group implies active(self.groups@[x])
                    == active(start.groups@[x]) by {
                    assert(ready.groups@[x].counter == start.groups@[x].counter);
                    assert(ready.groups@[x].size == start.groups@[x].size);
                }
                lemma_shadow_step(m.layout, start.groups@, self.groups@, group, g as usize);
            }
            assert forall|g: int| 0 <= g < pre.groups@.len() implies (
            #[trigger] self.groups@[g]).counter == pre.groups@[g].counter - (if g < group + 1
                && m.layout.members[g].contains(key) {
                1int
            } else {
                0
            }) by {
                assert(ready.groups@[g].counter == start.groups@[g].counter);
            }
            assert(self.draining(m, after, closed@)) by {
                assert forall|g: int|
                    #![trigger self.groups@[g]]
                    0 <= g < self.groups@.len() implies sets::set_contents(
                    self.groups@[g].active_combos,
                ) == (if after.contains(g as usize) {
                    Set::empty()
                } else {
                    m.holders[g]
                }) by {
                    assert(ready.groups@[g].active_combos == self.groups@[g].active_combos);
                }
            }
        }
        (was_active, closed)
    }

    /// Groups that the key is not part of need nothing.
    proof fn lemma_raising_skip(
        &self,
        pre: &Self,
        key: usize,
        a: nat,
        b: nat,
        ended: Seq<usize>,
    )
        requires
            self.raising(pre, key, a, ended),
            a <= b <= pre.groups@.len() <= usize::MAX,
            forall|g: usize|
                a <= g < b ==> !(#[trigger] pre.machine().layout.members[g as int]).contains(key),
        ensures
            self.raising(pre, key, b, ended),
            model::ascending(b, pre.machine().leaves(key)) == model::ascending(
                a,
                pre.machine().leaves(key),
            ),
    {
        let m = pre.machine();
        assert forall|g: usize| a <= g < b implies !#[trigger] (m.leaves(key))(g) by {
            assert(!m.layout.members[g as int].contains(key));
        }
        lists::lemma_ascending_gap(a, b, m.leaves(key));
        assert forall|g: int| 0 <= g < pre.groups@.len() implies (
        #[trigger] self.groups@[g]).counter == pre.groups@[g].counter - (if g < b
            && m.layout.members[g].contains(key) {
            1int
        } else {
            0
        }) by {
            if a <= g < b {
                assert(!m.layout.members[g as usize as int].contains(key));
            }
        }
    }

    /// The key goes up. Returns the keys whose combos end.
    fn raise(&mut self, key: usize) -> (ended: Ghost<Seq<usize>>)
        requires
            old(self).valid(),
            key < old(self).machine().keys.len(),
            old(self).machine().down.contains(key),
        ensures
            final(self).valid(),
            old(self).machine().empties(old(self).machine().left(key), ended@),
            final(self).machine() == old(self).machine().raised(key, ended@),
    {
        let ghost pre = *self;
        let ghost m = self.machine();
        let ghost n = self.groups@.len();
        let ghost whole = m.layout.groups_of(key);
        let ghost member = |g: usize| m.layout.members[g as int].contains(key);
        let ghost mut ended: Seq<usize> = Seq::empty();
        let range = self.keys[key].groups;
        proof {
            assert(self.groups.len() == n);
            assert(self.key_tables(key as int));
        }
        let mut changed = false;
        let count: usize = range.len();
        let mut i: usize = 0;
        proof {
            lists::lemma_ascending(n, member);
            assert(whole == model::ascending(n, member));
            lists::lemma_ascending_between(n, member, 0);
            assert(model::ascending(0, m.leaves(key)) =~= Seq::<usize>::empty());
            assert(self.events.pending() =~= m.events + m.closings(ended));
            assert(m.empties(model::ascending(0, m.leaves(key)), ended));
            assert(self.raising(&pre, key, 0, ended));
            let first = if whole.len() > 0 { whole[0] as nat } else { n };
            assert forall|g: usize| 0 <= g < first implies !(
            #[trigger] pre.machine().layout.members[g as int]).contains(key) by {
                assert(!member(g));
            }
            self.lemma_raising_skip(&pre, key, 0, first, ended);
        }
        while i < count
            invariant
                pre.valid(),
                m == pre.machine(),
                n == pre.groups@.len() <= usize::MAX,
                key < pre.keys@.len(),
                pre.down@.contains(key),
                member == |g: usize| m.layout.members[g as int].contains(key),
                whole == model::ascending(n, member),
                whole == range.of(pre.keys_groups@),
                range.valid(),
                0 <= range.first(),
                range.past() <= pre.keys_groups@.len(),
                count == range.past() - range.first(),
                i <= count,
                self.raising(
                    &pre,
                    key,
                    if i < whole.len() {
                        whole[i as int] as nat
                    } else {
                        n
                    },
                    ended,
                ),
                changed == (model::ascending(
                    if i < whole.len() {
                        whole[i as int] as nat
                    } else {
                        n
                    },
                    m.leaves(key),
                ).len() > 0),
            decreases count - i,
        {
            let group = self.keys_groups[range.ind(i)];
            let ghost next = if i + 1 < whole.len() { whole[i + 1] as nat } else { n };
            proof {
                assert(group == whole[i as int]);
                lists::lemma_ascending(n, member);
                lists::lemma_ascending_between(n, member, i + 1);
                assert(member(group));
                if i + 1 < whole.len() {
                    assert(whole[i as int] < whole[i + 1]);
                }
                assert forall|g: usize| group + 1 <= g < next implies !(
                #[trigger] pre.machine().layout.members[g as int]).contains(key) by {
                    assert(!member(g));
                }
            }
            let (left, all) = self.leave_group(key, group, Ghost(pre), Ghost(ended));
            if left {
                changed = true;
            }
            proof {
                self.lemma_raising_skip(&pre, key, (group + 1) as nat, next, all@);
                ended = all@;
            }
            i += 1;
        }
        let ghost last = *self;
        self.invalidate_cache(changed);
        self.down = Ghost(pre.down@.remove(key));
        proof {
            let raised = m.raised(key, ended);
            self.lemma_same_tables(&pre);
            assert(self.layout() == m.layout);
            assert forall|j: int| 0 <= j < m.keys.len() implies #[trigger] self.machine().keys[j]
                == raised.keys[j] by {
                assert(last.keys@[j] == self.keys@[j]);
                assert(m.keys[j] == combo::key_state(pre.keys@[j]));
            }
            assert(self.machine().keys =~= raised.keys);
            assert forall|g: int| 0 <= g < n implies #[trigger] self.machine().holders[g]
                == raised.holders[g] by {
                assert(last.groups@[g] == self.groups@[g]);
            }
            assert(self.machine().holders =~= raised.holders);
            assert(self.machine() =~= raised);
            lemma_raised_valid(m, key, ended);
            assert forall|g: int| 0 <= g < n implies (#[trigger] self.groups@[g]).counter
                == self.layout().members[g].intersect(self.down@).len() by {
                assert(last.groups@[g].counter == pre.groups@[g].counter - (
                if m.layout.members[g].contains(key) {
                    1int
                } else {
                    0
                }));
                pre.lemma_size(g as usize);
                assert(pre.groups@[g].counter == m.layout.members[g].intersect(pre.down@).len());
                if m.layout.members[g].contains(key) {
                    lemma_one_more(m.layout.members[g], pre.down@.remove(key), key);
                    assert(pre.down@.remove(key).insert(key) =~= pre.down@);
                } else {
                    lemma_no_more(m.layout.members[g], pre.down@, key);
                }
            }
        }
        Ghost(ended)
    }
}

/// A group that is active shadows its neighbouring subgroups.
proof fn lemma_shadowing<Z: Keycode>(
    layout: model::Layout<Z>,
    groups: Seq<Group>,
    group: usize,
    p: usize,
)
    requires
        groups.len() <= usize::MAX,
        group < groups.len(),
        active(groups[group as int]),
        layout.below(p, group),
    ensures
        combo::shadow_count(layout, groups, p) > 0,
{
    let a = |b: usize| layout.below(p, b) && groups[b as int].counter == groups[b as int].size;
    assert(a(group));
    lists::lemma_tally_positive(groups.len(), a);
}

/// A key that goes up leaves the machine in order.
proof fn lemma_raised_valid<Z: Keycode>(m: Machine<Z>, key: usize, ended: Seq<usize>)
    requires
        m.valid(),
        key < m.keys.len(),
    ensures
        m.raised(key, ended).valid(),
{
    let raised = m.raised(key, ended);
    assert forall|k: usize|
        k < raised.keys.len() && (
        #[trigger] raised.keys[k as int]).active is Some implies raised.keys[k as int].active->0
        < raised.layout.combos[k as int].len() by {
        assert(m.keys[k as int].active is Some);
    }
    assert forall|g: usize, k: usize|
        g < raised.holders.len() && #[trigger] raised.holders[g as int].contains(k) implies k
        < raised.keys.len() by {
        assert(m.holders[g as int].contains(k));
    }
    assert forall|g: usize| g < raised.holders.len() implies (
    #[trigger] raised.holders[g as int]).finite() by {
        assert(m.holders[g as int].finite());
    }
}

impl<A: Keycode, Z: Keycode, Q: Queue<Event<Z>>> ComboHandlerSimple<A, Z, Q> {
    /// What the groups hold does not matter to the tables and to the counters.
    proof fn lemma_kept(&self, pre: &Self)
        requires
            pre.valid(),
            self.same_tables(pre),
            self.down@ == pre.down@,
            self.masks == pre.masks,
            forall|g: int|
                0 <= g < pre.groups@.len() ==> #[trigger] self.groups@[g] == (Group {
                    active_combos: self.groups@[g].active_combos,
                    ..pre.groups@[g]
                }),
        ensures
            self.layout() == pre.layout(),
            self.tables(),
            self.counters(),
    {
        self.lemma_same_tables(pre);
        assert(pre.machine().layout.members.len() == pre.groups@.len());
        lemma_mask_same(pre.groups@, self.groups@);
        let layout = pre.layout();
        assert forall|g: int| 0 <= g < self.groups@.len() implies (
        #[trigger] self.groups@[g]).active_greater == combo::shadow_count(
            layout,
            self.groups@,
            g as usize,
        ) by {
            assert(pre.groups@[g].active_greater == combo::shadow_count(
                layout,
                pre.groups@,
                g as usize,
            ));
            assert forall|i: int|
                #![trigger self.groups@[i]]
                0 <= i < pre.groups@.len() && i != g implies active(self.groups@[i]) == active(
                pre.groups@[i],
            ) by {
                assert(self.groups@[i] == (Group {
                    active_combos: self.groups@[i].active_combos,
                    ..pre.groups@[i]
                }));
            }
            lemma_shadow_step(layout, pre.groups@, self.groups@, g as usize, g as usize);
        }
        assert forall|g: int| 0 <= g < self.groups@.len() implies (
        #[trigger] self.groups@[g]).counter == self.layout().members[g].intersect(
            self.down@,
        ).len() by {
            assert(pre.groups@[g].counter == pre.layout().members[g].intersect(pre.down@).len());
        }
    }

    /// The numbers of pending key-down events do not matter to the rest.
    pub(super) proof fn lemma_set_pending(&self, pre: &Self, key: usize, pending: u64)
        requires
            pre.valid(),
            key < pre.keys@.len(),
            *self == (ComboHandlerSimple { keys: self.keys, ..*pre }),
            self.keys@ == pre.keys@.update(
                key as int,
                Key { counter: pending, ..pre.keys@[key as int] },
            ),
        ensures
            self.valid(),
            self.machine() == pre.machine().counting(key, pending),
    {
        let m = pre.machine();
        let post = m.counting(key, pending);
        self.lemma_kept(pre);
        assert(self.machine().keys =~= post.keys);
        assert(self.machine().holders =~= post.holders);
        assert(self.machine() =~= post);
        lemma_with_key_valid(m, key, post.keys[key as int]);
    }

    /// A group with keys is active exactly if they are down.
    proof fn lemma_active(&self, g: usize)
        requires
            self.valid(),
            g < self.groups@.len(),
        ensures
            (self.groups@[g as int].size > 0 && active(self.groups@[g as int]))
                == self.layout().full(g, self.down@),
    {
        self.lemma_size(g);
        lemma_full(self.layout().members[g as int], self.down@);
        assert(self.groups@[g as int].counter == self.layout().members[g as int].intersect(
            self.down@,
        ).len());
    }

    /// A group is shadowed exactly if the counter says so.
    pub(super) proof fn lemma_shadowed(&self, g: usize)
        requires
            self.valid(),
            g < self.groups@.len(),
        ensures
            (self.groups@[g as int].active_greater > 0) == self.layout().shadowed(g, self.down@),
    {
        let layout = self.layout();
        let a = |b: usize|
            layout.below(g, b) && self.groups@[b as int].counter == self.groups@[b as int].size;
        assert(self.machine().layout.members.len() == self.groups@.len());
        lists::lemma_tally_positive(self.groups@.len(), a);
        assert(self.groups@[g as int].active_greater == combo::shadow_count(
            layout,
            self.groups@,
            g,
        ));
        if layout.shadowed(g, self.down@) {
            let b = choose|b: usize| #[trigger] layout.below(g, b) && layout.full(b, self.down@);
            self.lemma_active(b);
            assert(a(b));
        }
        if exists|b: usize| b < self.groups@.len() && #[trigger] a(b) {
            let b = choose|b: usize| b < self.groups@.len() && #[trigger] a(b);
            self.lemma_active(b);
            self.lemma_size(b);
            lemma_not_empty(layout.members[g as int], layout.members[b as int]);
            assert(layout.below(g, b) && layout.full(b, self.down@));
        }
    }

    /// A masking group is in force exactly if the counter says so.
    pub(super) proof fn lemma_masking(&self)
        requires
            self.valid(),
        ensures
            (self.masks > 0) == self.machine().layout.masked(self.machine().down),
    {
        let layout = self.layout();
        let a = |g: usize| combo::is_mask(self.groups@[g as int]);
        assert(self.machine().layout.members.len() == self.groups@.len());
        lists::lemma_tally_positive(self.groups@.len(), a);
        if layout.masked(self.down@) {
            let g = choose|g: usize| #[trigger]
                layout.in_force(g, self.down@) && layout.masking[g as int];
            self.lemma_active(g);
            self.lemma_shadowed(g);
            self.lemma_size(g);
            assert(a(g));
        }
        if exists|g: usize| g < self.groups@.len() && #[trigger] a(g) {
            let g = choose|g: usize| g < self.groups@.len() && #[trigger] a(g);
            self.lemma_active(g);
            self.lemma_shadowed(g);
            self.lemma_size(g);
            assert(layout.in_force(g, self.down@) && layout.masking[g as int]);
        }
    }

    /// Tells whether only combos get through.
    pub fn is_masking(&self) -> (masking: bool)
        requires
            self.valid(),
        ensures
            masking == self.machine().layout.masked(self.machine().down),
            masking == (self.mask_total() > 0),
    {
        proof {
            self.lemma_masking();
        }
        self.masks > 0
    }

    /// The key acts without a combo, unless something masks it.
    fn maybe_action(&mut self, key: usize, kind: Kind, value: i16)
        requires
            old(self).valid(),
            key < old(self).machine().keys.len(),
        ensures
            final(self).valid(),
            final(self).machine() == old(self).machine().plain(key, kind, value),
    {
        let ghost pre = *self;
        let ghost m = self.machine();
        proof {
            pre.lemma_is_modifier(key);
        }
        let masking = self.is_masking();
        self.keys[key].open = self.keys[key].open && !masking;
        if !masking && self.keys[key].is_immediate() {
            if let Some(action) = self.keys[key].action {
                self.events.push(Event { keycode: action, kind, value });
                self.keys[key].open();
            }
        }
        self.keys[key].active_combo = None;
        proof {
            self.lemma_kept(&pre);
            let post = m.plain(key, kind, value);
            assert(self.machine().keys =~= post.keys);
            assert(self.machine().holders =~= post.holders);
            assert(self.machine().events =~= post.events);
            assert(self.machine() =~= post);
            lemma_with_key_valid(m, key, post.keys[key as int]);
            assert(m.with_key(key, post.keys[key as int]).valid());
        }
    }

    /// The key acts through a combo.
    fn activate(&mut self, key: usize, combo: usize, kind: Kind, value: i16)
        requires
            old(self).valid(),
            key < old(self).machine().keys.len(),
            combo < old(self).machine().layout.combos[key as int].len(),
        ensures
            final(self).valid(),
            final(self).machine() == old(self).machine().combined(key, combo, kind, value),
    {
        let ghost pre = *self;
        let ghost m = self.machine();
        proof {
            pre.lemma_is_modifier(key);
            assert(pre.key_tables(key as int));
            assert(m.layout.group_at(key, combo) < m.layout.members.len());
        }
        let chosen = self.keys[key].get_combo(combo, self.keys_combos.as_slice());
        if !self.keys[key].latching {
            sets::compact_set_insert(&mut self.groups[chosen.group].active_combos, key);
        }
        match chosen.action {
            Some(action) => {
                if self.keys[key].is_immediate() {
                    self.events.push(Event { keycode: action, kind, value });
                    self.keys[key].open();
                }
            },
            None => {
                self.keys[key].close();
            },
        }
        self.keys[key].active_combo = Some(combo);
        proof {
            assert(chosen == m.layout.combos[key as int][combo as int]);
            self.lemma_kept(&pre);
            let post = m.combined(key, combo, kind, value);
            assert(self.machine().keys =~= post.keys);
            assert(self.machine().holders =~= post.holders);
            assert(self.machine().events =~= post.events);
            assert(self.machine() =~= post);
            assert(post.valid()) by {
                lemma_with_key_valid(m, key, post.keys[key as int]);
                let mid = m.with_key(key, post.keys[key as int]);
                assert(post.keys == mid.keys);
                assert forall|g: usize, k: usize|
                    g < post.holders.len() && #[trigger] post.holders[g as int].contains(
                        k,
                    ) implies k < post.keys.len() by {
                    assert(k == key || m.holders[g as int].contains(k));
                }
                assert forall|g: usize| g < post.holders.len() implies (
                #[trigger] post.holders[g as int]).finite() by {
                    assert(m.holders[g as int].finite());
                }
            }
        }
    }

    /// Returns the action that the key stands for.
    fn output(&self, key: usize) -> (action: Option<Z>)
        requires
            self.valid(),
            key < self.machine().keys.len(),
        ensures
            action == self.machine().output(key),
    {
        proof {
            assert(self.key_tables(key as int));
            assert(self.machine().keys[key as int] == combo::key_state(self.keys@[key as int]));
        }
        match self.keys[key].active_combo {
            Some(combo) => self.keys[key].get_combo(combo, self.keys_combos.as_slice()).action,
            None => self.keys[key].action,
        }
    }

    /// The key, which is up, ends its action. A modifier key that waited for key-up acts now.
    fn finish(&mut self, key: usize)
        requires
            old(self).valid(),
            key < old(self).machine().keys.len(),
        ensures
            final(self).valid(),
            final(self).machine() == old(self).machine().finished(key),
    {
        let ghost pre = *self;
        let ghost m = self.machine();
        proof {
            pre.lemma_is_modifier(key);
            assert(pre.key_tables(key as int));
            assert(m.keys[key as int] == combo::key_state(pre.keys@[key as int]));
            if m.keys[key as int].active is Some {
                assert(m.layout.group_at(key, m.keys[key as int].active->0)
                    < m.layout.members.len());
            }
        }
        let output = self.output(key);
        if let Some(combo) = self.keys[key].active_combo {
            let ended = self.keys[key].get_combo(combo, self.keys_combos.as_slice());
            sets::compact_set_remove(&mut self.groups[ended.group].active_combos, key);
        }
        if self.keys[key].open {
            if let Some(action) = output {
                if !self.keys[key].is_immediate() {
                    self.events.push(Event { keycode: action, kind: Kind::Down, value: 0 });
                }
                self.events.push(Event { keycode: action, kind: Kind::Up, value: 0 });
            }
        }
        proof {
            self.lemma_kept(&pre);
            let post = m.finished(key);
            assert(self.machine().keys =~= post.keys);
            assert(self.machine().holders =~= post.holders);
            assert(self.machine().events =~= post.events);
            assert(self.machine() =~= post);
            assert(post.valid()) by {
                assert forall|g: usize, k: usize|
                    g < post.holders.len() && #[trigger] post.holders[g as int].contains(
                        k,
                    ) implies k < post.keys.len() by {
                    assert(m.holders[g as int].contains(k));
                }
                assert forall|g: usize| g < post.holders.len() implies (
                #[trigger] post.holders[g as int]).finite() by {
                    assert(m.holders[g as int].finite());
                }
            }
        }
    }
}

/// One key's state is replaced: the machine stays in order.
proof fn lemma_with_key_valid<Z: Keycode>(m: Machine<Z>, key: usize, state: model::KeyState)
    requires
        m.valid(),
        key < m.keys.len(),
        state.active is Some ==> state.active->0 < m.layout.combos[key as int].len(),
    ensures
        m.with_key(key, state).valid(),
{
    let post = m.with_key(key, state);
    assert forall|k: usize|
        k < post.keys.len() && (
        #[trigger] post.keys[k as int]).active is Some implies post.keys[k as int].active->0
        < post.layout.combos[k as int].len() by {
        if k != key {
            assert(m.keys[k as int].active is Some);
        }
    }
}

impl<A: Keycode, Z: Keycode, Q: Queue<Event<Z>>> ComboHandlerSimple<A, Z, Q> {
    /// Returns the combo that the key stands for, if there is one.
    fn find_combo(&self, key: usize) -> (combo: Option<usize>)
        requires
            self.valid(),
            key < self.machine().keys.len(),
        ensures
            combo == self.machine().layout.winner(key, self.machine().down),
    {
        let ghost layout = self.layout();
        let ghost down = self.down@;
        let ghost own = layout.combos[key as int];
        proof {
            assert(self.key_tables(key as int));
            assert(layout == self.machine().layout);
        }
        let combos: usize = self.keys[key].combos.len();
        let mut i: usize = 0;
        while i < combos
            invariant_except_break
                forall|c: usize| c < i ==> !layout.full(#[trigger] layout.group_at(key, c), down),
            invariant
                self.valid(),
                key < self.keys@.len(),
                layout == self.layout(),
                layout.valid(),
                down == self.down@,
                own == layout.combos[key as int],
                combos == own.len(),
                i <= combos,
            ensures
                forall|c: usize| c < i ==> !layout.full(#[trigger] layout.group_at(key, c), down),
                i < combos ==> layout.full(layout.group_at(key, i), down),
            decreases combos - i,
        {
            proof {
                assert(self.key_tables(key as int));
            }
            let group = self.keys[key].get_combo(i, self.keys_combos.as_slice()).group;
            proof {
                assert(group == layout.group_at(key, i));
                self.lemma_active(group);
            }
            if self.groups[group].size > 0 && self.groups[group].is_active() {
                break;
            }
            i += 1;
        }
        if i == combos {
            // not modified
            proof {
                assert forall|c: usize| !layout.wins(key, c, down) by {
                    if c < combos {
                        assert(!layout.full(layout.group_at(key, c), down));
                    }
                }
            }
            return None;
        }
        let candidate_combo = i;
        let candidate_group = self.keys[key].get_combo(
            candidate_combo,
            self.keys_combos.as_slice(),
        ).group;
        proof {
            assert(candidate_group == layout.group_at(key, candidate_combo));
            self.lemma_shadowed(candidate_group);
            assert(self.group_tables(candidate_group as int));
            assert forall|c: usize| layout.wins(key, c, down) implies c == candidate_combo by {
                if c < candidate_combo {
                    assert(!layout.full(layout.group_at(key, c), down));
                }
                if candidate_combo < c {
                    assert(!layout.full(layout.group_at(key, candidate_combo), down));
                }
            }
        }

        // conflicts among the combos of the key
        while i < combos
            invariant
                self.valid(),
                key < self.keys@.len(),
                layout == self.layout(),
                layout.valid(),
                down == self.down@,
                own == layout.combos[key as int],
                combos == own.len(),
                candidate_combo <= i <= combos,
                candidate_combo < combos,
                candidate_group == layout.group_at(key, candidate_combo),
                forall|c: usize|
                    layout.wins(key, c, down) ==> c == candidate_combo,
                forall|c: usize|
                    candidate_combo <= c < i && layout.full(
                        #[trigger] layout.group_at(key, c),
                        down,
                    ) ==> layout.group_at(key, c) == candidate_group || layout.inside(
                        layout.group_at(key, c),
                        candidate_group,
                    ),
            decreases combos - i,
        {
            proof {
                assert(self.key_tables(key as int));
            }
            let group = self.keys[key].get_combo(i, self.keys_combos.as_slice()).group;
            proof {
                assert(group == layout.group_at(key, i));
                assert(candidate_group < layout.members.len());
                self.lemma_active(group);
                assert(self.group_tables(group as int));
                assert(self.group_tables(candidate_group as int));
                assert(sets::frozen_contents(self.groups@[group as int].greater).contains(
                    candidate_group,
                ) == layout.inside(group, candidate_group));
            }
            if self.groups[group].size > 0 && self.groups[group].is_active() && !(
            self.groups[group] <= self.groups[candidate_group]) {
                proof {
                    assert forall|c: usize| !layout.wins(key, c, down) by {
                        if layout.wins(key, c, down) {
                            assert(layout.full(layout.group_at(key, i), down));
                        }
                    }
                }
                return None;
            }
            i += 1;
        }

        // conflicts among the modifier keys
        if self.groups[candidate_group].is_shadowed() {
            return None;
        }
        let range = self.groups[candidate_group].intersect;
        let ghost crossing = range.of(self.groups_intersect@);
        let count: usize = range.len();
        let mut j: usize = 0;
        proof {
            lists::lemma_ascending(
                self.groups@.len(),
                |h: usize| layout.crosses(candidate_group, h),
            );
        }
        while j < count
            invariant
                self.valid(),
                layout == self.layout(),
                layout.valid(),
                down == self.down@,
                crossing == range.of(self.groups_intersect@),
                range.valid(),
                0 <= range.first(),
                range.past() <= self.groups_intersect@.len(),
                count == range.past() - range.first(),
                candidate_group == layout.group_at(key, candidate_combo),
                forall|h: usize| #[trigger]
                    crossing.contains(h) <==> h < self.groups@.len() && layout.crosses(
                        candidate_group,
                        h,
                    ),
                forall|c: usize|
                    layout.wins(key, c, down) ==> c == candidate_combo,
                j <= count,
                forall|x: int| 0 <= x < j ==> !layout.full(#[trigger] crossing[x], down),
            decreases count - j,
        {
            let group = self.groups_intersect[range.ind(j)];
            proof {
                assert(group == crossing[j as int]);
                assert(crossing.contains(group));
                self.lemma_active(group);
            }
            if self.groups[group].is_active() {
                proof {
                    assert forall|c: usize| !layout.wins(key, c, down) by {
                        if layout.wins(key, c, down) {
                            assert(layout.crosses(candidate_group, group));
                            self.lemma_size(group);
                            lemma_not_empty(
                                layout.members[candidate_group as int],
                                layout.members[group as int],
                            );
                        }
                    }
                }
                return None;
            }
            j += 1;
        }
        proof {
            assert forall|h: usize| #[trigger] layout.crosses(
                candidate_group,
                h,
            ) implies !layout.full(h, down) by {
                assert(crossing.contains(h));
                let x = choose|x: int| 0 <= x < crossing.len() && crossing[x] == h;
                assert(!layout.full(crossing[x], down));
            }
            assert forall|c: usize|
                c < combos && layout.full(
                    #[trigger] layout.group_at(key, c),
                    down,
                ) implies layout.group_at(key, c) == candidate_group || layout.inside(
                layout.group_at(key, c),
                candidate_group,
            ) by {}
            assert(layout.wins(key, candidate_combo, down));
        }
        Some(candidate_combo)
    }

    /// The key, which is down or whose axis moved, acts.
    fn act(&mut self, key: usize, kind: Kind, value: i16)
        requires
            old(self).valid(),
            key < old(self).machine().keys.len(),
        ensures
            final(self).valid(),
            final(self).machine() == old(self).machine().acted(key, kind, value),
    {
        let ghost pre = *self;
        let ghost m = self.machine();
        proof {
            pre.lemma_is_modifier(key);
            assert(m.keys[key as int] == combo::key_state(pre.keys@[key as int]));
        }
        // a modifier key that waits for key-up and is spent
        if !self.keys[key].is_immediate() && !self.keys[key].open {
            return;
        }
        if self.keys[key].cache_counter == self.cache_counter {
            match self.keys[key].active_combo {
                Some(combo) => self.activate(key, combo, kind, value),
                None => self.maybe_action(key, kind, value),
            }
            return;
        }
        let combo = self.find_combo(key);
        self.keys[key].cache_counter = self.cache_counter;
        let ghost stamped = m.with_key(
            key,
            model::KeyState { stamp: m.stamp, ..m.keys[key as int] },
        );
        proof {
            self.lemma_kept(&pre);
            assert(self.machine().keys =~= stamped.keys);
            assert(self.machine().holders =~= stamped.holders);
            assert(self.machine() =~= stamped);
            lemma_with_key_valid(m, key, stamped.keys[key as int]);
        }
        match combo {
            Some(combo) => {
                proof {
                    assert(m.layout.wins(key, combo, m.down));
                    assert(self.key_tables(key as int));
                }
                let group = self.keys[key].get_combo(combo, self.keys_combos.as_slice()).group;
                proof {
                    assert(group == m.layout.group_at(key, combo));
                    self.lemma_size(group);
                }
                // groups of one do not spend their key by themselves
                if self.groups[group].size == 1 {
                    let ghost mid = *self;
                    self.spend(group);
                    proof {
                        let used = stamped.using(group);
                        self.lemma_kept(&mid);
                        assert forall|j: int| 0 <= j < m.keys.len() implies #[trigger]
                            self.machine().keys[j] == used.keys[j] by {
                            mid.lemma_is_modifier(j as usize);
                            assert(stamped.keys[j] == combo::key_state(mid.keys@[j]));
                        }
                        assert(self.machine().keys =~= used.keys);
                        assert(self.machine().holders =~= used.holders);
                        assert(self.machine() =~= used);
                        assert(used.valid()) by {
                            assert forall|k: usize|
                                k < used.keys.len() && (
                                #[trigger] used.keys[k as int]).active is Some implies used.keys[k as int].active->0
                                < used.layout.combos[k as int].len() by {
                                assert(stamped.keys[k as int].active is Some);
                            }
                        }
                    }
                }
                self.activate(key, combo, kind, value);
            },
            None => {
                self.maybe_action(key, kind, value);
            },
        }
    }

    /// Resolves an event of a key, which is named by its position among the keycodes of the
    /// configuration.
    pub fn resolve(&mut self, key: usize, kind: Kind, value: i16)
        requires
            old(self).valid(),
            key < old(self).machine().keys.len(),
            old(self).machine().sane(key, kind),
        ensures
            final(self).valid(),
            old(self).machine().leads_to(key, kind, value, final(self).machine()),
    {
        let ghost m = self.machine();
        match kind {
            Kind::Down => {
                let ended = self.lower(key);
                self.act(key, kind, value);
                proof {
                    assert(m.empties(m.emptied(key, kind), ended@));
                }
            },
            Kind::Up => {
                let ended = self.raise(key);
                self.finish(key);
                proof {
                    assert(m.empties(m.emptied(key, kind), ended@));
                }
            },
            _ => {
                let ghost pre = *self;
                self.keys[key].open();
                self.keys[key].immediate = true;
                self.keys[key].latching = true;
                proof {
                    let moved = m.moved(key);
                    self.lemma_kept(&pre);
                    assert(m.keys[key as int] == combo::key_state(pre.keys@[key as int]));
                    assert(self.machine().keys =~= moved.keys);
                    assert(self.machine().holders =~= moved.holders);
                    assert(self.machine() =~= moved);
                    lemma_with_key_valid(m, key, moved.keys[key as int]);
                    assert(m.empties(m.emptied(key, kind), Seq::empty()));
                }
                self.act(key, kind, value);
            },
        }
    }
}

/// Which keys one more group spends.
proof fn lemma_spends_push<Z: Keycode>(m: Machine<Z>, before: Seq<usize>, group: usize, key: usize)
    ensures
        m.spends(before.push(group), key) <==> m.spends(before, key)
            || m.layout.members[group as int].len() > 1
            && m.layout.members[group as int].contains(key),
{
    let after = before.push(group);
    lists::lemma_push_contains(before, group, group);
    if m.spends(before, key) {
        let g = choose|g: usize| #[trigger]
            before.contains(g) && m.layout.members[g as int].len() > 1
                && m.layout.members[g as int].contains(key);
        lists::lemma_push_contains(before, group, g);
        assert(after.contains(g));
    }
    if m.spends(after, key) {
        let g = choose|g: usize| #[trigger]
            after.contains(g) && m.layout.members[g as int].len() > 1
                && m.layout.members[g as int].contains(key);
        lists::lemma_push_contains(before, group, g);
    }
    assert(after.contains(group));
}


} // verus!

//! Counters of the groups, and the end of the combos of a group.
use crate::combo;
use crate::combo::types::{Combo, Group, Key, Queue};
use crate::combo::{lists, model, sets};
use crate::types::{Event, Keycode, Kind};
use vstd::prelude::*;

verus! {

/// One more key of a group is down.
pub(super) fn count_member(groups: &mut Vec<Group>, masks: &mut usize, g: usize)
    requires
        g < old(groups)@.len(),
        old(groups)@[g as int].counter < old(groups)@[g as int].size,
        *old(masks) == combo::mask_count(old(groups)@),
    ensures
        final(groups)@ == old(groups)@.update(
            g as int,
            Group {
                counter: (old(groups)@[g as int].counter + 1) as usize,
                ..old(groups)@[g as int]
            },
        ),
        *final(masks) == combo::mask_count(final(groups)@),
{
    let ghost before = groups@;
    groups[g].counter += 1;
    proof {
        assert(groups.len() == before.len());
        lemma_mask_step(before, groups@, g);
    }
    if groups[g].mask && groups[g].is_active() && !groups[g].is_shadowed() {
        *masks += 1;
    }
}

/// One key of a group less is down.
pub(super) fn discount_member(groups: &mut Vec<Group>, masks: &mut usize, g: usize)
    requires
        g < old(groups)@.len(),
        0 < old(groups)@[g as int].counter <= old(groups)@[g as int].size,
        *old(masks) == combo::mask_count(old(groups)@),
    ensures
        final(groups)@ == old(groups)@.update(
            g as int,
            Group {
                counter: (old(groups)@[g as int].counter - 1) as usize,
                ..old(groups)@[g as int]
            },
        ),
        *final(masks) == combo::mask_count(final(groups)@),
{
    let ghost before = groups@;
    let counted = groups[g].mask && groups[g].is_active() && !groups[g].is_shadowed();
    groups[g].counter -= 1;
    proof {
        assert(groups.len() == before.len());
        lemma_mask_step(before, groups@, g);
    }
    if counted {
        *masks -= 1;
    }
}

/// One more neighbouring supergroup of a group is active.
pub(super) fn shadow(groups: &mut Vec<Group>, masks: &mut usize, g: usize)
    requires
        g < old(groups)@.len(),
        old(groups)@[g as int].active_greater < usize::MAX,
        *old(masks) == combo::mask_count(old(groups)@),
    ensures
        final(groups)@ == old(groups)@.update(
            g as int,
            Group {
                active_greater: (old(groups)@[g as int].active_greater + 1) as usize,
                ..old(groups)@[g as int]
            },
        ),
        *final(masks) == combo::mask_count(final(groups)@),
{
    let ghost before = groups@;
    let counted = groups[g].mask && groups[g].size > 0 && groups[g].is_active()
        && !groups[g].is_shadowed();
    groups[g].active_greater += 1;
    proof {
        assert(groups.len() == before.len());
        lemma_mask_step(before, groups@, g);
    }
    if counted {
        *masks -= 1;
    }
}

/// One neighbouring supergroup of a group less is active.
pub(super) fn unshadow(groups: &mut Vec<Group>, masks: &mut usize, g: usize)
    requires
        g < old(groups)@.len(),
        old(groups)@[g as int].active_greater > 0,
        *old(masks) == combo::mask_count(old(groups)@),
    ensures
        final(groups)@ == old(groups)@.update(
            g as int,
            Group {
                active_greater: (old(groups)@[g as int].active_greater - 1) as usize,
                ..old(groups)@[g as int]
            },
        ),
        *final(masks) == combo::mask_count(final(groups)@),
{
    let ghost before = groups@;
    groups[g].active_greater -= 1;
    proof {
        assert(groups.len() == before.len());
        lemma_mask_step(before, groups@, g);
    }
    if groups[g].mask && groups[g].size > 0 && groups[g].is_active() && !groups[g].is_shadowed() {
        *masks += 1;
    }
}

/// What the end of a key's combo emits.
pub(super) open spec fn key_closing<Z: Keycode>(key: Key<Z>, keys_combos: Seq<Combo<Z>>) -> Seq<Event<Z>> {
    match key.active_combo {
        Some(c) => match key.combos.of(keys_combos)[c as int].action {
            Some(action) if !key.spec_is_modifier() || key.immediate => seq![
                Event { keycode: action, kind: Kind::Up, value: 0 },
            ],
            _ => Seq::empty(),
        },
        None => Seq::empty(),
    }
}

/// What the end of the combos of several keys emits.
pub(super) open spec fn key_closings<Z: Keycode>(
    keys: Seq<Key<Z>>,
    keys_combos: Seq<Combo<Z>>,
    ended: Seq<usize>,
) -> Seq<Event<Z>>
    decreases ended.len(),
{
    if ended.len() == 0 {
        Seq::empty()
    } else {
        key_closings(keys, keys_combos, ended.drop_last()) + key_closing(
            keys[ended.last() as int],
            keys_combos,
        )
    }
}

/// The range of combos of the key is in order, and so is its active combo.
pub(super) open spec fn combos_in_order<Z: Keycode>(key: Key<Z>, keys_combos: Seq<Combo<Z>>) -> bool {
    &&& key.combos.valid()
    &&& key.combos.first() >= 0
    &&& key.combos.past() <= keys_combos.len()
    &&& key.active_combo is Some ==> key.active_combo->0 < key.combos.past() - key.combos.first()
}

/// Ends the combos of a group. Returns the keys whose combos end, in the order of their events.
pub(super) fn close_active_combos<Z: Keycode, Q: Queue<Event<Z>>>(
    groups: &mut Vec<Group>,
    g: usize,
    keys: &mut Vec<Key<Z>>,
    keys_combos: &Vec<Combo<Z>>,
    events: &mut Q,
) -> (ended: Ghost<Seq<usize>>)
    requires
        g < old(groups)@.len(),
        forall|k: usize| #[trigger]
            sets::set_contents(old(groups)@[g as int].active_combos).contains(k) ==> k
                < old(keys)@.len(),
        forall|k: int|
            0 <= k < old(keys)@.len() ==> combos_in_order(
                #[trigger] old(keys)@[k],
                keys_combos@,
            ),
    ensures
        model::lists(ended@, sets::set_contents(old(groups)@[g as int].active_combos)),
        final(groups)@ == old(groups)@.update(
            g as int,
            Group {
                active_combos: final(groups)@[g as int].active_combos,
                ..old(groups)@[g as int]
            },
        ),
        sets::set_contents(final(groups)@[g as int].active_combos) == Set::<usize>::empty(),
        final(keys)@.len() == old(keys)@.len(),
        forall|k: int|
            0 <= k < old(keys)@.len() ==> #[trigger] final(keys)@[k] == (Key {
                open: old(keys)@[k].open && !ended@.contains(k as usize),
                ..old(keys)@[k]
            }),
        final(events).pending() == old(events).pending() + key_closings(
            old(keys)@,
            keys_combos@,
            ended@,
        ),
{
    let ghost before = keys@;
    let ghost queued = events.pending();
    let drained = sets::compact_set_drain(&mut groups[g].active_combos);
    let mut i: usize = 0;
    proof {
        assert(drained@.take(0) =~= Seq::<usize>::empty());
        assert(queued + Seq::<Event<Z>>::empty() =~= queued);
        assert forall|k: int| 0 <= k < drained@.len() implies #[trigger] drained@[k]
            < keys@.len() by {
            assert(drained@.to_set().contains(drained@[k]));
        }
    }
    while i < drained.len()
        invariant
            i <= drained@.len(),
            keys@.len() == before.len(),
            forall|k: int| 0 <= k < drained@.len() ==> #[trigger] drained@[k] < keys@.len(),
            forall|k: int|
                0 <= k < before.len() ==> combos_in_order(#[trigger] before[k], keys_combos@),
            forall|k: int|
                0 <= k < before.len() ==> #[trigger] keys@[k] == (Key {
                    open: before[k].open && !drained@.take(i as int).contains(k as usize),
                    ..before[k]
                }),
            events.pending() == queued + key_closings(
                before,
                keys_combos@,
                drained@.take(i as int),
            ),
        decreases drained@.len() - i,
    {
        let key = drained[i];
        let ghost mid = keys@;
        let ghost part = drained@.take(i as int);
        let ghost more = drained@.take(i + 1);
        proof {
            assert(keys.len() == before.len());
            assert(more.drop_last() =~= part);
            assert(more.last() == key);
            assert(more =~= part.push(key));
            assert(combos_in_order(before[key as int], keys_combos@));
        }
        // terminate the actions that the group modified
        keys[key].close();
        if keys[key].is_immediate() {
            // modifiers that wait for key-up did not produce a key-down
            if let Some(combo) = keys[key].active_combo {
                let combo = keys[key].get_combo(combo, keys_combos.as_slice());
                if let Some(action) = combo.action {
                    events.push(Event { keycode: action, kind: Kind::Up, value: 0 });
                }
            }
        }
        proof {
            assert(events.pending() =~= queued + key_closings(before, keys_combos@, more));
            assert forall|k: int| 0 <= k < before.len() implies #[trigger] keys@[k] == (Key {
                open: before[k].open && !more.contains(k as usize),
                ..before[k]
            }) by {
                assert(mid[k] == (Key {
                    open: before[k].open && !part.contains(k as usize),
                    ..before[k]
                }));
                if part.contains(k as usize) {
                    let at = choose|at: int| 0 <= at < part.len() && part[at] == k as usize;
                    assert(more[at] == k as usize);
                }
                if k == key {
                    assert(more[i as int] == k as usize);
                }
                if more.contains(k as usize) && k != key {
                    let at = choose|at: int| 0 <= at < more.len() && more[at] == k as usize;
                    assert(part[at] == k as usize);
                }
            }
        }
        i += 1;
    }
    proof {
        assert(drained@.take(i as int) =~= drained@);
    }
    Ghost(drained@)
}

/// What happens to the number of masking groups when one group changes.
pub(super) proof fn lemma_mask_step(before: Seq<Group>, after: Seq<Group>, g: usize)
    requires
        before.len() <= usize::MAX,
        g < before.len(),
        after == before.update(g as int, after[g as int]),
    ensures
        combo::mask_count(after) == combo::mask_count(before) + (if combo::is_mask(after[g as int]) {
            1int
        } else {
            0
        }) - (if combo::is_mask(before[g as int]) {
            1int
        } else {
            0
        }),
        combo::mask_count(after) <= after.len(),
{
    let p = |i: usize| combo::is_mask(before[i as int]);
    let q = |i: usize| combo::is_mask(after[i as int]);
    assert forall|i: usize| i < before.len() && i != g implies #[trigger] p(i) == q(i) by {}
    if p(g) && !q(g) {
        lists::lemma_tally_more(before.len(), q, p, g);
    } else if !p(g) && q(g) {
        lists::lemma_tally_more(before.len(), p, q, g);
    } else {
        lists::lemma_ascending_same(before.len(), p, q);
    }
    lists::lemma_tally_positive(after.len(), q);
}

} // verus!

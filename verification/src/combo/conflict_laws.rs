//! Which combo a key stands for and what is muted, told by the sets of keys alone.
use crate::combo::group_laws;
use crate::combo::model::Layout;
use crate::types::Keycode;
use vstd::prelude::*;

verus! {

/// The group has keys, and all of them are among the keys `down`.
pub open spec fn is_pressed<Z: Keycode>(layout: Layout<Z>, g: usize, down: Set<usize>) -> bool {
    &&& g < layout.members.len()
    &&& layout.members[g as int] != Set::<usize>::empty()
    &&& layout.members[g as int].subset_of(down)
}

/// The group gives way to a group that has all of its keys and more, and is pressed. Of several
/// groups with the same keys only the first does.
pub open spec fn gives_way<Z: Keycode>(layout: Layout<Z>, g: usize, down: Set<usize>) -> bool {
    &&& forall|h: usize| h < g ==> #[trigger] layout.members[h as int] != layout.members[g as int]
    &&& exists|b: usize| #[trigger]
        is_pressed(layout, b, down) && layout.members[g as int].subset_of(layout.members[b as int])
            && layout.members[g as int] != layout.members[b as int]
}

/// The group `b` has all keys of the group `a` and more, and no group is between the two.
pub open spec fn is_next<Z: Keycode>(layout: Layout<Z>, a: usize, b: usize) -> bool {
    let (x, y) = (layout.members[a as int], layout.members[b as int]);
    &&& x.subset_of(y)
    &&& x != y
    &&& forall|c: usize|
        c < layout.members.len() ==> {
            let z = #[trigger] layout.members[c as int];
            !(x.subset_of(z) && x != z && z.subset_of(y) && z != y)
        }
}

/// The key stands for the combo: the combo's group is pressed. Each group that is pressed has no
/// key in common with it, or has no key but its, or has all of its keys and the combo's group does
/// not give way. It is the first of the key's combos whose group is pressed, and each other such
/// group is the same one, or has fewer keys and only keys of it.
pub open spec fn stands<Z: Keycode>(
    layout: Layout<Z>,
    key: usize,
    combo: usize,
    down: Set<usize>,
) -> bool {
    let combos = layout.combos[key as int];
    let group = combos[combo as int].group;
    let keys = layout.members[group as int];
    &&& combo < combos.len()
    &&& is_pressed(layout, group, down)
    &&& forall|b: usize| #[trigger]
        is_pressed(layout, b, down) ==> layout.members[b as int].disjoint(keys)
            || layout.members[b as int].subset_of(keys) || keys.subset_of(layout.members[b as int])
            && !gives_way(layout, group, down)
    &&& forall|d: usize|
        #![trigger combos[d as int]]
        d < combos.len() && d != combo && is_pressed(layout, combos[d as int].group, down) ==> d
            > combo && (combos[d as int].group == group
            || layout.members[combos[d as int].group as int].subset_of(keys)
            && layout.members[combos[d as int].group as int] != keys)
}

/// Some masking group is pressed and does not give way.
pub open spec fn is_muted<Z: Keycode>(layout: Layout<Z>, down: Set<usize>) -> bool {
    exists|g: usize| #[trigger]
        is_pressed(layout, g, down) && layout.masking[g as int] && !gives_way(layout, g, down)
}

/// The key says this, if it says anything while the keys `down` are down: the action of the combo
/// that it stands for, or its own action if it stands for none and nothing mutes it.
pub open spec fn is_meant<Z: Keycode>(
    layout: Layout<Z>,
    key: usize,
    down: Set<usize>,
    said: Option<Z>,
) -> bool {
    ||| exists|c: usize| #[trigger]
        stands(layout, key, c, down) && said == layout.combos[key as int][c as int].action
    ||| (forall|c: usize| !#[trigger] stands(layout, key, c, down)) && said == if is_muted(
        layout,
        down,
    ) {
        None
    } else {
        layout.actions[key as int]
    }
}

/// A group is down exactly if it is pressed.
pub(super) proof fn lemma_pressed<Z: Keycode>(layout: Layout<Z>, g: usize, down: Set<usize>)
    requires
        layout.valid(),
    ensures
        layout.full(g, down) == is_pressed(layout, g, down),
{
    if g < layout.members.len() {
        let members = layout.members[g as int];
        assert(members.finite());
        if members.len() == 0 {
            assert(members =~= Set::<usize>::empty());
        }
    }
}

/// The groups are within one another, or overlap, as their sets of keys do: whichever of the two
/// comes first, they overlap exactly if they have a key in common and each has one that the other
/// one has not.
pub proof fn overlap_is_symmetric<Z: Keycode>(layout: Layout<Z>, a: usize, b: usize)
    requires
        layout.valid(),
        a < layout.members.len(),
        b < layout.members.len(),
    ensures
        layout.crosses(a, b) == layout.crosses(b, a),
        layout.crosses(a, b) <==> {
            &&& exists|k: usize| #[trigger]
                layout.members[a as int].contains(k) && layout.members[b as int].contains(k)
            &&& exists|k: usize| #[trigger]
                layout.members[a as int].contains(k) && !layout.members[b as int].contains(k)
            &&& exists|k: usize| #[trigger]
                layout.members[b as int].contains(k) && !layout.members[a as int].contains(k)
        },
        layout.inside(a, b) <==> {
            &&& exists|k: usize| #[trigger]
                layout.members[a as int].contains(k) && layout.members[b as int].contains(k)
            &&& forall|k: usize| #[trigger]
                layout.members[a as int].contains(k) ==> layout.members[b as int].contains(k)
            &&& exists|k: usize| #[trigger]
                layout.members[b as int].contains(k) && !layout.members[a as int].contains(k)
        },
{
    let (x, y) = (layout.members[a as int], layout.members[b as int]);
    assert(x.disjoint(y) <==> forall|k: usize| !(#[trigger] x.contains(k) && y.contains(k)));
    assert(x.disjoint(y) == y.disjoint(x));
}

/// A group has been replaced exactly if it gives way.
pub(super) proof fn lemma_gives_way<Z: Keycode>(layout: Layout<Z>, g: usize, down: Set<usize>)
    requires
        layout.valid(),
        g < layout.members.len(),
        layout.members[g as int] != Set::<usize>::empty(),
    ensures
        layout.shadowed(g, down) == gives_way(layout, g, down),
{
    let members = layout.members[g as int];
    assert(exists|k: usize| members.contains(k)) by {
        if forall|k: usize| !members.contains(k) {
            assert(members =~= Set::<usize>::empty());
        }
    }
    if layout.is_first(g) {
        group_laws::replaced_by_any_larger_group(layout, g, down);
        assert forall|b: usize| (#[trigger] layout.inside(g, b) && layout.full(b, down)) == (
        is_pressed(layout, b, down) && members.subset_of(layout.members[b as int]) && members
            != layout.members[b as int]) by {
            lemma_pressed(layout, b, down);
            if is_pressed(layout, b, down) && members.subset_of(layout.members[b as int]) {
                let k = choose|k: usize| members.contains(k);
                assert(layout.members[b as int].contains(k));
                if layout.members[b as int].subset_of(members) {
                    assert(members =~= layout.members[b as int]);
                }
            }
        }
        if gives_way(layout, g, down) {
            let b = choose|b: usize| #[trigger]
                is_pressed(layout, b, down) && members.subset_of(layout.members[b as int])
                    && members != layout.members[b as int];
            assert(layout.inside(g, b) && layout.full(b, down));
        }
    } else if layout.shadowed(g, down) {
        let b = choose|b: usize| #[trigger] layout.below(g, b) && layout.full(b, down);
    }
}

/// A combo of the key wins exactly if the key stands for it. So groups that are pressed stop it only
/// if they overlap with its group or have all of its keys and more, or are those of other combos of
/// the key. Groups that have no key in common with it do not matter.
pub proof fn combo_wins_without_conflict<Z: Keycode>(
    layout: Layout<Z>,
    key: usize,
    combo: usize,
    down: Set<usize>,
)
    requires
        layout.valid(),
        key < layout.codes.len(),
    ensures
        layout.winner(key, down) == Some(combo) <==> stands(layout, key, combo, down),
{
    assert forall|c: usize| #[trigger] layout.wins(key, c, down) == stands(
        layout,
        key,
        c,
        down,
    ) by {
        lemma_wins(layout, key, c, down);
    }
    if layout.wins(key, combo, down) {
        let w = layout.winner(key, down)->0;
        group_laws::winner_is_unique(layout, key, combo, w, down);
    }
}

/// A combo wins exactly if the key stands for it.
proof fn lemma_wins<Z: Keycode>(layout: Layout<Z>, key: usize, c: usize, down: Set<usize>)
    requires
        layout.valid(),
        key < layout.codes.len(),
    ensures
        layout.wins(key, c, down) == stands(layout, key, c, down),
{
    let combos = layout.combos[key as int];
    let group = combos[c as int].group;
    assert(group == layout.group_at(key, c));
    if c < combos.len() {
        assert(layout.group_at(key, c) < layout.members.len());
        let keys = layout.members[group as int];
        lemma_pressed(layout, group, down);
        if is_pressed(layout, group, down) {
            lemma_gives_way(layout, group, down);
            assert forall|b: usize| is_pressed(layout, b, down) implies (#[trigger] layout.crosses(
                group,
                b,
            )) == !(layout.members[b as int].disjoint(keys) || layout.members[b as int].subset_of(
                keys,
            ) || keys.subset_of(layout.members[b as int])) by {}
            assert forall|b: usize| #[trigger] layout.full(b, down) == is_pressed(
                layout,
                b,
                down,
            ) by {
                lemma_pressed(layout, b, down);
            }
            assert forall|a: usize| #[trigger] is_pressed(layout, a, down) implies layout.inside(
                a,
                group,
            ) == (layout.members[a as int].subset_of(keys) && layout.members[a as int] != keys) by {
                lemma_inside(layout, a, group);
            }
            if layout.wins(key, c, down) {
                assert forall|b: usize| #[trigger] is_pressed(
                    layout,
                    b,
                    down,
                ) implies layout.members[b as int].disjoint(keys)
                    || layout.members[b as int].subset_of(keys) || keys.subset_of(
                    layout.members[b as int],
                ) && !gives_way(layout, group, down) by {
                    assert(layout.full(b, down));
                    assert(!layout.crosses(group, b));
                }
                assert forall|d: usize|
                    #![trigger combos[d as int]]
                    d < combos.len() && d != c && is_pressed(
                        layout,
                        combos[d as int].group,
                        down,
                    ) implies d > c && (combos[d as int].group == group
                    || layout.members[combos[d as int].group as int].subset_of(keys)
                    && layout.members[combos[d as int].group as int] != keys) by {
                    assert(layout.group_at(key, d) == combos[d as int].group);
                    assert(layout.full(layout.group_at(key, d), down));
                }
            }
            if stands(layout, key, c, down) {
                assert(!layout.shadowed(group, down)) by {
                    if gives_way(layout, group, down) {
                        let b = choose|b: usize| #[trigger]
                            is_pressed(layout, b, down) && keys.subset_of(layout.members[b as int])
                                && keys != layout.members[b as int];
                        lemma_inside(layout, group, b);
                        if layout.members[b as int].subset_of(keys) {
                            assert(keys =~= layout.members[b as int]);
                        }
                    }
                }
                assert forall|other: usize| #[trigger]
                    layout.crosses(group, other) implies !layout.full(other, down) by {
                    if layout.full(other, down) {
                        assert(is_pressed(layout, other, down));
                    }
                }
                assert forall|other: usize| other < c implies !layout.full(
                    #[trigger] layout.group_at(key, other),
                    down,
                ) by {
                    assert(combos[other as int].group == layout.group_at(key, other));
                }
                assert forall|other: usize|
                    other < combos.len() && layout.full(
                        #[trigger] layout.group_at(key, other),
                        down,
                    ) implies layout.group_at(key, other) == group || layout.inside(
                    layout.group_at(key, other),
                    group,
                ) by {
                    assert(combos[other as int].group == layout.group_at(key, other));
                    assert(is_pressed(layout, layout.group_at(key, other), down));
                }
                assert(layout.wins(key, c, down));
            }
        }
    }
}

/// A group with keys is within another one exactly if the other one has all of its keys and more.
pub(super) proof fn lemma_inside<Z: Keycode>(layout: Layout<Z>, a: usize, b: usize)
    requires
        a < layout.members.len(),
        b < layout.members.len(),
        layout.members[a as int] != Set::<usize>::empty(),
    ensures
        layout.inside(a, b) == (layout.members[a as int].subset_of(layout.members[b as int])
            && layout.members[a as int] != layout.members[b as int]),
{
    let (x, y) = (layout.members[a as int], layout.members[b as int]);
    assert(exists|k: usize| x.contains(k)) by {
        if forall|k: usize| !x.contains(k) {
            assert(x =~= Set::<usize>::empty());
        }
    }
    if x.subset_of(y) {
        let k = choose|k: usize| x.contains(k);
        assert(y.contains(k));
        if y.subset_of(x) {
            assert(x =~= y);
        }
    }
}

/// A neighbouring subgroup is next to its group.
pub(super) proof fn lemma_next<Z: Keycode>(layout: Layout<Z>, a: usize, b: usize)
    requires
        layout.valid(),
        a < layout.members.len(),
        b < layout.members.len(),
        layout.members[a as int] != Set::<usize>::empty(),
    ensures
        layout.below(a, b) <==> is_next(layout, a, b) && forall|h: usize|
            h < a ==> #[trigger] layout.members[h as int] != layout.members[a as int],
{
    let (x, y) = (layout.members[a as int], layout.members[b as int]);
    assert forall|c: usize| c < layout.members.len() implies (#[trigger] layout.inside(a, c)) == (
    x.subset_of(layout.members[c as int]) && x != layout.members[c as int]) by {
        lemma_inside(layout, a, c);
    }
    assert forall|c: usize|
        c < layout.members.len() && x.subset_of(layout.members[c as int]) implies (
    #[trigger] layout.inside(c, b)) == (layout.members[c as int].subset_of(y)
        && layout.members[c as int] != y) by {
        assert(layout.members[c as int] != Set::<usize>::empty()) by {
            if layout.members[c as int] == Set::<usize>::empty() {
                assert(x =~= Set::<usize>::empty());
            }
        }
        lemma_inside(layout, c, b);
    }
    if layout.below(a, b) {
        assert(layout.inside(a, b));
        assert forall|c: usize| c < layout.members.len() implies ({
            let z = #[trigger] layout.members[c as int];
            !(x.subset_of(z) && x != z && z.subset_of(y) && z != y)
        }) by {
            assert(!(layout.inside(a, c) && layout.inside(c, b)));
        }
    }
    if is_next(layout, a, b) {
        assert(layout.inside(a, b));
        assert forall|c: usize| !(#[trigger] layout.inside(a, c) && layout.inside(c, b)) by {
            if c < layout.members.len() {
                let z = layout.members[c as int];
                assert(!(x.subset_of(z) && x != z && z.subset_of(y) && z != y));
            }
        }
    }
}

/// Masking takes place exactly if some masking group is pressed and does not give way to a group
/// that has all of its keys and more.
pub proof fn masking_takes_a_pressed_group<Z: Keycode>(layout: Layout<Z>, down: Set<usize>)
    requires
        layout.valid(),
    ensures
        layout.masked(down) == is_muted(layout, down),
{
    assert forall|g: usize| #[trigger] layout.in_force(g, down) == (is_pressed(layout, g, down)
        && !gives_way(layout, g, down)) by {
        lemma_pressed(layout, g, down);
        if is_pressed(layout, g, down) {
            lemma_gives_way(layout, g, down);
        }
    }
    if is_muted(layout, down) {
        let g = choose|g: usize| #[trigger]
            is_pressed(layout, g, down) && layout.masking[g as int] && !gives_way(layout, g, down);
        assert(layout.in_force(g, down) && layout.masking[g as int]);
    }
    if layout.masked(down) {
        let g = choose|g: usize| #[trigger] layout.in_force(g, down) && layout.masking[g as int];
        assert(is_pressed(layout, g, down));
    }
}

/// What a key says is what it is meant to say.
pub proof fn spoken_is_meant<Z: Keycode>(layout: Layout<Z>, key: usize, down: Set<usize>)
    requires
        layout.valid(),
        key < layout.codes.len(),
    ensures
        forall|said: Option<Z>| #[trigger]
            is_meant(layout, key, down, said) <==> said == layout.spoken(key, down),
{
    masking_takes_a_pressed_group(layout, down);
    assert forall|c: usize| #[trigger] stands(layout, key, c, down) == (layout.winner(key, down)
        == Some(c)) by {
        combo_wins_without_conflict(layout, key, c, down);
    }
    if layout.winner(key, down) is Some {
        assert(stands(layout, key, layout.winner(key, down)->0, down));
    }
}

/// Different groups can be used independently at the same time: more keys do not matter to the
/// combo that a key stands for, as long as the groups that they press have no key in common with
/// the combo's group, and no combo of the key is one with such a group.
pub proof fn disjoint_groups_do_not_matter<Z: Keycode>(
    layout: Layout<Z>,
    key: usize,
    combo: usize,
    down: Set<usize>,
    more: Set<usize>,
)
    requires
        layout.valid(),
        key < layout.codes.len(),
        layout.winner(key, down) == Some(combo),
        down.subset_of(more),
        forall|b: usize| #[trigger]
            is_pressed(layout, b, more) && !is_pressed(layout, b, down) ==> {
                &&& layout.members[b as int].disjoint(
                    layout.members[layout.combos[key as int][combo as int].group as int],
                )
                &&& forall|c: usize|
                    c < layout.combos[key as int].len()
                        ==> (#[trigger] layout.combos[key as int][c as int]).group != b
            },
    ensures
        layout.winner(key, more) == Some(combo),
{
    combo_wins_without_conflict(layout, key, combo, down);
    let combos = layout.combos[key as int];
    let group = combos[combo as int].group;
    let keys = layout.members[group as int];
    assert forall|b: usize| #[trigger] is_pressed(layout, b, down) implies is_pressed(
        layout,
        b,
        more,
    ) by {
        assert(layout.members[b as int].subset_of(more));
    }
    assert forall|b: usize| #[trigger]
        is_pressed(layout, b, more) && keys.subset_of(layout.members[b as int]) implies is_pressed(
        layout,
        b,
        down,
    ) by {
        if !is_pressed(layout, b, down) {
            assert(keys =~= Set::<usize>::empty()) by {
                assert forall|k: usize| !keys.contains(k) by {
                    if keys.contains(k) {
                        assert(layout.members[b as int].contains(k));
                    }
                }
            }
        }
    }
    assert(gives_way(layout, group, more) ==> gives_way(layout, group, down));
    assert(stands(layout, key, combo, more));
    combo_wins_without_conflict(layout, key, combo, more);
}

/// Two groups that have a key in common, and of which neither has all keys of the other one, block
/// each other while both are pressed, whichever is declared first: no key stands for a combo of
/// either.
pub proof fn overlapping_groups_block_each_other<Z: Keycode>(
    layout: Layout<Z>,
    key: usize,
    a: usize,
    b: usize,
    down: Set<usize>,
)
    requires
        layout.valid(),
        key < layout.codes.len(),
        is_pressed(layout, a, down),
        is_pressed(layout, b, down),
        !layout.members[a as int].disjoint(layout.members[b as int]),
        !layout.members[a as int].subset_of(layout.members[b as int]),
        !layout.members[b as int].subset_of(layout.members[a as int]),
    ensures
        match layout.winner(key, down) {
            Some(combo) => layout.combos[key as int][combo as int].group != a
                && layout.combos[key as int][combo as int].group != b,
            None => true,
        },
{
    if layout.winner(key, down) is Some {
        let c = layout.winner(key, down)->0;
        combo_wins_without_conflict(layout, key, c, down);
        assert(layout.members[b as int].disjoint(layout.members[a as int])
            ==> layout.members[a as int].disjoint(layout.members[b as int]));
    }
}

} // verus!

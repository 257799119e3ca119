//! How the groups of a configuration relate.
use crate::combo::model::Layout;
use crate::combo::{lists, model};
use crate::types::Keycode;
use vstd::prelude::*;

verus! {

/// Tells whether the list has the element.
pub(super) fn contains(list: &Vec<usize>, element: usize) -> (found: bool)
    ensures
        found == list@.contains(element),
{
    let mut i: usize = 0;
    while i < list.len()
        invariant
            i <= list@.len(),
            forall|j: int| 0 <= j < i ==> list@[j] != element,
        decreases list@.len() - i,
    {
        if list[i] == element {
            return true;
        }
        i += 1;
    }
    false
}

/// Tells whether all elements of a list are in another one.
fn is_subset(a: &Vec<usize>, b: &Vec<usize>) -> (subset: bool)
    ensures
        subset == a@.to_set().subset_of(b@.to_set()),
{
    let mut i: usize = 0;
    while i < a.len()
        invariant
            i <= a@.len(),
            forall|j: int| 0 <= j < i ==> b@.contains(#[trigger] a@[j]),
        decreases a@.len() - i,
    {
        if !contains(b, a[i]) {
            proof {
                assert(a@.to_set().contains(a@[i as int]));
            }
            return false;
        }
        i += 1;
    }
    true
}

/// Tells whether two lists have no element in common.
fn is_disjoint(a: &Vec<usize>, b: &Vec<usize>) -> (disjoint: bool)
    ensures
        disjoint == a@.to_set().disjoint(b@.to_set()),
{
    let mut i: usize = 0;
    while i < a.len()
        invariant
            i <= a@.len(),
            forall|j: int| 0 <= j < i ==> !b@.contains(#[trigger] a@[j]),
        decreases a@.len() - i,
    {
        if contains(b, a[i]) {
            proof {
                assert(a@.to_set().contains(a@[i as int]));
                assert(b@.to_set().contains(a@[i as int]));
            }
            return false;
        }
        i += 1;
    }
    true
}

/// The lists of keys are those of the layout's groups.
pub(super) open spec fn keys_of<Z: Keycode>(layout: Layout<Z>, groups: Seq<Vec<usize>>) -> bool {
    &&& groups.len() == layout.members.len()
    &&& forall|g: int|
        #![trigger groups[g]]
        0 <= g < groups.len() ==> groups[g]@.to_set() == layout.members[g]
}

/// Lists the supergroups of a group.
pub(super) fn supergroups<Z: Keycode>(
    groups: &Vec<Vec<usize>>,
    a: usize,
    Ghost(layout): Ghost<Layout<Z>>,
) -> (above: Vec<usize>)
    requires
        keys_of(layout, groups@),
        a < groups@.len(),
    ensures
        above@ == model::ascending(groups@.len(), |b: usize| layout.inside(a, b)),
{
    let mut above: Vec<usize> = Vec::new();
    let mut b: usize = 0;
    while b < groups.len()
        invariant
            keys_of(layout, groups@),
            a < groups@.len(),
            b <= groups@.len(),
            above@ == model::ascending(b as nat, |b: usize| layout.inside(a, b)),
        decreases groups@.len() - b,
    {
        proof {
            assert(groups@[a as int]@.to_set() == layout.members[a as int]);
            assert(groups@[b as int]@.to_set() == layout.members[b as int]);
        }
        if !is_disjoint(&groups[a], &groups[b]) && !is_subset(&groups[b], &groups[a]) && is_subset(
            &groups[a],
            &groups[b],
        ) {
            above.push(b);
        }
        b += 1;
    }
    above
}

/// Lists the groups that overlap with a group, where neither is within the other.
pub(super) fn intersectors<Z: Keycode>(
    groups: &Vec<Vec<usize>>,
    a: usize,
    Ghost(layout): Ghost<Layout<Z>>,
) -> (across: Vec<usize>)
    requires
        keys_of(layout, groups@),
        a < groups@.len(),
    ensures
        across@ == model::ascending(groups@.len(), |h: usize| layout.crosses(a, h)),
{
    let mut across: Vec<usize> = Vec::new();
    let mut b: usize = 0;
    while b < groups.len()
        invariant
            keys_of(layout, groups@),
            a < groups@.len(),
            b <= groups@.len(),
            across@ == model::ascending(b as nat, |h: usize| layout.crosses(a, h)),
        decreases groups@.len() - b,
    {
        proof {
            assert(groups@[a as int]@.to_set() == layout.members[a as int]);
            assert(groups@[b as int]@.to_set() == layout.members[b as int]);
        }
        if !is_disjoint(&groups[a], &groups[b]) && !is_subset(&groups[b], &groups[a]) && !is_subset(
            &groups[a],
            &groups[b],
        ) {
            across.push(b);
        }
        b += 1;
    }
    across
}

/// As far as the groups before `bound` are concerned, `x` is a neighbouring subgroup of `b`.
spec fn below_so_far<Z: Keycode>(
    layout: Layout<Z>,
    b: usize,
    bound: usize,
) -> spec_fn(usize) -> bool {
    |x: usize|
        {
            &&& layout.inside(x, b)
            &&& forall|c: usize|
                c < bound ==> !(#[trigger] layout.inside(x, c) && layout.inside(c, b))
            &&& forall|c: usize|
                c < x ==> #[trigger] layout.members[c as int] != layout.members[x as int]
        }
}

/// A subgroup among the first ones is within one that counts as a neighbour so far.
proof fn lemma_covered<Z: Keycode>(layout: Layout<Z>, b: usize, bound: usize, c: usize) -> (x:
    usize)
    requires
        layout.members[b as int].finite(),
        bound <= layout.members.len(),
        c < bound,
        layout.inside(c, b),
    ensures
        x < bound,
        below_so_far(layout, b, bound)(x),
        layout.members[c as int].subset_of(layout.members[x as int]),
    decreases layout.members[b as int].len() - layout.members[c as int].len(),
{
    let members = layout.members;
    if exists|d: usize| d < bound && #[trigger] layout.inside(c, d) && layout.inside(d, b) {
        let d = choose|d: usize|
            d < bound && #[trigger] layout.inside(c, d) && layout.inside(d, b);
        lemma_smaller(members[c as int], members[d as int], members[b as int]);
        lemma_covered(layout, b, bound, d)
    } else {
        let x = lemma_first_twin(layout, c);
        assert(members[x as int] == members[c as int]);
        assert forall|d: usize| d < bound implies !(#[trigger] layout.inside(x, d)
            && layout.inside(d, b)) by {
            assert(layout.inside(x, d) == layout.inside(c, d));
        }
        x
    }
}

/// Sizes of nested sets.
proof fn lemma_smaller(c: Set<usize>, d: Set<usize>, b: Set<usize>)
    requires
        b.finite(),
        c.subset_of(d),
        !d.subset_of(c),
        d.subset_of(b),
    ensures
        c.len() < d.len() <= b.len(),
        d.finite(),
        c.finite(),
{
    vstd::set_lib::lemma_len_subset(d, b);
    vstd::set_lib::lemma_len_subset(c, d);
    if c.len() == d.len() {
        vstd::set_lib::lemma_subset_equality(c, d);
    }
}

/// The first group with the same keys.
proof fn lemma_first_twin<Z: Keycode>(layout: Layout<Z>, c: usize) -> (x: usize)
    requires
        c < layout.members.len(),
    ensures
        x <= c,
        layout.members[x as int] == layout.members[c as int],
        forall|d: usize|
            d < x ==> #[trigger] layout.members[d as int] != layout.members[x as int],
    decreases c,
{
    if exists|d: usize|
        d < c && #[trigger] layout.members[d as int] == layout.members[c as int] {
        let d = choose|d: usize|
            d < c && #[trigger] layout.members[d as int] == layout.members[c as int];
        lemma_first_twin(layout, d)
    } else {
        c
    }
}

/// Lists the neighbouring subgroups of a group.
pub(super) fn subgroups<Z: Keycode>(
    groups: &Vec<Vec<usize>>,
    b: usize,
    Ghost(layout): Ghost<Layout<Z>>,
) -> (below: Vec<usize>)
    requires
        keys_of(layout, groups@),
        b < groups@.len(),
    ensures
        below@ == layout.subgroups(b),
{
    let mut below: Vec<usize> = Vec::new();
    let mut a: usize = 0;
    proof {
        assert(groups.len() == groups@.len());
        vstd::seq_lib::seq_to_set_is_finite(groups@[b as int]@);
    }
    while a < groups.len()
        invariant
            keys_of(layout, groups@),
            groups@.len() <= usize::MAX,
            b < groups@.len(),
            layout.members[b as int].finite(),
            a <= groups@.len(),
            below@ == model::ascending(a as nat, below_so_far(layout, b, a)),
        decreases groups@.len() - a,
    {
        let ghost before = below_so_far(layout, b, a);
        let ghost after = below_so_far(layout, b, (a + 1) as usize);
        proof {
            lists::lemma_ascending(a as nat, before);
            assert(groups@[a as int]@.to_set() == layout.members[a as int]);
            assert(groups@[b as int]@.to_set() == layout.members[b as int]);
        }
        if !is_disjoint(&groups[a], &groups[b]) && !is_subset(&groups[b], &groups[a]) && is_subset(
            &groups[a],
            &groups[b],
        ) {
            assert(layout.inside(a, b));
            if !any_contains(groups, &below, a) {
                proof {
                    assert forall|c: usize| c < a implies !(#[trigger] layout.inside(a, c)
                        && layout.inside(c, b)) by {
                        if layout.inside(a, c) && layout.inside(c, b) {
                            let x = lemma_covered(layout, b, a, c);
                            assert(below@.contains(x));
                            assert(groups@[x as int]@.to_set() == layout.members[x as int]);
                            let i = choose|i: int| 0 <= i < below@.len() && below@[i] == x;
                            assert(layout.members[a as int].subset_of(layout.members[x as int]));
                            assert(groups@[a as int]@.to_set().subset_of(
                                groups@[below@[i] as int]@.to_set(),
                            ));
                        }
                    }
                    assert forall|c: usize| c < a implies #[trigger] layout.members[c as int]
                        != layout.members[a as int] by {
                        if layout.members[c as int] == layout.members[a as int] {
                            assert(layout.inside(c, b));
                            let x = lemma_covered(layout, b, a, c);
                            assert(below@.contains(x));
                            assert(groups@[x as int]@.to_set() == layout.members[x as int]);
                            let i = choose|i: int| 0 <= i < below@.len() && below@[i] == x;
                            assert(groups@[a as int]@.to_set().subset_of(
                                groups@[below@[i] as int]@.to_set(),
                            ));
                        }
                    }
                    assert(after(a));
                }
                let ghost old_below = below@;
                // drop what is within the group
                below = not_within(groups, &below, a);
                proof {
                    assert forall|x: usize| x < a implies #[trigger] after(x) == (before(x)
                        && !layout.members[x as int].subset_of(layout.members[a as int])) by {
                        assert(layout.members[x as int] != layout.members[a as int]);
                        if before(x) && layout.members[x as int].subset_of(
                            layout.members[a as int],
                        ) {
                            lemma_inside(layout, x, a, b);
                            assert(layout.inside(x, a) && layout.inside(a, b));
                        }
                        if before(x) && !layout.members[x as int].subset_of(
                            layout.members[a as int],
                        ) {
                            assert forall|c: usize| c < a + 1 implies !(#[trigger] layout.inside(
                                x,
                                c,
                            ) && layout.inside(c, b)) by {}
                        }
                        if after(x) {
                            assert forall|c: usize| c < a implies !(#[trigger] layout.inside(x, c)
                                && layout.inside(c, b)) by {}
                            assert(before(x));
                            if layout.members[x as int].subset_of(layout.members[a as int]) {
                                lemma_inside(layout, x, a, b);
                                assert(!(layout.inside(x, a) && layout.inside(a, b)));
                            }
                        }
                    }
                    assert forall|x: usize| #[trigger] below@.contains(x) <==> x < a && after(
                        x,
                    ) by {
                        assert(old_below.contains(x) <==> x < a && before(x));
                        if x < groups@.len() {
                            assert(groups@[x as int]@.to_set() == layout.members[x as int]);
                        }
                    }
                    lists::lemma_ascending_unique(a as nat, after, below@);
                }
                below.push(a);
            } else {
                proof {
                    let i = choose|i: int|
                        0 <= i < below@.len() && groups@[a as int]@.to_set().subset_of(
                            groups@[#[trigger] below@[i] as int]@.to_set(),
                        );
                    let x = below@[i];
                    assert(groups@[x as int]@.to_set() == layout.members[x as int]);
                    assert(before(x));
                    if layout.members[x as int] != layout.members[a as int] {
                        if layout.members[x as int].subset_of(layout.members[a as int]) {
                            assert(layout.members[x as int] =~= layout.members[a as int]);
                        }
                        lemma_inside(layout, a, x, b);
                        assert(layout.inside(a, x) && layout.inside(x, b));
                    }
                    assert(!after(a));
                    assert forall|y: usize| y < a implies #[trigger] before(y) == after(y) by {
                        if before(y) {
                            assert(!(layout.inside(y, x) && layout.inside(x, b)));
                            assert forall|c: usize| c < a + 1 implies !(#[trigger] layout.inside(
                                y,
                                c,
                            ) && layout.inside(c, b)) by {
                                if c == a && layout.inside(y, a) {
                                    lemma_inside_under(layout, y, a, x);
                                }
                            }
                        }
                        if after(y) {
                            assert forall|c: usize| c < a implies !(#[trigger] layout.inside(y, c)
                                && layout.inside(c, b)) by {}
                        }
                    }
                    lists::lemma_ascending_same(a as nat, before, after);
                }
            }
        } else {
            proof {
                assert(!layout.inside(a, b));
                assert(!after(a));
                assert forall|y: usize| y < a implies #[trigger] before(y) == after(y) by {
                    if before(y) {
                        assert forall|c: usize| c < a + 1 implies !(#[trigger] layout.inside(y, c)
                            && layout.inside(c, b)) by {}
                    }
                    if after(y) {
                        assert forall|c: usize| c < a implies !(#[trigger] layout.inside(y, c)
                            && layout.inside(c, b)) by {}
                    }
                }
                lists::lemma_ascending_same(a as nat, before, after);
            }
        }
        a += 1;
    }
    proof {
        let p = |a: usize| layout.below(a, b);
        let q = below_so_far(layout, b, a);
        assert forall|x: usize| x < a implies #[trigger] q(x) == p(x) by {
            if q(x) {
                assert forall|c: usize| !(#[trigger] layout.inside(x, c) && layout.inside(
                    c,
                    b,
                )) by {}
            }
        }
        lists::lemma_ascending_same(a as nat, q, p);
    }
    below
}

/// A smaller group within a group that is within a third one.
proof fn lemma_inside<Z: Keycode>(layout: Layout<Z>, x: usize, a: usize, b: usize)
    requires
        layout.inside(x, b),
        layout.inside(a, b),
        layout.members[x as int].subset_of(layout.members[a as int]),
        layout.members[x as int] != layout.members[a as int],
    ensures
        layout.inside(x, a),
{
    if layout.members[x as int].disjoint(layout.members[a as int]) {
        assert forall|k: usize| #[trigger] layout.members[x as int].contains(
            k,
        ) implies !layout.members[b as int].contains(k) by {
            assert(layout.members[a as int].contains(k));
        }
        assert(layout.members[x as int].disjoint(layout.members[b as int]));
    }
    if layout.members[a as int].subset_of(layout.members[x as int]) {
        assert(layout.members[x as int] =~= layout.members[a as int]);
    }
}

/// A group within a group that is within another one, or the same.
proof fn lemma_inside_under<Z: Keycode>(layout: Layout<Z>, y: usize, a: usize, x: usize)
    requires
        layout.inside(y, a),
        x < layout.members.len(),
        layout.members[a as int].subset_of(layout.members[x as int]),
    ensures
        layout.inside(y, x),
{
    if layout.members[y as int].disjoint(layout.members[x as int]) {
        assert forall|k: usize| #[trigger] layout.members[y as int].contains(
            k,
        ) implies !layout.members[a as int].contains(k) by {
            if layout.members[a as int].contains(k) {
                assert(layout.members[x as int].contains(k));
            }
        }
        assert(layout.members[y as int].disjoint(layout.members[a as int]));
    }
    if layout.members[x as int].subset_of(layout.members[y as int]) {
        assert(layout.members[a as int].subset_of(layout.members[y as int]));
    }
}

/// Tells whether one of the listed groups has all the keys of the group.
fn any_contains(groups: &Vec<Vec<usize>>, listed: &Vec<usize>, a: usize) -> (any: bool)
    requires
        a < groups@.len(),
        forall|i: int| 0 <= i < listed@.len() ==> #[trigger] listed@[i] < groups@.len(),
    ensures
        any == exists|i: int|
            0 <= i < listed@.len() && groups@[a as int]@.to_set().subset_of(
                groups@[#[trigger] listed@[i] as int]@.to_set(),
            ),
{
    let mut i: usize = 0;
    while i < listed.len()
        invariant
            a < groups@.len(),
            forall|i: int| 0 <= i < listed@.len() ==> #[trigger] listed@[i] < groups@.len(),
            i <= listed@.len(),
            forall|j: int|
                0 <= j < i ==> !groups@[a as int]@.to_set().subset_of(
                    groups@[#[trigger] listed@[j] as int]@.to_set(),
                ),
        decreases listed@.len() - i,
    {
        if is_subset(&groups[a], &groups[listed[i]]) {
            return true;
        }
        i += 1;
    }
    false
}

/// Lists those of the listed groups that are not within the group.
fn not_within(groups: &Vec<Vec<usize>>, listed: &Vec<usize>, a: usize) -> (kept: Vec<usize>)
    requires
        a < groups@.len(),
        forall|i: int| 0 <= i < listed@.len() ==> #[trigger] listed@[i] < groups@.len(),
        forall|i: int, j: int|
            0 <= i < j < listed@.len() ==> #[trigger] listed@[i] < #[trigger] listed@[j],
    ensures
        forall|i: int, j: int|
            0 <= i < j < kept@.len() ==> #[trigger] kept@[i] < #[trigger] kept@[j],
        forall|x: usize| #[trigger]
            kept@.contains(x) <==> listed@.contains(x) && !groups@[x as int]@.to_set().subset_of(
                groups@[a as int]@.to_set(),
            ),
{
    let mut kept: Vec<usize> = Vec::new();
    let mut i: usize = 0;
    while i < listed.len()
        invariant
            a < groups@.len(),
            forall|i: int| 0 <= i < listed@.len() ==> #[trigger] listed@[i] < groups@.len(),
            forall|i: int, j: int|
                0 <= i < j < listed@.len() ==> #[trigger] listed@[i] < #[trigger] listed@[j],
            i <= listed@.len(),
            forall|i: int, j: int|
                0 <= i < j < kept@.len() ==> #[trigger] kept@[i] < #[trigger] kept@[j],
            forall|j: int| 0 <= j < kept@.len() && i < listed@.len() ==> #[trigger] kept@[j]
                < listed@[i as int],
            forall|x: usize| #[trigger]
                kept@.contains(x) <==> listed@.take(i as int).contains(x)
                    && !groups@[x as int]@.to_set().subset_of(groups@[a as int]@.to_set()),
        decreases listed@.len() - i,
    {
        let ghost before = kept@;
        let x = listed[i];
        proof {
            assert(listed@.take(i + 1) =~= listed@.take(i as int).push(x));
        }
        if !is_subset(&groups[x], &groups[a]) {
            kept.push(x);
        }
        proof {
            if i + 1 < listed@.len() {
                assert(listed@[i as int] < listed@[i + 1]);
            }
            assert forall|y: usize| #[trigger] kept@.contains(y) <==> listed@.take(i + 1).contains(
                y,
            ) && !groups@[y as int]@.to_set().subset_of(groups@[a as int]@.to_set()) by {
                lists::lemma_push_contains(listed@.take(i as int), x, y);
                lists::lemma_push_contains(before, x, y);
            }
        }
        i += 1;
    }
    proof {
        assert(listed@.take(i as int) =~= listed@);
    }
    kept
}

} // verus!

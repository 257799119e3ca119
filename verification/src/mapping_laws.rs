//! What mapping the keycodes of a configuration keeps.
use crate::config;
use crate::config::{Action, Config};
use crate::types::ConfigValidationError;
use std::hash::Hash;
use vstd::prelude::*;
use vstd::std_specs::hash;

verus! {

/// The function maps equal values to equal values, and different values to different values.
pub open spec fn is_injective<A, B, F: FnMut(A) -> B>(f: F) -> bool {
    forall|a: A, b: A, x: B, y: B| #[trigger]
        call_ensures(f, (a,), x) && #[trigger] call_ensures(f, (b,), y) ==> (x == y <==> a == b)
}

/// What is in the image of a set.
proof fn lemma_image_contains<A, B, F: FnMut(A) -> B>(
    f: F,
    from: Set<A>,
    to: Set<B>,
    a: A,
    b: B,
)
    requires
        is_injective(f),
        config::maps_set(f, from, to),
        call_ensures(f, (a,), b),
    ensures
        to.contains(b) <==> from.contains(a),
{
    let (elements, images) = choose|elements: Seq<A>, images: Seq<B>| #[trigger]
        config::maps_seq(f, elements, images) && elements.no_duplicates() && elements.to_set()
            == from && images.to_set() == to;
    if from.contains(a) {
        assert(elements.to_set().contains(a));
        let i = choose|i: int| 0 <= i < elements.len() && elements[i] == a;
        assert(call_ensures(f, (elements[i],), images[i]));
        assert(images[i] == b);
        assert(images.to_set().contains(b));
    }
    if to.contains(b) {
        assert(images.to_set().contains(b));
        let i = choose|i: int| 0 <= i < images.len() && images[i] == b;
        assert(call_ensures(f, (elements[i],), images[i]));
        assert(elements.to_set().contains(elements[i]));
    }
}

/// The image of a set is within that of another set exactly if the set is within the other one.
proof fn lemma_image_subset<A, B, F: FnMut(A) -> B>(
    f: F,
    from: Set<A>,
    to: Set<B>,
    other_from: Set<A>,
    other_to: Set<B>,
)
    requires
        is_injective(f),
        config::maps_set(f, from, to),
        config::maps_set(f, other_from, other_to),
    ensures
        to.subset_of(other_to) <==> from.subset_of(other_from),
{
    let (elements, images) = choose|elements: Seq<A>, images: Seq<B>| #[trigger]
        config::maps_seq(f, elements, images) && elements.no_duplicates() && elements.to_set()
            == from && images.to_set() == to;
    if to.subset_of(other_to) {
        assert forall|a: A| from.contains(a) implies other_from.contains(a) by {
            assert(elements.to_set().contains(a));
            let i = choose|i: int| 0 <= i < elements.len() && elements[i] == a;
            assert(call_ensures(f, (elements[i],), images[i]));
            assert(images.to_set().contains(images[i]));
            lemma_image_contains(f, other_from, other_to, a, images[i]);
        }
    }
    if from.subset_of(other_from) {
        assert forall|b: B| to.contains(b) implies other_to.contains(b) by {
            assert(images.to_set().contains(b));
            let i = choose|i: int| 0 <= i < images.len() && images[i] == b;
            assert(call_ensures(f, (elements[i],), images[i]));
            assert(elements.to_set().contains(elements[i]));
            lemma_image_contains(f, other_from, other_to, elements[i], b);
        }
    }
}

/// The images of two sets are equal exactly if the sets are.
proof fn lemma_image_equal<A, B, F: FnMut(A) -> B>(
    f: F,
    from: Set<A>,
    to: Set<B>,
    other_from: Set<A>,
    other_to: Set<B>,
)
    requires
        is_injective(f),
        config::maps_set(f, from, to),
        config::maps_set(f, other_from, other_to),
    ensures
        to == other_to <==> from == other_from,
{
    lemma_image_subset(f, from, to, other_from, other_to);
    lemma_image_subset(f, other_from, other_to, from, to);
    if to == other_to {
        assert(from =~= other_from);
    }
    if from == other_from {
        assert(to =~= other_to);
    }
}

/// A function that maps different input keycodes to different ones keeps validity: the
/// configuration with the input keycodes mapped is valid exactly if the configuration is.
pub proof fn map_input_keeps_validity<
    A: Eq + Hash + Clone + Ord,
    B: Eq + Hash + Clone + Ord,
    Z: Eq + Hash,
    F: FnMut(A) -> B,
>(f: F, from: Config<A, Z>, to: Config<B, Z>)
    requires
        config::maps_inputs(f, from, to),
        is_injective(f),
        hash::obeys_key_model::<A>(),
        hash::obeys_key_model::<B>(),
    ensures
        to.is_valid() == from.is_valid(),
{
    assert forall|g: int| 0 <= g < from.modifiers@.len() implies #[trigger] to.repeats_id(g)
        == from.repeats_id(g) && to.repeats_group(g) == from.repeats_group(g) by {
        assert(to.modifiers@[g].id == from.modifiers@[g].id);
        if from.repeats_id(g) {
            let h = choose|h: int|
                0 <= h < g && (#[trigger] from.modifiers@[h]).id@ == from.modifiers@[g].id@;
            assert(to.modifiers@[h].id@ == to.modifiers@[g].id@);
        }
        if to.repeats_id(g) {
            let h = choose|h: int|
                0 <= h < g && (#[trigger] to.modifiers@[h]).id@ == to.modifiers@[g].id@;
            assert(from.modifiers@[h].id@ == from.modifiers@[g].id@);
        }
        assert forall|h: int| 0 <= h < g implies ((#[trigger] to.modifiers@[h]).keys@
            == to.modifiers@[g].keys@) == (from.modifiers@[h].keys@ == from.modifiers@[g].keys@) by {
            lemma_image_equal(
                f,
                from.modifiers@[h].keys@,
                to.modifiers@[h].keys@,
                from.modifiers@[g].keys@,
                to.modifiers@[g].keys@,
            );
        }
        if from.repeats_group(g) {
            let h = choose|h: int|
                0 <= h < g && (#[trigger] from.modifiers@[h]).keys@ == from.modifiers@[g].keys@;
            assert(to.modifiers@[h].keys@ == to.modifiers@[g].keys@);
        }
    }
    assert forall|id: Seq<char>| #[trigger] to.is_defined(id) == from.is_defined(id) by {
        if from.is_defined(id) {
            let g = choose|g: int|
                0 <= g < from.modifiers@.len() && (#[trigger] from.modifiers@[g]).id@ == id;
            assert(to.modifiers@[g].id@ == id);
        }
    }
    assert forall|i: int| 0 <= i < from.actions@.len() implies #[trigger] to.repeats_key(i)
        == from.repeats_key(i) by {
        assert(call_ensures(f, (from.actions@[i].key,), to.actions@[i].key));
        assert forall|h: int| 0 <= h < i implies ((#[trigger] to.actions@[h]).key
            == to.actions@[i].key) == (from.actions@[h].key == from.actions@[i].key) by {}
        if from.repeats_key(i) {
            let h = choose|h: int|
                0 <= h < i && (#[trigger] from.actions@[h]).key == from.actions@[i].key;
            assert(to.actions@[h].key == to.actions@[i].key);
        }
    }
    assert forall|i: int, n: int|
        0 <= i < from.actions@.len() && n == from.actions@[i].modified@.len() implies (
    #[trigger] to.fine_combos(i, n)) == from.fine_combos(i, n) by {
        let key = from.actions@[i].key;
        let image = to.actions@[i].key;
        assert(call_ensures(f, (key,), image));
        assert(to.actions@[i].modified == from.actions@[i].modified);
        assert forall|id: Seq<char>| #[trigger] to.has_member(id, image) == from.has_member(
            id,
            key,
        ) by {
            assert forall|g: int| 0 <= g < from.modifiers@.len() implies (
            #[trigger] to.modifiers@[g]).keys@.contains(image)
                == from.modifiers@[g].keys@.contains(key) by {
                lemma_image_contains(
                    f,
                    from.modifiers@[g].keys@,
                    to.modifiers@[g].keys@,
                    key,
                    image,
                );
            }
            if from.has_member(id, key) {
                let g = choose|g: int|
                    0 <= g < from.modifiers@.len() && (#[trigger] from.modifiers@[g]).id@ == id
                        && from.modifiers@[g].keys@.contains(key);
                assert(to.modifiers@[g].id@ == id);
            }
        }
        assert forall|j: int| #[trigger] to.repeats_modifier(i, j) == from.repeats_modifier(
            i,
            j,
        ) by {}
        if from.fine_combos(i, n) {
            assert forall|j: int| 0 <= j < n implies {
                &&& to.is_defined((#[trigger] to.actions@[i].modified@[j]).modifier@)
                &&& !to.has_member(to.actions@[i].modified@[j].modifier@, image)
                &&& !to.repeats_modifier(i, j)
            } by {
                assert(from.is_defined(from.actions@[i].modified@[j].modifier@));
            }
        }
        if to.fine_combos(i, n) {
            assert forall|j: int| 0 <= j < n implies {
                &&& from.is_defined((#[trigger] from.actions@[i].modified@[j]).modifier@)
                &&& !from.has_member(from.actions@[i].modified@[j].modifier@, key)
                &&& !from.repeats_modifier(i, j)
            } by {
                assert(to.is_defined(to.actions@[i].modified@[j].modifier@));
            }
        }
    }
    lemma_same_validity(from, to);
}

/// Configurations whose parts are fine alike are valid alike.
proof fn lemma_same_validity<
    A: Eq + Hash + Clone + Ord,
    B: Eq + Hash + Clone + Ord,
    Z: Eq + Hash,
    Y: Eq + Hash,
>(from: Config<A, Z>, to: Config<B, Y>)
    requires
        to.modifiers@.len() == from.modifiers@.len(),
        to.actions@.len() == from.actions@.len(),
        forall|i: int|
            0 <= i < from.actions@.len() ==> (#[trigger] to.actions@[i]).modified@.len()
                == from.actions@[i].modified@.len(),
        forall|g: int|
            0 <= g < from.modifiers@.len() ==> #[trigger] to.repeats_id(g) == from.repeats_id(g)
                && to.repeats_group(g) == from.repeats_group(g),
        forall|i: int|
            0 <= i < from.actions@.len() ==> #[trigger] to.repeats_key(i) == from.repeats_key(i),
        forall|i: int, n: int|
            0 <= i < from.actions@.len() && n == from.actions@[i].modified@.len() ==> (
            #[trigger] to.fine_combos(i, n)) == from.fine_combos(i, n),
    ensures
        to.is_valid() == from.is_valid(),
{
    if from.is_valid() {
        assert forall|g: int| 0 <= g < to.modifiers@.len() implies !#[trigger] to.repeats_id(g)
            && !to.repeats_group(g) by {
            assert(!from.repeats_id(g));
        }
        assert forall|i: int| 0 <= i < to.actions@.len() implies !#[trigger] to.repeats_key(i)
            && to.fine_combos(i, to.actions@[i].modified@.len() as int) by {
            assert(!from.repeats_key(i));
            assert(to.actions@[i].modified@.len() == from.actions@[i].modified@.len());
        }
    }
    if to.is_valid() {
        assert forall|g: int| 0 <= g < from.modifiers@.len() implies !#[trigger] from.repeats_id(g)
            && !from.repeats_group(g) by {
            assert(!to.repeats_id(g));
        }
        assert forall|i: int| 0 <= i < from.actions@.len() implies !#[trigger] from.repeats_key(i)
            && from.fine_combos(i, from.actions@[i].modified@.len() as int) by {
            assert(!to.repeats_key(i));
            assert(to.actions@[i].modified@.len() == from.actions@[i].modified@.len());
        }
    }
}

/// The output keycodes do not matter to validity: the configuration with the output keycodes
/// mapped is valid exactly if the configuration is, with the same warnings, and has the same error
/// if it is not.
pub proof fn map_output_keeps_validity<
    A: Eq + Hash + Clone + Ord,
    Z: Eq + Hash,
    Y: Eq + Hash,
    F: FnMut(Z) -> Y,
>(f: F, from: Config<A, Z>, to: Config<A, Y>)
    requires
        config::maps_outputs(f, from, to),
    ensures
        to.is_valid() == from.is_valid(),
        to.cautions() == from.cautions(),
        forall|error: ConfigValidationError<A>| #[trigger]
            to.first_error(error) == from.first_error(error),
{
    assert forall|g: int| #[trigger] to.repeats_id(g) == from.repeats_id(g) && to.repeats_group(g)
        == from.repeats_group(g) by {}
    assert forall|i: int| 0 <= i < from.actions@.len() implies #[trigger] to.repeats_key(i)
        == from.repeats_key(i) by {
        if from.repeats_key(i) {
            let h = choose|h: int|
                0 <= h < i && (#[trigger] from.actions@[h]).key == from.actions@[i].key;
            assert(to.actions@[h].key == to.actions@[i].key);
        }
        assert(to.actions@[i].key == from.actions@[i].key);
    }
    assert forall|i: int| 0 <= i < from.actions@.len() implies (
    #[trigger] to.actions@[i]).modified@.len() == from.actions@[i].modified@.len() by {
        assert(config::maps_combos(f, from.actions@[i].modified@, to.actions@[i].modified@));
    }
    assert forall|i: int, n: int|
        0 <= i < from.actions@.len() && n <= from.actions@[i].modified@.len() implies (
    #[trigger] to.fine_combos(i, n)) == from.fine_combos(i, n) by {
        lemma_same_combos(f, from, to, i, n);
    }
    lemma_same_validity(from, to);
    lemma_same_cautions(f, from, to);
    assert forall|error: ConfigValidationError<A>| #[trigger] to.first_error(error)
        == from.first_error(error) by {
        lemma_same_errors(f, from, to, error);
    }
}

/// With other output keycodes the combos are fine alike, and wrong alike.
proof fn lemma_same_combos<
    A: Eq + Hash + Clone + Ord,
    Z: Eq + Hash,
    Y: Eq + Hash,
    F: FnMut(Z) -> Y,
>(f: F, from: Config<A, Z>, to: Config<A, Y>, i: int, n: int)
    requires
        config::maps_outputs(f, from, to),
        0 <= i < from.actions@.len(),
        n <= from.actions@[i].modified@.len(),
    ensures
        to.fine_combos(i, n) == from.fine_combos(i, n),
        forall|j: int, error: ConfigValidationError<A>|
            0 <= j < from.actions@[i].modified@.len() ==> (#[trigger] to.combo_error(i, j, error))
                == from.combo_error(i, j, error),
{
    let a = from.actions@[i].modified@;
    let b = to.actions@[i].modified@;
    assert(to.actions@[i].key == from.actions@[i].key);
    assert(config::maps_combos(f, a, b));
    assert forall|id: Seq<char>| #[trigger] to.is_defined(id) == from.is_defined(id) by {}
    assert forall|id: Seq<char>, key: A| #[trigger] to.has_member(id, key) == from.has_member(
        id,
        key,
    ) by {}
    assert forall|j: int| 0 <= j < a.len() implies #[trigger] to.repeats_modifier(i, j)
        == from.repeats_modifier(i, j) by {
        assert(b[j].modifier == a[j].modifier);
        if from.repeats_modifier(i, j) {
            let h = choose|h: int|
                0 <= h < j && (#[trigger] from.actions@[i].modified@[h]).modifier@
                    == from.actions@[i].modified@[j].modifier@;
            assert(b[h].modifier == a[h].modifier);
            assert(to.actions@[i].modified@[h].modifier@ == to.actions@[i].modified@[j].modifier@);
        }
        if to.repeats_modifier(i, j) {
            let h = choose|h: int|
                0 <= h < j && (#[trigger] to.actions@[i].modified@[h]).modifier@
                    == to.actions@[i].modified@[j].modifier@;
            assert(b[h].modifier == a[h].modifier);
            assert(from.actions@[i].modified@[h].modifier@
                == from.actions@[i].modified@[j].modifier@);
        }
    }
    if from.fine_combos(i, n) {
        assert forall|j: int| 0 <= j < n implies {
            &&& to.is_defined((#[trigger] to.actions@[i].modified@[j]).modifier@)
            &&& !to.has_member(to.actions@[i].modified@[j].modifier@, to.actions@[i].key)
            &&& !to.repeats_modifier(i, j)
        } by {
            assert(b[j].modifier == a[j].modifier);
            assert(from.is_defined(from.actions@[i].modified@[j].modifier@));
        }
    }
    if to.fine_combos(i, n) {
        assert forall|j: int| 0 <= j < n implies {
            &&& from.is_defined((#[trigger] from.actions@[i].modified@[j]).modifier@)
            &&& !from.has_member(from.actions@[i].modified@[j].modifier@, from.actions@[i].key)
            &&& !from.repeats_modifier(i, j)
        } by {
            assert(b[j].modifier == a[j].modifier);
            assert(to.is_defined(to.actions@[i].modified@[j].modifier@));
        }
    }
    assert forall|j: int, error: ConfigValidationError<A>| 0 <= j < a.len() implies (
    #[trigger] to.combo_error(i, j, error)) == from.combo_error(i, j, error) by {
        assert(b[j].modifier == a[j].modifier);
    }
}

/// With other output keycodes the same is odd.
proof fn lemma_same_cautions<
    A: Eq + Hash + Clone + Ord,
    Z: Eq + Hash,
    Y: Eq + Hash,
    F: FnMut(Z) -> Y,
>(f: F, from: Config<A, Z>, to: Config<A, Y>)
    requires
        config::maps_outputs(f, from, to),
    ensures
        to.cautions() == from.cautions(),
{
    lemma_same_group_cautions(from, to, from.modifiers@.len() as int);
    lemma_same_action_cautions(f, from, to, from.actions@.len() as int);
}

/// The same is odd about the same modifier groups.
proof fn lemma_same_group_cautions<A: Eq + Hash + Clone + Ord, Z: Eq + Hash, Y: Eq + Hash>(
    from: Config<A, Z>,
    to: Config<A, Y>,
    n: int,
)
    requires
        to.modifiers == from.modifiers,
    ensures
        to.group_cautions(n) == from.group_cautions(n),
    decreases n,
{
    if n > 0 {
        lemma_same_group_cautions(from, to, n - 1);
    }
}

/// With other output keycodes the same is odd about the first `n` actions.
proof fn lemma_same_action_cautions<
    A: Eq + Hash + Clone + Ord,
    Z: Eq + Hash,
    Y: Eq + Hash,
    F: FnMut(Z) -> Y,
>(f: F, from: Config<A, Z>, to: Config<A, Y>, n: int)
    requires
        config::maps_outputs(f, from, to),
        n <= from.actions@.len(),
    ensures
        to.action_cautions(n) == from.action_cautions(n),
    decreases n,
{
    if n > 0 {
        lemma_same_action_cautions(f, from, to, n - 1);
        assert(to.actions@[n - 1].key == from.actions@[n - 1].key);
        assert(to.is_modifier_key(to.actions@[n - 1].key) == from.is_modifier_key(
            from.actions@[n - 1].key,
        ));
    }
}

/// With other output keycodes the same is wrong.
proof fn lemma_same_errors<
    A: Eq + Hash + Clone + Ord,
    Z: Eq + Hash,
    Y: Eq + Hash,
    F: FnMut(Z) -> Y,
>(f: F, from: Config<A, Z>, to: Config<A, Y>, error: ConfigValidationError<A>)
    requires
        config::maps_outputs(f, from, to),
        forall|g: int| #[trigger]
            to.repeats_id(g) == from.repeats_id(g) && to.repeats_group(g) == from.repeats_group(g),
        forall|i: int|
            0 <= i < from.actions@.len() ==> #[trigger] to.repeats_key(i) == from.repeats_key(i),
        forall|i: int|
            0 <= i < from.actions@.len() ==> (#[trigger] to.actions@[i]).modified@.len()
                == from.actions@[i].modified@.len(),
        forall|i: int, n: int|
            0 <= i < from.actions@.len() && n <= from.actions@[i].modified@.len() ==> (
            #[trigger] to.fine_combos(i, n)) == from.fine_combos(i, n),
    ensures
        to.first_error(error) == from.first_error(error),
{
    assert forall|n: int| #[trigger] to.fine_modifiers(n) == from.fine_modifiers(n) by {
        if from.fine_modifiers(n) {
            assert forall|g: int| 0 <= g < n implies !#[trigger] to.repeats_id(g)
                && !to.repeats_group(g) by {
                assert(!from.repeats_id(g));
            }
        }
        if to.fine_modifiers(n) {
            assert forall|g: int| 0 <= g < n implies !#[trigger] from.repeats_id(g)
                && !from.repeats_group(g) by {
                assert(!to.repeats_id(g));
            }
        }
    }
    assert forall|g: int| #[trigger] to.modifier_error(g, error) == from.modifier_error(
        g,
        error,
    ) by {
        assert(to.repeats_id(g) == from.repeats_id(g));
    }
    assert forall|n: int| n <= from.actions@.len() implies #[trigger] to.fine_actions(n)
        == from.fine_actions(n) by {
        if from.fine_actions(n) {
            assert forall|i: int| 0 <= i < n implies !#[trigger] to.repeats_key(i)
                && to.fine_combos(i, to.actions@[i].modified@.len() as int) by {
                assert(!from.repeats_key(i));
                assert(to.actions@[i].modified@.len() == from.actions@[i].modified@.len());
            }
        }
        if to.fine_actions(n) {
            assert forall|i: int| 0 <= i < n implies !#[trigger] from.repeats_key(i)
                && from.fine_combos(i, from.actions@[i].modified@.len() as int) by {
                assert(!to.repeats_key(i));
                assert(to.actions@[i].modified@.len() == from.actions@[i].modified@.len());
            }
        }
    }
    assert forall|i: int| 0 <= i < from.actions@.len() implies #[trigger] to.action_error(i, error)
        == from.action_error(i, error) by {
        assert(to.actions@[i].key == from.actions@[i].key);
        assert(to.repeats_key(i) == from.repeats_key(i));
        lemma_same_combos(f, from, to, i, 0);
        if from.action_error(i, error) && !from.repeats_key(i) {
            let j = choose|j: int|
                0 <= j < from.actions@[i].modified@.len() && from.fine_combos(i, j)
                    && #[trigger] from.combo_error(i, j, error);
            assert(to.fine_combos(i, j) && to.combo_error(i, j, error));
        }
        if to.action_error(i, error) && !to.repeats_key(i) {
            let j = choose|j: int|
                0 <= j < to.actions@[i].modified@.len() && to.fine_combos(i, j)
                    && #[trigger] to.combo_error(i, j, error);
            assert(from.fine_combos(i, j) && from.combo_error(i, j, error));
        }
    }
    if from.first_error(error) {
        if exists|g: int|
            0 <= g < from.modifiers@.len() && from.fine_modifiers(g)
                && #[trigger] from.modifier_error(g, error) {
            let g = choose|g: int|
                0 <= g < from.modifiers@.len() && from.fine_modifiers(g)
                    && #[trigger] from.modifier_error(g, error);
            assert(to.fine_modifiers(g) && to.modifier_error(g, error));
        } else {
            let i = choose|i: int|
                0 <= i < from.actions@.len() && from.fine_actions(i)
                    && #[trigger] from.action_error(i, error);
            assert(to.fine_actions(i) && to.action_error(i, error));
            assert(to.fine_modifiers(to.modifiers@.len() as int));
        }
    }
    if to.first_error(error) {
        if exists|g: int|
            0 <= g < to.modifiers@.len() && to.fine_modifiers(g) && #[trigger] to.modifier_error(
                g,
                error,
            ) {
            let g = choose|g: int|
                0 <= g < to.modifiers@.len() && to.fine_modifiers(g)
                    && #[trigger] to.modifier_error(g, error);
            assert(from.fine_modifiers(g) && from.modifier_error(g, error));
        } else {
            let i = choose|i: int|
                0 <= i < to.actions@.len() && to.fine_actions(i) && #[trigger] to.action_error(
                    i,
                    error,
                );
            assert(from.fine_actions(i) && from.action_error(i, error));
            assert(to.fine_modifiers(to.modifiers@.len() as int));
        }
    }
}

/// The function maps equal values to equal values.
pub open spec fn is_functional<A, B, F: FnMut(A) -> B>(f: F) -> bool {
    forall|a: A, x: B, y: B| #[trigger]
        call_ensures(f, (a,), x) && #[trigger] call_ensures(f, (a,), y) ==> x == y
}

/// Mapping the input keycodes maps the keycode of each action and the keycodes of each group, all of
/// them and no other, and keeps everything else: the order, ids, flags, combos and output keycodes.
pub proof fn map_input_maps_inputs_only<
    A: Eq + Hash,
    B: Eq + Hash,
    Z: Eq + Hash,
    F: FnMut(A) -> B,
>(f: F, from: Config<A, Z>, to: Config<B, Z>)
    requires
        config::maps_inputs(f, from, to),
        is_functional(f),
        hash::obeys_key_model::<A>(),
        hash::obeys_key_model::<B>(),
    ensures
        to.modifiers@.len() == from.modifiers@.len(),
        to.actions@.len() == from.actions@.len(),
        forall|g: int|
            0 <= g < from.modifiers@.len() ==> {
                &&& (#[trigger] to.modifiers@[g]).id@ == from.modifiers@[g].id@
                &&& to.modifiers@[g].masking == from.modifiers@[g].masking
            },
        forall|g: int, a: A, b: B|
            0 <= g < from.modifiers@.len() && from.modifiers@[g].keys@.contains(a)
                && #[trigger] call_ensures(f, (a,), b) ==> (
            #[trigger] to.modifiers@[g]).keys@.contains(b),
        forall|g: int, b: B|
            0 <= g < from.modifiers@.len() && #[trigger] to.modifiers@[g].keys@.contains(b)
                ==> exists|a: A|
                from.modifiers@[g].keys@.contains(a) && #[trigger] call_ensures(f, (a,), b),
        forall|i: int|
            0 <= i < from.actions@.len() ==> {
                &&& call_ensures(f, (from.actions@[i].key,), (#[trigger] to.actions@[i]).key)
                &&& to.actions@[i].action == from.actions@[i].action
                &&& to.actions@[i].immediate == from.actions@[i].immediate
                &&& to.actions@[i].latching == from.actions@[i].latching
                &&& to.actions@[i].modified@ == from.actions@[i].modified@
            },
{
    assert forall|g: int, a: A, b: B|
        0 <= g < from.modifiers@.len() && from.modifiers@[g].keys@.contains(a)
            && #[trigger] call_ensures(f, (a,), b) implies (
    #[trigger] to.modifiers@[g]).keys@.contains(b) by {
        let (elements, images) = lemma_mapped_elements(
            f,
            from.modifiers@[g].keys@,
            to.modifiers@[g].keys@,
        );
        assert(elements.to_set().contains(a));
        let i = choose|i: int| 0 <= i < elements.len() && elements[i] == a;
        assert(call_ensures(f, (elements[i],), images[i]));
        assert(images.to_set().contains(images[i]));
    }
    assert forall|g: int, b: B|
        0 <= g < from.modifiers@.len() && #[trigger] to.modifiers@[g].keys@.contains(
            b,
        ) implies exists|a: A|
        from.modifiers@[g].keys@.contains(a) && #[trigger] call_ensures(f, (a,), b) by {
        let (elements, images) = lemma_mapped_elements(
            f,
            from.modifiers@[g].keys@,
            to.modifiers@[g].keys@,
        );
        assert(images.to_set().contains(b));
        let i = choose|i: int| 0 <= i < images.len() && images[i] == b;
        assert(call_ensures(f, (elements[i],), images[i]));
        assert(elements.to_set().contains(elements[i]));
    }
}

/// The elements of a set that is mapped, and their images.
proof fn lemma_mapped_elements<A, B, F: FnMut(A) -> B>(f: F, from: Set<A>, to: Set<B>) -> (lists: (
    Seq<A>,
    Seq<B>,
))
    requires
        config::maps_set(f, from, to),
    ensures
        config::maps_seq(f, lists.0, lists.1),
        lists.0.to_set() == from,
        lists.1.to_set() == to,
{
    choose|elements: Seq<A>, images: Seq<B>| #[trigger]
        config::maps_seq(f, elements, images) && elements.no_duplicates() && elements.to_set()
            == from && images.to_set() == to
}

/// Mapping the output keycodes maps the output keycode of each action and of each combo that has
/// one, and keeps everything else: the order, the modifier groups, input keycodes, modifiers and
/// flags.
pub proof fn map_output_maps_outputs_only<
    A: Eq + Hash,
    Z: Eq + Hash,
    Y: Eq + Hash,
    F: FnMut(Z) -> Y,
>(f: F, from: Config<A, Z>, to: Config<A, Y>)
    requires
        config::maps_outputs(f, from, to),
    ensures
        to.modifiers@ == from.modifiers@,
        to.actions@.len() == from.actions@.len(),
        forall|i: int|
            0 <= i < from.actions@.len() ==> {
                &&& (#[trigger] to.actions@[i]).key == from.actions@[i].key
                &&& to.actions@[i].immediate == from.actions@[i].immediate
                &&& to.actions@[i].latching == from.actions@[i].latching
                &&& (to.actions@[i].action is Some) == (from.actions@[i].action is Some)
                &&& from.actions@[i].action is Some ==> call_ensures(
                    f,
                    (from.actions@[i].action->0,),
                    to.actions@[i].action->0,
                )
                &&& to.actions@[i].modified@.len() == from.actions@[i].modified@.len()
            },
        forall|i: int, j: int|
            0 <= i < from.actions@.len() && 0 <= j < from.actions@[i].modified@.len() ==> {
                let new = #[trigger] to.actions@[i].modified@[j];
                let old_combo = from.actions@[i].modified@[j];
                &&& new.modifier@ == old_combo.modifier@
                &&& (new.action is Some) == (old_combo.action is Some)
                &&& old_combo.action is Some ==> call_ensures(
                    f,
                    (old_combo.action->0,),
                    new.action->0,
                )
            },
{
    assert forall|i: int| 0 <= i < from.actions@.len() implies config::maps_combos(
        f,
        from.actions@[i].modified@,
        (#[trigger] to.actions@[i]).modified@,
    ) by {}
}

/// Mapping with a function that leaves every value as it is leaves the configuration as it is.
pub proof fn identity_maps_nothing<A: Eq + Hash, Z: Eq + Hash, F: FnMut(A) -> A>(
    f: F,
    from: Config<A, Z>,
    to: Config<A, Z>,
)
    requires
        config::maps_inputs(f, from, to),
        forall|a: A, b: A| #[trigger] call_ensures(f, (a,), b) ==> a == b,
        hash::obeys_key_model::<A>(),
    ensures
        to.modifiers@.len() == from.modifiers@.len(),
        forall|g: int|
            0 <= g < from.modifiers@.len() ==> (#[trigger] to.modifiers@[g]).keys@
                == from.modifiers@[g].keys@ && to.modifiers@[g].id == from.modifiers@[g].id
                && to.modifiers@[g].masking == from.modifiers@[g].masking,
        to.actions@ == from.actions@,
{
    assert forall|g: int| 0 <= g < from.modifiers@.len() implies (
    #[trigger] to.modifiers@[g]).keys@ == from.modifiers@[g].keys@ by {
        let (elements, images) = lemma_mapped_elements(
            f,
            from.modifiers@[g].keys@,
            to.modifiers@[g].keys@,
        );
        assert forall|i: int| 0 <= i < elements.len() implies elements[i] == images[i] by {
            assert(call_ensures(f, (elements[i],), images[i]));
        }
        assert(elements =~= images);
    }
    assert forall|i: int| 0 <= i < from.actions@.len() implies to.actions@[i]
        == from.actions@[i] by {
        assert(call_ensures(f, (from.actions@[i].key,), to.actions@[i].key));
    }
    assert(to.actions@ =~= from.actions@);
}

/// What an action gives to the list of actions and combos: itself, without a modifier, and then each
/// of its combos.
pub open spec fn entries<'a, A: Eq + Hash, Z: Eq + Hash>() -> spec_fn(&'a Action<A, Z>) -> Seq<
    (&'a A, Option<&'a String>, &'a Option<Z>),
> {
    |action: &'a Action<A, Z>|
        Seq::new(
            1 + action.modified@.len(),
            |j: int|
                if j == 0 {
                    (&action.key, None::<&'a String>, &action.action)
                } else {
                    (
                        &action.key,
                        Some(&action.modified@[j - 1].modifier),
                        &action.modified@[j - 1].action,
                    )
                },
        )
}

/// The list of actions and combos has, for each action in turn, what the action gives to it.
pub proof fn every_action_and_combo_is_listed<A: Eq + Hash, Z: Eq + Hash>(config: &Config<A, Z>)
    ensures
        config.listed(config.actions@.len()) == config.actions@.as_ref().flat_map(
            entries::<A, Z>(),
        ),
{
    lemma_listed(config, config.actions@.len());
    assert(config.actions@.as_ref().take(config.actions@.len() as int)
        =~= config.actions@.as_ref());
}

/// What the first actions list.
proof fn lemma_listed<A: Eq + Hash, Z: Eq + Hash>(config: &Config<A, Z>, n: nat)
    requires
        n <= config.actions@.len(),
    ensures
        config.listed(n) == config.actions@.as_ref().take(n as int).flat_map(entries::<A, Z>()),
    decreases n,
{
    let all = config.actions@.as_ref();
    let f = entries::<A, Z>();
    if n == 0 {
        assert(all.take(0).map_values(f) =~= Seq::empty());
        assert(config.listed(0) =~= all.take(0).flat_map(f));
    } else {
        let m = (n - 1) as nat;
        lemma_listed(config, m);
        let rest = all.take(m as int);
        rest.lemma_flat_map_push(f, all[m as int]);
        assert(all.take(n as int) =~= rest.push(all[m as int]));
        assert(Config::<A, Z>::listed_by(&config.actions@[m as int]) =~= f(all[m as int]));
    }
}

} // verus!

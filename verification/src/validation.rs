//! Validation of configurations.
use crate::combo::{lists, model};
use crate::config;
use crate::config::Config;
use crate::types::{Caution, ConfigValidationError, ConfigValidationWarning, Keycode};
use std::cmp::Ordering;
use std::collections::HashSet;
use std::fmt::Debug;
use std::hash::Hash;
use vstd::laws_cmp;
use vstd::laws_eq;
use vstd::prelude::*;
use vstd::std_specs::cmp::{OrdSpec, PartialOrdSpec};
use vstd::std_specs::hash;

verus! {

/// The type's `Eq`, `Hash`, `Ord` and `Clone` do what is expected of them.
pub open spec fn lawful<A: Eq + Hash + Clone + Ord>() -> bool {
    &&& hash::obeys_key_model::<A>()
    &&& laws_eq::obeys_concrete_eq::<A>()
    &&& is_ordered::<A>()
    &&& forall|a: A, b: A| #[trigger] cloned(a, b) ==> a == b
}

/// The type's order is a total order.
pub open spec fn is_ordered<A: Ord>() -> bool {
    laws_cmp::obeys_cmp::<A>()
}

/// `a` is greater than `b`.
pub open spec fn above<A: Ord>(a: A, b: A) -> bool {
    a.cmp_spec(&b) == Ordering::Greater
}

/// The sequence is in ascending order.
pub open spec fn is_sorted<A: Ord>(s: Seq<A>) -> bool {
    forall|i: int, j: int| 0 <= i < j < s.len() ==> !#[trigger] above(s[i], s[j])
}

impl<A: Eq + Hash + Clone + Ord, Z: Eq + Hash> Config<A, Z> {
    /// An earlier modifier group has the same id.
    pub open spec fn repeats_id(&self, g: int) -> bool {
        exists|h: int|
            0 <= h < g && (#[trigger] self.modifiers@[h]).id@ == self.modifiers@[g].id@
    }

    /// An earlier modifier group has the same keys.
    pub open spec fn repeats_group(&self, g: int) -> bool {
        exists|h: int|
            0 <= h < g && (#[trigger] self.modifiers@[h]).keys@ == self.modifiers@[g].keys@
    }

    /// The first `n` modifier groups are fine.
    pub open spec fn fine_modifiers(&self, n: int) -> bool {
        forall|g: int| 0 <= g < n ==> !#[trigger] self.repeats_id(g) && !self.repeats_group(g)
    }

    /// What is wrong with a modifier group.
    pub open spec fn modifier_error(&self, g: int, error: ConfigValidationError<A>) -> bool {
        if self.repeats_id(g) {
            error matches ConfigValidationError::DuplicateModifierId(id) && id@
                == self.modifiers@[g].id@
        } else {
            &&& self.repeats_group(g)
            &&& error matches ConfigValidationError::DuplicateModifierGroup(keys) && is_sorted(
                keys@,
            ) && keys@.no_duplicates() && keys@.to_set() == self.modifiers@[g].keys@
        }
    }

    /// An earlier action has the same key.
    pub open spec fn repeats_key(&self, i: int) -> bool {
        exists|h: int| 0 <= h < i && (#[trigger] self.actions@[h]).key == self.actions@[i].key
    }

    /// Some modifier group has the id.
    pub open spec fn is_defined(&self, id: Seq<char>) -> bool {
        exists|g: int| 0 <= g < self.modifiers@.len() && (#[trigger] self.modifiers@[g]).id@ == id
    }

    /// A modifier group with the id has the key.
    pub open spec fn has_member(&self, id: Seq<char>, key: A) -> bool {
        exists|g: int|
            0 <= g < self.modifiers@.len() && (#[trigger] self.modifiers@[g]).id@ == id
                && self.modifiers@[g].keys@.contains(key)
    }

    /// An earlier combo of the action has the same modifier.
    pub open spec fn repeats_modifier(&self, i: int, j: int) -> bool {
        exists|h: int|
            0 <= h < j && (#[trigger] self.actions@[i].modified@[h]).modifier@
                == self.actions@[i].modified@[j].modifier@
    }

    /// The first `n` combos of the action are fine.
    pub open spec fn fine_combos(&self, i: int, n: int) -> bool {
        forall|j: int|
            0 <= j < n ==> {
                &&& self.is_defined((#[trigger] self.actions@[i].modified@[j]).modifier@)
                &&& !self.has_member(
                    self.actions@[i].modified@[j].modifier@,
                    self.actions@[i].key,
                )
                &&& !self.repeats_modifier(i, j)
            }
    }

    /// What is wrong with a combo.
    pub open spec fn combo_error(
        &self,
        i: int,
        j: int,
        error: ConfigValidationError<A>,
    ) -> bool {
        let key = self.actions@[i].key;
        let id = self.actions@[i].modified@[j].modifier@;
        if !self.is_defined(id) {
            error matches ConfigValidationError::UndefinedModifier(name, of) && name@ == id && of
                == key
        } else if self.has_member(id, key) {
            error == ConfigValidationError::SelfModifier(key)
        } else {
            &&& self.repeats_modifier(i, j)
            &&& error matches ConfigValidationError::DuplicateModifiedAction(name, of) && name@
                == id && of == key
        }
    }

    /// The first `n` actions are fine.
    pub open spec fn fine_actions(&self, n: int) -> bool {
        forall|i: int|
            0 <= i < n ==> !#[trigger] self.repeats_key(i) && self.fine_combos(
                i,
                self.actions@[i].modified@.len() as int,
            )
    }

    /// What is wrong with an action.
    pub open spec fn action_error(&self, i: int, error: ConfigValidationError<A>) -> bool {
        if self.repeats_key(i) {
            error == ConfigValidationError::DuplicateAction(self.actions@[i].key)
        } else {
            exists|j: int|
                0 <= j < self.actions@[i].modified@.len() && self.fine_combos(i, j)
                    && #[trigger] self.combo_error(i, j, error)
        }
    }

    /// Nothing is wrong with the configuration.
    pub open spec fn is_valid(&self) -> bool {
        &&& self.fine_modifiers(self.modifiers@.len() as int)
        &&& self.fine_actions(self.actions@.len() as int)
    }

    /// The first thing that is wrong with the configuration: modifier groups come before actions.
    pub open spec fn first_error(&self, error: ConfigValidationError<A>) -> bool {
        ||| exists|g: int|
            0 <= g < self.modifiers@.len() && self.fine_modifiers(g)
                && #[trigger] self.modifier_error(g, error)
        ||| self.fine_modifiers(self.modifiers@.len() as int) && exists|i: int|
            0 <= i < self.actions@.len() && self.fine_actions(i) && #[trigger] self.action_error(
                i,
                error,
            )
    }

    /// The key is a modifier key.
    pub open spec fn is_modifier_key(&self, key: A) -> bool {
        exists|g: int|
            0 <= g < self.modifiers@.len() && #[trigger] self.modifiers@[g].keys@.contains(key)
    }

    /// What is odd about the first `n` modifier groups.
    pub open spec fn group_cautions(&self, n: int) -> Seq<Caution<A>>
        decreases n,
    {
        if n <= 0 {
            Seq::empty()
        } else if self.modifiers@[n - 1].keys@ == Set::<A>::empty() {
            self.group_cautions(n - 1).push(
                Caution::EmptyModifierGroup(self.modifiers@[n - 1].id@),
            )
        } else {
            self.group_cautions(n - 1)
        }
    }

    /// What is odd about the first `n` actions.
    pub open spec fn action_cautions(&self, n: int) -> Seq<Caution<A>>
        decreases n,
    {
        if n <= 0 {
            Seq::empty()
        } else if self.actions@[n - 1].immediate && !self.is_modifier_key(
            self.actions@[n - 1].key,
        ) {
            self.action_cautions(n - 1).push(Caution::ImmediateAction(self.actions@[n - 1].key))
        } else {
            self.action_cautions(n - 1)
        }
    }

    /// What is odd about the configuration, in the order of its parts.
    pub open spec fn cautions(&self) -> Seq<Caution<A>> {
        self.group_cautions(self.modifiers@.len() as int) + self.action_cautions(
            self.actions@.len() as int,
        )
    }
}

/// The warnings, as mathematical values.
pub open spec fn warnings_of<A>(warnings: Seq<ConfigValidationWarning<A>>) -> Seq<Caution<A>> {
    warnings.map_values(|warning: ConfigValidationWarning<A>| warning@)
}

/// If `a` is not above `b`, and `b` is not above `c`, then `a` is not above `c`.
proof fn lemma_order<A: Ord>(a: A, b: A, c: A)
    requires
        is_ordered::<A>(),
        !above(a, b),
        !above(b, c),
    ensures
        !above(a, c),
{
    reveal(laws_eq::obeys_eq_spec_properties);
    reveal(laws_cmp::obeys_partial_cmp_spec_properties);
    reveal(laws_cmp::obeys_cmp_partial_ord);
    reveal(laws_cmp::obeys_cmp_ord);
    assert(a.partial_cmp_spec(&b) == Some(a.cmp_spec(&b)));
    assert(b.partial_cmp_spec(&c) == Some(b.cmp_spec(&c)));
    assert(a.partial_cmp_spec(&c) == Some(a.cmp_spec(&c)));
    assert(c.partial_cmp_spec(&a) == Some(c.cmp_spec(&a)));
    assert(b.partial_cmp_spec(&a) == Some(b.cmp_spec(&a)));
    assert(c.partial_cmp_spec(&b) == Some(c.cmp_spec(&b)));
}

/// If `a` is above `b`, then `b` is not above `a`.
proof fn lemma_above<A: Ord>(a: A, b: A)
    requires
        is_ordered::<A>(),
        above(a, b),
    ensures
        !above(b, a),
{
    reveal(laws_cmp::obeys_partial_cmp_spec_properties);
    reveal(laws_cmp::obeys_cmp_ord);
    assert(a.partial_cmp_spec(&b) == Some(a.cmp_spec(&b)));
    assert(b.partial_cmp_spec(&a) == Some(b.cmp_spec(&a)));
}

/// Puts a value into a list, behind all values that are not above it if the list is ascending.
fn put<A: Ord>(list: &mut Vec<A>, value: A)
    ensures
        exists|i: int|
            0 <= i <= old(list)@.len() && final(list)@ == #[trigger] old(list)@.insert(i, value),
        is_ordered::<A>() && is_sorted(old(list)@) ==> is_sorted(final(list)@),
{
    let ghost before = list@;
    let mut i: usize = list.len();
    while i > 0 && is_above(&list[i - 1], &value)
        invariant
            list@ == before,
            i <= list@.len(),
            is_ordered::<A>() && i < before.len() ==> above(
                before[i as int],
                value,
            ),
        decreases i,
    {
        i -= 1;
    }
    list.insert(i, value);
    proof {
        if is_ordered::<A>() && is_sorted(before) {
            lemma_insert_sorted(before, i as int, value);
        }
    }
}

/// Tells whether `a` is above `b`.
fn is_above<A: Ord>(a: &A, b: &A) -> (greater: bool)
    ensures
        is_ordered::<A>() ==> greater == above(*a, *b),
{
    proof {
        reveal(laws_cmp::obeys_cmp_ord);
    }
    match a.cmp(b) {
        Ordering::Greater => true,
        _ => false,
    }
}

/// Tells whether two keycodes are the same.
fn same_key<A: Eq + Hash + Clone + Ord>(a: &A, b: &A) -> (same: bool)
    ensures
        lawful::<A>() ==> same == (*a == *b),
{
    proof {
        reveal(laws_eq::obeys_concrete_eq);
    }
    *a == *b
}

/// Tells whether all keycodes of a set are in another one.
fn is_subset<A: Eq + Hash + Clone + Ord>(a: &HashSet<A>, b: &HashSet<A>) -> (subset: bool)
    ensures
        lawful::<A>() ==> subset == a@.subset_of(b@),
{
    broadcast use vstd::std_specs::hash::group_hash_axioms;

    let list = config::borrow_keys(a);
    let mut i: usize = 0;
    while i < list.len()
        invariant
            i <= list@.len(),
            lawful::<A>() ==> list@.unref().to_set() == a@,
            lawful::<A>() ==> forall|j: int|
                0 <= j < i ==> b@.contains(#[trigger] list@.unref()[j]),
        decreases list@.len() - i,
    {
        if !b.contains(list[i]) {
            proof {
                assert(list@.unref().to_set().contains(list@.unref()[i as int]));
            }
            return false;
        }
        i += 1;
    }
    proof {
        if lawful::<A>() {
            assert forall|x: A| a@.contains(x) implies b@.contains(x) by {
                assert(list@.unref().to_set().contains(x));
                let j = choose|j: int| 0 <= j < list@.len() && list@.unref()[j] == x;
                assert(b@.contains(list@.unref()[j]));
            }
        }
    }
    true
}

/// Lists the keycodes of a set in ascending order.
fn sorted_keys<A: Eq + Hash + Clone + Ord>(keys: &HashSet<A>) -> (sorted: Vec<A>)
    ensures
        lawful::<A>() ==> is_sorted(sorted@) && sorted@.no_duplicates() && sorted@.to_set()
            == keys@,
{
    let list = config::borrow_keys(keys);
    let ghost listed = list@.unref();
    let mut sorted: Vec<A> = Vec::new();
    let mut i: usize = 0;
    while i < list.len()
        invariant
            i <= list@.len(),
            listed == list@.unref(),
            lawful::<A>() ==> {
                &&& listed.no_duplicates()
                &&& is_sorted(sorted@)
                &&& sorted@.no_duplicates()
                &&& forall|x: A| #[trigger]
                    sorted@.contains(x) <==> exists|j: int| 0 <= j < i && #[trigger] listed[j] == x
            },
        decreases list@.len() - i,
    {
        let ghost before = sorted@;
        let copy = list[i].clone();
        proof {
            if lawful::<A>() {
                assert(cloned(*list@[i as int], copy));
                assert(copy == listed[i as int]);
            }
        }
        put(&mut sorted, copy);
        proof {
            if lawful::<A>() {
                let at = choose|at: int|
                    0 <= at <= before.len() && sorted@ == #[trigger] before.insert(at, copy);
                lemma_insert_contains(before, at, copy);
                assert(!before.contains(copy)) by {
                    if before.contains(copy) {
                        let j = choose|j: int| 0 <= j < i && #[trigger] listed[j] == copy;
                        assert(listed[j] == listed[i as int]);
                    }
                }
                assert forall|x: A| #[trigger] sorted@.contains(x) <==> exists|j: int|
                    0 <= j < i + 1 && #[trigger] listed[j] == x by {
                    if before.contains(x) {
                        let j = choose|j: int| 0 <= j < i && #[trigger] listed[j] == x;
                        assert(listed[j] == x);
                    }
                    if x == copy {
                        assert(listed[i as int] == x);
                    }
                }
            }
        }
        i += 1;
    }
    proof {
        if lawful::<A>() {
            assert forall|x: A| #[trigger] sorted@.to_set().contains(x) <==> keys@.contains(x) by {
                assert(sorted@.contains(x) <==> listed.contains(x));
                assert(listed.to_set().contains(x) <==> listed.contains(x));
            }
            assert(sorted@.to_set() =~= keys@);
        }
    }
    sorted
}

/// What is in a list with one more value.
proof fn lemma_insert_contains<A>(list: Seq<A>, at: int, value: A)
    requires
        0 <= at <= list.len(),
    ensures
        forall|x: A| #[trigger]
            list.insert(at, value).contains(x) <==> x == value || list.contains(x),
        list.no_duplicates() && !list.contains(value) ==> list.insert(at, value).no_duplicates(),
{
    let longer = list.insert(at, value);
    assert(longer[at] == value);
    assert forall|x: A| #[trigger] longer.contains(x) <==> x == value || list.contains(x) by {
        if list.contains(x) {
            let j = choose|j: int| 0 <= j < list.len() && list[j] == x;
            assert(longer[if j < at { j } else { j + 1 }] == x);
        }
        if longer.contains(x) && x != value {
            let j = choose|j: int| 0 <= j < longer.len() && longer[j] == x;
            assert(list[if j < at { j } else { j - 1 }] == x);
        }
    }
}

/// A value may stand in an ascending list behind one that is not above it, and before one that is
/// above it.
proof fn lemma_insert_sorted<A: Ord>(list: Seq<A>, at: int, value: A)
    requires
        is_ordered::<A>(),
        is_sorted(list),
        0 <= at <= list.len(),
        at < list.len() ==> above(list[at], value),
        at > 0 ==> !above(list[at - 1], value),
    ensures
        is_sorted(list.insert(at, value)),
{
    let longer = list.insert(at, value);
    assert forall|i: int, j: int| 0 <= i < j < longer.len() implies !#[trigger] above(
        longer[i],
        longer[j],
    ) by {
        if j == at {
            if i < at - 1 {
                assert(!above(list[i], list[at - 1]));
                lemma_order(list[i], list[at - 1], value);
            }
        } else if i == at {
            lemma_above(list[at], value);
            if at < j - 1 {
                assert(!above(list[at], list[j - 1]));
                lemma_order(value, list[at], list[j - 1]);
            }
        } else {
            let x = if i < at { i } else { i - 1 };
            let y = if j < at { j } else { j - 1 };
            assert(!above(list[x], list[y]));
        }
    }
}

impl<A: Eq + Hash + Clone + Ord, Z: Eq + Hash> Config<A, Z> {
    /// Finds the first of the first `n` modifier groups that has the id.
    fn find_id(&self, n: usize, id: &String) -> (found: Option<usize>)
        requires
            n <= self.modifiers@.len(),
        ensures
            match found {
                Some(g) => g < n && self.modifiers@[g as int].id@ == id@ && forall|h: int|
                    0 <= h < g ==> (#[trigger] self.modifiers@[h]).id@ != id@,
                None => forall|h: int| 0 <= h < n ==> (#[trigger] self.modifiers@[h]).id@ != id@,
            },
    {
        let mut g: usize = 0;
        while g < n
            invariant
                g <= n <= self.modifiers@.len(),
                forall|h: int| 0 <= h < g ==> (#[trigger] self.modifiers@[h]).id@ != id@,
            decreases n - g,
        {
            if self.modifiers[g].id == *id {
                return Some(g);
            }
            g += 1;
        }
        None
    }

    /// Tells whether an earlier modifier group has the same keys.
    fn has_twin(&self, g: usize) -> (twin: bool)
        requires
            g < self.modifiers@.len(),
        ensures
            lawful::<A>() ==> twin == self.repeats_group(g as int),
    {
        let mut h: usize = 0;
        while h < g
            invariant
                h <= g < self.modifiers@.len(),
                lawful::<A>() ==> forall|k: int|
                    0 <= k < h ==> (#[trigger] self.modifiers@[k]).keys@
                        != self.modifiers@[g as int].keys@,
            decreases g - h,
        {
            if is_subset(&self.modifiers[h].keys, &self.modifiers[g].keys) && is_subset(
                &self.modifiers[g].keys,
                &self.modifiers[h].keys,
            ) {
                proof {
                    if lawful::<A>() {
                        assert(self.modifiers@[h as int].keys@
                            =~= self.modifiers@[g as int].keys@);
                    }
                }
                return true;
            }
            h += 1;
        }
        false
    }

    /// Tells whether some modifier group has the key.
    fn find_modifier_key(&self, key: &A) -> (found: bool)
        ensures
            lawful::<A>() ==> found == self.is_modifier_key(*key),
    {
        broadcast use vstd::std_specs::hash::group_hash_axioms;

        let mut g: usize = 0;
        while g < self.modifiers.len()
            invariant
                g <= self.modifiers@.len(),
                lawful::<A>() ==> forall|h: int|
                    0 <= h < g ==> !#[trigger] self.modifiers@[h].keys@.contains(*key),
            decreases self.modifiers@.len() - g,
        {
            if self.modifiers[g].keys.contains(key) {
                return true;
            }
            g += 1;
        }
        false
    }

    /// Tells whether an earlier action has the same key.
    fn has_action_before(&self, i: usize) -> (found: bool)
        requires
            i < self.actions@.len(),
        ensures
            lawful::<A>() ==> found == self.repeats_key(i as int),
    {
        let mut h: usize = 0;
        while h < i
            invariant
                h <= i < self.actions@.len(),
                lawful::<A>() ==> forall|k: int|
                    0 <= k < h ==> (#[trigger] self.actions@[k]).key
                        != self.actions@[i as int].key,
            decreases i - h,
        {
            if same_key(&self.actions[h].key, &self.actions[i].key) {
                return true;
            }
            h += 1;
        }
        false
    }

    /// Tells whether an earlier combo of the action has the same modifier.
    fn has_combo_before(&self, i: usize, j: usize) -> (found: bool)
        requires
            i < self.actions@.len(),
            j < self.actions@[i as int].modified@.len(),
        ensures
            found == self.repeats_modifier(i as int, j as int),
    {
        let combos = &self.actions[i].modified;
        let mut h: usize = 0;
        while h < j
            invariant
                i < self.actions@.len(),
                *combos == self.actions@[i as int].modified,
                h <= j < combos@.len(),
                forall|k: int|
                    0 <= k < h ==> (#[trigger] combos@[k]).modifier@ != combos@[j as int].modifier@,
            decreases j - h,
        {
            if combos[h].modifier == combos[j].modifier {
                proof {
                    assert(self.actions@[i as int].modified@[h as int].modifier@
                        == self.actions@[i as int].modified@[j as int].modifier@);
                }
                return true;
            }
            h += 1;
        }
        false
    }

    /// Checks a combo.
    fn check_combo(&self, i: usize, j: usize) -> (result: Result<(), ConfigValidationError<A>>)
        requires
            i < self.actions@.len(),
            j < self.actions@[i as int].modified@.len(),
            lawful::<A>() ==> self.fine_modifiers(self.modifiers@.len() as int),
            lawful::<A>() ==> self.fine_combos(i as int, j as int),
        ensures
            lawful::<A>() ==> match result {
                Ok(_) => self.fine_combos(i as int, j + 1),
                Err(error) => self.combo_error(i as int, j as int, error),
            },
    {
        broadcast use vstd::std_specs::hash::group_hash_axioms;

        let action = &self.actions[i];
        let combo = &action.modified[j];
        let copy = action.key.clone();
        proof {
            if lawful::<A>() {
                assert(cloned(action.key, copy));
            }
        }
        match self.find_id(self.modifiers.len(), &combo.modifier) {
            Some(group) => {
                proof {
                    if lawful::<A>() {
                        assert forall|g: int|
                            0 <= g < self.modifiers@.len() && (#[trigger] self.modifiers@[g]).id@
                                == combo.modifier@ implies g == group by {
                            if g > group {
                                assert(self.repeats_id(g)) by {
                                    assert(self.modifiers@[group as int].id@
                                        == self.modifiers@[g].id@);
                                }
                            }
                        }
                    }
                }
                if self.modifiers[group].keys.contains(&action.key) {
                    return Err(ConfigValidationError::SelfModifier(copy));
                }
            },
            None => {
                return Err(ConfigValidationError::UndefinedModifier(combo.modifier.clone(), copy));
            },
        }
        if self.has_combo_before(i, j) {
            return Err(
                ConfigValidationError::DuplicateModifiedAction(combo.modifier.clone(), copy),
            );
        }
        Ok(())
    }
}

impl<A: Eq + Hash + Clone + Ord, Z: Eq + Hash> Config<A, Z> {
    /// Checks a modifier group. Tells whether it has no keys.
    fn check_modifier(&self, g: usize) -> (result: Result<bool, ConfigValidationError<A>>)
        requires
            g < self.modifiers@.len(),
        ensures
            lawful::<A>() ==> match result {
                Ok(empty) => !self.repeats_id(g as int) && !self.repeats_group(g as int) && empty
                    == (self.modifiers@[g as int].keys@ == Set::<A>::empty()),
                Err(error) => self.modifier_error(g as int, error),
            },
    {
        broadcast use vstd::std_specs::hash::group_hash_axioms;

        let modifier = &self.modifiers[g];
        if self.find_id(g, &modifier.id).is_some() {
            proof {
                assert(self.repeats_id(g as int));
            }
            return Err(ConfigValidationError::DuplicateModifierId(modifier.id.clone()));
        }
        proof {
            assert(!self.repeats_id(g as int));
        }
        if self.has_twin(g) {
            return Err(
                ConfigValidationError::DuplicateModifierGroup(sorted_keys(&modifier.keys)),
            );
        }
        let empty = modifier.keys.is_empty();
        proof {
            if lawful::<A>() && empty {
                assert(self.modifiers@[g as int].keys@ =~= Set::<A>::empty());
            }
        }
        Ok(empty)
    }

    /// Checks an action. Tells whether it is immediate for no reason.
    fn check_action(&self, i: usize) -> (result: Result<bool, ConfigValidationError<A>>)
        requires
            i < self.actions@.len(),
            lawful::<A>() ==> self.fine_modifiers(self.modifiers@.len() as int),
        ensures
            lawful::<A>() ==> match result {
                Ok(needless) => {
                    &&& !self.repeats_key(i as int)
                    &&& self.fine_combos(
                        i as int,
                        self.actions@[i as int].modified@.len() as int,
                    )
                    &&& needless == (self.actions@[i as int].immediate && !self.is_modifier_key(
                        self.actions@[i as int].key,
                    ))
                },
                Err(error) => self.action_error(i as int, error) && !self.is_valid(),
            },
    {
        let action = &self.actions[i];
        if self.has_action_before(i) {
            let copy = action.key.clone();
            proof {
                if lawful::<A>() {
                    assert(cloned(action.key, copy));
                    assert(self.repeats_key(i as int));
                }
            }
            return Err(ConfigValidationError::DuplicateAction(copy));
        }
        let needless = action.immediate && !self.find_modifier_key(&action.key);
        let mut j: usize = 0;
        while j < action.modified.len()
            invariant
                i < self.actions@.len(),
                *action == self.actions@[i as int],
                j <= action.modified@.len(),
                lawful::<A>() ==> self.fine_modifiers(self.modifiers@.len() as int),
                lawful::<A>() ==> !self.repeats_key(i as int),
                lawful::<A>() ==> self.fine_combos(i as int, j as int),
            decreases action.modified@.len() - j,
        {
            match self.check_combo(i, j) {
                Ok(_) => {},
                Err(error) => {
                    proof {
                        if lawful::<A>() {
                            assert(self.combo_error(i as int, j as int, error));
                            self.lemma_combo_error(i as int, j as int, error);
                        }
                    }
                    return Err(error);
                },
            }
            j += 1;
        }
        Ok(needless)
    }

    /// One more modifier group is fine.
    proof fn lemma_fine_modifier(&self, g: int)
        requires
            self.fine_modifiers(g),
            !self.repeats_id(g),
            !self.repeats_group(g),
        ensures
            self.fine_modifiers(g + 1),
    {
    }

    /// One more action is fine.
    proof fn lemma_fine_action(&self, i: int)
        requires
            self.fine_actions(i),
            !self.repeats_key(i),
            self.fine_combos(i, self.actions@[i].modified@.len() as int),
        ensures
            self.fine_actions(i + 1),
    {
    }

    /// A combo with an error is not fine.
    proof fn lemma_combo_error(&self, i: int, j: int, error: ConfigValidationError<A>)
        requires
            0 <= i < self.actions@.len(),
            0 <= j < self.actions@[i].modified@.len(),
            self.combo_error(i, j, error),
        ensures
            !self.is_valid(),
    {
        let n = self.actions@[i].modified@.len() as int;
        if self.fine_combos(i, n) {
            assert(self.is_defined(self.actions@[i].modified@[j].modifier@));
        }
        if self.is_valid() {
            assert(!self.repeats_key(i));
        }
    }
}

impl<A: Eq + Hash + Debug + Clone + Ord, Z: Eq + Hash + Debug + Clone + Ord> Config<A, Z> {
    /// Validates the configuration. Returns:
    ///
    /// * `Ok(warnings)` a list of warnings if the configuration is valid
    /// * `Err(error)` the first error if the configuration is not valid
    ///
    /// What it returns is only known if the type of the input keycodes is lawful.
    pub fn validate(&self) -> (result: Result<
        Vec<ConfigValidationWarning<A>>,
        ConfigValidationError<A>,
    >)
        ensures
            lawful::<A>() ==> match result {
                Ok(warnings) => self.is_valid() && warnings_of(warnings@) == self.cautions(),
                Err(error) => !self.is_valid() && self.first_error(error),
            },
    {
        let mut warnings: Vec<ConfigValidationWarning<A>> = Vec::new();
        let mut g: usize = 0;
        proof {
            assert(warnings_of(warnings@) =~= self.group_cautions(0));
        }
        while g < self.modifiers.len()
            invariant
                g <= self.modifiers@.len(),
                lawful::<A>() ==> self.fine_modifiers(g as int),
                lawful::<A>() ==> warnings_of(warnings@) == self.group_cautions(g as int),
            decreases self.modifiers@.len() - g,
        {
            let ghost before = warnings@;
            match self.check_modifier(g) {
                Ok(empty) => {
                    if empty {
                        let id = self.modifiers[g].id.clone();
                        warnings.push(ConfigValidationWarning::EmptyModifierGroup(id));
                        proof {
                            assert(warnings_of(warnings@) =~= warnings_of(before).push(
                                Caution::EmptyModifierGroup(self.modifiers@[g as int].id@),
                            ));
                        }
                    }
                },
                Err(error) => {
                    proof {
                        if lawful::<A>() {
                            assert(self.modifier_error(g as int, error));
                            assert(self.repeats_id(g as int) || self.repeats_group(g as int));
                        }
                    }
                    return Err(error);
                },
            }
            proof {
                if lawful::<A>() {
                    self.lemma_fine_modifier(g as int);
                }
            }
            g += 1;
        }
        let ghost odd_groups = self.group_cautions(g as int);
        let mut i: usize = 0;
        proof {
            assert(odd_groups + self.action_cautions(0) =~= odd_groups);
        }
        while i < self.actions.len()
            invariant
                i <= self.actions@.len(),
                odd_groups == self.group_cautions(self.modifiers@.len() as int),
                lawful::<A>() ==> self.fine_modifiers(self.modifiers@.len() as int),
                lawful::<A>() ==> self.fine_actions(i as int),
                lawful::<A>() ==> warnings_of(warnings@) == odd_groups + self.action_cautions(
                    i as int,
                ),
            decreases self.actions@.len() - i,
        {
            let ghost before = warnings@;
            let ghost odd_actions = self.action_cautions(i as int);
            match self.check_action(i) {
                Ok(needless) => {
                    if needless {
                        let copy = self.actions[i].key.clone();
                        proof {
                            if lawful::<A>() {
                                assert(cloned(self.actions@[i as int].key, copy));
                            }
                        }
                        warnings.push(ConfigValidationWarning::ImmediateAction(copy));
                        proof {
                            assert(warnings_of(warnings@) =~= warnings_of(before).push(
                                Caution::ImmediateAction(copy),
                            ));
                            assert((odd_groups + odd_actions).push(Caution::ImmediateAction(copy))
                                =~= odd_groups + odd_actions.push(Caution::ImmediateAction(copy)));
                        }
                    }
                },
                Err(error) => {
                    proof {
                        if lawful::<A>() {
                            assert(self.action_error(i as int, error));
                        }
                    }
                    return Err(error);
                },
            }
            proof {
                if lawful::<A>() {
                    self.lemma_fine_action(i as int);
                }
            }
            i += 1;
        }
        Ok(warnings)
    }
}

/// A handler can be made from a valid configuration: every combo's modifier is defined.
pub proof fn valid_config_defines_modifiers<A: Keycode + Ord, Z: Keycode>(config: &Config<A, Z>)
    requires
        config.is_valid(),
        config.modifiers@.len() <= usize::MAX,
    ensures
        config.defines_modifiers(),
{
    assert forall|i: int, j: int|
        0 <= i < config.actions@.len() && 0 <= j
            < config.actions@[i].modified@.len() implies config.group_named(
        (#[trigger] config.actions@[i].modified@[j]).modifier@,
    ) is Some by {
        let id = config.actions@[i].modified@[j].modifier@;
        assert(!config.repeats_key(i));
        assert(config.fine_combos(i, config.actions@[i].modified@.len() as int));
        assert(config.is_defined(id));
        let g = choose|g: int|
            0 <= g < config.modifiers@.len() && (#[trigger] config.modifiers@[g]).id@ == id;
        lists::lemma_ascending(config.modifiers@.len(), config.groups_named(id));
        assert((config.groups_named(id))(g as usize));
        assert(model::ascending(config.modifiers@.len(), config.groups_named(id)).contains(
            g as usize,
        ));
    }
}

/// In a valid configuration no two modifier groups have the same keys, no two have the same id, no
/// two actions have the same key, and no key modifies itself.
pub proof fn valid_config_is_unambiguous<A: Eq + Hash + Clone + Ord, Z: Eq + Hash>(
    config: &Config<A, Z>,
)
    requires
        config.is_valid(),
    ensures
        forall|g: int, h: int|
            0 <= g < h < config.modifiers@.len() ==> (#[trigger] config.modifiers@[g]).id@ != (
            #[trigger] config.modifiers@[h]).id@ && config.modifiers@[g].keys@
                != config.modifiers@[h].keys@,
        forall|g: int, h: int|
            0 <= g < h < config.actions@.len() ==> (#[trigger] config.actions@[g]).key != (
            #[trigger] config.actions@[h]).key,
        forall|i: int, j: int|
            0 <= i < config.actions@.len() && 0 <= j < config.actions@[i].modified@.len()
                ==> !config.has_member(
                (#[trigger] config.actions@[i].modified@[j]).modifier@,
                config.actions@[i].key,
            ),
{
    assert forall|g: int, h: int| 0 <= g < h < config.modifiers@.len() implies (
    #[trigger] config.modifiers@[g]).id@ != (#[trigger] config.modifiers@[h]).id@
        && config.modifiers@[g].keys@ != config.modifiers@[h].keys@ by {
        assert(config.fine_modifiers(config.modifiers@.len() as int));
        assert(!config.repeats_id(h));
        assert(!config.repeats_group(h));
    }
    assert forall|g: int, h: int| 0 <= g < h < config.actions@.len() implies (
    #[trigger] config.actions@[g]).key != (#[trigger] config.actions@[h]).key by {
        assert(!config.repeats_key(h));
    }
    assert forall|i: int, j: int|
        0 <= i < config.actions@.len() && 0 <= j
            < config.actions@[i].modified@.len() implies !config.has_member(
        (#[trigger] config.actions@[i].modified@[j]).modifier@,
        config.actions@[i].key,
    ) by {
        assert(!config.repeats_key(i));
        assert(config.fine_combos(i, config.actions@[i].modified@.len() as int));
    }
}

} // verus!

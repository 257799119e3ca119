//! Configurations.
use std::collections::HashSet;
use std::hash::Hash;
use vstd::prelude::*;
use vstd::std_specs::hash::obeys_key_model;

verus! {

/// Configuration of a handler.
#[derive(Clone, Debug)]
pub struct Config<A: Eq + Hash, Z: Eq + Hash> {
    /// List of modifier groups.
    pub modifiers: Vec<ModifierDecl<A>>,
    /// List of actions.
    pub actions: Vec<Action<A, Z>>,
}

/// Action definition.
#[derive(Clone, Debug)]
pub struct Action<A: Eq + Hash, Z: Eq + Hash> {
    /// Input action.
    pub key: A,
    /// Optional output action.
    pub action: Option<Z>,
    /// `true` if the action is immediate.
    pub immediate: bool,
    /// List of combos for the input key.
    pub modified: Vec<Combo<Z>>,
    /// `true` if the action is latching.
    pub latching: bool,
}

/// Combo declaration.
#[derive(Clone, Debug)]
pub struct Combo<Z: Eq + Hash> {
    /// Modifier group id, as defined in [`ModifierDecl`].
    pub modifier: String,
    /// Optional output action.
    pub action: Option<Z>,
}

/// Modifier group declaration.
#[derive(Debug, PartialEq, Eq)]
pub struct ModifierDecl<A: Eq + Hash> {
    /// Id of the group.
    pub id: String,
    /// Keycodes of the modifier keys.
    pub keys: HashSet<A>,
    /// `true` if the group is masking.
    pub masking: bool,
}

impl<A: Eq + Hash + Clone> Clone for ModifierDecl<A> {
    fn clone(&self) -> (copy: Self)
        ensures
            copy.id@ == self.id@,
            obeys_key_model::<A>() && (forall|a: A, b: A| cloned(a, b) ==> a == b) ==> copy.keys@
                == self.keys@,
            copy.masking == self.masking,
    {
        ModifierDecl { id: self.id.clone(), keys: clone_keys(&self.keys), masking: self.masking }
    }
}

/// Calls `HashSet::clone`. If clones of keycodes are equal to their originals, the copy holds the
/// same keycodes.
#[verifier::external_body]
fn clone_keys<A: Eq + Hash + Clone>(keys: &HashSet<A>) -> (copy: HashSet<A>)
    ensures
        obeys_key_model::<A>() && (forall|a: A, b: A| cloned(a, b) ==> a == b) ==> copy@ == keys@,
{
    keys.clone()
}

/// Calls `Vec::from_iter` on a `HashSet`. If the type suits a hash table, the list has each
/// keycode of the set once, in an order that is left open.
#[verifier::external_body]
fn list_keys<A: Eq + Hash>(keys: HashSet<A>) -> (list: Vec<A>)
    ensures
        obeys_key_model::<A>() ==> list@.no_duplicates() && list@.to_set() == keys@,
{
    Vec::from_iter(keys)
}

/// Calls `Vec::from_iter` on a reference to a `HashSet`. If the type suits a hash table, the list
/// has each keycode of the set once, in an order that is left open.
#[verifier::external_body]
pub(crate) fn borrow_keys<A: Eq + Hash>(keys: &HashSet<A>) -> (list: Vec<&A>)
    ensures
        obeys_key_model::<A>() ==> list@.unref().no_duplicates() && list@.unref().to_set()
            == keys@,
{
    Vec::from_iter(keys)
}

/// The function may map the value to the other value. Without a value there is nothing to map.
pub open spec fn maps_option<Z, Y, F: FnMut(Z) -> Y>(f: F, from: Option<Z>, to: Option<Y>) -> bool {
    match (from, to) {
        (Some(z), Some(y)) => call_ensures(f, (z,), y),
        (None, None) => true,
        _ => false,
    }
}

/// The function may map the elements of the sequence to those of the other one.
pub open spec fn maps_seq<A, B, F: FnMut(A) -> B>(f: F, from: Seq<A>, to: Seq<B>) -> bool {
    &&& from.len() == to.len()
    &&& forall|i: int| 0 <= i < from.len() ==> call_ensures(f, (from[i],), #[trigger] to[i])
}

/// The function may map the elements of the set to those of the other one.
pub open spec fn maps_set<A, B, F: FnMut(A) -> B>(f: F, from: Set<A>, to: Set<B>) -> bool {
    exists|elements: Seq<A>, images: Seq<B>| #[trigger]
        maps_seq(f, elements, images) && elements.no_duplicates() && elements.to_set() == from
            && images.to_set() == to
}

impl<A: Eq + Hash, Z: Eq + Hash> Config<A, Z> {
    /// The keycodes of the modifier group at a position.
    pub open spec fn keys_of(&self, g: usize) -> Set<A> {
        self.modifiers@[g as int].keys@
    }

    /// The input keycode occurs in the configuration.
    pub open spec fn has_input(&self, a: A) -> bool {
        ||| exists|g: int|
            0 <= g < self.modifiers@.len() && #[trigger] self.modifiers@[g].keys@.contains(a)
        ||| exists|i: int| 0 <= i < self.actions@.len() && #[trigger] self.actions@[i].key == a
    }

    /// The output keycode occurs in the configuration.
    pub open spec fn has_output(&self, z: Z) -> bool {
        ||| exists|i: int|
            0 <= i < self.actions@.len() && #[trigger] self.actions@[i].action == Some(z)
        ||| exists|i: int, j: int|
            0 <= i < self.actions@.len() && 0 <= j < self.actions@[i].modified@.len() && (
            #[trigger] self.actions@[i].modified@[j]).action == Some(z)
    }

    /// Remaps the input keycodes, useful for converting types.
    ///
    /// What becomes of a set of keycodes is only known if the types suit a hash table.
    pub fn map_input<B: Eq + Hash>(self, mut f: impl FnMut(A) -> B) -> (config: Config<B, Z>)
        requires
            forall|a: A|
                self.has_input(a) || !obeys_key_model::<A>() ==> #[trigger] call_requires(f, (a,)),
        ensures
            maps_inputs(f, self, config),
    {
        let ghost f0 = f;
        let ghost from = self;
        let mut modifiers: Vec<ModifierDecl<B>> = Vec::new();
        for group in it: self.modifiers
            invariant
                f == f0,
                it.seq() == from.modifiers@,
                modifiers@.len() == it.index(),
                forall|a: A|
                    from.has_input(a) || !obeys_key_model::<A>() ==> #[trigger] call_requires(
                        f0,
                        (a,),
                    ),
                forall|g: int|
                    0 <= g < modifiers@.len() ==> {
                        &&& (#[trigger] modifiers@[g]).id == from.modifiers@[g].id
                        &&& modifiers@[g].masking == from.modifiers@[g].masking
                        &&& obeys_key_model::<A>() && obeys_key_model::<B>() ==> maps_set(
                            f0,
                            from.modifiers@[g].keys@,
                            modifiers@[g].keys@,
                        )
                    },
        {
            let ghost keys = group.keys@;
            proof {
                assert(group == from.modifiers@[it.index() as int]);
            }
            let list = list_keys(group.keys);
            let ghost elements = list@;
            let mut mapped: HashSet<B> = HashSet::new();
            let ghost mut images: Seq<B> = Seq::empty();
            proof {
                assert(images.to_set() =~= Set::<B>::empty());
                assert forall|i: int| 0 <= i < elements.len() implies #[trigger] call_requires(
                    f0,
                    (elements[i],),
                ) by {
                    if obeys_key_model::<A>() {
                        assert(elements.to_set().contains(elements[i]));
                        assert(from.modifiers@[it.index() as int].keys@.contains(elements[i]));
                        assert(from.has_input(elements[i]));
                    }
                }
            }
            for key in keys_it: list
                invariant
                    f == f0,
                    keys_it.seq() == elements,
                    images.len() == keys_it.index(),
                    forall|i: int|
                        0 <= i < elements.len() ==> #[trigger] call_requires(f0, (elements[i],)),
                    forall|i: int|
                        0 <= i < images.len() ==> call_ensures(
                            f0,
                            (elements[i],),
                            #[trigger] images[i],
                        ),
                    keys_it.index() == elements.len() ==> maps_seq(f0, elements, images),
                    obeys_key_model::<B>() ==> mapped@ == images.to_set(),
            {
                broadcast use vstd::std_specs::hash::group_hash_axioms;

                let image = f(key);
                let ghost before = images;
                proof {
                    images = images.push(image);
                    assert(images.to_set() =~= before.to_set().insert(image)) by {
                        broadcast use vstd::seq_lib::group_seq_properties;

                    }
                }
                mapped.insert(image);
            }
            proof {
                assert(maps_seq(f0, elements, images));
            }
            modifiers.push(
                ModifierDecl { id: group.id, keys: mapped, masking: group.masking },
            );
        }
        let mut actions: Vec<Action<B, Z>> = Vec::new();
        for action in it: self.actions
            invariant
                f == f0,
                it.seq() == from.actions@,
                actions@.len() == it.index(),
                forall|a: A|
                    from.has_input(a) || !obeys_key_model::<A>() ==> #[trigger] call_requires(
                        f0,
                        (a,),
                    ),
                forall|i: int|
                    0 <= i < actions@.len() ==> {
                        &&& call_ensures(
                            f0,
                            (from.actions@[i].key,),
                            (#[trigger] actions@[i]).key,
                        )
                        &&& actions@[i].action == from.actions@[i].action
                        &&& actions@[i].immediate == from.actions@[i].immediate
                        &&& actions@[i].modified == from.actions@[i].modified
                        &&& actions@[i].latching == from.actions@[i].latching
                    },
        {
            proof {
                assert(from.actions@[it.index() as int].key == action.key);
                assert(from.has_input(action.key));
            }
            actions.push(
                Action {
                    key: f(action.key),
                    action: action.action,
                    immediate: action.immediate,
                    modified: action.modified,
                    latching: action.latching,
                },
            );
        }
        Config { modifiers, actions }
    }

    /// Remaps the output keycodes, useful for converting types.
    pub fn map_output<Y: Eq + Hash>(self, mut f: impl FnMut(Z) -> Y) -> (config: Config<A, Y>)
        requires
            forall|z: Z| self.has_output(z) ==> #[trigger] call_requires(f, (z,)),
        ensures
            maps_outputs(f, self, config),
    {
        let ghost f0 = f;
        let ghost from = self;
        let mut actions: Vec<Action<A, Y>> = Vec::new();
        for action in it: self.actions
            invariant
                f == f0,
                it.seq() == from.actions@,
                actions@.len() == it.index(),
                forall|z: Z| from.has_output(z) ==> #[trigger] call_requires(f0, (z,)),
                forall|i: int|
                    0 <= i < actions@.len() ==> {
                        &&& (#[trigger] actions@[i]).key == from.actions@[i].key
                        &&& maps_option(f0, from.actions@[i].action, actions@[i].action)
                        &&& actions@[i].immediate == from.actions@[i].immediate
                        &&& maps_combos(f0, from.actions@[i].modified@, actions@[i].modified@)
                        &&& actions@[i].latching == from.actions@[i].latching
                    },
        {
            let ghost at = it.index() as int;
            let ghost combos = action.modified@;
            proof {
                assert(action == from.actions@[at]);
            }
            let output = match action.action {
                Some(z) => {
                    proof {
                        assert(from.actions@[at].action == Some(z));
                        assert(from.has_output(z));
                    }
                    Some(f(z))
                },
                None => None,
            };
            let mut modified: Vec<Combo<Y>> = Vec::new();
            for combo in combos_it: action.modified
                invariant
                    f == f0,
                    0 <= at < from.actions@.len(),
                    combos == from.actions@[at].modified@,
                    combos_it.seq() == combos,
                    modified@.len() == combos_it.index(),
                    forall|z: Z| from.has_output(z) ==> #[trigger] call_requires(f0, (z,)),
                    forall|j: int|
                        0 <= j < modified@.len() ==> {
                            &&& (#[trigger] modified@[j]).modifier == combos[j].modifier
                            &&& maps_option(f0, combos[j].action, modified@[j].action)
                        },
                    combos_it.index() == combos.len() ==> maps_combos(f0, combos, modified@),
            {
                proof {
                    assert(combo == from.actions@[at].modified@[combos_it.index() as int]);
                }
                let output = match combo.action {
                    Some(z) => {
                        proof {
                            assert(from.actions@[at].modified@[combos_it.index() as int].action
                                == Some(z));
                            assert(from.has_output(z));
                        }
                        Some(f(z))
                    },
                    None => None,
                };
                modified.push(Combo { modifier: combo.modifier, action: output });
            }
            actions.push(
                Action {
                    key: action.key,
                    action: output,
                    immediate: action.immediate,
                    modified,
                    latching: action.latching,
                },
            );
        }
        Config { modifiers: self.modifiers, actions }
    }

    /// What an action lists: itself, and its combos.
    pub open spec fn listed_by(action: &Action<A, Z>) -> Seq<(&A, Option<&String>, &Option<Z>)> {
        seq![(&action.key, None::<&String>, &action.action)] + Seq::new(
            action.modified@.len(),
            |j: int|
                (
                    &action.key,
                    Some(&action.modified@[j].modifier),
                    &action.modified@[j].action,
                ),
        )
    }

    /// What the first `n` actions list.
    pub open spec fn listed(&self, n: nat) -> Seq<(&A, Option<&String>, &Option<Z>)>
        decreases n,
    {
        if n == 0 {
            Seq::empty()
        } else {
            self.listed((n - 1) as nat) + Self::listed_by(&self.actions@[n - 1])
        }
    }

    /// Lists all actions and combos, as tuples of:
    ///
    /// * input keycode
    /// * optional modifier group id (`None` if not a combo)
    /// * (optional) output keycode
    pub fn iter_actions(&self) -> (entries: Vec<(&A, Option<&String>, &Option<Z>)>)
        ensures
            entries@ == self.listed(self.actions@.len()),
    {
        let mut entries: Vec<(&A, Option<&String>, &Option<Z>)> = Vec::new();
        let mut i: usize = 0;
        while i < self.actions.len()
            invariant
                i <= self.actions@.len(),
                entries@ == self.listed(i as nat),
            decreases self.actions@.len() - i,
        {
            let ghost before = entries@;
            let action = &self.actions[i];
            let ghost more = Self::listed_by(action);
            entries.push((&action.key, None, &action.action));
            let mut j: usize = 0;
            proof {
                assert(entries@ =~= before + more.take(1));
            }
            while j < action.modified.len()
                invariant
                    j <= action.modified@.len(),
                    more == Self::listed_by(action),
                    entries@ == before + more.take(j + 1),
                decreases action.modified@.len() - j,
            {
                let combo = &action.modified[j];
                entries.push((&action.key, Some(&combo.modifier), &combo.action));
                proof {
                    assert(entries@ =~= before + more.take(j + 2));
                }
                j += 1;
            }
            proof {
                assert(more.take(j + 1) =~= more);
            }
            i += 1;
        }
        entries
    }
}

/// The function may map the actions of the combos, which keep their modifiers.
pub open spec fn maps_combos<Z: Eq + Hash, Y: Eq + Hash, F: FnMut(Z) -> Y>(
    f: F,
    from: Seq<Combo<Z>>,
    to: Seq<Combo<Y>>,
) -> bool {
    &&& to.len() == from.len()
    &&& forall|j: int|
        0 <= j < from.len() ==> {
            &&& (#[trigger] to[j]).modifier == from[j].modifier
            &&& maps_option(f, from[j].action, to[j].action)
        }
}

/// The function may map the input keycodes of the configuration to those of the other one, and the
/// rest is the same. What becomes of a set of keycodes is only known if the types suit a hash table.
pub open spec fn maps_inputs<A: Eq + Hash, B: Eq + Hash, Z: Eq + Hash, F: FnMut(A) -> B>(
    f: F,
    from: Config<A, Z>,
    to: Config<B, Z>,
) -> bool {
    &&& to.modifiers@.len() == from.modifiers@.len()
    &&& forall|g: int|
        0 <= g < from.modifiers@.len() ==> {
            &&& (#[trigger] to.modifiers@[g]).id == from.modifiers@[g].id
            &&& to.modifiers@[g].masking == from.modifiers@[g].masking
            &&& obeys_key_model::<A>() && obeys_key_model::<B>() ==> maps_set(
                f,
                from.modifiers@[g].keys@,
                to.modifiers@[g].keys@,
            )
        }
    &&& to.actions@.len() == from.actions@.len()
    &&& forall|i: int|
        0 <= i < from.actions@.len() ==> {
            &&& call_ensures(f, (from.actions@[i].key,), (#[trigger] to.actions@[i]).key)
            &&& to.actions@[i].action == from.actions@[i].action
            &&& to.actions@[i].immediate == from.actions@[i].immediate
            &&& to.actions@[i].modified == from.actions@[i].modified
            &&& to.actions@[i].latching == from.actions@[i].latching
        }
}

/// The function may map the output keycodes of the configuration to those of the other one, and the
/// rest is the same.
pub open spec fn maps_outputs<A: Eq + Hash, Z: Eq + Hash, Y: Eq + Hash, F: FnMut(Z) -> Y>(
    f: F,
    from: Config<A, Z>,
    to: Config<A, Y>,
) -> bool {
    &&& to.modifiers == from.modifiers
    &&& to.actions@.len() == from.actions@.len()
    &&& forall|i: int|
        0 <= i < from.actions@.len() ==> {
            &&& (#[trigger] to.actions@[i]).key == from.actions@[i].key
            &&& maps_option(f, from.actions@[i].action, to.actions@[i].action)
            &&& to.actions@[i].immediate == from.actions@[i].immediate
            &&& maps_combos(f, from.actions@[i].modified@, to.actions@[i].modified@)
            &&& to.actions@[i].latching == from.actions@[i].latching
        }
}

/// Remapping the input keycodes keeps the list of actions and combos, but for the input keycodes.
pub proof fn map_input_keeps_entries<A: Eq + Hash, B: Eq + Hash, Z: Eq + Hash, F: FnMut(A) -> B>(
    f: F,
    from: Config<A, Z>,
    to: Config<B, Z>,
    n: nat,
)
    requires
        maps_inputs(f, from, to),
        n <= from.actions@.len(),
    ensures
        to.listed(n).len() == from.listed(n).len(),
        forall|i: int|
            0 <= i < from.listed(n).len() ==> {
                &&& call_ensures(f, (*from.listed(n)[i].0,), *(#[trigger] to.listed(n)[i]).0)
                &&& to.listed(n)[i].1 == from.listed(n)[i].1
                &&& to.listed(n)[i].2 == from.listed(n)[i].2
            },
    decreases n,
{
    if n > 0 {
        let m = (n - 1) as nat;
        map_input_keeps_entries(f, from, to, m);
        let a = Config::<A, Z>::listed_by(&from.actions@[n - 1]);
        let b = Config::<B, Z>::listed_by(&to.actions@[n - 1]);
        assert(to.actions@[n - 1].modified == from.actions@[n - 1].modified);
        assert(b.len() == a.len());
        assert forall|i: int| 0 <= i < a.len() implies call_ensures(
            f,
            (*a[i].0,),
            *(#[trigger] b[i]).0,
        ) && b[i].1 == a[i].1 && b[i].2 == a[i].2 by {}
        let k = from.listed(m).len();
        assert forall|i: int| 0 <= i < from.listed(n).len() implies {
            &&& call_ensures(f, (*from.listed(n)[i].0,), *(#[trigger] to.listed(n)[i]).0)
            &&& to.listed(n)[i].1 == from.listed(n)[i].1
            &&& to.listed(n)[i].2 == from.listed(n)[i].2
        } by {
            if i < k {
                assert(to.listed(n)[i] == to.listed(m)[i]);
                assert(from.listed(n)[i] == from.listed(m)[i]);
            } else {
                assert(to.listed(n)[i] == b[i - k]);
                assert(from.listed(n)[i] == a[i - k]);
            }
        }
    }
}

/// Remapping the output keycodes keeps the list of actions and combos, but for the output keycodes.
pub proof fn map_output_keeps_entries<A: Eq + Hash, Z: Eq + Hash, Y: Eq + Hash, F: FnMut(Z) -> Y>(
    f: F,
    from: Config<A, Z>,
    to: Config<A, Y>,
    n: nat,
)
    requires
        maps_outputs(f, from, to),
        n <= from.actions@.len(),
    ensures
        to.listed(n).len() == from.listed(n).len(),
        forall|i: int|
            0 <= i < from.listed(n).len() ==> {
                &&& (#[trigger] to.listed(n)[i]).0 == from.listed(n)[i].0
                &&& to.listed(n)[i].1 == from.listed(n)[i].1
                &&& maps_option(f, *from.listed(n)[i].2, *to.listed(n)[i].2)
            },
    decreases n,
{
    if n > 0 {
        let m = (n - 1) as nat;
        map_output_keeps_entries(f, from, to, m);
        let a = Config::<A, Z>::listed_by(&from.actions@[n - 1]);
        let b = Config::<A, Y>::listed_by(&to.actions@[n - 1]);
        assert(maps_combos(
            f,
            from.actions@[n - 1].modified@,
            to.actions@[n - 1].modified@,
        ));
        assert(b.len() == a.len());
        assert forall|i: int| 0 <= i < a.len() implies (#[trigger] b[i]).0 == a[i].0 && b[i].1
            == a[i].1 && maps_option(f, *a[i].2, *b[i].2) by {
            if i > 0 {
                assert(to.actions@[n - 1].modified@[i - 1].modifier
                    == from.actions@[n - 1].modified@[i - 1].modifier);
            }
        }
        let k = from.listed(m).len();
        assert forall|i: int| 0 <= i < from.listed(n).len() implies {
            &&& (#[trigger] to.listed(n)[i]).0 == from.listed(n)[i].0
            &&& to.listed(n)[i].1 == from.listed(n)[i].1
            &&& maps_option(f, *from.listed(n)[i].2, *to.listed(n)[i].2)
        } by {
            if i < k {
                assert(to.listed(n)[i] == to.listed(m)[i]);
                assert(from.listed(n)[i] == from.listed(m)[i]);
            } else {
                assert(to.listed(n)[i] == b[i - k]);
                assert(from.listed(n)[i] == a[i - k]);
            }
        }
    }
}

} // verus!

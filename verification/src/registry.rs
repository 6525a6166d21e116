//! The counter registry.
//!
//! A registry maps counter names to their current values.  The default
//! counter's name is `None`; a named counter's name is the byte text between
//! the marker and its closing underscore.  A counter that was never set
//! reads as zero, matching lazy creation at the initial value.  The registry
//! is created empty per invocation and no state outlives the invocation.

use vstd::prelude::*;
use crate::matcher::name_model;
use crate::token::bytes_eq;

verus! {

/// The value of counter `name` under the model map `m`: its entry, or zero
/// while no entry exists yet.
pub open spec fn counter_value(m: Map<Option<Seq<u8>>, usize>, name: Option<Seq<u8>>) -> usize {
    if m.dom().contains(name) {
        m[name]
    } else {
        0usize
    }
}

/// The map that a list of names and a list of values denote, later entries
/// winning.
pub open spec fn map_of_lists(names: Seq<Option<Seq<u8>>>, values: Seq<usize>) -> Map<
    Option<Seq<u8>>,
    usize,
>
    decreases names.len(),
{
    if names.len() == 0 || values.len() == 0 {
        Map::empty()
    } else {
        map_of_lists(names.drop_last(), values.drop_last()).insert(names.last(), values.last())
    }
}

/// A counter registry: parallel lists of distinct names and their values.
pub struct Registry {
    names: Vec<Option<Vec<u8>>>,
    values: Vec<usize>,
}

impl Registry {
    /// The names as the model sees them.
    pub closed spec fn names_model(self) -> Seq<Option<Seq<u8>>> {
        Seq::new(self.names@.len(), |i: int| name_model(self.names@[i]))
    }

    /// The registry as a map from counter name to value.
    pub closed spec fn map_of(self) -> Map<Option<Seq<u8>>, usize> {
        map_of_lists(self.names_model(), self.values@)
    }

    /// Well-formed: one value per name, each name listed once.
    pub closed spec fn wf(self) -> bool {
        &&& self.names@.len() == self.values@.len()
        &&& forall|i: int, j: int|
            0 <= i < j < self.names@.len() ==> self.names_model()[i] != self.names_model()[j]
    }

    /// A fresh, empty registry: every counter reads as zero.
    pub fn new() -> (r: Registry)
        ensures
            r.wf(),
            r.map_of() == Map::<Option<Seq<u8>>, usize>::empty(),
    {
        Registry { names: Vec::new(), values: Vec::new() }
    }

    /// The current value of counter `name`; zero while the counter has never
    /// been set.
    pub fn get(&self, name: &Option<Vec<u8>>) -> (v: usize)
        requires
            self.wf(),
        ensures
            v == counter_value(self.map_of(), name_model(*name)),
    {
        let n = self.names.len();
        let mut i: usize = 0;
        while i < n
            invariant
                self.wf(),
                i <= n == self.names@.len(),
                forall|j: int| 0 <= j < i ==> self.names_model()[j] != name_model(*name),
            decreases n - i,
        {
            if name_eq(&self.names[i], name) {
                proof {
                    lemma_map_of_lists_found(
                        self.names_model(),
                        self.values@,
                        i as int,
                    );
                }
                return self.values[i];
            }
            i = i + 1;
        }
        proof {
            lemma_map_of_lists_absent(self.names_model(), self.values@, name_model(*name));
        }
        0
    }

    /// Sets counter `name` to `v`, creating its entry if none exists.
    pub fn set(&mut self, name: Option<Vec<u8>>, v: usize)
        requires
            old(self).wf(),
        ensures
            final(self).wf(),
            final(self).map_of() == old(self).map_of().insert(name_model(name), v),
    {
        let n = self.names.len();
        let mut i: usize = 0;
        while i < n
            invariant
                self.wf(),
                self == old(self),
                i <= n == self.names@.len(),
                forall|j: int| 0 <= j < i ==> self.names_model()[j] != name_model(name),
            decreases n - i,
        {
            if name_eq(&self.names[i], &name) {
                self.values.set(i, v);
                proof {
                    assert(self.names_model() =~= old(self).names_model());
                    lemma_map_of_lists_update(
                        old(self).names_model(),
                        old(self).values@,
                        i as int,
                        v,
                    );
                    assert(self.map_of() =~= old(self).map_of().insert(name_model(name), v));
                }
                return;
            }
            i = i + 1;
        }
        self.names.push(name);
        self.values.push(v);
        proof {
            assert(self.names_model() =~= old(self).names_model().push(name_model(name)));
            assert(self.names_model().drop_last() =~= old(self).names_model());
            assert(self.values@.drop_last() =~= old(self).values@);
        }
    }
}

/// Whether two counter names are the same name.
pub fn name_eq(a: &Option<Vec<u8>>, b: &Option<Vec<u8>>) -> (r: bool)
    ensures
        r <==> name_model(*a) == name_model(*b),
{
    match (a, b) {
        (Option::Some(x), Option::Some(y)) => bytes_eq(x, y),
        (Option::None, Option::None) => true,
        _ => false,
    }
}

/// A listed name's entry is in the map with its listed value.
proof fn lemma_map_of_lists_found(names: Seq<Option<Seq<u8>>>, values: Seq<usize>, i: int)
    requires
        names.len() == values.len(),
        0 <= i < names.len(),
        forall|p: int, q: int| 0 <= p < q < names.len() ==> names[p] != names[q],
    ensures
        map_of_lists(names, values).dom().contains(names[i]),
        map_of_lists(names, values)[names[i]] == values[i],
    decreases names.len(),
{
    if i + 1 < names.len() {
        lemma_map_of_lists_found(names.drop_last(), values.drop_last(), i);
    }
}

/// A name listed nowhere has no entry in the map.
proof fn lemma_map_of_lists_absent(
    names: Seq<Option<Seq<u8>>>,
    values: Seq<usize>,
    k: Option<Seq<u8>>,
)
    requires
        names.len() == values.len(),
        forall|j: int| 0 <= j < names.len() ==> names[j] != k,
    ensures
        !map_of_lists(names, values).dom().contains(k),
    decreases names.len(),
{
    if names.len() > 0 {
        lemma_map_of_lists_absent(names.drop_last(), values.drop_last(), k);
    }
}

/// Updating one listed value is inserting over that name.
proof fn lemma_map_of_lists_update(
    names: Seq<Option<Seq<u8>>>,
    values: Seq<usize>,
    i: int,
    v: usize,
)
    requires
        names.len() == values.len(),
        0 <= i < names.len(),
        forall|p: int, q: int| 0 <= p < q < names.len() ==> names[p] != names[q],
    ensures
        map_of_lists(names, values.update(i, v)) =~= map_of_lists(names, values).insert(
            names[i],
            v,
        ),
    decreases names.len(),
{
    if i + 1 == names.len() {
        assert(values.update(i, v).drop_last() =~= values.drop_last());
        assert(values.update(i, v).last() == v);
    } else {
        assert(values.update(i, v).drop_last() =~= values.drop_last().update(i, v));
        lemma_map_of_lists_update(names.drop_last(), values.drop_last(), i, v);
    }
}

} // verus!

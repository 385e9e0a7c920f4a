//! A plain-value model of the live entity-component store.
//!
//! The host application's store groups entities into archetypes: disjoint
//! sets of entities sharing an identical component-type set. The query
//! engine only reads component names, archetype membership, entity lists
//! and per-entity component values, so the store is modelled as exactly
//! that data. Component metadata is a list of names whose indices serve
//! as component ids.

use vstd::prelude::*;

use crate::ecs::{Component, Entity};

verus! {

/// One archetype: the set of component ids its entities share, its
/// entities in iteration order, and one row of component values per
/// entity, aligned with `component_ids`.
pub struct Archetype {
    pub component_ids: Vec<usize>,
    pub entities: Vec<Entity>,
    pub rows: Vec<Vec<Component>>,
}

impl Archetype {
    /// Whether this archetype is well-shaped for a store with
    /// `n_components` registered component types: ids in range and
    /// distinct, one row per entity, one value per component.
    pub open spec fn wf(&self, n_components: nat) -> bool {
        &&& forall|k: int|
            0 <= k < self.component_ids@.len() ==> (#[trigger] self.component_ids@[k] as nat)
                < n_components
        &&& forall|k1: int, k2: int|
            0 <= k1 < k2 < self.component_ids@.len() ==> #[trigger] self.component_ids@[k1]
                != #[trigger] self.component_ids@[k2]
        &&& self.rows@.len() == self.entities@.len()
        &&& forall|e: int|
            0 <= e < self.rows@.len() ==> (#[trigger] self.rows@[e])@.len()
                == self.component_ids@.len()
    }

    /// Whether the archetype's component set holds the given id.
    pub open spec fn spec_contains_id(&self, id: int) -> bool {
        exists|k: int| 0 <= k < self.component_ids@.len() && self.component_ids@[k] == id
    }

    /// The position of a component id within this archetype's id list.
    pub open spec fn idx_of(&self, id: int) -> int {
        choose|k: int| 0 <= k < self.component_ids@.len() && self.component_ids@[k] == id
    }

    /// Checks this archetype's shape against a component table size.
    pub fn check_wf(&self, n_components: usize) -> (r: bool)
        ensures
            r == self.wf(n_components as nat),
    {
        let mut k: usize = 0;
        while k < self.component_ids.len()
            invariant
                k <= self.component_ids@.len(),
                forall|t: int|
                    0 <= t < k ==> (#[trigger] self.component_ids@[t] as nat) < n_components,
            decreases self.component_ids@.len() - k,
        {
            if self.component_ids[k] >= n_components {
                return false;
            }
            k = k + 1;
        }
        let mut k1: usize = 0;
        while k1 < self.component_ids.len()
            invariant
                k1 <= self.component_ids@.len(),
                forall|t: int|
                    0 <= t < self.component_ids@.len() ==> (#[trigger] self.component_ids@[t] as nat)
                        < n_components,
                forall|t1: int, t2: int|
                    0 <= t1 < k1 && t1 < t2 < self.component_ids@.len()
                        ==> #[trigger] self.component_ids@[t1] != #[trigger] self.component_ids@[t2],
            decreases self.component_ids@.len() - k1,
        {
            let mut k2: usize = k1 + 1;
            while k2 < self.component_ids.len()
                invariant
                    k1 < k2 <= self.component_ids@.len(),
                    forall|t2: int|
                        k1 < t2 < k2 ==> self.component_ids@[k1 as int]
                            != #[trigger] self.component_ids@[t2],
                decreases self.component_ids@.len() - k2,
            {
                if self.component_ids[k1] == self.component_ids[k2] {
                    return false;
                }
                k2 = k2 + 1;
            }
            k1 = k1 + 1;
        }
        if self.rows.len() != self.entities.len() {
            return false;
        }
        let mut e: usize = 0;
        while e < self.rows.len()
            invariant
                e <= self.rows@.len(),
                self.rows@.len() == self.entities@.len(),
                forall|t: int|
                    0 <= t < self.component_ids@.len() ==> (#[trigger] self.component_ids@[t] as nat)
                        < n_components,
                forall|t1: int, t2: int|
                    0 <= t1 < t2 < self.component_ids@.len() ==> #[trigger] self.component_ids@[t1]
                        != #[trigger] self.component_ids@[t2],
                forall|t: int|
                    0 <= t < e ==> (#[trigger] self.rows@[t])@.len() == self.component_ids@.len(),
            decreases self.rows@.len() - e,
        {
            if self.rows[e].len() != self.component_ids.len() {
                return false;
            }
            e = e + 1;
        }
        true
    }

    /// Whether the archetype's component set holds the given id, by scan.
    pub fn contains_id(&self, id: usize) -> (r: bool)
        ensures
            r == self.spec_contains_id(id as int),
    {
        let mut k: usize = 0;
        while k < self.component_ids.len()
            invariant
                k <= self.component_ids@.len(),
                forall|t: int| 0 <= t < k ==> self.component_ids@[t] != id,
            decreases self.component_ids@.len() - k,
        {
            if self.component_ids[k] == id {
                return true;
            }
            k = k + 1;
        }
        false
    }

    /// The position of a component id within this archetype's id list,
    /// by scan; the id must be present.
    #[verifier::loop_isolation(false)]
    pub fn find_id(&self, id: usize) -> (r: usize)
        requires
            self.spec_contains_id(id as int),
            forall|k1: int, k2: int|
                0 <= k1 < k2 < self.component_ids@.len() ==> #[trigger] self.component_ids@[k1]
                    != #[trigger] self.component_ids@[k2],
        ensures
            r == self.idx_of(id as int),
            0 <= r < self.component_ids@.len(),
            self.component_ids@[r as int] == id,
    {
        let mut k: usize = 0;
        while k < self.component_ids.len()
            invariant
                k <= self.component_ids@.len(),
                forall|t: int| 0 <= t < k ==> self.component_ids@[t] != id,
            decreases self.component_ids@.len() - k,
        {
            if self.component_ids[k] == id {
                proof {
                    let w = self.idx_of(id as int);
                    assert(0 <= w < self.component_ids@.len() && self.component_ids@[w] == id);
                    if w < k {
                        assert(false);
                    }
                    if w > k {
                        assert(self.component_ids@[k as int] != self.component_ids@[w]);
                        assert(false);
                    }
                }
                return k;
            }
            k = k + 1;
        }
        proof {
            let w = self.idx_of(id as int);
            assert(self.component_ids@[w] == id);
            assert(false);
        }
        0
    }
}

/// The plain-value model of the live store.
pub struct Store {
    pub component_names: Vec<String>,
    pub archetypes: Vec<Archetype>,
}

impl Store {
    /// Whether the store is well-shaped: every archetype is well-shaped
    /// for its component table.
    pub open spec fn wf(&self) -> bool {
        forall|a: int|
            0 <= a < self.archetypes@.len() ==> (#[trigger] self.archetypes@[a]).wf(
                self.component_names@.len(),
            )
    }

    /// Checks the store's shape, so that an embedder can validate data it
    /// assembled from a live store before querying it.
    pub fn check_wf(&self) -> (r: bool)
        ensures
            r == self.wf(),
    {
        let n = self.component_names.len();
        let mut a: usize = 0;
        while a < self.archetypes.len()
            invariant
                a <= self.archetypes@.len(),
                forall|t: int|
                    0 <= t < a ==> (#[trigger] self.archetypes@[t]).wf(
                        self.component_names@.len(),
                    ),
                n == self.component_names@.len(),
            decreases self.archetypes@.len() - a,
        {
            if !self.archetypes[a].check_wf(n) {
                return false;
            }
            a = a + 1;
        }
        true
    }
}

/// Resolution of a component name against the store's component table:
/// the first index whose name matches exactly, if any.
pub open spec fn spec_resolve(names: Seq<String>, name: Seq<char>) -> Option<int>
    decreases names.len(),
{
    if names.len() == 0 {
        None
    } else if names[0]@ == name {
        Some(0int)
    } else {
        match spec_resolve(names.drop_first(), name) {
            Some(k) => Some(k + 1),
            None => None,
        }
    }
}

/// What resolution returns: the first matching index, or nothing when no
/// name matches.
pub proof fn lemma_resolve_props(names: Seq<String>, name: Seq<char>)
    ensures
        match spec_resolve(names, name) {
            Some(k) => 0 <= k < names.len() && names[k]@ == name && (forall|t: int|
                0 <= t < k ==> names[t]@ != name),
            None => forall|t: int| 0 <= t < names.len() ==> names[t]@ != name,
        },
    decreases names.len(),
{
    if names.len() > 0 && names[0]@ != name {
        lemma_resolve_props(names.drop_first(), name);
        match spec_resolve(names.drop_first(), name) {
            Some(k) => {
                assert forall|t: int| 0 <= t < k + 1 implies names[t]@ != name by {
                    if t > 0 {
                        assert(names.drop_first()[t - 1]@ != name);
                    }
                }
            },
            None => {
                assert forall|t: int| 0 <= t < names.len() implies names[t]@ != name by {
                    if t > 0 {
                        assert(names.drop_first()[t - 1]@ != name);
                    }
                }
            },
        }
    }
}

/// A scan that matched at `k` after `k` mismatches is what resolution
/// returns; a scan that ran out is a failed resolution.
proof fn lemma_resolve_at(names: Seq<String>, name: Seq<char>, k: int)
    requires
        0 <= k <= names.len(),
        forall|t: int| 0 <= t < k ==> names[t]@ != name,
    ensures
        (k < names.len() && names[k]@ == name) ==> spec_resolve(names, name) == Some(k),
        k == names.len() ==> spec_resolve(names, name) is None,
    decreases names.len(),
{
    if names.len() > 0 {
        if k == 0 {
            if names[0]@ == name {
            } else {
                lemma_resolve_props(names, name);
            }
        } else {
            assert(names[0]@ != name);
            assert forall|t: int| 0 <= t < k - 1 implies names.drop_first()[t]@ != name by {
                assert(names[t + 1]@ != name);
            }
            lemma_resolve_at(names.drop_first(), name, k - 1);
            if k < names.len() && names[k]@ == name {
                assert(names.drop_first()[k - 1]@ == name);
            }
        }
    }
}

/// Resolves a component name against the store's component table by
/// exact string match, returning the first matching index.
pub fn resolve(names: &Vec<String>, name: &String) -> (r: Option<usize>)
    ensures
        match r {
            Some(k) => spec_resolve(names@, name@) == Some(k as int),
            None => spec_resolve(names@, name@) is None,
        },
{
    let mut k: usize = 0;
    while k < names.len()
        invariant
            k <= names@.len(),
            forall|t: int| 0 <= t < k ==> names@[t]@ != name@,
        decreases names@.len() - k,
    {
        if names[k] == *name {
            proof {
                lemma_resolve_at(names@, name@, k as int);
            }
            return Some(k);
        }
        k = k + 1;
    }
    proof {
        lemma_resolve_at(names@, name@, names@.len() as int);
    }
    None
}

} // verus!

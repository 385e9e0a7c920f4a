//! The dynamic query engine.
//!
//! A query names components and filters by string; the engine resolves
//! every name against the live store's component table at request time,
//! selects the archetypes whose component sets satisfy the query, and
//! projects each of their entities into one result row.
//!
//! Resolution is strict for selected names — an unknown selected
//! component fails the whole query — and lenient for filter names: an
//! unresolved filter clause is dropped. `Changed` clauses are recognized
//! but constrain nothing; their change-detection semantics are left
//! unspecified.

use vstd::prelude::*;

use crate::ecs::{clone_component, component_model, Component};
use crate::query::{
    item_model, item_models, query_model, Filter, FilterModel, Query, QueryFetch, QueryFetchItem,
    QueryFetchItemModel, QueryModel,
};
use crate::runtime::WabiError;
use crate::store::{spec_resolve, resolve, Archetype, Store};

verus! {

/// Whether every selected component name resolves against the store.
pub open spec fn sel_resolved(store: Store, sel: Seq<Seq<char>>) -> bool {
    forall|t: int|
        0 <= t < sel.len() ==> spec_resolve(store.component_names@, #[trigger] sel[t]) is Some
}

/// Whether an archetype satisfies a query: all resolved `With` components
/// present, all resolved `Without` components absent, all selected
/// components present. Unresolved filter clauses and `Changed` clauses
/// constrain nothing.
pub open spec fn arch_matches(store: Store, arch: Archetype, qm: QueryModel) -> bool {
    &&& forall|t: int|
        0 <= t < qm.filters.len() ==> match #[trigger] qm.filters[t] {
            FilterModel::With(nm) => match spec_resolve(store.component_names@, nm) {
                Some(id) => arch.spec_contains_id(id),
                None => true,
            },
            FilterModel::Without(nm) => match spec_resolve(store.component_names@, nm) {
                Some(id) => !arch.spec_contains_id(id),
                None => true,
            },
            FilterModel::Changed(_) => true,
        }
    &&& forall|t: int|
        0 <= t < qm.components.len() ==> match spec_resolve(
            store.component_names@,
            #[trigger] qm.components[t],
        ) {
            Some(id) => arch.spec_contains_id(id),
            None => true,
        }
}

/// The rows one matching archetype contributes: one per entity, in
/// entity order, each carrying the selected components in request order.
pub open spec fn arch_items(store: Store, arch: Archetype, sel: Seq<Seq<char>>) -> Seq<
    QueryFetchItemModel,
> {
    Seq::new(
        arch.entities@.len(),
        |e: int|
            QueryFetchItemModel {
                entity: arch.entities@[e],
                components: Seq::new(
                    sel.len(),
                    |k: int|
                        component_model(
                            arch.rows@[e]@[arch.idx_of(
                                spec_resolve(store.component_names@, sel[k])->0,
                            )],
                        ),
                ),
            },
    )
}

/// The rows contributed by the first `a` archetypes, in archetype order.
pub open spec fn items_upto(store: Store, qm: QueryModel, a: int) -> Seq<QueryFetchItemModel>
    decreases a,
{
    if a <= 0 {
        Seq::empty()
    } else {
        items_upto(store, qm, a - 1) + (if arch_matches(store, store.archetypes@[a - 1], qm) {
            arch_items(store, store.archetypes@[a - 1], qm.components)
        } else {
            Seq::empty()
        })
    }
}

/// The full result of a query: rows in archetype traversal order, then
/// intra-archetype entity order.
pub open spec fn spec_query_items(store: Store, qm: QueryModel) -> Seq<QueryFetchItemModel> {
    items_upto(store, qm, store.archetypes@.len() as int)
}

/// Whether an archetype satisfies the query, by scanning its filters and
/// selected names.
fn archetype_matches(store: &Store, arch: &Archetype, query: &Query, sel_ids: &Vec<usize>) -> (r:
    bool)
    requires
        sel_ids@.len() == query.components@.len(),
        forall|u: int|
            0 <= u < sel_ids@.len() ==> spec_resolve(
                store.component_names@,
                query_model(*query).components[u],
            ) == Some(#[trigger] sel_ids@[u] as int),
    ensures
        r == arch_matches(*store, *arch, query_model(*query)),
{
    let ghost qm = query_model(*query);
    let mut t: usize = 0;
    while t < query.filters.len()
        invariant
            t <= query.filters@.len(),
            qm == query_model(*query),
            forall|u: int|
                0 <= u < t ==> match #[trigger] qm.filters[u] {
                    FilterModel::With(nm) => match spec_resolve(store.component_names@, nm) {
                        Some(id) => arch.spec_contains_id(id),
                        None => true,
                    },
                    FilterModel::Without(nm) => match spec_resolve(store.component_names@, nm) {
                        Some(id) => !arch.spec_contains_id(id),
                        None => true,
                    },
                    FilterModel::Changed(_) => true,
                },
        decreases query.filters@.len() - t,
    {
        match &query.filters[t] {
            Filter::With(nm) => {
                match resolve(&store.component_names, nm) {
                    Some(id) => {
                        if !arch.contains_id(id) {
                            proof {
                                assert(qm.filters[t as int] == FilterModel::With(nm@));
                            }
                            return false;
                        }
                    },
                    None => {},
                }
            },
            Filter::Without(nm) => {
                match resolve(&store.component_names, nm) {
                    Some(id) => {
                        if arch.contains_id(id) {
                            proof {
                                assert(qm.filters[t as int] == FilterModel::Without(nm@));
                            }
                            return false;
                        }
                    },
                    None => {},
                }
            },
            Filter::Changed(_) => {},
        }
        t = t + 1;
    }
    let mut k: usize = 0;
    while k < sel_ids.len()
        invariant
            k <= sel_ids@.len(),
            sel_ids@.len() == query.components@.len(),
            qm == query_model(*query),
            forall|u: int|
                0 <= u < sel_ids@.len() ==> spec_resolve(store.component_names@, qm.components[u])
                    == Some(#[trigger] sel_ids@[u] as int),
            forall|u: int|
                0 <= u < qm.filters.len() ==> match #[trigger] qm.filters[u] {
                    FilterModel::With(nm) => match spec_resolve(store.component_names@, nm) {
                        Some(id) => arch.spec_contains_id(id),
                        None => true,
                    },
                    FilterModel::Without(nm) => match spec_resolve(store.component_names@, nm) {
                        Some(id) => !arch.spec_contains_id(id),
                        None => true,
                    },
                    FilterModel::Changed(_) => true,
                },
            forall|u: int|
                0 <= u < k ==> arch.spec_contains_id(#[trigger] sel_ids@[u] as int),
        decreases sel_ids@.len() - k,
    {
        if !arch.contains_id(sel_ids[k]) {
            proof {
                assert(spec_resolve(store.component_names@, qm.components[k as int]) == Some(
                    sel_ids@[k as int] as int,
                ));
            }
            return false;
        }
        k = k + 1;
    }
    proof {
        assert forall|t2: int|
            0 <= t2 < qm.components.len() implies match spec_resolve(
            store.component_names@,
            #[trigger] qm.components[t2],
        ) {
            Some(id) => arch.spec_contains_id(id),
            None => true,
        } by {
            assert(spec_resolve(store.component_names@, qm.components[t2]) == Some(
                sel_ids@[t2] as int,
            ));
            assert(arch.spec_contains_id(sel_ids@[t2] as int));
        }
    }
    true
}

/// Projects every entity of a matching archetype into one result row,
/// appending the rows to `out`.
fn project_archetype(
    store: &Store,
    arch: &Archetype,
    query: &Query,
    sel_ids: &Vec<usize>,
    out: &mut Vec<QueryFetchItem>,
)
    requires
        arch.wf(store.component_names@.len()),
        sel_ids@.len() == query.components@.len(),
        forall|u: int|
            0 <= u < sel_ids@.len() ==> spec_resolve(
                store.component_names@,
                query_model(*query).components[u],
            ) == Some(#[trigger] sel_ids@[u] as int),
        arch_matches(*store, *arch, query_model(*query)),
    ensures
        item_models(final(out)@) == item_models(old(out)@) + arch_items(
            *store,
            *arch,
            query_model(*query).components,
        ),
{
    let ghost qm = query_model(*query);
    let ghost target = arch_items(*store, *arch, qm.components);
    let mut e: usize = 0;
    proof {
        assert(item_models(out@) =~= item_models(old(out)@) + target.take(0));
    }
    while e < arch.entities.len()
        invariant
            e <= arch.entities@.len(),
            arch.wf(store.component_names@.len()),
            sel_ids@.len() == query.components@.len(),
            qm == query_model(*query),
            target == arch_items(*store, *arch, qm.components),
            forall|u: int|
                0 <= u < sel_ids@.len() ==> spec_resolve(store.component_names@, qm.components[u])
                    == Some(#[trigger] sel_ids@[u] as int),
            arch_matches(*store, *arch, qm),
            item_models(out@) == item_models(old(out)@) + target.take(e as int),
        decreases arch.entities@.len() - e,
    {
        let mut comps: Vec<Component> = Vec::new();
        let mut k: usize = 0;
        while k < sel_ids.len()
            invariant
                k <= sel_ids@.len(),
                e < arch.entities@.len(),
                arch.wf(store.component_names@.len()),
                sel_ids@.len() == query.components@.len(),
                qm == query_model(*query),
                forall|u: int|
                    0 <= u < sel_ids@.len() ==> spec_resolve(
                        store.component_names@,
                        qm.components[u],
                    ) == Some(#[trigger] sel_ids@[u] as int),
                arch_matches(*store, *arch, qm),
                comps@.len() == k,
                forall|u: int|
                    0 <= u < k ==> component_model(#[trigger] comps@[u]) == component_model(
                        arch.rows@[e as int]@[arch.idx_of(
                            spec_resolve(store.component_names@, qm.components[u])->0,
                        )],
                    ),
            decreases sel_ids@.len() - k,
        {
            proof {
                assert(spec_resolve(store.component_names@, qm.components[k as int]) == Some(
                    sel_ids@[k as int] as int,
                ));
                assert(arch.spec_contains_id(sel_ids@[k as int] as int));
            }
            let idx = arch.find_id(sel_ids[k]);
            let value = clone_component(&arch.rows[e][idx]);
            comps.push(value);
            k = k + 1;
        }
        let item = QueryFetchItem { entity: arch.entities[e], components: comps };
        let ghost pre_out = out@;
        out.push(item);
        proof {
            assert(item_model(item) == target[e as int]) by {
                assert(item.components@.map_values(|c: Component| component_model(c)) =~= Seq::new(
                    qm.components.len(),
                    |k2: int|
                        component_model(
                            arch.rows@[e as int]@[arch.idx_of(
                                spec_resolve(store.component_names@, qm.components[k2])->0,
                            )],
                        ),
                ));
            }
            assert(out@ == pre_out.push(item));
            assert(item_models(out@) =~= item_models(pre_out).push(item_model(item)));
            assert(target.take(e + 1) =~= target.take(e as int).push(target[e as int]));
            assert(item_models(out@) =~= item_models(old(out)@) + target.take(e + 1));
        }
        e = e + 1;
    }
    proof {
        assert(target.take(arch.entities@.len() as int) =~= target);
    }
}

/// Resolves a query against the live store and projects every matching
/// entity into one result row.
///
/// Succeeds exactly when every selected component name resolves; the
/// result is then fully determined by the store and the query, so
/// repeated calls against an unmodified store return equal results. An
/// unknown selected name fails cleanly with the first such name.
pub fn dynamic_query(store: &Store, query: &Query) -> (r: Result<QueryFetch, WabiError>)
    requires
        store.wf(),
    ensures
        (r is Ok) == sel_resolved(*store, query_model(*query).components),
        r matches Ok(f) ==> item_models(f.items@) == spec_query_items(*store, query_model(*query)),
        r matches Err(e) ==> (e matches WabiError::QueryResolutionError(nm) && exists|t: int|
            0 <= t < query_model(*query).components.len() && spec_resolve(
                store.component_names@,
                #[trigger] query_model(*query).components[t],
            ) is None && nm@ == query_model(*query).components[t] && (forall|u: int|
                0 <= u < t ==> spec_resolve(
                    store.component_names@,
                    #[trigger] query_model(*query).components[u],
                ) is Some)),
{
    let ghost qm = query_model(*query);
    let mut sel_ids: Vec<usize> = Vec::new();
    let mut t: usize = 0;
    while t < query.components.len()
        invariant
            t <= query.components@.len(),
            qm == query_model(*query),
            sel_ids@.len() == t,
            forall|u: int|
                0 <= u < t ==> spec_resolve(store.component_names@, qm.components[u]) == Some(
                    #[trigger] sel_ids@[u] as int,
                ),
        decreases query.components@.len() - t,
    {
        match resolve(&store.component_names, &query.components[t]) {
            Some(id) => {
                sel_ids.push(id);
            },
            None => {
                let name = query.components[t].clone();
                proof {
                    assert(spec_resolve(store.component_names@, qm.components[t as int]) is None);
                    assert forall|u: int| 0 <= u < t implies spec_resolve(
                        store.component_names@,
                        #[trigger] qm.components[u],
                    ) is Some by {
                        assert(spec_resolve(store.component_names@, qm.components[u]) == Some(
                            sel_ids@[u] as int,
                        ));
                    }
                }
                return Err(WabiError::QueryResolutionError(name));
            },
        }
        t = t + 1;
    }
    proof {
        assert forall|u: int| 0 <= u < qm.components.len() implies spec_resolve(
            store.component_names@,
            #[trigger] qm.components[u],
        ) is Some by {
            assert(spec_resolve(store.component_names@, qm.components[u]) == Some(
                sel_ids@[u] as int,
            ));
        }
    }
    let mut items: Vec<QueryFetchItem> = Vec::new();
    let mut a: usize = 0;
    proof {
        assert(item_models(items@) =~= items_upto(*store, qm, 0));
    }
    while a < store.archetypes.len()
        invariant
            a <= store.archetypes@.len(),
            store.wf(),
            qm == query_model(*query),
            sel_ids@.len() == query.components@.len(),
            forall|u: int|
                0 <= u < sel_ids@.len() ==> spec_resolve(store.component_names@, qm.components[u])
                    == Some(#[trigger] sel_ids@[u] as int),
            item_models(items@) == items_upto(*store, qm, a as int),
        decreases store.archetypes@.len() - a,
    {
        let arch = &store.archetypes[a];
        let ghost pre = items@;
        if archetype_matches(store, arch, query, &sel_ids) {
            project_archetype(store, arch, query, &sel_ids, &mut items);
            proof {
                assert(item_models(items@) =~= items_upto(*store, qm, a + 1));
            }
        } else {
            proof {
                assert(item_models(items@) + Seq::<QueryFetchItemModel>::empty() =~= item_models(
                    items@,
                ));
                assert(item_models(items@) =~= items_upto(*store, qm, a + 1));
            }
        }
        a = a + 1;
    }
    proof {
        assert(item_models(items@) == spec_query_items(*store, qm));
    }
    Ok(QueryFetch { items })
}

} // verus!

use vstd::prelude::*;

use crate::ecs::{component_model, Component, ComponentModel, Entity};

verus! {

/// One filter clause of a query, naming a component type.
///
/// `With` requires the component to be present on a matching archetype and
/// `Without` requires it to be absent. `Changed` is recognized on the wire
/// but carries no filtering semantics here: change detection is left
/// unspecified, so a `Changed` clause constrains nothing.
#[derive(Debug, Clone, PartialEq, Eq)]
pub enum Filter {
    With(String),
    Without(String),
    Changed(String),
}

/// Model of a filter clause: the same shape over character sequences.
pub enum FilterModel {
    With(Seq<char>),
    Without(Seq<char>),
    Changed(Seq<char>),
}

/// The model of a filter clause.
pub open spec fn filter_model(f: Filter) -> FilterModel {
    match f {
        Filter::With(name) => FilterModel::With(name@),
        Filter::Without(name) => FilterModel::Without(name@),
        Filter::Changed(name) => FilterModel::Changed(name@),
    }
}

/// The models of a sequence of filter clauses, in order.
pub open spec fn filter_models(fs: Seq<Filter>) -> Seq<FilterModel> {
    fs.map_values(|f: Filter| filter_model(f))
}

/// A dynamic query: an ordered list of selected component names and an
/// ordered list of filter clauses, all resolved against the live store by
/// exact name match at request time.
#[derive(Debug, Clone, PartialEq, Eq)]
pub struct Query {
    pub components: Vec<String>,
    pub filters: Vec<Filter>,
}

/// Model of a query: selected names and filter clauses as sequences.
pub struct QueryModel {
    pub components: Seq<Seq<char>>,
    pub filters: Seq<FilterModel>,
}

/// The model of a query.
pub open spec fn query_model(q: Query) -> QueryModel {
    QueryModel {
        components: q.components@.map_values(|s: String| s@),
        filters: filter_models(q.filters@),
    }
}

/// One result row of a query: a matching entity together with one
/// component value per selected name, in the order requested.
#[derive(Debug, PartialEq, Eq)]
pub struct QueryFetchItem {
    pub entity: Entity,
    pub components: Vec<Component>,
}

/// Model of a result row.
pub struct QueryFetchItemModel {
    pub entity: Entity,
    pub components: Seq<ComponentModel>,
}

/// The model of a result row.
pub open spec fn item_model(item: QueryFetchItem) -> QueryFetchItemModel {
    QueryFetchItemModel {
        entity: item.entity,
        components: item.components@.map_values(|c: Component| component_model(c)),
    }
}

/// The models of a sequence of result rows, in order.
pub open spec fn item_models(items: Seq<QueryFetchItem>) -> Seq<QueryFetchItemModel> {
    items.map_values(|item: QueryFetchItem| item_model(item))
}

/// The full result of a query: one row per matching entity, in archetype
/// traversal order, then intra-archetype entity order.
#[derive(Debug, PartialEq, Eq)]
pub struct QueryFetch {
    pub items: Vec<QueryFetchItem>,
}

impl QueryFetch {
    /// The model of a query result.
    pub open spec fn model(self) -> Seq<QueryFetchItemModel> {
        item_models(self.items@)
    }
}

} // verus!

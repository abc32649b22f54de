//! The insertion-ordered hash maps in which extraction keeps what it has
//! settled. Nothing here is proved: each contract restates what the map's
//! documentation promises.

use vstd::prelude::*;
use indexmap::IndexMap;
use crate::cost::Cost;
use crate::egraph::{ClassId, NodeId};

verus! {

/// `indexmap::IndexMap`, a hash map that keeps its entries in the order in
/// which they were inserted. Its inside is not looked at.
#[verifier::external_type_specification]
#[verifier::external_body]
#[verifier::reject_recursive_types(K)]
#[verifier::reject_recursive_types(V)]
#[verifier::reject_recursive_types(S)]
pub struct ExIndexMap<K, V, S>(IndexMap<K, V, S>);

/// The cost that a map from classes to costs holds for each of its keys.
pub uninterp spec fn cost_entries(table: IndexMap<ClassId, Cost>) -> Map<ClassId, Cost>;

/// The node that a map from classes to nodes holds for each of its keys.
pub uninterp spec fn choice_entries(table: IndexMap<ClassId, NodeId>) -> Map<ClassId, NodeId>;

/// `IndexMap::new`, which creates a map without entries.
#[verifier::external_body]
pub(crate) fn new_cost_map() -> (table: IndexMap<ClassId, Cost>)
    ensures
        forall|class: ClassId| !cost_entries(table).contains_key(class),
{
    IndexMap::new()
}

/// `IndexMap::insert`: afterwards the map holds `cost` for `class` and is
/// unchanged at every other key. The value that `class` had before, if any,
/// is handed back.
#[verifier::external_body]
pub(crate) fn insert_cost(
    table: &mut IndexMap<ClassId, Cost>,
    class: ClassId,
    cost: Cost,
) -> (previous: Option<Cost>)
    ensures
        cost_entries(*final(table)) == cost_entries(*old(table)).insert(class, cost),
        previous == (if cost_entries(*old(table)).contains_key(class) {
            Some(cost_entries(*old(table))[class])
        } else {
            None
        }),
{
    table.insert(class, cost)
}

/// `IndexMap::get`: the value stored for `class`, or `None` where the map has
/// no such key.
#[verifier::external_body]
pub(crate) fn get_cost(table: &IndexMap<ClassId, Cost>, class: ClassId) -> (found: Option<Cost>)
    ensures
        found == (if cost_entries(*table).contains_key(class) {
            Some(cost_entries(*table)[class])
        } else {
            None
        }),
{
    table.get(&class).copied()
}

/// `IndexMap::new`, which creates a map without entries.
#[verifier::external_body]
pub(crate) fn new_choice_map() -> (table: IndexMap<ClassId, NodeId>)
    ensures
        forall|class: ClassId| !choice_entries(table).contains_key(class),
{
    IndexMap::new()
}

/// `IndexMap::insert`: afterwards the map holds `node` for `class` and is
/// unchanged at every other key. The value that `class` had before, if any,
/// is handed back.
#[verifier::external_body]
pub(crate) fn insert_choice(
    table: &mut IndexMap<ClassId, NodeId>,
    class: ClassId,
    node: NodeId,
) -> (previous: Option<NodeId>)
    ensures
        choice_entries(*final(table)) == choice_entries(*old(table)).insert(class, node),
        previous == (if choice_entries(*old(table)).contains_key(class) {
            Some(choice_entries(*old(table))[class])
        } else {
            None
        }),
{
    table.insert(class, node)
}

/// `IndexMap::get`: the value stored for `class`, or `None` where the map has
/// no such key.
#[verifier::external_body]
pub(crate) fn get_choice(table: &IndexMap<ClassId, NodeId>, class: ClassId) -> (found: Option<NodeId>)
    ensures
        found == (if choice_entries(*table).contains_key(class) {
            Some(choice_entries(*table)[class])
        } else {
            None
        }),
{
    table.get(&class).copied()
}

} // verus!

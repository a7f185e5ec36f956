//! The items of the crate that the passes look up by name: each with its
//! name, its node number and its type.
use vstd::prelude::*;

use crate::ty::{AdtId, Ty, TyCtxt};

verus! {

/// An item of the crate: its name, its node, the number of the
/// definition it makes (which an ADT type of it carries), and its type.
pub struct HirItem {
    pub name: String,
    pub node: u64,
    pub def: AdtId,
    pub ty: Ty,
}

/// The items of the crate, in the order the crate declares them.
pub struct Hir {
    pub items: Vec<HirItem>,
}

/// The items called `name`, in order, as node and type.
pub open spec fn matching_items(items: Seq<HirItem>, name: Seq<char>) -> Seq<(u64, Ty)>
    decreases items.len(),
{
    if items.len() == 0 {
        seq![]
    } else {
        let rest = matching_items(items.drop_last(), name);
        if items.last().name@ == name {
            rest.push((items.last().node, items.last().ty))
        } else {
            rest
        }
    }
}

/// The type of the last item with node `node`, if there is one.
pub open spec fn node_type(items: Seq<HirItem>, node: u64) -> Option<Ty>
    decreases items.len(),
{
    if items.len() == 0 {
        None
    } else if items.last().node == node {
        Some(items.last().ty)
    } else {
        node_type(items.drop_last(), node)
    }
}

/// Every item called `name` is found again by its node.
pub proof fn lemma_matching_items_found(items: Seq<HirItem>, name: Seq<char>)
    ensures
        forall|i: int|
            0 <= i < matching_items(items, name).len() ==> node_type(
                items,
                (#[trigger] matching_items(items, name)[i]).0,
            ) is Some,
    decreases items.len(),
{
    if items.len() > 0 {
        let rest = matching_items(items.drop_last(), name);
        lemma_matching_items_found(items.drop_last(), name);
        assert forall|i: int| 0 <= i < matching_items(items, name).len() implies node_type(
            items,
            (#[trigger] matching_items(items, name)[i]).0,
        ) is Some by {
            if i < rest.len() {
                assert(matching_items(items, name)[i] == rest[i]);
            }
        }
    }
}

/// The type found for a node is the type of an item, so it is a type of a
/// context that holds the types of all items.
pub proof fn lemma_node_type_in(tcx: &TyCtxt, items: Seq<HirItem>, node: u64)
    requires
        forall|i: int| 0 <= i < items.len() ==> tcx.has(#[trigger] items[i].ty),
        node_type(items, node) is Some,
    ensures
        tcx.has(node_type(items, node)->0),
    decreases items.len(),
{
    if items.last().node != node {
        assert forall|i: int| 0 <= i < items.len() - 1 implies tcx.has(#[trigger] items.drop_last()[i].ty) by {
            assert(items.drop_last()[i] == items[i]);
        }
        lemma_node_type_in(tcx, items.drop_last(), node);
    } else {
        assert(tcx.has(items[items.len() - 1].ty));
    }
}

/// The node of the last item that makes definition `def`, if an item of
/// the crate does.
pub open spec fn def_node(items: Seq<HirItem>, def: AdtId) -> Option<u64>
    decreases items.len(),
{
    if items.len() == 0 {
        None
    } else if items.last().def == def {
        Some(items.last().node)
    } else {
        def_node(items.drop_last(), def)
    }
}

impl Hir {
    /// The nodes and types of the items called `name`, in order.
    pub fn nodes_matching_suffix(&self, name: &String) -> (r: Vec<(u64, Ty)>)
        ensures
            r@ == matching_items(self.items@, name@),
    {
        let mut r: Vec<(u64, Ty)> = Vec::new();
        for i in 0..self.items.len()
            invariant
                r@ == matching_items(self.items@.take(i as int), name@),
        {
            proof {
                assert(self.items@.take(i + 1).drop_last() =~= self.items@.take(i as int));
            }
            if self.items[i].name == *name {
                r.push((self.items[i].node, self.items[i].ty));
            }
        }
        proof {
            assert(self.items@.take(self.items@.len() as int) =~= self.items@);
        }
        r
    }

    /// The type of item `node`.
    pub fn item_type(&self, node: u64) -> (r: Option<Ty>)
        ensures
            r == node_type(self.items@, node),
    {
        let mut found: Option<Ty> = None;
        for i in 0..self.items.len()
            invariant
                found == node_type(self.items@.take(i as int), node),
        {
            proof {
                assert(self.items@.take(i + 1).drop_last() =~= self.items@.take(i as int));
            }
            if self.items[i].node == node {
                found = Some(self.items[i].ty);
            }
        }
        proof {
            assert(self.items@.take(self.items@.len() as int) =~= self.items@);
        }
        found
    }

    /// The node of the item that makes definition `def`, where the crate
    /// makes it.
    pub fn as_local_node_id(&self, def: AdtId) -> (r: Option<u64>)
        ensures
            r == def_node(self.items@, def),
    {
        let mut found: Option<u64> = None;
        for i in 0..self.items.len()
            invariant
                found == def_node(self.items@.take(i as int), def),
        {
            proof {
                assert(self.items@.take(i + 1).drop_last() =~= self.items@.take(i as int));
            }
            if self.items[i].def == def {
                found = Some(self.items[i].node);
            }
        }
        proof {
            assert(self.items@.take(self.items@.len() as int) =~= self.items@);
        }
        found
    }
}

} // verus!

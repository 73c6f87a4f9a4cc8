//! The read-only query surface of an e-graph: a union-find representative
//! table and, per class, an ordered node list.  Building and maintaining the
//! e-graph is the storage layer's task; matching only reads it, and the shape
//! order on every node list is an explicit contract of that layer.

use vstd::prelude::*;

use crate::language::ENode;
use crate::language::Id;
use crate::language::node_eq;
use crate::language::node_eq_spec;
use crate::language::sorted_by_shape;

verus! {

/// An equivalence class: its e-nodes, kept sorted by shape.
pub struct EClass {
    pub nodes: Vec<ENode>,
}

/// Membership of a node in a node list, up to structural equality.
pub open spec fn ns_contains(ns: Seq<ENode>, t: ENode) -> bool {
    exists|k: int| 0 <= k < ns.len() && node_eq_spec(ns[k], t)
}

pub struct EGraph {
    /// The union-find representative of each id.
    pub unionfind: Vec<Id>,
    /// The classes, addressed by canonical id.
    pub classes: Vec<EClass>,
}

impl EGraph {
    pub open spec fn n(self) -> int {
        self.classes@.len() as int
    }

    pub open spec fn find_spec(self, id: Id) -> Id {
        self.unionfind@[id as int]
    }

    pub open spec fn class_nodes_spec(self, id: Id) -> Seq<ENode> {
        self.classes@[self.find_spec(id) as int].nodes@
    }

    /// What matching relies on: representatives are idempotent and in range,
    /// node children are in range, and every node list is sorted by shape.
    pub open spec fn wf(self) -> bool {
        &&& self.unionfind@.len() == self.classes@.len()
        &&& forall|i: int| 0 <= i < self.n() ==> (#[trigger] self.unionfind@[i] as int) < self.n()
        &&& forall|i: int|
            0 <= i < self.n() ==> self.unionfind@[#[trigger] self.unionfind@[i] as int]
                == self.unionfind@[i]
        &&& forall|c: int| 0 <= c < self.n() ==> sorted_by_shape(#[trigger] self.classes@[c].nodes@)
        &&& forall|c: int, k: int, j: int|
            0 <= c < self.n() && 0 <= k < self.classes@[c].nodes@.len() && 0 <= j
                < self.classes@[c].nodes@[k].children@.len() ==> (
            #[trigger] self.classes@[c].nodes@[k].children@[j] as int) < self.n()
    }

    /// The canonical representative of an id.
    pub fn find(&self, id: Id) -> (r: Id)
        requires
            self.wf(),
            (id as int) < self.n(),
        ensures
            r == self.find_spec(id),
            (r as int) < self.n(),
            self.find_spec(r) == r,
    {
        self.unionfind[id]
    }

    /// Whether the class reachable from `id` holds exactly the node `t`.
    pub fn class_contains(&self, id: Id, t: &ENode) -> (r: bool)
        requires
            self.wf(),
            (id as int) < self.n(),
        ensures
            r == ns_contains(self.class_nodes_spec(id), *t),
    {
        let c = self.find(id);
        let nodes = &self.classes[c].nodes;
        let mut k: usize = 0;
        while k < nodes.len()
            invariant
                k <= nodes@.len(),
                nodes@ == self.class_nodes_spec(id),
                forall|j: int| 0 <= j < k ==> !node_eq_spec(nodes@[j], *t),
            decreases nodes.len() - k,
        {
            if node_eq(&nodes[k], t) {
                return true;
            }
            k = k + 1;
        }
        false
    }
}

} // verus!

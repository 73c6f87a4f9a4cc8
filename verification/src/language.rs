//! E-nodes, pattern slots, and the canonical shape order on node lists.

use vstd::prelude::*;

verus! {

/// An e-class identifier: an index into the e-graph's tables.
pub type Id = usize;

/// A pattern variable, identified by an interned numeric name.
pub type Var = usize;

/// One operator application; children name e-classes by canonical id.
#[derive(Debug, PartialEq, Eq)]
pub struct ENode {
    pub op: u64,
    pub children: Vec<Id>,
}

/// A template matches a node when operator and arity agree; children are
/// ignored by the match test.
pub open spec fn node_matches(t: ENode, n: ENode) -> bool {
    t.op == n.op && t.children@.len() == n.children@.len()
}

/// Full structural equality of two nodes.
pub open spec fn node_eq_spec(a: ENode, b: ENode) -> bool {
    a.op == b.op && a.children@ == b.children@
}

/// The canonical shape order on nodes: by operator, then by arity.  A class's
/// node list sorted this way keeps structurally matching nodes contiguous.
pub open spec fn shape_lt(a: ENode, b: ENode) -> bool {
    a.op < b.op || (a.op == b.op && a.children@.len() < b.children@.len())
}

pub open spec fn shape_le(a: ENode, b: ENode) -> bool {
    !shape_lt(b, a)
}

pub open spec fn sorted_by_shape(ns: Seq<ENode>) -> bool {
    forall|i: int, j: int| 0 <= i <= j < ns.len() ==> shape_le(ns[i], ns[j])
}

fn clone_ids(v: &Vec<Id>) -> (r: Vec<Id>)
    ensures
        r@ == v@,
{
    let mut r: Vec<Id> = Vec::new();
    let mut i: usize = 0;
    while i < v.len()
        invariant
            i <= v.len(),
            r@ == v@.take(i as int),
        decreases v.len() - i,
    {
        r.push(v[i]);
        proof {
            assert(v@.take(i as int).push(v@[i as int]) =~= v@.take(i as int + 1));
        }
        i = i + 1;
    }
    proof {
        assert(v@.take(v@.len() as int) =~= v@);
    }
    r
}

impl Clone for ENode {
    fn clone(&self) -> (r: Self)
        ensures
            node_eq_spec(r, *self),
    {
        ENode { op: self.op, children: clone_ids(&self.children) }
    }
}

impl ENode {
    pub fn matches(&self, other: &ENode) -> (r: bool)
        ensures
            r == node_matches(*self, *other),
    {
        self.op == other.op && self.children.len() == other.children.len()
    }

    pub fn is_leaf(&self) -> (r: bool)
        ensures
            r == (self.children@.len() == 0),
    {
        self.children.len() == 0
    }
}

/// Structural equality, decided field by field.
pub fn node_eq(a: &ENode, b: &ENode) -> (r: bool)
    ensures
        r == node_eq_spec(*a, *b),
{
    if a.op != b.op {
        return false;
    }
    if a.children.len() != b.children.len() {
        return false;
    }
    let mut i: usize = 0;
    while i < a.children.len()
        invariant
            i <= a.children@.len(),
            a.children@.len() == b.children@.len(),
            forall|k: int| 0 <= k < i ==> a.children@[k] == b.children@[k],
        decreases a.children.len() - i,
    {
        if a.children[i] != b.children[i] {
            return false;
        }
        i = i + 1;
    }
    proof {
        assert(a.children@ =~= b.children@);
    }
    true
}

/// One slot of a flat pattern: a variable, or a templated node whose children
/// are indices of earlier slots.  The root is the last slot.
#[derive(Debug, PartialEq, Eq)]
pub enum ENodeOrVar {
    ENode(ENode),
    Var(Var),
}

/// Every child reference of a slot points at a strictly earlier slot.
pub open spec fn slot_wf(p: Seq<ENodeOrVar>, i: int) -> bool {
    match p[i] {
        ENodeOrVar::ENode(e) => forall|k: int|
            0 <= k < e.children@.len() ==> (e.children@[k] as int) < i,
        ENodeOrVar::Var(_) => true,
    }
}

pub open spec fn pattern_wf(p: Seq<ENodeOrVar>) -> bool {
    &&& p.len() >= 1
    &&& forall|i: int| 0 <= i < p.len() ==> slot_wf(p, i)
}

/// The number of registers a slot's subtree claims, plus one; used to bound
/// the compiler's register counter.
pub open spec fn slot_size(p: Seq<ENodeOrVar>, i: int) -> int
    decreases i, 1int, 0int,
{
    if i < 0 || i >= p.len() {
        1
    } else {
        match p[i] {
            ENodeOrVar::ENode(e) => 1 + kids_size(p, e.children@, 0, i),
            ENodeOrVar::Var(_) => 1,
        }
    }
}

/// The summed sizes of the child slots `cs[k..]`, each strictly below `bound`.
pub open spec fn kids_size(p: Seq<ENodeOrVar>, cs: Seq<Id>, k: int, bound: int) -> int
    decreases bound, 0int, cs.len() - k,
{
    if k < 0 || k >= cs.len() {
        0
    } else {
        (if 0 <= (cs[k] as int) < bound {
            slot_size(p, cs[k] as int)
        } else {
            1
        }) + kids_size(p, cs, k + 1, bound)
    }
}

pub open spec fn pattern_size(p: Seq<ENodeOrVar>) -> int {
    slot_size(p, p.len() - 1)
}

pub proof fn lemma_kids_size_nonneg(p: Seq<ENodeOrVar>, cs: Seq<Id>, k: int, bound: int)
    ensures
        kids_size(p, cs, k, bound) >= 0,
    decreases bound, 0int, cs.len() - k,
{
    if 0 <= k < cs.len() {
        if 0 <= (cs[k] as int) < bound {
            lemma_slot_size_pos(p, cs[k] as int);
        }
        lemma_kids_size_nonneg(p, cs, k + 1, bound);
    }
}

pub proof fn lemma_slot_size_pos(p: Seq<ENodeOrVar>, i: int)
    ensures
        slot_size(p, i) >= 1,
    decreases i, 1int, 0int,
{
    if 0 <= i < p.len() {
        match p[i] {
            ENodeOrVar::ENode(e) => {
                lemma_kids_size_nonneg(p, e.children@, 0, i);
            },
            ENodeOrVar::Var(_) => {},
        }
    }
}

} // verus!

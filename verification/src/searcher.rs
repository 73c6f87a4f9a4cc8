//! The node searcher: given a template and a class's node list, yield exactly
//! the nodes whose shape matches the template.  Matching nodes are contiguous
//! in a shape-sorted list, so the run is found either by a linear scan (small
//! lists) or by binary search for the run's two ends (large lists).

use vstd::prelude::*;

use crate::language::ENode;
use crate::language::node_matches;
use crate::language::shape_le;
use crate::language::shape_lt;
use crate::language::sorted_by_shape;

verus! {

/// Node lists at least this long are searched by binary search.
pub const SMALL_CLASS_LIMIT: usize = 100;

/// The first index at or after `k` whose node matches `t`, or the length.
pub open spec fn first_match(t: ENode, ns: Seq<ENode>, k: int) -> int
    decreases ns.len() - k,
{
    if k < 0 || k >= ns.len() {
        ns.len() as int
    } else if node_matches(t, ns[k]) {
        k
    } else {
        first_match(t, ns, k + 1)
    }
}

/// The first index at or after `k` whose node does not match `t`, or the
/// length.
pub open spec fn run_end(t: ENode, ns: Seq<ENode>, k: int) -> int
    decreases ns.len() - k,
{
    if k < 0 || k >= ns.len() {
        ns.len() as int
    } else if !node_matches(t, ns[k]) {
        k
    } else {
        run_end(t, ns, k + 1)
    }
}

/// The first contiguous run of nodes matching `t`.  In a shape-sorted list
/// this run holds every matching node.
pub open spec fn match_run(t: ENode, ns: Seq<ENode>) -> Seq<ENode> {
    ns.subrange(first_match(t, ns, 0), run_end(t, ns, first_match(t, ns, 0)))
}

pub proof fn lemma_first_match(t: ENode, ns: Seq<ENode>, k: int)
    requires
        0 <= k <= ns.len(),
    ensures
        k <= first_match(t, ns, k) <= ns.len(),
        forall|j: int| k <= j < first_match(t, ns, k) ==> !node_matches(t, ns[j]),
        first_match(t, ns, k) < ns.len() ==> node_matches(t, ns[first_match(t, ns, k)]),
    decreases ns.len() - k,
{
    if k < ns.len() && !node_matches(t, ns[k]) {
        lemma_first_match(t, ns, k + 1);
    }
}

pub proof fn lemma_run_end(t: ENode, ns: Seq<ENode>, k: int)
    requires
        0 <= k <= ns.len(),
    ensures
        k <= run_end(t, ns, k) <= ns.len(),
        forall|j: int| k <= j < run_end(t, ns, k) ==> node_matches(t, ns[j]),
        run_end(t, ns, k) < ns.len() ==> !node_matches(t, ns[run_end(t, ns, k)]),
    decreases ns.len() - k,
{
    if k < ns.len() && node_matches(t, ns[k]) {
        lemma_run_end(t, ns, k + 1);
    }
}

/// In a shape-sorted list the matching nodes are exactly the first run.
pub proof fn lemma_sorted_run(t: ENode, ns: Seq<ENode>)
    requires
        sorted_by_shape(ns),
    ensures
        forall|j: int|
            0 <= j < ns.len() ==> (node_matches(t, ns[j]) <==> first_match(t, ns, 0) <= j < run_end(
                t,
                ns,
                first_match(t, ns, 0),
            )),
{
    let fm = first_match(t, ns, 0);
    lemma_first_match(t, ns, 0);
    lemma_run_end(t, ns, fm);
    let re = run_end(t, ns, fm);
    assert forall|j: int| 0 <= j < ns.len() && node_matches(t, ns[j]) implies fm <= j < re by {
        assert(j >= fm);
        if j >= re {
            assert(re < ns.len());
            assert(fm < ns.len());
            assert(node_matches(t, ns[fm]));
            assert(re > fm);
            assert(node_matches(t, ns[re - 1]));
            assert(shape_le(ns[re - 1], ns[re]));
            assert(shape_le(ns[re], ns[j]));
            assert(node_matches(t, ns[re]));
        }
    }
}

/// Linear-scan strategy: find the first matching node, then extend the run
/// while nodes keep matching.  Returns the run's bounds.
pub fn linear_run(t: &ENode, ns: &Vec<ENode>) -> (r: (usize, usize))
    ensures
        r.0 as int == first_match(*t, ns@, 0),
        r.1 as int == run_end(*t, ns@, r.0 as int),
{
    let mut i: usize = 0;
    while i < ns.len() && !ns[i].matches(t)
        invariant
            i <= ns@.len(),
            first_match(*t, ns@, 0) == first_match(*t, ns@, i as int),
        decreases ns.len() - i,
    {
        proof {
            assert(!node_matches(*t, ns@[i as int]));
        }
        i = i + 1;
    }
    let mut e: usize = i;
    while e < ns.len() && ns[e].matches(t)
        invariant
            i <= e <= ns@.len(),
            first_match(*t, ns@, 0) == i as int,
            run_end(*t, ns@, i as int) == run_end(*t, ns@, e as int),
        decreases ns.len() - e,
    {
        e = e + 1;
    }
    (i, e)
}

fn shape_lt_exec(a: &ENode, b: &ENode) -> (r: bool)
    ensures
        r == shape_lt(*a, *b),
{
    a.op < b.op || (a.op == b.op && a.children.len() < b.children.len())
}

/// Binary-search strategy: find the insertion points that bracket the group
/// of nodes sharing the template's shape.  Sound only on a shape-sorted list.
pub fn binary_run(t: &ENode, ns: &Vec<ENode>) -> (r: (usize, usize))
    requires
        sorted_by_shape(ns@),
    ensures
        r.0 <= r.1 <= ns@.len(),
        ns@.subrange(r.0 as int, r.1 as int) == match_run(*t, ns@),
        forall|j: int| r.0 <= j < r.1 ==> node_matches(*t, ns@[j]),
        r.0 < r.1 ==> r.0 as int == first_match(*t, ns@, 0) && r.1 as int == run_end(
            *t,
            ns@,
            r.0 as int,
        ),
{
    // lower bound: the first index whose node is not shape-below the template
    let mut lo: usize = 0;
    let mut hi: usize = ns.len();
    while lo < hi
        invariant
            lo <= hi <= ns@.len(),
            sorted_by_shape(ns@),
            forall|k: int| 0 <= k < lo ==> shape_lt(ns@[k], *t),
            forall|k: int| hi <= k < ns@.len() ==> !shape_lt(ns@[k], *t),
        decreases hi - lo,
    {
        let mid = lo + (hi - lo) / 2;
        if shape_lt_exec(&ns[mid], t) {
            proof {
                assert forall|k: int| 0 <= k < mid + 1 implies shape_lt(ns@[k], *t) by {
                    assert(shape_le(ns@[k], ns@[mid as int]));
                }
            }
            lo = mid + 1;
        } else {
            proof {
                assert forall|k: int| mid <= k < ns@.len() implies !shape_lt(ns@[k], *t) by {
                    assert(shape_le(ns@[mid as int], ns@[k]));
                }
            }
            hi = mid;
        }
    }
    let lb = lo;
    // upper bound: the first index whose node is shape-above the template
    let mut lo2: usize = lb;
    let mut hi2: usize = ns.len();
    while lo2 < hi2
        invariant
            lb <= lo2 <= hi2 <= ns@.len(),
            sorted_by_shape(ns@),
            forall|k: int| 0 <= k < lo2 ==> !shape_lt(*t, ns@[k]),
            forall|k: int| hi2 <= k < ns@.len() ==> shape_lt(*t, ns@[k]),
        decreases hi2 - lo2,
    {
        let mid = lo2 + (hi2 - lo2) / 2;
        if shape_lt_exec(t, &ns[mid]) {
            proof {
                assert forall|k: int| mid <= k < ns@.len() implies shape_lt(*t, ns@[k]) by {
                    assert(shape_le(ns@[mid as int], ns@[k]));
                }
            }
            hi2 = mid;
        } else {
            proof {
                assert forall|k: int| 0 <= k < mid + 1 implies !shape_lt(*t, ns@[k]) by {
                    assert(shape_le(ns@[k], ns@[mid as int]));
                }
            }
            lo2 = mid + 1;
        }
    }
    let ub = lo2;
    proof {
        assert forall|j: int| lb <= j < ub implies node_matches(*t, ns@[j]) by {
            assert(!shape_lt(ns@[j], *t));
            assert(!shape_lt(*t, ns@[j]));
        }
        lemma_sorted_run(*t, ns@);
        lemma_first_match(*t, ns@, 0);
        let fm = first_match(*t, ns@, 0);
        let re = run_end(*t, ns@, fm);
        lemma_run_end(*t, ns@, fm);
        if lb < ub {
            assert(node_matches(*t, ns@[lb as int]));
            assert(fm <= lb < re);
            assert(fm == lb) by {
                if fm < lb {
                    assert(node_matches(*t, ns@[fm]));
                    assert(!shape_lt(ns@[fm], *t));
                }
            }
            assert(re == ub) by {
                if re < ub {
                    assert(node_matches(*t, ns@[re]));
                } else if re > ub {
                    assert(node_matches(*t, ns@[ub as int]));
                    assert(ub < ns@.len());
                    assert(shape_lt(*t, ns@[ub as int]));
                }
            }
            assert(ns@.subrange(lb as int, ub as int) == match_run(*t, ns@));
        } else {
            assert forall|j: int| 0 <= j < ns@.len() implies !node_matches(*t, ns@[j]) by {
                if node_matches(*t, ns@[j]) {
                    assert(!shape_lt(ns@[j], *t));
                    assert(!shape_lt(*t, ns@[j]));
                    assert(lb <= j < ub);
                }
            }
            assert(fm == ns@.len());
            assert(ns@.subrange(lb as int, ub as int) =~= match_run(*t, ns@));
        }
    }
    (lb, ub)
}

/// The two strategies find the same matching nodes on any shape-sorted list.
pub proof fn lemma_strategies_agree(
    t: ENode,
    ns: Seq<ENode>,
    lin: (usize, usize),
    bin: (usize, usize),
)
    requires
        sorted_by_shape(ns),
        lin.0 as int == first_match(t, ns, 0),
        lin.1 as int == run_end(t, ns, lin.0 as int),
        bin.0 <= bin.1 <= ns.len(),
        ns.subrange(bin.0 as int, bin.1 as int) == match_run(t, ns),
    ensures
        ns.subrange(lin.0 as int, lin.1 as int) == ns.subrange(bin.0 as int, bin.1 as int),
{
    lemma_first_match(t, ns, 0);
}

/// A live cursor over the matching run of one class's node list: the indices
/// in `[cur, end)` name exactly the not-yet-yielded matching nodes.
pub struct EClassSearcher {
    pub cur: usize,
    pub end: usize,
}

impl EClassSearcher {
    /// Builds the searcher for `node` over a shape-sorted node list, picking
    /// the strategy by the list's length.
    pub fn new(node: &ENode, nodes: &Vec<ENode>) -> (s: Self)
        requires
            sorted_by_shape(nodes@),
        ensures
            s.cur <= s.end <= nodes@.len(),
            nodes@.subrange(s.cur as int, s.end as int) == match_run(*node, nodes@),
            forall|j: int| s.cur <= j < s.end ==> node_matches(*node, nodes@[j]),
            s.cur < s.end ==> s.cur as int == first_match(*node, nodes@, 0) && s.end as int
                == run_end(*node, nodes@, s.cur as int),
    {
        let (lo, hi) = if nodes.len() < SMALL_CLASS_LIMIT {
            let r = linear_run(node, nodes);
            proof {
                lemma_first_match(*node, nodes@, 0);
                lemma_run_end(*node, nodes@, first_match(*node, nodes@, 0));
            }
            r
        } else {
            binary_run(node, nodes)
        };
        EClassSearcher { cur: lo, end: hi }
    }

    /// Yields the index of the next matching node, or `None` when the run is
    /// exhausted.
    pub fn next(&mut self) -> (r: Option<usize>)
        ensures
            final(self).end == old(self).end,
            old(self).cur < old(self).end ==> r == Some(old(self).cur) && final(self).cur == old(
                self,
            ).cur + 1,
            old(self).cur >= old(self).end ==> r == None::<usize> && final(self).cur == old(
                self,
            ).cur,
    {
        if self.cur < self.end {
            let k = self.cur;
            self.cur = self.cur + 1;
            Some(k)
        } else {
            None
        }
    }
}

} // verus!

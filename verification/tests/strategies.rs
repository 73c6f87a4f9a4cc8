use ematch::language::ENode;
use ematch::searcher::EClassSearcher;
use ematch::searcher::SMALL_CLASS_LIMIT;
use ematch::searcher::binary_run;
use ematch::searcher::linear_run;

fn node(op: u64, children: Vec<usize>) -> ENode {
    ENode { op, children }
}

/// A shape-sorted node list: `reps[k]` nodes of operator `k`, each unary,
/// with a few leaves of the largest operator at the end.
fn sorted_list(reps: &[usize]) -> Vec<ENode> {
    let mut out = Vec::new();
    for (op, count) in reps.iter().enumerate() {
        for child in 0..*count {
            out.push(node(op as u64, vec![child]));
        }
    }
    out.push(node(reps.len() as u64, vec![]));
    out
}

fn runs_agree(template: &ENode, list: &Vec<ENode>) {
    let (l0, l1) = linear_run(template, list);
    let (b0, b1) = binary_run(template, list);
    assert_eq!(list[l0..l1], list[b0..b1]);
}

#[test]
fn strategies_agree_below_threshold() {
    let list = sorted_list(&[5, 7, 3]);
    assert!(list.len() < SMALL_CLASS_LIMIT);
    runs_agree(&node(1, vec![0]), &list);
    runs_agree(&node(0, vec![0]), &list);
    runs_agree(&node(2, vec![0]), &list);
    runs_agree(&node(3, vec![]), &list);
    // absent shapes: wrong arity and wrong operator
    runs_agree(&node(1, vec![]), &list);
    runs_agree(&node(9, vec![0]), &list);
}

#[test]
fn strategies_agree_at_and_above_threshold() {
    let list = sorted_list(&[60, 50, 40]);
    assert!(list.len() > SMALL_CLASS_LIMIT);
    for op in 0..4u64 {
        runs_agree(&node(op, vec![0]), &list);
        runs_agree(&node(op, vec![]), &list);
    }
    let exact: Vec<ENode> = sorted_list(&[SMALL_CLASS_LIMIT - 1]);
    assert_eq!(exact.len(), SMALL_CLASS_LIMIT);
    runs_agree(&node(0, vec![0]), &exact);
    runs_agree(&node(1, vec![]), &exact);
}

#[test]
fn searcher_yields_exactly_the_matching_run() {
    let list = sorted_list(&[2, 3, 1]);
    let mut searcher = EClassSearcher::new(&node(1, vec![0]), &list);
    let mut seen = Vec::new();
    while let Some(idx) = searcher.next() {
        seen.push(idx);
    }
    assert_eq!(seen, vec![2, 3, 4]);
    for idx in seen {
        assert_eq!(list[idx].op, 1);
        assert_eq!(list[idx].children.len(), 1);
    }
}

#[test]
fn searcher_on_no_matches_is_empty() {
    let list = sorted_list(&[2, 2]);
    let mut searcher = EClassSearcher::new(&node(8, vec![0, 0]), &list);
    assert_eq!(searcher.next(), None);
}

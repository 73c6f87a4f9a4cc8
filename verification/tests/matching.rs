use ematch::egraph::EClass;
use ematch::egraph::EGraph;
use ematch::language::ENode;
use ematch::language::ENodeOrVar;
use ematch::machine::Instruction;
use ematch::machine::Machine;
use ematch::program::Program;
use ematch::program::Subst;

const PLUS: u64 = 0;
const F: u64 = 1;
const G: u64 = 2;
const A: u64 = 10;
const B: u64 = 11;

fn node(op: u64, children: Vec<usize>) -> ENode {
    ENode { op, children }
}

/// An e-graph whose union-find is the identity.
fn egraph(classes: Vec<Vec<ENode>>) -> EGraph {
    let n = classes.len();
    EGraph {
        unionfind: (0..n).collect(),
        classes: classes.into_iter().map(|nodes| EClass { nodes }).collect(),
    }
}

fn subst(pairs: Vec<(usize, usize)>) -> Subst {
    Subst { pairs }
}

/// Brute-force recursive matcher for variable-free patterns: the number of
/// ways the slot's tree is present in the class, by exhaustive enumeration.
fn brute_force_count(pattern: &[ENodeOrVar], slot: usize, eg: &EGraph, class: usize) -> usize {
    match &pattern[slot] {
        ENodeOrVar::Var(_) => 1,
        ENodeOrVar::ENode(t) => {
            let canonical = eg.unionfind[class];
            eg.classes[canonical]
                .nodes
                .iter()
                .filter(|n| n.op == t.op && n.children.len() == t.children.len())
                .map(|n| {
                    t.children
                        .iter()
                        .zip(n.children.iter())
                        .map(|(p_child, e_child)| {
                            brute_force_count(pattern, *p_child, eg, *e_child)
                        })
                        .product::<usize>()
                })
                .sum()
        }
    }
}

#[test]
fn repeated_variable_scenario() {
    // pattern (+ ?a ?a), with ?a interned as variable 0
    let pattern = vec![
        ENodeOrVar::Var(0),
        ENodeOrVar::Var(0),
        ENodeOrVar::ENode(node(PLUS, vec![0, 1])),
    ];
    let program = Program::compile_from_pat(&pattern);
    assert_eq!(
        program.instrs,
        vec![
            Instruction::Bind(0, node(PLUS, vec![0, 1]), 1),
            Instruction::Compare(1, 2),
            Instruction::Yield(vec![1]),
        ]
    );
    // class 1 holds +(E2, E2) where E2 is class 0
    let eg = egraph(vec![vec![node(A, vec![])], vec![node(PLUS, vec![0, 0])]]);
    let results = program.run(&eg, 1);
    assert_eq!(results, vec![subst(vec![(0, 0)])]);
}

#[test]
fn repeated_variable_rejects_distinct_classes() {
    let pattern = vec![
        ENodeOrVar::Var(0),
        ENodeOrVar::Var(0),
        ENodeOrVar::ENode(node(PLUS, vec![0, 1])),
    ];
    let program = Program::compile_from_pat(&pattern);
    // +(E0, E1) with E0 and E1 not equal under the union-find
    let eg = egraph(vec![
        vec![node(A, vec![])],
        vec![node(B, vec![])],
        vec![node(PLUS, vec![0, 1])],
    ]);
    assert_eq!(program.run(&eg, 2), vec![]);
}

#[test]
fn bare_variable_scenario() {
    // pattern ?x, with ?x interned as variable 7
    let pattern = vec![ENodeOrVar::Var(7)];
    let program = Program::compile_from_pat(&pattern);
    assert_eq!(program.instrs, vec![Instruction::Yield(vec![0])]);
    // a non-canonical start class: 0 is unioned into 1
    let eg = EGraph {
        unionfind: vec![1, 1],
        classes: vec![
            EClass { nodes: vec![] },
            EClass { nodes: vec![node(A, vec![])] },
        ],
    };
    assert_eq!(program.run(&eg, 0), vec![subst(vec![(7, 1)])]);
    assert_eq!(program.run(&eg, 1), vec![subst(vec![(7, 1)])]);
}

#[test]
fn mismatched_operator_yields_nothing() {
    // pattern f(?x) against a class whose nodes all differ in operator/arity
    let pattern = vec![ENodeOrVar::Var(0), ENodeOrVar::ENode(node(F, vec![0]))];
    let program = Program::compile_from_pat(&pattern);
    let eg = egraph(vec![
        vec![node(A, vec![])],
        vec![node(G, vec![0]), node(PLUS, vec![0, 0])],
    ]);
    assert_eq!(program.run(&eg, 1), vec![]);
}

#[test]
fn check_leaf_membership() {
    // a variable-free leaf pattern matches iff that leaf is in the class
    let pattern = vec![ENodeOrVar::ENode(node(A, vec![]))];
    let program = Program::compile_from_pat(&pattern);
    assert_eq!(
        program.instrs,
        vec![Instruction::Check(0, node(A, vec![])), Instruction::Yield(vec![])]
    );
    let with_leaf = egraph(vec![vec![node(A, vec![]), node(B, vec![])]]);
    let without_leaf = egraph(vec![vec![node(B, vec![])]]);
    assert_eq!(with_leaf.class_contains(0, &node(A, vec![])), true);
    assert_eq!(without_leaf.class_contains(0, &node(A, vec![])), false);
    assert_eq!(program.run(&with_leaf, 0), vec![subst(vec![])]);
    assert_eq!(program.run(&without_leaf, 0), vec![]);
}

#[test]
fn ground_pattern_counts_match_brute_force() {
    // variable-free pattern +(a, b)
    let pattern = vec![
        ENodeOrVar::ENode(node(A, vec![])),
        ENodeOrVar::ENode(node(B, vec![])),
        ENodeOrVar::ENode(node(PLUS, vec![0, 1])),
    ];
    let program = Program::compile_from_pat(&pattern);
    // class 2 holds the same addition twice, so there are two matches
    let eg = egraph(vec![
        vec![node(A, vec![])],
        vec![node(B, vec![])],
        vec![node(PLUS, vec![0, 1]), node(PLUS, vec![0, 1])],
    ]);
    let results = program.run(&eg, 2);
    let expected = brute_force_count(&pattern, pattern.len() - 1, &eg, 2);
    assert_eq!(results.len(), expected);
    assert_eq!(expected, 2);
    // and a class where only one of the additions checks out
    let eg2 = egraph(vec![
        vec![node(A, vec![])],
        vec![node(B, vec![])],
        vec![node(PLUS, vec![0, 1]), node(PLUS, vec![1, 1])],
    ]);
    let results2 = program.run(&eg2, 2);
    assert_eq!(results2.len(), brute_force_count(&pattern, 2, &eg2, 2));
    assert_eq!(results2.len(), 1);
}

#[test]
fn nested_pattern_binds_through_layers() {
    // f(g(?x)) finds the class bound under two layers
    let pattern = vec![
        ENodeOrVar::Var(3),
        ENodeOrVar::ENode(node(G, vec![0])),
        ENodeOrVar::ENode(node(F, vec![1])),
    ];
    let program = Program::compile_from_pat(&pattern);
    let eg = egraph(vec![
        vec![node(A, vec![])],
        vec![node(G, vec![0])],
        vec![node(F, vec![1])],
    ]);
    assert_eq!(program.run(&eg, 2), vec![subst(vec![(3, 0)])]);
}

#[test]
fn rerunning_a_program_is_deterministic() {
    let pattern = vec![ENodeOrVar::Var(0), ENodeOrVar::ENode(node(F, vec![0]))];
    let program = Program::compile_from_pat(&pattern);
    let eg = egraph(vec![
        vec![node(A, vec![])],
        vec![node(B, vec![])],
        vec![node(F, vec![0]), node(F, vec![1])],
    ]);
    let first = program.run(&eg, 2);
    let second = program.run(&eg, 2);
    assert_eq!(first, second);
    assert_eq!(first, vec![subst(vec![(0, 0)]), subst(vec![(0, 1)])]);
}

#[test]
fn substitution_lookup() {
    let s = subst(vec![(4, 9), (2, 5)]);
    assert_eq!(s.get(4), Some(9));
    assert_eq!(s.get(2), Some(5));
    assert_eq!(s.get(3), None);
}

#[test]
fn empty_class_yields_nothing() {
    let pattern = vec![ENodeOrVar::Var(0), ENodeOrVar::ENode(node(F, vec![0]))];
    let program = Program::compile_from_pat(&pattern);
    let eg = egraph(vec![vec![]]);
    assert_eq!(program.run(&eg, 0), vec![]);
}

#[test]
fn machine_backtracks_through_all_candidates() {
    // a hand-built program: bind the child of every f-node in the start
    // class, then yield register 1
    let program = vec![
        Instruction::Bind(0, node(F, vec![0]), 1),
        Instruction::Yield(vec![1]),
    ];
    let eg = egraph(vec![
        vec![node(A, vec![])],
        vec![node(B, vec![])],
        vec![node(F, vec![0]), node(F, vec![1])],
    ]);
    let mut machine = Machine::new();
    machine.reg.push(2);
    let snapshots = machine.run(&eg, &program);
    assert_eq!(snapshots, vec![vec![0], vec![1]]);

    let mut probe = Machine::new();
    probe.reg.push(0);
    assert_eq!(probe.find_reg(&eg, 0), 0);
}

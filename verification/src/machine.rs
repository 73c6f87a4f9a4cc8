//! The matching virtual machine.  A compiled program is a sequence of
//! instructions over registers holding e-class ids; the machine executes it
//! against one starting class with a backtracking stack of choice points and
//! reports one register snapshot per complete match.
//!
//! The meaning of a program is the spec function `sols`: the sequence of
//! snapshots a depth-first enumeration of all choice points reports.  The
//! machine is proved to return exactly `sols`.

use vstd::prelude::*;

use crate::egraph::EGraph;
use crate::egraph::ns_contains;
use crate::language::ENode;
use crate::language::Id;
use crate::language::node_matches;
use crate::language::sorted_by_shape;
use crate::searcher::EClassSearcher;
use crate::searcher::first_match;
use crate::searcher::run_end;

verus! {

/// One instruction over registers.
#[derive(Debug, PartialEq, Eq)]
pub enum Instruction {
    /// `Bind(src, template, out)`: for each node of the class in register
    /// `src` matching `template`, write its children into the fresh registers
    /// starting at `out` and continue; a choice point.
    Bind(usize, ENode, usize),
    /// `Check(reg, node)`: succeed iff the class in `reg` holds exactly
    /// `node`; emitted for leaf templates only.
    Check(usize, ENode),
    /// `Compare(a, b)`: succeed iff the two registers hold the same class
    /// under the union-find.
    Compare(usize, usize),
    /// `Yield(regs)`: report the listed registers as a match, then backtrack.
    Yield(Vec<usize>),
}

/// How many registers are live when the instruction at `pc` executes:
/// register 0 plus the ranges the earlier `Bind`s allocated.
pub open spec fn len_at(prog: Seq<Instruction>, pc: int) -> int
    decreases pc,
{
    if pc <= 0 {
        1
    } else {
        len_at(prog, pc - 1) + match prog[pc - 1] {
            Instruction::Bind(_, t, _) => t.children@.len() as int,
            _ => 0,
        }
    }
}

/// The instruction at `pc` reads only live registers, and a `Bind` writes
/// exactly the next free ones.
pub open spec fn instr_wf(prog: Seq<Instruction>, pc: int) -> bool {
    match prog[pc] {
        Instruction::Bind(i, _, out) => (i as int) < len_at(prog, pc) && (out as int) == len_at(
            prog,
            pc,
        ),
        Instruction::Check(i, _) => (i as int) < len_at(prog, pc),
        Instruction::Compare(i, j) => (i as int) < len_at(prog, pc) && (j as int) < len_at(
            prog,
            pc,
        ),
        Instruction::Yield(rs) => forall|k: int|
            0 <= k < rs@.len() ==> (rs@[k] as int) < len_at(prog, pc),
    }
}

/// A runnable program: nonempty, closed by a `Yield`, every instruction
/// register-safe, and the register count within machine range throughout.
pub open spec fn prog_wf(prog: Seq<Instruction>) -> bool {
    &&& prog.len() >= 1
    &&& prog[prog.len() - 1] is Yield
    &&& forall|pc: int| 0 <= pc < prog.len() ==> instr_wf(prog, pc)
    &&& forall|pc: int| 0 <= pc <= prog.len() ==> len_at(prog, pc) <= usize::MAX
}

/// The snapshots reported when execution continues from `pc` with the given
/// registers: the meaning of a program.
pub open spec fn sols(eg: EGraph, prog: Seq<Instruction>, pc: int, regs: Seq<Id>) -> Seq<Seq<Id>>
    decreases prog.len() - pc, 1int, 0int,
{
    if pc < 0 || pc >= prog.len() {
        Seq::empty()
    } else {
        match prog[pc] {
            Instruction::Bind(i, t, out) => {
                let ns = eg.class_nodes_spec(regs[i as int]);
                let fm = first_match(t, ns, 0);
                bind_sols(eg, prog, pc + 1, regs.take(out as int), ns, fm, run_end(t, ns, fm))
            },
            Instruction::Check(i, t) => {
                if ns_contains(eg.class_nodes_spec(regs[i as int]), t) {
                    sols(eg, prog, pc + 1, regs)
                } else {
                    Seq::empty()
                }
            },
            Instruction::Compare(i, j) => {
                if eg.find_spec(regs[i as int]) == eg.find_spec(regs[j as int]) {
                    sols(eg, prog, pc + 1, regs)
                } else {
                    Seq::empty()
                }
            },
            Instruction::Yield(rs) => seq![
                Seq::new(rs@.len(), |k: int| eg.find_spec(regs[rs@[k] as int])),
            ],
        }
    }
}

/// The snapshots from trying, in order, the candidate nodes `ns[k..hi]`: each
/// candidate's children overwrite the registers from `base` on.
pub open spec fn bind_sols(
    eg: EGraph,
    prog: Seq<Instruction>,
    next: int,
    base: Seq<Id>,
    ns: Seq<ENode>,
    k: int,
    hi: int,
) -> Seq<Seq<Id>>
    decreases prog.len() - next + 1, 0int, (if k < hi { hi - k } else { 0int }),
{
    if next < 0 || next > prog.len() || k < 0 || k >= hi {
        Seq::empty()
    } else {
        sols(eg, prog, next, base + ns[k].children@) + bind_sols(eg, prog, next, base, ns, k + 1, hi)
    }
}

/// The number of machine steps left from `pc`; run's termination measure.
pub open spec fn cost(eg: EGraph, prog: Seq<Instruction>, pc: int, regs: Seq<Id>) -> nat
    decreases prog.len() - pc, 1int, 0int,
{
    if pc < 0 || pc >= prog.len() {
        0
    } else {
        match prog[pc] {
            Instruction::Bind(i, t, out) => {
                let ns = eg.class_nodes_spec(regs[i as int]);
                let fm = first_match(t, ns, 0);
                1 + bind_cost(eg, prog, pc + 1, regs.take(out as int), ns, fm, run_end(t, ns, fm))
            },
            Instruction::Check(i, t) => {
                if ns_contains(eg.class_nodes_spec(regs[i as int]), t) {
                    1 + cost(eg, prog, pc + 1, regs)
                } else {
                    1
                }
            },
            Instruction::Compare(i, j) => {
                if eg.find_spec(regs[i as int]) == eg.find_spec(regs[j as int]) {
                    1 + cost(eg, prog, pc + 1, regs)
                } else {
                    1
                }
            },
            Instruction::Yield(_) => 1,
        }
    }
}

pub open spec fn bind_cost(
    eg: EGraph,
    prog: Seq<Instruction>,
    next: int,
    base: Seq<Id>,
    ns: Seq<ENode>,
    k: int,
    hi: int,
) -> nat
    decreases prog.len() - next + 1, 0int, (if k < hi { hi - k } else { 0int }),
{
    if next < 0 || next > prog.len() || k < 0 || k >= hi {
        0
    } else {
        cost(eg, prog, next, base + ns[k].children@) + bind_cost(eg, prog, next, base, ns, k + 1, hi)
    }
}

/// The register snapshots a result list stands for.
pub open spec fn views_of(s: Seq<Vec<Id>>) -> Seq<Seq<Id>> {
    s.map_values(|v: Vec<Id>| v@)
}

/// Every register holds an id the e-graph can resolve.
pub open spec fn reg_bounds(eg: EGraph, regs: Seq<Id>) -> bool {
    forall|k: int| 0 <= k < regs.len() ==> (#[trigger] regs[k] as int) < eg.n()
}

/// A choice point: the output-register base, the resume address, and a live
/// cursor over the candidate nodes of one class.
pub struct Binder {
    pub out: usize,
    pub next: usize,
    pub class: Id,
    pub searcher: EClassSearcher,
}

/// What a choice point still owes: the snapshots of its untried candidates.
pub open spec fn frame_sols(eg: EGraph, prog: Seq<Instruction>, f: Binder, regs: Seq<Id>) -> Seq<
    Seq<Id>,
> {
    bind_sols(
        eg,
        prog,
        f.next as int,
        regs.take(f.out as int),
        eg.classes@[f.class as int].nodes@,
        f.searcher.cur as int,
        f.searcher.end as int,
    )
}

pub open spec fn frame_cost(eg: EGraph, prog: Seq<Instruction>, f: Binder, regs: Seq<Id>) -> nat {
    bind_cost(
        eg,
        prog,
        f.next as int,
        regs.take(f.out as int),
        eg.classes@[f.class as int].nodes@,
        f.searcher.cur as int,
        f.searcher.end as int,
    )
}

/// A choice point is consistent with the `Bind` that opened it.
pub open spec fn frame_wf(eg: EGraph, prog: Seq<Instruction>, f: Binder, regs: Seq<Id>) -> bool {
    &&& 1 <= f.next
    &&& (f.next as int) < prog.len()
    &&& match prog[f.next as int - 1] {
        Instruction::Bind(i, t, out) => {
            &&& out == f.out
            &&& (i as int) < f.out as int
            &&& (regs[i as int] as int) < eg.n()
            &&& f.class == eg.find_spec(regs[i as int])
            &&& (f.class as int) < eg.n()
            &&& f.searcher.cur <= f.searcher.end
            &&& f.searcher.end as int <= eg.classes@[f.class as int].nodes@.len()
            &&& forall|j: int|
                f.searcher.cur <= j < f.searcher.end ==> node_matches(
                    t,
                    eg.classes@[f.class as int].nodes@[j],
                )
        },
        _ => false,
    }
}

pub open spec fn stack_wf(eg: EGraph, prog: Seq<Instruction>, stack: Seq<Binder>, regs: Seq<
    Id,
>) -> bool {
    &&& forall|q: int| 0 <= q < stack.len() ==> frame_wf(eg, prog, #[trigger] stack[q], regs)
    &&& forall|q1: int, q2: int|
        0 <= q1 <= q2 < stack.len() ==> (#[trigger] stack[q1].out as int) <= (
        #[trigger] stack[q2].out as int)
    &&& forall|q: int| 0 <= q < stack.len() ==> (#[trigger] stack[q].out as int) <= regs.len()
}

/// The snapshots the whole stack still owes, top choice point first.
pub open spec fn stack_sols(eg: EGraph, prog: Seq<Instruction>, stack: Seq<Binder>, regs: Seq<
    Id,
>) -> Seq<Seq<Id>>
    decreases stack.len(),
{
    if stack.len() == 0 {
        Seq::empty()
    } else {
        frame_sols(eg, prog, stack.last(), regs) + stack_sols(eg, prog, stack.drop_last(), regs)
    }
}

pub open spec fn stack_cost(eg: EGraph, prog: Seq<Instruction>, stack: Seq<Binder>, regs: Seq<
    Id,
>) -> nat
    decreases stack.len(),
{
    if stack.len() == 0 {
        0
    } else {
        frame_cost(eg, prog, stack.last(), regs) + stack_cost(eg, prog, stack.drop_last(), regs)
    }
}

pub proof fn lemma_len_at_monotone(prog: Seq<Instruction>, a: int, b: int)
    requires
        a <= b,
    ensures
        len_at(prog, a) <= len_at(prog, b),
    decreases b - a,
{
    if a < b {
        lemma_len_at_monotone(prog, a, b - 1);
    }
}

/// Choice points only read registers below their output base, so replacing
/// registers from a level above every base leaves the stack's account alone.
pub proof fn lemma_frames_stable(
    eg: EGraph,
    prog: Seq<Instruction>,
    stack: Seq<Binder>,
    regs1: Seq<Id>,
    regs2: Seq<Id>,
    l: int,
)
    requires
        forall|q: int| 0 <= q < stack.len() ==> frame_wf(eg, prog, #[trigger] stack[q], regs1),
        forall|q: int| 0 <= q < stack.len() ==> (#[trigger] stack[q].out as int) <= l,
        0 <= l <= regs1.len(),
        l <= regs2.len(),
        regs1.subrange(0, l) == regs2.subrange(0, l),
    ensures
        forall|q: int| 0 <= q < stack.len() ==> frame_wf(eg, prog, #[trigger] stack[q], regs2),
        stack_sols(eg, prog, stack, regs1) == stack_sols(eg, prog, stack, regs2),
        stack_cost(eg, prog, stack, regs1) == stack_cost(eg, prog, stack, regs2),
    decreases stack.len(),
{
    assert forall|q: int| 0 <= q < stack.len() implies frame_wf(
        eg,
        prog,
        #[trigger] stack[q],
        regs2,
    ) by {
        let f = stack[q];
        match prog[f.next as int - 1] {
            Instruction::Bind(i, t, out) => {
                assert(regs1[i as int] == regs1.subrange(0, l)[i as int]);
                assert(regs2[i as int] == regs2.subrange(0, l)[i as int]);
            },
            _ => {},
        }
    }
    if stack.len() > 0 {
        let f = stack.last();
        assert(regs1.take(f.out as int) =~= regs2.take(f.out as int)) by {
            assert forall|m: int| 0 <= m < f.out as int implies regs1[m] == regs2[m] by {
                assert(regs1[m] == regs1.subrange(0, l)[m]);
                assert(regs2[m] == regs2.subrange(0, l)[m]);
            }
        }
        lemma_frames_stable(eg, prog, stack.drop_last(), regs1, regs2, l);
    }
}

/// Matcher state for one run: program counter, register array, and the
/// backtracking stack.  Created fresh per run and discarded afterwards.
pub struct Machine {
    pub pc: usize,
    pub reg: Vec<Id>,
    pub stack: Vec<Binder>,
}

impl Machine {
    pub fn new() -> (m: Machine)
        ensures
            m.pc == 0,
            m.reg@ =~= Seq::<Id>::empty(),
            m.stack@ =~= Seq::<Binder>::empty(),
    {
        Machine { pc: 0, reg: Vec::new(), stack: Vec::new() }
    }

    /// The canonical id held in a register.
    pub fn find_reg(&self, egraph: &EGraph, i: usize) -> (r: Id)
        requires
            egraph.wf(),
            (i as int) < self.reg@.len(),
            reg_bounds(*egraph, self.reg@),
        ensures
            r == egraph.find_spec(self.reg@[i as int]),
    {
        egraph.find(self.reg[i])
    }

    /// Pull the next candidate of the top choice point, writing its children
    /// into the saved register range and resuming there; discard exhausted
    /// choice points along the way.  `None` means the search is complete.
    pub fn backtrack(&mut self, egraph: &EGraph, program: &Vec<Instruction>) -> (r: Option<()>)
        requires
            egraph.wf(),
            prog_wf(program@),
            stack_wf(*egraph, program@, old(self).stack@, old(self).reg@),
            reg_bounds(*egraph, old(self).reg@),
        ensures
            reg_bounds(*egraph, final(self).reg@),
            r is Some ==> {
                &&& stack_wf(*egraph, program@, final(self).stack@, final(self).reg@)
                &&& (final(self).pc as int) < program@.len()
                &&& final(self).reg@.len() as int == len_at(program@, final(self).pc as int)
                &&& sols(*egraph, program@, final(self).pc as int, final(self).reg@) + stack_sols(
                    *egraph,
                    program@,
                    final(self).stack@,
                    final(self).reg@,
                ) == stack_sols(*egraph, program@, old(self).stack@, old(self).reg@)
                &&& cost(*egraph, program@, final(self).pc as int, final(self).reg@) + stack_cost(
                    *egraph,
                    program@,
                    final(self).stack@,
                    final(self).reg@,
                ) == stack_cost(*egraph, program@, old(self).stack@, old(self).reg@)
            },
            r is None ==> {
                &&& final(self).stack@.len() == 0
                &&& stack_sols(*egraph, program@, old(self).stack@, old(self).reg@) == Seq::<
                    Seq<Id>,
                >::empty()
                &&& stack_cost(*egraph, program@, old(self).stack@, old(self).reg@) == 0
                &&& final(self).reg@ == old(self).reg@
            },
    {
        loop
            invariant
                egraph.wf(),
                prog_wf(program@),
                stack_wf(*egraph, program@, self.stack@, self.reg@),
                reg_bounds(*egraph, self.reg@),
                self.reg@ == old(self).reg@,
                stack_sols(*egraph, program@, self.stack@, self.reg@) == stack_sols(
                    *egraph,
                    program@,
                    old(self).stack@,
                    old(self).reg@,
                ),
                stack_cost(*egraph, program@, self.stack@, self.reg@) == stack_cost(
                    *egraph,
                    program@,
                    old(self).stack@,
                    old(self).reg@,
                ),
            decreases self.stack@.len(),
        {
            let ghost pre_stack = self.stack@;
            let ghost regs1 = self.reg@;
            match self.stack.pop() {
                None => {
                    return None;
                },
                Some(mut b) => {
                    proof {
                        assert(pre_stack.subrange(0, pre_stack.len() - 1) =~= pre_stack.drop_last());
                        assert(frame_wf(*egraph, program@, pre_stack.last(), regs1));
                    }
                    let ghost rest = self.stack@;
                    match b.searcher.next() {
                        Some(idx) => {
                            let ghost b0 = pre_stack.last();
                            let node = &egraph.classes[b.class].nodes[idx];
                            let ghost ns = egraph.classes@[b.class as int].nodes@;
                            proof {
                                assert(node_matches(
                                    instr_template(program@, b.next as int - 1),
                                    ns[idx as int],
                                ));
                            }
                            self.reg.truncate(b.out);
                            let mut j: usize = 0;
                            while j < node.children.len()
                                invariant
                                    j <= node.children@.len(),
                                    self.stack@ == rest,
                                    self.reg@ == regs1.take(b.out as int) + node.children@.take(
                                        j as int,
                                    ),
                                decreases node.children@.len() - j,
                            {
                                self.reg.push(node.children[j]);
                                proof {
                                    assert(regs1.take(b.out as int) + node.children@.take(
                                        j as int,
                                    ).push(node.children@[j as int]) =~= regs1.take(b.out as int)
                                        + node.children@.take(j as int + 1));
                                }
                                j = j + 1;
                            }
                            proof {
                                assert(node.children@.take(node.children@.len() as int)
                                    =~= node.children@);
                            }
                            self.pc = b.next;
                            self.stack.push(b);
                            proof {
                                assert(self.stack@.drop_last() =~= pre_stack.drop_last());
                                self.lemma_backtrack_step(
                                    *egraph,
                                    program@,
                                    pre_stack,
                                    regs1,
                                    b0,
                                    idx,
                                );
                            }
                            return Some(());
                        },
                        None => {
                            proof {
                                assert(frame_sols(*egraph, program@, pre_stack.last(), regs1)
                                    =~= Seq::<Seq<Id>>::empty());
                                assert(stack_sols(*egraph, program@, pre_stack, regs1)
                                    == stack_sols(*egraph, program@, rest, regs1));
                                assert(frame_cost(*egraph, program@, pre_stack.last(), regs1) == 0);
                            }
                        },
                    }
                },
            }
        }
    }

    /// Execute the program to exhaustion from the current state and return
    /// one register snapshot per match, in search order.
    #[verifier::rlimit(100)]
    pub fn run(&mut self, egraph: &EGraph, program: &Vec<Instruction>) -> (results: Vec<Vec<Id>>)
        requires
            egraph.wf(),
            prog_wf(program@),
            old(self).pc == 0,
            old(self).stack@.len() == 0,
            old(self).reg@.len() == 1,
            reg_bounds(*egraph, old(self).reg@),
        ensures
            views_of(results@) == sols(*egraph, program@, 0, old(self).reg@),
    {
        let ghost init = old(self).reg@;
        let ghost total = sols(*egraph, program@, 0, init);
        let mut results: Vec<Vec<Id>> = Vec::new();
        proof {
            assert(views_of(results@) =~= Seq::<Seq<Id>>::empty());
            assert(views_of(results@) + sols(*egraph, program@, 0, init) + stack_sols(
                *egraph,
                program@,
                self.stack@,
                self.reg@,
            ) =~= total);
        }
        loop
            invariant
                egraph.wf(),
                prog_wf(program@),
                (self.pc as int) < program@.len(),
                self.reg@.len() as int == len_at(program@, self.pc as int),
                stack_wf(*egraph, program@, self.stack@, self.reg@),
                reg_bounds(*egraph, self.reg@),
                init == old(self).reg@,
                total == sols(*egraph, program@, 0, init),
                views_of(results@) + sols(*egraph, program@, self.pc as int, self.reg@)
                    + stack_sols(*egraph, program@, self.stack@, self.reg@) == total,
            decreases cost(*egraph, program@, self.pc as int, self.reg@) + stack_cost(
                *egraph,
                program@,
                self.stack@,
                self.reg@,
            ),
        {
            let ghost pc0 = self.pc as int;
            let ghost regs0 = self.reg@;
            let ghost stack0 = self.stack@;
            let ghost res0 = results@;
            proof {
                assert(instr_wf(program@, pc0));
            }
            let pc = self.pc;
            let plen = program.len();
            match &program[pc] {
                Instruction::Bind(i, t, out) => {
                    proof {
                        assert(program@[pc0] is Bind);
                        assert(pc0 != program@.len() - 1);
                        assert(pc0 + 1 < program@.len());
                        assert(pc0 + 1 < plen as int);
                    }
                    let i = *i;
                    let out = *out;
                    let id = self.reg[i];
                    let c = egraph.find(id);
                    proof {
                        assert(sorted_by_shape(egraph.classes@[c as int].nodes@));
                    }
                    let searcher = EClassSearcher::new(t, &egraph.classes[c].nodes);
                    let b = Binder { out, next: pc + 1, class: c, searcher };
                    let ghost bg = b;
                    self.stack.push(b);
                    proof {
                        let ns = egraph.classes@[c as int].nodes@;
                        let fm = first_match(*t, ns, 0);
                        let re = run_end(*t, ns, fm);
                        crate::searcher::lemma_first_match(*t, ns, 0);
                        crate::searcher::lemma_run_end(*t, ns, fm);
                        assert(regs0.take(out as int) =~= regs0);
                        assert(ns == egraph.class_nodes_spec(regs0[i as int]));
                        assert(program@[pc0] == Instruction::Bind(i, *t, out));
                        assert(sols(*egraph, program@, pc0, regs0) == bind_sols(
                            *egraph,
                            program@,
                            pc0 + 1,
                            regs0.take(out as int),
                            ns,
                            fm,
                            re,
                        ));
                        assert(cost(*egraph, program@, pc0, regs0) == 1 + bind_cost(
                            *egraph,
                            program@,
                            pc0 + 1,
                            regs0.take(out as int),
                            ns,
                            fm,
                            re,
                        ));
                        assert(bg.next as int == pc0 + 1);
                        assert(bg.out == out);
                        assert(bg.class == c);
                        if bg.searcher.cur < bg.searcher.end {
                            assert(sols(*egraph, program@, pc0, regs0) == frame_sols(
                                *egraph,
                                program@,
                                bg,
                                regs0,
                            ));
                            assert(cost(*egraph, program@, pc0, regs0) == 1 + frame_cost(
                                *egraph,
                                program@,
                                bg,
                                regs0,
                            ));
                        } else {
                            assert(ns.subrange(
                                bg.searcher.cur as int,
                                bg.searcher.end as int,
                            ).len() == ns.subrange(fm, re).len());
                            assert(re == fm);
                            assert(sols(*egraph, program@, pc0, regs0) == frame_sols(
                                *egraph,
                                program@,
                                bg,
                                regs0,
                            ));
                            assert(cost(*egraph, program@, pc0, regs0) == 1 + frame_cost(
                                *egraph,
                                program@,
                                bg,
                                regs0,
                            ));
                        }
                        assert(self.stack@.drop_last() =~= stack0);
                        assert(frame_wf(*egraph, program@, bg, regs0));
                        assert forall|q: int| 0 <= q < self.stack@.len() implies frame_wf(
                            *egraph,
                            program@,
                            #[trigger] self.stack@[q],
                            regs0,
                        ) by {
                            if q < self.stack@.len() - 1 {
                                assert(self.stack@[q] == stack0[q]);
                            }
                        }
                        assert forall|q1: int, q2: int|
                            0 <= q1 <= q2 < self.stack@.len() implies (
                        #[trigger] self.stack@[q1].out as int) <= (
                        #[trigger] self.stack@[q2].out as int) by {
                            if q1 < self.stack@.len() - 1 {
                                assert(self.stack@[q1] == stack0[q1]);
                                assert(stack0[q1].out as int <= regs0.len());
                            }
                            if q2 == self.stack@.len() - 1 {
                                assert(self.stack@[q2].out as int == regs0.len());
                            } else {
                                assert(self.stack@[q2] == stack0[q2]);
                            }
                        }
                        assert forall|q: int| 0 <= q < self.stack@.len() implies (
                        #[trigger] self.stack@[q].out as int) <= self.reg@.len() by {
                            if q < self.stack@.len() - 1 {
                                assert(self.stack@[q] == stack0[q]);
                            }
                        }
                        assert(stack_sols(*egraph, program@, self.stack@, regs0) == frame_sols(
                            *egraph,
                            program@,
                            bg,
                            regs0,
                        ) + stack_sols(*egraph, program@, stack0, regs0));
                        assert(views_of(res0) + stack_sols(*egraph, program@, self.stack@, regs0)
                            =~= total);
                    }
                    match self.backtrack(egraph, program) {
                        Some(_) => {
                            proof {
                                assert(views_of(results@) + sols(
                                    *egraph,
                                    program@,
                                    self.pc as int,
                                    self.reg@,
                                ) + stack_sols(*egraph, program@, self.stack@, self.reg@)
                                    =~= total);
                            }
                        },
                        None => {
                            proof {
                                assert(views_of(results@) =~= total);
                            }
                            return results;
                        },
                    }
                },
                Instruction::Check(i, t) => {
                    proof {
                        assert(pc0 != program@.len() - 1);
                        assert(pc0 + 1 < plen as int);
                    }
                    let id = self.reg[*i];
                    if egraph.class_contains(id, t) {
                        self.pc = pc + 1;
                    } else {
                        proof {
                            assert(sols(*egraph, program@, pc0, regs0) =~= Seq::<Seq<Id>>::empty());
                            assert(views_of(res0) + stack_sols(*egraph, program@, stack0, regs0)
                                =~= total);
                        }
                        match self.backtrack(egraph, program) {
                            Some(_) => {
                                proof {
                                    assert(views_of(results@) + sols(
                                        *egraph,
                                        program@,
                                        self.pc as int,
                                        self.reg@,
                                    ) + stack_sols(*egraph, program@, self.stack@, self.reg@)
                                        =~= total);
                                }
                            },
                            None => {
                                proof {
                                    assert(views_of(results@) =~= total);
                                }
                                return results;
                            },
                        }
                    }
                },
                Instruction::Compare(i, j) => {
                    proof {
                        assert(pc0 != program@.len() - 1);
                        assert(pc0 + 1 < plen as int);
                    }
                    let a = self.find_reg(egraph, *i);
                    let b = self.find_reg(egraph, *j);
                    if a == b {
                        self.pc = pc + 1;
                    } else {
                        proof {
                            assert(sols(*egraph, program@, pc0, regs0) =~= Seq::<Seq<Id>>::empty());
                            assert(views_of(res0) + stack_sols(*egraph, program@, stack0, regs0)
                                =~= total);
                        }
                        match self.backtrack(egraph, program) {
                            Some(_) => {
                                proof {
                                    assert(views_of(results@) + sols(
                                        *egraph,
                                        program@,
                                        self.pc as int,
                                        self.reg@,
                                    ) + stack_sols(*egraph, program@, self.stack@, self.reg@)
                                        =~= total);
                                }
                            },
                            None => {
                                proof {
                                    assert(views_of(results@) =~= total);
                                }
                                return results;
                            },
                        }
                    }
                },
                Instruction::Yield(rs) => {
                    let mut snap: Vec<Id> = Vec::new();
                    let mut k: usize = 0;
                    while k < rs.len()
                        invariant
                            k <= rs@.len(),
                            egraph.wf(),
                            reg_bounds(*egraph, self.reg@),
                            self.pc == pc0,
                            self.reg@ == regs0,
                            self.stack@ == stack0,
                            forall|m: int|
                                0 <= m < rs@.len() ==> (rs@[m] as int) < self.reg@.len(),
                            snap@.len() == k,
                            forall|m: int|
                                0 <= m < k ==> snap@[m] == egraph.find_spec(
                                    self.reg@[rs@[m] as int],
                                ),
                        decreases rs@.len() - k,
                    {
                        let r = rs[k];
                        let v = egraph.find(self.reg[r]);
                        snap.push(v);
                        k = k + 1;
                    }
                    let ghost snapg = snap@;
                    results.push(snap);
                    proof {
                        assert(snapg =~= Seq::new(
                            rs@.len(),
                            |m: int| egraph.find_spec(regs0[rs@[m] as int]),
                        ));
                        assert(sols(*egraph, program@, pc0, regs0) =~= seq![snapg]);
                        assert(views_of(results@) =~= views_of(res0) + seq![snapg]);
                        assert(views_of(results@) + stack_sols(*egraph, program@, stack0, regs0)
                            =~= total);
                    }
                    match self.backtrack(egraph, program) {
                        Some(_) => {
                            proof {
                                assert(views_of(results@) + sols(
                                    *egraph,
                                    program@,
                                    self.pc as int,
                                    self.reg@,
                                ) + stack_sols(*egraph, program@, self.stack@, self.reg@)
                                    =~= total);
                            }
                        },
                        None => {
                            proof {
                                assert(views_of(results@) =~= total);
                            }
                            return results;
                        },
                    }
                },
            }
        }
    }

    /// The write-and-resume step of `backtrack` preserves the stack's
    /// account: the snapshots owed before equal the snapshots of the resumed
    /// branch plus those still owed.
    proof fn lemma_backtrack_step(
        &self,
        eg: EGraph,
        prog: Seq<Instruction>,
        pre_stack: Seq<Binder>,
        regs1: Seq<Id>,
        b0: Binder,
        idx: usize,
    )
        requires
            eg.wf(),
            prog_wf(prog),
            pre_stack.len() >= 1,
            b0 == pre_stack.last(),
            stack_wf(eg, prog, pre_stack, regs1),
            reg_bounds(eg, regs1),
            idx == b0.searcher.cur,
            (b0.searcher.cur as int) < b0.searcher.end as int,
            self.pc == b0.next,
            self.stack@.len() == pre_stack.len(),
            self.stack@.drop_last() == pre_stack.drop_last(),
            self.stack@.last() == (Binder {
                searcher: EClassSearcher {
                    cur: (b0.searcher.cur + 1) as usize,
                    end: b0.searcher.end,
                },
                ..b0
            }),
            self.reg@ == regs1.take(b0.out as int) + eg.classes@[b0.class as int].nodes@[idx as int].children@,
        ensures
            stack_wf(eg, prog, self.stack@, self.reg@),
            reg_bounds(eg, self.reg@),
            (self.pc as int) < prog.len(),
            self.reg@.len() as int == len_at(prog, self.pc as int),
            sols(eg, prog, self.pc as int, self.reg@) + stack_sols(
                eg,
                prog,
                self.stack@,
                self.reg@,
            ) == stack_sols(eg, prog, pre_stack, regs1),
            cost(eg, prog, self.pc as int, self.reg@) + stack_cost(
                eg,
                prog,
                self.stack@,
                self.reg@,
            ) == stack_cost(eg, prog, pre_stack, regs1),
    {
        let regs2 = self.reg@;
        let ns = eg.classes@[b0.class as int].nodes@;
        let node = ns[idx as int];
        let t = instr_template(prog, b0.next as int - 1);
        assert(frame_wf(eg, prog, b0, regs1));
        assert(node_matches(t, node));
        assert(instr_wf(prog, b0.next as int - 1));
        // the candidate's children live exactly in the registers after out
        assert(regs2.len() == b0.out as int + node.children@.len());
        assert(regs2.len() as int == len_at(prog, b0.next as int)) by {
            assert(len_at(prog, b0.next as int) == len_at(prog, b0.next as int - 1)
                + t.children@.len());
        }
        // register prefixes below out are untouched
        assert(regs1.subrange(0, b0.out as int) =~= regs2.subrange(0, b0.out as int));
        assert(regs2.take(b0.out as int) =~= regs1.take(b0.out as int));
        // the rest of the stack keeps its account
        lemma_frames_stable(eg, prog, pre_stack.drop_last(), regs1, regs2, b0.out as int);
        // the popped frame's account splits into the taken branch and the rest
        assert(frame_sols(eg, prog, b0, regs1) == sols(eg, prog, b0.next as int, regs2)
            + frame_sols(eg, prog, self.stack@.last(), regs2)) by {
            assert(regs1.take(b0.out as int) + ns[idx as int].children@ =~= regs2);
        }
        assert(frame_cost(eg, prog, b0, regs1) == cost(eg, prog, b0.next as int, regs2)
            + frame_cost(eg, prog, self.stack@.last(), regs2));
        // reassemble
        assert(stack_sols(eg, prog, pre_stack, regs1) == frame_sols(eg, prog, b0, regs1)
            + stack_sols(eg, prog, pre_stack.drop_last(), regs1));
        assert(stack_sols(eg, prog, self.stack@, regs2) == frame_sols(
            eg,
            prog,
            self.stack@.last(),
            regs2,
        ) + stack_sols(eg, prog, pre_stack.drop_last(), regs2)) by {
            assert(self.stack@.drop_last() =~= pre_stack.drop_last());
        }
        assert(sols(eg, prog, self.pc as int, regs2) + stack_sols(eg, prog, self.stack@, regs2)
            =~= stack_sols(eg, prog, pre_stack, regs1));
        // register bounds: children of a stored node are in range
        assert forall|m: int| 0 <= m < regs2.len() implies (#[trigger] regs2[m] as int)
            < eg.n() by {
            if m < b0.out as int {
                assert(regs2[m] == regs1[m]);
            } else {
                assert(regs2[m] == ns[idx as int].children@[m - b0.out as int]);
            }
        }
        // the replaced top frame is still well formed, with one fewer candidate
        assert(frame_wf(eg, prog, self.stack@.last(), regs2)) by {
            assert(regs2[instr_src(prog, b0.next as int - 1) as int] == regs1[instr_src(
                prog,
                b0.next as int - 1,
            ) as int]);
        }
        assert forall|q: int| 0 <= q < self.stack@.len() implies frame_wf(
            eg,
            prog,
            #[trigger] self.stack@[q],
            regs2,
        ) by {
            if q < self.stack@.len() - 1 {
                assert(self.stack@[q] == pre_stack.drop_last()[q]);
            }
        }
        assert forall|q: int| 0 <= q < self.stack@.len() implies (#[trigger] self.stack@[q].out
            as int) <= regs2.len() by {
            if q < self.stack@.len() - 1 {
                assert(self.stack@[q] == pre_stack.drop_last()[q]);
                assert(pre_stack.drop_last()[q] == pre_stack[q]);
            }
            assert(self.stack@[q].out as int <= b0.out as int) by {
                assert(pre_stack[q].out as int <= pre_stack[pre_stack.len() - 1].out as int);
            }
        }
        assert forall|q1: int, q2: int| 0 <= q1 <= q2 < self.stack@.len() implies (
        #[trigger] self.stack@[q1].out as int) <= (#[trigger] self.stack@[q2].out as int) by {
            assert(pre_stack[q1].out as int <= pre_stack[q2].out as int);
            if q1 < self.stack@.len() - 1 {
                assert(self.stack@[q1] == pre_stack.drop_last()[q1]);
                assert(pre_stack.drop_last()[q1] == pre_stack[q1]);
            }
            if q2 < self.stack@.len() - 1 {
                assert(self.stack@[q2] == pre_stack.drop_last()[q2]);
                assert(pre_stack.drop_last()[q2] == pre_stack[q2]);
            }
        }
    }
}

/// The register count of the closing `Yield`.
pub open spec fn yield_len(prog: Seq<Instruction>) -> int {
    match prog[prog.len() - 1] {
        Instruction::Yield(rs) => rs@.len() as int,
        _ => 0,
    }
}

/// A reported snapshot lists one canonical id per closing-`Yield` register.
pub open spec fn snapshot_ok(eg: EGraph, prog: Seq<Instruction>, s: Seq<Id>) -> bool {
    &&& s.len() == yield_len(prog)
    &&& forall|m: int|
        0 <= m < s.len() ==> (#[trigger] s[m] as int) < eg.n() && eg.find_spec(s[m]) == s[m]
}

/// In a program whose only `Yield` is the last instruction, every reported
/// snapshot has that `Yield`'s length and holds canonical ids only.
pub proof fn lemma_sols_shape(eg: EGraph, prog: Seq<Instruction>, pc: int, regs: Seq<Id>)
    requires
        eg.wf(),
        prog_wf(prog),
        0 <= pc < prog.len(),
        regs.len() == len_at(prog, pc),
        reg_bounds(eg, regs),
        forall|q: int| 0 <= q < prog.len() - 1 ==> !(#[trigger] prog[q] is Yield),
    ensures
        forall|j: int|
            0 <= j < sols(eg, prog, pc, regs).len() ==> snapshot_ok(
                eg,
                prog,
                #[trigger] sols(eg, prog, pc, regs)[j],
            ),
    decreases prog.len() - pc, 1int, 0int,
{
    assert(instr_wf(prog, pc));
    match prog[pc] {
        Instruction::Bind(i, t, out) => {
            let ns = eg.class_nodes_spec(regs[i as int]);
            let fm = first_match(t, ns, 0);
            let re = run_end(t, ns, fm);
            crate::searcher::lemma_first_match(t, ns, 0);
            crate::searcher::lemma_run_end(t, ns, fm);
            let cls = eg.find_spec(regs[i as int]);
            assert(prog[prog.len() - 1] is Yield);
            assert(pc < prog.len() - 1);
            assert forall|j: int| fm <= j < re implies (regs.take(out as int)
                + ns[j].children@).len() == len_at(prog, pc + 1) && reg_bounds(
                eg,
                regs.take(out as int) + ns[j].children@,
            ) by {
                assert(node_matches(t, ns[j]));
                let ext = regs.take(out as int) + ns[j].children@;
                assert forall|m: int| 0 <= m < ext.len() implies (#[trigger] ext[m] as int)
                    < eg.n() by {
                    if m < out as int {
                        assert(ext[m] == regs[m]);
                    } else {
                        assert(ext[m] == eg.classes@[cls as int].nodes@[j].children@[m
                            - out as int]);
                    }
                }
            }
            lemma_bind_shape(eg, prog, pc + 1, regs.take(out as int), ns, fm, re);
            assert(sols(eg, prog, pc, regs) == bind_sols(
                eg,
                prog,
                pc + 1,
                regs.take(out as int),
                ns,
                fm,
                re,
            ));
            assert forall|j: int| 0 <= j < sols(eg, prog, pc, regs).len() implies snapshot_ok(
                eg,
                prog,
                #[trigger] sols(eg, prog, pc, regs)[j],
            ) by {
                assert(snapshot_ok(
                    eg,
                    prog,
                    bind_sols(eg, prog, pc + 1, regs.take(out as int), ns, fm, re)[j],
                ));
            }
        },
        Instruction::Check(i, t) => {
            if ns_contains(eg.class_nodes_spec(regs[i as int]), t) {
                assert(pc < prog.len() - 1);
                lemma_sols_shape(eg, prog, pc + 1, regs);
                assert(sols(eg, prog, pc, regs) == sols(eg, prog, pc + 1, regs));
                assert forall|j: int| 0 <= j < sols(eg, prog, pc, regs).len() implies snapshot_ok(
                    eg,
                    prog,
                    #[trigger] sols(eg, prog, pc, regs)[j],
                ) by {
                    assert(snapshot_ok(eg, prog, sols(eg, prog, pc + 1, regs)[j]));
                }
            } else {
                assert(sols(eg, prog, pc, regs) == Seq::<Seq<Id>>::empty());
            }
        },
        Instruction::Compare(i, j) => {
            if eg.find_spec(regs[i as int]) == eg.find_spec(regs[j as int]) {
                assert(pc < prog.len() - 1);
                lemma_sols_shape(eg, prog, pc + 1, regs);
                assert(sols(eg, prog, pc, regs) == sols(eg, prog, pc + 1, regs));
                assert forall|m: int| 0 <= m < sols(eg, prog, pc, regs).len() implies snapshot_ok(
                    eg,
                    prog,
                    #[trigger] sols(eg, prog, pc, regs)[m],
                ) by {
                    assert(snapshot_ok(eg, prog, sols(eg, prog, pc + 1, regs)[m]));
                }
            } else {
                assert(sols(eg, prog, pc, regs) == Seq::<Seq<Id>>::empty());
            }
        },
        Instruction::Yield(rs) => {
            assert(pc == prog.len() - 1);
            let snap = Seq::new(rs@.len(), |k: int| eg.find_spec(regs[rs@[k] as int]));
            assert forall|m: int| 0 <= m < snap.len() implies (#[trigger] snap[m] as int) < eg.n()
                && eg.find_spec(snap[m]) == snap[m] by {
                assert((rs@[m] as int) < len_at(prog, pc));
                assert((regs[rs@[m] as int] as int) < eg.n());
            }
            assert(sols(eg, prog, pc, regs) == seq![snap]);
            assert forall|j: int| 0 <= j < sols(eg, prog, pc, regs).len() implies snapshot_ok(
                eg,
                prog,
                #[trigger] sols(eg, prog, pc, regs)[j],
            ) by {
                assert(sols(eg, prog, pc, regs)[j] == snap);
                assert(snapshot_ok(eg, prog, snap));
            }
        },
    }
}

pub proof fn lemma_bind_shape(
    eg: EGraph,
    prog: Seq<Instruction>,
    next: int,
    base: Seq<Id>,
    ns: Seq<ENode>,
    k: int,
    hi: int,
)
    requires
        eg.wf(),
        prog_wf(prog),
        0 <= next < prog.len(),
        forall|q: int| 0 <= q < prog.len() - 1 ==> !(#[trigger] prog[q] is Yield),
        forall|j: int|
            k <= j < hi ==> (base + ns[j].children@).len() == len_at(prog, next) && reg_bounds(
                eg,
                base + #[trigger] ns[j].children@,
            ),
    ensures
        forall|j: int|
            0 <= j < bind_sols(eg, prog, next, base, ns, k, hi).len() ==> snapshot_ok(
                eg,
                prog,
                #[trigger] bind_sols(eg, prog, next, base, ns, k, hi)[j],
            ),
    decreases prog.len() - next + 1, 0int, (if k < hi { hi - k } else { 0int }),
{
    if 0 <= k < hi {
        lemma_sols_shape(eg, prog, next, base + ns[k].children@);
        lemma_bind_shape(eg, prog, next, base, ns, k + 1, hi);
        let first = sols(eg, prog, next, base + ns[k].children@);
        let rest = bind_sols(eg, prog, next, base, ns, k + 1, hi);
        assert forall|j: int| 0 <= j < (first + rest).len() implies snapshot_ok(
            eg,
            prog,
            #[trigger] (first + rest)[j],
        ) by {
            if j < first.len() {
                assert((first + rest)[j] == first[j]);
            } else {
                assert((first + rest)[j] == rest[j - first.len()]);
            }
        }
    }
}

/// A `Check` instruction succeeds exactly when the tested node is a member
/// of the target class's node list; on failure nothing is reported.
pub proof fn lemma_check_membership(eg: EGraph, prog: Seq<Instruction>, pc: int, regs: Seq<Id>)
    requires
        0 <= pc < prog.len(),
        prog[pc] is Check,
    ensures
        match prog[pc] {
            Instruction::Check(i, t) => sols(eg, prog, pc, regs) == (if ns_contains(
                eg.class_nodes_spec(regs[i as int]),
                t,
            ) {
                sols(eg, prog, pc + 1, regs)
            } else {
                Seq::<Seq<Id>>::empty()
            }),
            _ => true,
        },
{
}

/// The template of the `Bind` at `pc`; arbitrary for other instructions.
pub open spec fn instr_template(prog: Seq<Instruction>, pc: int) -> ENode {
    match prog[pc] {
        Instruction::Bind(_, t, _) => t,
        Instruction::Check(_, t) => t,
        _ => arbitrary(),
    }
}

/// The source register of the `Bind` at `pc`; arbitrary otherwise.
pub open spec fn instr_src(prog: Seq<Instruction>, pc: int) -> usize {
    match prog[pc] {
        Instruction::Bind(i, _, _) => i,
        Instruction::Check(i, _) => i,
        Instruction::Compare(i, _) => i,
        _ => arbitrary(),
    }
}

} // verus!

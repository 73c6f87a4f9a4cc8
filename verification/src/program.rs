//! The pattern compiler and the reusable compiled artifact.  A flat pattern
//! is turned into an instruction sequence plus a variable-to-register table
//! in first-seen order; running the program against a start class returns
//! every substitution, one per reported snapshot.

use vstd::prelude::*;

use crate::egraph::EGraph;
use crate::egraph::ns_contains;
use crate::language::ENode;
use crate::language::ENodeOrVar;
use crate::language::node_eq_spec;
use crate::language::node_matches;
use crate::language::Id;
use crate::language::Var;
use crate::language::kids_size;
use crate::language::lemma_kids_size_nonneg;
use crate::language::lemma_slot_size_pos;
use crate::language::pattern_size;
use crate::language::pattern_wf;
use crate::language::slot_size;
use crate::language::slot_wf;
use crate::machine::Instruction;
use crate::machine::Machine;
use crate::machine::bind_sols;
use crate::machine::instr_wf;
use crate::machine::len_at;
use crate::machine::lemma_len_at_monotone;
use crate::machine::prog_wf;
use crate::machine::sols;
use crate::machine::snapshot_ok;
use crate::machine::views_of;
use crate::machine::yield_len;
use crate::pending::imap_entries;
use crate::searcher::first_match;
use crate::searcher::run_end;
use crate::pending::imap_entry_list;
use crate::pending::imap_get;
use crate::pending::imap_insert;
use crate::pending::imap_new;
use crate::pending::imap_pop;
use crate::pending::key_index;
use crate::pending::lemma_key_index;

verus! {

/// The value column of an entry list.
pub open spec fn values_of(s: Seq<(usize, usize)>) -> Seq<usize> {
    s.map_values(|pr: (usize, usize)| pr.1)
}

/// The pair sequences a substitution list stands for.
pub open spec fn subst_views(s: Seq<Subst>) -> Seq<Seq<(Var, Id)>> {
    s.map_values(|s: Subst| s@)
}

/// Each pending entry names a live register and a slot of the pattern.
spec fn r2p_inv(p: Seq<ENodeOrVar>, entries: Seq<(usize, usize)>, bound: int) -> bool {
    forall|q: int|
        0 <= q < entries.len() ==> ((#[trigger] entries[q]).0 as int) < bound && (entries[q].1
            as int) < p.len()
}

pub open spec fn distinct_keys(s: Seq<(usize, usize)>) -> bool {
    forall|q1: int, q2: int| 0 <= q1 < q2 < s.len() ==> s[q1].0 != s[q2].0
}

/// The variable table maps distinct variables to live registers.
spec fn v2r_inv(entries: Seq<(usize, usize)>, bound: int) -> bool {
    &&& forall|q: int| 0 <= q < entries.len() ==> ((#[trigger] entries[q]).1 as int) < bound
    &&& distinct_keys(entries)
}

/// The emitted prefix is register-safe, holds no `Yield` yet, and has
/// allocated registers up to `next_reg`.
spec fn buf_inv(prog: Seq<Instruction>, next_reg: int) -> bool {
    &&& next_reg == len_at(prog, prog.len() as int)
    &&& forall|pc: int| 0 <= pc < prog.len() ==> instr_wf(prog, pc)
    &&& forall|pc: int| 0 <= pc < prog.len() ==> !(#[trigger] prog[pc] is Yield)
}

/// What matching observes of one instruction: its registers, the template's
/// operator and its child list.  Two programs with the same model behave the
/// same.
pub enum InstructionModel {
    Bind(usize, u64, Seq<Id>, usize),
    Check(usize, u64, Seq<Id>),
    Compare(usize, usize),
    Yield(Seq<usize>),
}

pub open spec fn instr_model(x: Instruction) -> InstructionModel {
    match x {
        Instruction::Bind(i, t, out) => InstructionModel::Bind(i, t.op, t.children@, out),
        Instruction::Check(i, t) => InstructionModel::Check(i, t.op, t.children@),
        Instruction::Compare(a, b) => InstructionModel::Compare(a, b),
        Instruction::Yield(rs) => InstructionModel::Yield(rs@),
    }
}

pub open spec fn instrs_model(s: Seq<Instruction>) -> Seq<InstructionModel> {
    s.map_values(|x: Instruction| instr_model(x))
}

/// Every pending entry names a slot of the pattern.
pub open spec fn pending_ok(p: Seq<ENodeOrVar>, pending: Seq<(usize, usize)>) -> bool {
    forall|q: int| 0 <= q < pending.len() ==> ((#[trigger] pending[q]).1 as int) < p.len()
}

/// The first `j` pending entries a non-leaf slot enqueues: child `m` of the
/// slot waits at register `next_reg + m`, appended last child first so that
/// the first child is taken up first.
pub open spec fn child_entries_upto(cs: Seq<Id>, next_reg: int, j: int) -> Seq<(usize, usize)> {
    Seq::new(
        j as nat,
        |m: int| (((next_reg + cs.len() - 1 - m) as usize), cs[cs.len() - 1 - m]),
    )
}

pub open spec fn child_entries(cs: Seq<Id>, next_reg: int) -> Seq<(usize, usize)> {
    child_entries_upto(cs, next_reg, cs.len() as int)
}

/// The compiler itself, as equations on the worklist state: the instructions
/// still to be emitted and the final variable table, given the pending map,
/// the variable table so far, and the next free register.  Entries are taken
/// newest first; a leaf emits `Check`, a repeated variable `Compare`, a
/// non-leaf `Bind` with its children enqueued; an empty worklist closes with
/// the `Yield` of the variable table's registers.
pub open spec fn compile_spec(
    p: Seq<ENodeOrVar>,
    pending: Seq<(usize, usize)>,
    vars: Seq<(usize, usize)>,
    next_reg: int,
) -> (Seq<InstructionModel>, Seq<(usize, usize)>)
    decreases pending_total(p, pending), pending.len()
        when pattern_wf(p) && pending_ok(p, pending)
        via compile_spec_dec
{
    if pending.len() == 0 {
        (seq![InstructionModel::Yield(values_of(vars))], vars)
    } else {
        let reg = pending.last().0;
        let slot = pending.last().1 as int;
        let rest = pending.drop_last();
        match p[slot] {
            ENodeOrVar::ENode(e) => {
                if e.children@.len() == 0 {
                    let r = compile_spec(p, rest, vars, next_reg);
                    (seq![InstructionModel::Check(reg, e.op, e.children@)] + r.0, r.1)
                } else {
                    let arity = e.children@.len() as int;
                    let r = compile_spec(
                        p,
                        rest + child_entries(e.children@, next_reg),
                        vars,
                        next_reg + arity,
                    );
                    (
                        seq![
                            InstructionModel::Bind(reg, e.op, e.children@, next_reg as usize),
                        ] + r.0,
                        r.1,
                    )
                }
            },
            ENodeOrVar::Var(v) => {
                let i = key_index(vars, v);
                if i < vars.len() {
                    let r = compile_spec(p, rest, vars, next_reg);
                    (seq![InstructionModel::Compare(vars[i].1, reg)] + r.0, r.1)
                } else {
                    compile_spec(p, rest, vars.push((v, reg)), next_reg)
                }
            },
        }
    }
}

#[via_fn]
proof fn compile_spec_dec(
    p: Seq<ENodeOrVar>,
    pending: Seq<(usize, usize)>,
    vars: Seq<(usize, usize)>,
    next_reg: int,
) {
    if pending.len() > 0 {
        let slot = pending.last().1 as int;
        let rest = pending.drop_last();
        lemma_pending_nonneg(p, rest);
        lemma_slot_size_pos(p, slot);
        match p[slot] {
            ENodeOrVar::ENode(e) => {
                if e.children@.len() != 0 {
                    let cs = e.children@;
                    assert(slot_wf(p, slot));
                    assert forall|k: int| 0 <= k < cs.len() implies 0 <= (
                    #[trigger] cs[k] as int) < slot by {
                        let e2 = p[slot]->ENode_0;
                        assert(0 <= (e2.children@[k] as int) < slot);
                    }
                    lemma_pending_concat(p, rest, child_entries(cs, next_reg));
                    lemma_pending_tail(p, cs, next_reg, slot, cs.len() as int);
                    assert(slot_size(p, slot) == 1 + kids_size(p, cs, 0, slot));
                    lemma_kids_size_lower(p, cs, 0, slot);
                }
            },
            _ => {},
        }
    }
}

/// Pending-register sums add over concatenation.
proof fn lemma_pending_concat(p: Seq<ENodeOrVar>, a: Seq<(usize, usize)>, b: Seq<(usize, usize)>)
    ensures
        pending_total(p, a + b) == pending_total(p, a) + pending_total(p, b),
    decreases b.len(),
{
    if b.len() == 0 {
        assert(a + b =~= a);
    } else {
        assert((a + b).drop_last() =~= a + b.drop_last());
        assert((a + b).last() == b.last());
        lemma_pending_concat(p, a, b.drop_last());
    }
}

/// The enqueued children claim exactly their summed subtree registers.
proof fn lemma_pending_tail(p: Seq<ENodeOrVar>, cs: Seq<Id>, next_reg: int, slot: int, j: int)
    requires
        0 <= j <= cs.len(),
        forall|k: int| 0 <= k < cs.len() ==> 0 <= (#[trigger] cs[k] as int) < slot,
    ensures
        pending_total(p, child_entries_upto(cs, next_reg, j)) == kids_size(
            p,
            cs,
            cs.len() - j,
            slot,
        ) - j,
    decreases j,
{
    let t = child_entries_upto(cs, next_reg, j);
    if j == 0 {
        assert(t =~= Seq::<(usize, usize)>::empty());
    } else {
        assert(t.drop_last() =~= child_entries_upto(cs, next_reg, j - 1));
        assert(t.last().1 == cs[cs.len() - j]);
        lemma_pending_tail(p, cs, next_reg, slot, j - 1);
        assert(kids_size(p, cs, cs.len() - j, slot) == slot_size(p, cs[cs.len() - j] as int)
            + kids_size(p, cs, cs.len() - j + 1, slot));
    }
}

/// The whole compiled artifact of a pattern: the instruction models and the
/// variable table, from the seeded worklist `{register 0 -> root slot}`.
pub open spec fn pattern_program(p: Seq<ENodeOrVar>) -> (Seq<InstructionModel>, Seq<(
    usize,
    usize,
)>) {
    compile_spec(p, seq![(0usize, (p.len() - 1) as usize)], Seq::empty(), 1)
}

/// The registers the pending slots will still claim.
pub open spec fn pending_total(p: Seq<ENodeOrVar>, entries: Seq<(usize, usize)>) -> int
    decreases entries.len(),
{
    if entries.len() == 0 {
        0
    } else {
        slot_size(p, entries.last().1 as int) - 1 + pending_total(p, entries.drop_last())
    }
}

proof fn lemma_pending_nonneg(p: Seq<ENodeOrVar>, entries: Seq<(usize, usize)>)
    ensures
        pending_total(p, entries) >= 0,
    decreases entries.len(),
{
    if entries.len() > 0 {
        lemma_slot_size_pos(p, entries.last().1 as int);
        lemma_pending_nonneg(p, entries.drop_last());
    }
}

/// Summed child sizes are at least the child count.
proof fn lemma_kids_size_lower(p: Seq<ENodeOrVar>, cs: Seq<Id>, k: int, bound: int)
    requires
        0 <= k <= cs.len(),
    ensures
        kids_size(p, cs, k, bound) >= cs.len() - k,
    decreases cs.len() - k,
{
    if k < cs.len() {
        if 0 <= (cs[k] as int) < bound {
            lemma_slot_size_pos(p, cs[k] as int);
        }
        lemma_kids_size_lower(p, cs, k + 1, bound);
    }
}

proof fn lemma_len_at_push(prog: Seq<Instruction>, x: Instruction, pc: int)
    requires
        0 <= pc <= prog.len(),
    ensures
        len_at(prog.push(x), pc) == len_at(prog, pc),
    decreases pc,
{
    if pc > 0 {
        lemma_len_at_push(prog, x, pc - 1);
        assert(prog.push(x)[pc - 1] == prog[pc - 1]);
    }
}

/// How many registers an instruction allocates.
spec fn emitted_regs(x: Instruction) -> int {
    match x {
        Instruction::Bind(_, t, _) => t.children@.len() as int,
        _ => 0,
    }
}

/// Appending a register-safe non-`Yield` instruction keeps the prefix sound.
proof fn lemma_buf_extend(prog: Seq<Instruction>, x: Instruction, next_reg: int)
    requires
        buf_inv(prog, next_reg),
        !(x is Yield),
        instr_wf(prog.push(x), prog.len() as int),
    ensures
        buf_inv(prog.push(x), next_reg + emitted_regs(x)),
        len_at(prog.push(x), prog.len() as int) == next_reg,
{
    let b1 = prog.push(x);
    lemma_len_at_push(prog, x, prog.len() as int);
    assert forall|pc: int| 0 <= pc < b1.len() implies instr_wf(b1, pc) by {
        lemma_len_at_push(prog, x, pc);
        if pc < prog.len() {
            assert(instr_wf(prog, pc));
            assert(b1[pc] == prog[pc]);
        }
    }
    assert(len_at(b1, b1.len() as int) == len_at(b1, b1.len() - 1) + emitted_regs(x));
}

/// Turn the pending work into instructions: leaf templates become `Check`,
/// repeated variables become `Compare`, non-leaf templates become `Bind`
/// with their children enqueued, and the variable table's registers close
/// the program with `Yield`.
fn compile(
    pattern: &Vec<ENodeOrVar>,
    r2p: &mut indexmap::IndexMap<usize, usize>,
    v2r: &mut indexmap::IndexMap<usize, usize>,
    next_reg: usize,
    buf: &mut Vec<Instruction>,
)
    requires
        pattern_wf(pattern@),
        pattern_size(pattern@) <= usize::MAX,
        r2p_inv(pattern@, imap_entries(*old(r2p)), next_reg as int),
        v2r_inv(imap_entries(*old(v2r)), next_reg as int),
        buf_inv(old(buf)@, next_reg as int),
        next_reg as int + pending_total(pattern@, imap_entries(*old(r2p))) <= pattern_size(
            pattern@,
        ),
    ensures
        imap_entries(*final(r2p)).len() == 0,
        prog_wf(final(buf)@),
        final(buf)@.len() >= 1,
        forall|pc: int|
            0 <= pc < final(buf)@.len() - 1 ==> !(#[trigger] final(buf)@[pc] is Yield),
        distinct_keys(imap_entries(*final(v2r))),
        match final(buf)@[final(buf)@.len() - 1] {
            Instruction::Yield(rs) => rs@ == values_of(imap_entries(*final(v2r))),
            _ => false,
        },
        instrs_model(final(buf)@) == instrs_model(old(buf)@) + compile_spec(
            pattern@,
            imap_entries(*old(r2p)),
            imap_entries(*old(v2r)),
            next_reg as int,
        ).0,
        imap_entries(*final(v2r)) == compile_spec(
            pattern@,
            imap_entries(*old(r2p)),
            imap_entries(*old(v2r)),
            next_reg as int,
        ).1,
{
    let ghost p = pattern@;
    let ghost buf_base = buf@;
    let ghost spec_base = compile_spec(
        p,
        imap_entries(*r2p),
        imap_entries(*v2r),
        next_reg as int,
    );
    let mut next_reg = next_reg;
    proof {
        lemma_pending_nonneg(p, imap_entries(*r2p));
    }
    loop
        invariant
            pattern_wf(p),
            p == pattern@,
            pattern_size(p) <= usize::MAX,
            r2p_inv(p, imap_entries(*r2p), next_reg as int),
            v2r_inv(imap_entries(*v2r), next_reg as int),
            buf_inv(buf@, next_reg as int),
            next_reg as int + pending_total(p, imap_entries(*r2p)) <= pattern_size(p),
            pending_total(p, imap_entries(*r2p)) >= 0,
            instrs_model(buf@) + compile_spec(
                p,
                imap_entries(*r2p),
                imap_entries(*v2r),
                next_reg as int,
            ).0 == instrs_model(buf_base) + spec_base.0,
            compile_spec(p, imap_entries(*r2p), imap_entries(*v2r), next_reg as int).1
                == spec_base.1,
        ensures
            imap_entries(*r2p).len() == 0,
            v2r_inv(imap_entries(*v2r), next_reg as int),
            buf_inv(buf@, next_reg as int),
            instrs_model(buf@) + compile_spec(
                p,
                imap_entries(*r2p),
                imap_entries(*v2r),
                next_reg as int,
            ).0 == instrs_model(buf_base) + spec_base.0,
            compile_spec(p, imap_entries(*r2p), imap_entries(*v2r), next_reg as int).1
                == spec_base.1,
        decreases pending_total(p, imap_entries(*r2p)), imap_entries(*r2p).len(),
    {
        let ghost r0 = imap_entries(*r2p);
        match imap_pop(r2p) {
            None => {
                break;
            },
            Some(pair) => {
                let (reg, slot) = pair;
                let ghost rest_all = imap_entries(*r2p);
                let ghost v0 = imap_entries(*v2r);
                let ghost nr1 = next_reg as int;
                proof {
                    assert(r0[r0.len() - 1] == (reg, slot));
                    assert(r0.last() == (reg, slot));
                    assert(rest_all =~= r0.drop_last());
                    assert(((r0[r0.len() - 1]).0 as int) < next_reg as int);
                    assert(pending_ok(p, r0)) by {
                        assert forall|q: int| 0 <= q < r0.len() implies ((
                        #[trigger] r0[q]).1 as int) < p.len() by {
                            assert((r0[q].0 as int) < next_reg as int);
                        }
                    }
                    lemma_pending_nonneg(p, imap_entries(*r2p));
                    assert(pending_total(p, r0) == slot_size(p, slot as int) - 1 + pending_total(
                        p,
                        imap_entries(*r2p),
                    ));
                    lemma_slot_size_pos(p, slot as int);
                    assert(slot_wf(p, slot as int));
                }
                match &pattern[slot] {
                    ENodeOrVar::ENode(e) => {
                        if e.is_leaf() {
                            let ghost b0 = buf@;
                            let instr = Instruction::Check(reg, e.clone());
                            buf.push(instr);
                            proof {
                                assert(buf@ =~= b0.push(instr));
                                lemma_len_at_push(b0, instr, b0.len() as int);
                                lemma_buf_extend(b0, instr, next_reg as int);
                                assert(p[slot as int] == ENodeOrVar::ENode(*e));
                                assert(compile_spec(p, r0, v0, nr1).0 == seq![
                                    InstructionModel::Check(reg, e.op, e.children@),
                                ] + compile_spec(p, rest_all, v0, nr1).0);
                                assert(compile_spec(p, r0, v0, nr1).1 == compile_spec(
                                    p,
                                    rest_all,
                                    v0,
                                    nr1,
                                ).1);
                                assert(instr_model(instr) == InstructionModel::Check(
                                    reg,
                                    e.op,
                                    e.children@,
                                ));
                                assert(instrs_model(buf@) =~= instrs_model(b0) + seq![
                                    instr_model(instr),
                                ]);
                                assert(instrs_model(buf@) + compile_spec(
                                    p,
                                    rest_all,
                                    v0,
                                    nr1,
                                ).0 =~= instrs_model(b0) + compile_spec(p, r0, v0, nr1).0);
                            }
                        } else {
                            let ghost b0 = buf@;
                            let ghost pt_rest = pending_total(p, imap_entries(*r2p));
                            let instr = Instruction::Bind(reg, e.clone(), next_reg);
                            buf.push(instr);
                            proof {
                                assert(buf@ =~= b0.push(instr));
                                lemma_len_at_push(b0, instr, b0.len() as int);
                                lemma_buf_extend(b0, instr, next_reg as int);
                                assert(slot_size(p, slot as int) == 1 + kids_size(
                                    p,
                                    e.children@,
                                    0,
                                    slot as int,
                                ));
                                lemma_kids_size_lower(p, e.children@, 0, slot as int);
                                lemma_kids_size_nonneg(p, e.children@, 0, slot as int);
                                assert(imap_entries(*r2p) =~= rest_all + child_entries_upto(
                                    e.children@,
                                    next_reg as int,
                                    0,
                                ));
                            }
                            let arity = e.children.len();
                            let mut i: usize = arity;
                            while i > 0
                                invariant
                                    pattern_wf(p),
                                    p == pattern@,
                                    i <= arity,
                                    arity == e.children@.len(),
                                    slot_wf(p, slot as int),
                                    (slot as int) < p.len(),
                                    p[slot as int] == ENodeOrVar::ENode(*e),
                                    next_reg as int + kids_size(p, e.children@, 0, slot as int)
                                        <= usize::MAX,
                                    next_reg as int + arity as int <= usize::MAX,
                                    r2p_inv(
                                        p,
                                        imap_entries(*r2p),
                                        next_reg as int + arity as int,
                                    ),
                                    imap_entries(*r2p) == rest_all + child_entries_upto(
                                        e.children@,
                                        next_reg as int,
                                        arity as int - i as int,
                                    ),
                                    forall|q: int|
                                        0 <= q < rest_all.len() ==> ((#[trigger] rest_all[q]).0
                                            as int) < next_reg as int,
                                    pending_total(p, imap_entries(*r2p)) == pt_rest + kids_size(
                                        p,
                                        e.children@,
                                        i as int,
                                        slot as int,
                                    ) - (arity as int - i as int),
                                decreases i,
                            {
                                i = i - 1;
                                let ghost r1 = imap_entries(*r2p);
                                let key = next_reg + i;
                                proof {
                                    assert(key_index(r1, key) == r1.len()) by {
                                        lemma_key_index(r1, key);
                                        if key_index(r1, key) < r1.len() {
                                            let ki = key_index(r1, key);
                                            assert((r1[ki]).0 == key);
                                            if ki < rest_all.len() {
                                                assert(r1[ki] == rest_all[ki]);
                                            } else {
                                                assert(r1[ki] == child_entries_upto(
                                                    e.children@,
                                                    next_reg as int,
                                                    arity as int - i as int - 1,
                                                )[ki - rest_all.len()]);
                                            }
                                        }
                                    }
                                    let e2 = p[slot as int]->ENode_0;
                                    assert(0 <= (e2.children@[i as int] as int) < slot as int);
                                    assert(e2 == *e);
                                    assert(0 <= (e.children@[i as int] as int) < slot as int);
                                    assert(kids_size(p, e.children@, i as int, slot as int)
                                        == slot_size(p, e.children@[i as int] as int) + kids_size(
                                        p,
                                        e.children@,
                                        i as int + 1,
                                        slot as int,
                                    ));
                                }
                                imap_insert(r2p, key, e.children[i]);
                                proof {
                                    assert(imap_entries(*r2p) =~= r1.push(
                                        (key, e.children@[i as int]),
                                    ));
                                    assert(imap_entries(*r2p).drop_last() =~= r1);
                                    lemma_slot_size_pos(p, e.children@[i as int] as int);
                                    let tail_new = child_entries_upto(
                                        e.children@,
                                        next_reg as int,
                                        arity as int - i as int,
                                    );
                                    assert(tail_new[arity as int - i as int - 1] == (
                                        key,
                                        e.children@[i as int],
                                    ));
                                    assert(imap_entries(*r2p) =~= rest_all + tail_new);
                                }
                            }
                            next_reg = next_reg + arity;
                            proof {
                                assert(pending_total(p, imap_entries(*r2p)) == pt_rest + kids_size(
                                    p,
                                    e.children@,
                                    0,
                                    slot as int,
                                ) - arity as int);
                                lemma_pending_nonneg(p, imap_entries(*r2p));
                                assert(p[slot as int] == ENodeOrVar::ENode(*e));
                                assert(imap_entries(*r2p) =~= rest_all + child_entries(
                                    e.children@,
                                    nr1,
                                ));
                                assert(compile_spec(p, r0, v0, nr1).0 == seq![
                                    InstructionModel::Bind(reg, e.op, e.children@, nr1 as usize),
                                ] + compile_spec(
                                    p,
                                    rest_all + child_entries(e.children@, nr1),
                                    v0,
                                    nr1 + arity as int,
                                ).0);
                                assert(compile_spec(p, r0, v0, nr1).1 == compile_spec(
                                    p,
                                    rest_all + child_entries(e.children@, nr1),
                                    v0,
                                    nr1 + arity as int,
                                ).1);
                                assert(instr_model(instr) == InstructionModel::Bind(
                                    reg,
                                    e.op,
                                    e.children@,
                                    nr1 as usize,
                                ));
                                assert(instrs_model(buf@) =~= instrs_model(b0) + seq![
                                    instr_model(instr),
                                ]);
                                assert(instrs_model(buf@) + compile_spec(
                                    p,
                                    imap_entries(*r2p),
                                    imap_entries(*v2r),
                                    next_reg as int,
                                ).0 =~= instrs_model(b0) + compile_spec(p, r0, v0, nr1).0);
                            }
                        }
                    },
                    ENodeOrVar::Var(v) => {
                        match imap_get(v2r, *v) {
                            Some(r) => {
                                let ghost b0 = buf@;
                                let instr = Instruction::Compare(r, reg);
                                buf.push(instr);
                                proof {
                                    let entries = imap_entries(*v2r);
                                    lemma_key_index(entries, *v);
                                    assert((entries[key_index(entries, *v)].1 as int) < next_reg
                                        as int);
                                    assert(buf@ =~= b0.push(instr));
                                    lemma_len_at_push(b0, instr, b0.len() as int);
                                    lemma_buf_extend(b0, instr, next_reg as int);
                                    assert(p[slot as int] == ENodeOrVar::Var(*v));
                                    assert(r == v0[key_index(v0, *v)].1);
                                    assert(compile_spec(p, r0, v0, nr1).0 == seq![
                                        InstructionModel::Compare(r, reg),
                                    ] + compile_spec(p, rest_all, v0, nr1).0);
                                    assert(compile_spec(p, r0, v0, nr1).1 == compile_spec(
                                        p,
                                        rest_all,
                                        v0,
                                        nr1,
                                    ).1);
                                    assert(instr_model(instr) == InstructionModel::Compare(
                                        r,
                                        reg,
                                    ));
                                    assert(instrs_model(buf@) =~= instrs_model(b0) + seq![
                                        instr_model(instr),
                                    ]);
                                    assert(instrs_model(buf@) + compile_spec(
                                        p,
                                        rest_all,
                                        v0,
                                        nr1,
                                    ).0 =~= instrs_model(b0) + compile_spec(p, r0, v0, nr1).0);
                                }
                            },
                            None => {
                                imap_insert(v2r, *v, reg);
                                proof {
                                    lemma_key_index(v0, *v);
                                    assert(imap_entries(*v2r) =~= v0.push((*v, reg)));
                                    assert(p[slot as int] == ENodeOrVar::Var(*v));
                                    assert(key_index(v0, *v) == v0.len());
                                    assert(compile_spec(p, r0, v0, nr1).0 == compile_spec(
                                        p,
                                        rest_all,
                                        v0.push((*v, reg)),
                                        nr1,
                                    ).0);
                                    assert(compile_spec(p, r0, v0, nr1).1 == compile_spec(
                                        p,
                                        rest_all,
                                        v0.push((*v, reg)),
                                        nr1,
                                    ).1);
                                    assert forall|q1: int, q2: int|
                                        0 <= q1 < q2 < imap_entries(*v2r).len() implies imap_entries(
                                        *v2r,
                                    )[q1].0 != imap_entries(*v2r)[q2].0 by {
                                        if q2 < v0.len() {
                                            assert(v0[q1].0 != v0[q2].0);
                                        } else {
                                            assert(imap_entries(*v2r)[q2].0 == *v);
                                            assert(v0[q1].0 != *v);
                                        }
                                    }
                                }
                            },
                        }
                    },
                }
            },
        }
    }
    let list = imap_entry_list(v2r);
    let mut regs: Vec<usize> = Vec::new();
    let mut k: usize = 0;
    while k < list.len()
        invariant
            k <= list@.len(),
            list@ == imap_entries(*v2r),
            regs@.len() == k,
            forall|m: int| 0 <= m < k ==> regs@[m] == list@[m].1,
        decreases list@.len() - k,
    {
        let entry = list[k];
        regs.push(entry.1);
        k = k + 1;
    }
    proof {
        assert(regs@ =~= values_of(imap_entries(*v2r)));
    }
    let ghost b0 = buf@;
    let instr = Instruction::Yield(regs);
    buf.push(instr);
    proof {
        assert(buf@ =~= b0.push(instr));
        lemma_len_at_push(b0, instr, b0.len() as int);
        assert(instr_wf(buf@, b0.len() as int));
        assert forall|pc: int| 0 <= pc < buf@.len() implies instr_wf(buf@, pc) by {
            lemma_len_at_push(b0, instr, pc);
            if pc < b0.len() {
                assert(instr_wf(b0, pc));
                assert(buf@[pc] == b0[pc]);
            }
        }
        assert forall|pc: int| 0 <= pc <= buf@.len() implies len_at(buf@, pc) <= usize::MAX by {
            lemma_len_at_monotone(buf@, pc, buf@.len() as int);
            assert(len_at(buf@, buf@.len() as int) == len_at(buf@, b0.len() as int));
        }
        assert(prog_wf(buf@));
    }
}

/// One match's variable bindings, in the program's fixed variable order.
#[derive(Debug, PartialEq, Eq)]
pub struct Subst {
    pub pairs: Vec<(Var, Id)>,
}

impl View for Subst {
    type V = Seq<(Var, Id)>;

    open spec fn view(&self) -> Seq<(Var, Id)> {
        self.pairs@
    }
}

impl Subst {
    /// The id bound to a variable, if the pattern used it.
    pub fn get(&self, v: Var) -> (r: Option<Id>)
        ensures
            ({
                let i = key_index(self@, v);
                if i < self@.len() {
                    r == Some(self@[i].1)
                } else {
                    r == None::<Id>
                }
            }),
    {
        let mut k: usize = 0;
        while k < self.pairs.len()
            invariant
                k <= self.pairs@.len(),
                forall|m: int| 0 <= m < k ==> (#[trigger] self.pairs@[m]).0 != v,
            decreases self.pairs@.len() - k,
        {
            let entry = self.pairs[k];
            if entry.0 == v {
                proof {
                    lemma_key_index(self.pairs@, v);
                    assert(key_index(self.pairs@, v) >= k);
                    assert(key_index(self.pairs@, v) <= k) by {
                        if key_index(self.pairs@, v) > k {
                            assert(self.pairs@[k as int].0 != v);
                        }
                    }
                }
                return Some(entry.1);
            }
            k = k + 1;
        }
        proof {
            lemma_key_index(self.pairs@, v);
            if key_index(self.pairs@, v) < self.pairs@.len() {
                assert(self.pairs@[key_index(self.pairs@, v)].0 == v);
            }
        }
        None
    }
}

/// The immutable compiled artifact: the instruction list and the
/// variable-to-register table in first-seen order.
pub struct Program {
    pub v2r: indexmap::IndexMap<usize, usize>,
    pub instrs: Vec<Instruction>,
}

/// The pairs of one substitution: each variable with the id its register
/// snapshot holds.
pub open spec fn subst_pairs(v2r: Seq<(usize, usize)>, snap: Seq<Id>) -> Seq<(Var, Id)> {
    Seq::new(v2r.len(), |k: int| (v2r[k].0, snap[k]))
}

/// Everything a run of the program returns, as pair sequences.
pub open spec fn program_results(p: Program, eg: EGraph, start: Id) -> Seq<Seq<(Var, Id)>> {
    sols(eg, p.instrs@, 0, seq![start]).map_values(
        |snap: Seq<Id>| subst_pairs(imap_entries(p.v2r), snap),
    )
}

impl Program {
    /// A compiled program: well formed, closed by its only `Yield`, which
    /// lists exactly the variable table's registers.
    pub open spec fn wf(self) -> bool {
        &&& prog_wf(self.instrs@)
        &&& forall|pc: int|
            0 <= pc < self.instrs@.len() - 1 ==> !(#[trigger] self.instrs@[pc] is Yield)
        &&& distinct_keys(imap_entries(self.v2r))
        &&& match self.instrs@[self.instrs@.len() - 1] {
            Instruction::Yield(rs) => rs@ == values_of(imap_entries(self.v2r)),
            _ => false,
        }
    }

    /// Compile a flat pattern, whose root is its last slot, into a program:
    /// exactly the instruction sequence and variable table that
    /// `pattern_program` prescribes for the pattern.
    pub fn compile_from_pat(pattern: &Vec<ENodeOrVar>) -> (p: Program)
        requires
            pattern_wf(pattern@),
            pattern_size(pattern@) <= usize::MAX,
        ensures
            p.wf(),
            instrs_model(p.instrs@) == pattern_program(pattern@).0,
            imap_entries(p.v2r) == pattern_program(pattern@).1,
    {
        let mut instrs: Vec<Instruction> = Vec::new();
        let mut r2p = imap_new();
        let mut v2r = imap_new();
        let ghost r0 = imap_entries(r2p);
        let root = pattern.len() - 1;
        imap_insert(&mut r2p, 0, root);
        proof {
            lemma_key_index(r0, 0);
            assert(imap_entries(r2p) =~= r0.push((0usize, root)));
            assert(imap_entries(r2p).drop_last() =~= r0);
            assert(imap_entries(r2p).len() == 1);
            assert(imap_entries(r2p).last() == (0usize, root));
            assert(pending_total(pattern@, r0) == 0);
            assert(pending_total(pattern@, imap_entries(r2p)) == slot_size(
                pattern@,
                imap_entries(r2p).last().1 as int,
            ) - 1 + pending_total(pattern@, imap_entries(r2p).drop_last()));
            assert(pending_total(pattern@, imap_entries(r2p)) == slot_size(
                pattern@,
                root as int,
            ) - 1);
        }
        let ghost seeded = imap_entries(r2p);
        compile(pattern, &mut r2p, &mut v2r, 1, &mut instrs);
        proof {
            assert(seeded =~= seq![(0usize, (pattern@.len() - 1) as usize)]);
            assert(instrs_model(Seq::<Instruction>::empty()) =~= Seq::<
                InstructionModel,
            >::empty());
            assert(instrs_model(instrs@) =~= pattern_program(pattern@).0);
        }
        Program { v2r, instrs }
    }

    /// Run the program against one starting class, returning every
    /// substitution in search order; the e-graph is only read.
    pub fn run(&self, egraph: &EGraph, eclass: Id) -> (r: Vec<Subst>)
        requires
            self.wf(),
            egraph.wf(),
            (eclass as int) < egraph.n(),
        ensures
            subst_views(r@) == program_results(*self, *egraph, eclass),
    {
        let ghost start_regs: Seq<Id> = seq![eclass];
        let mut machine = Machine::new();
        machine.reg.push(eclass);
        proof {
            assert(machine.reg@ =~= start_regs);
            assert(len_at(self.instrs@, 0) == 1);
        }
        let snaps = machine.run(egraph, &self.instrs);
        let ghost ventries = imap_entries(self.v2r);
        proof {
            crate::machine::lemma_sols_shape(*egraph, self.instrs@, 0, start_regs);
            assert(yield_len(self.instrs@) == ventries.len()) by {
                assert(values_of(ventries).len() == ventries.len());
            }
        }
        let vars = imap_entry_list(&self.v2r);
        let mut out: Vec<Subst> = Vec::new();
        let mut idx: usize = 0;
        proof {
            assert forall|j: int| 0 <= j < snaps@.len() implies snapshot_ok(
                *egraph,
                self.instrs@,
                #[trigger] snaps@[j]@,
            ) by {
                assert(views_of(snaps@)[j] == snaps@[j]@);
                assert(snapshot_ok(
                    *egraph,
                    self.instrs@,
                    sols(*egraph, self.instrs@, 0, start_regs)[j],
                ));
            }
            assert(subst_views(out@) =~= program_results(*self, *egraph, eclass).take(0));
        }
        while idx < snaps.len()
            invariant
                idx <= snaps@.len(),
                vars@ == ventries,
                ventries == imap_entries(self.v2r),
                views_of(snaps@) == sols(*egraph, self.instrs@, 0, start_regs),
                start_regs == seq![eclass],
                forall|j: int|
                    0 <= j < snaps@.len() ==> snapshot_ok(
                        *egraph,
                        self.instrs@,
                        #[trigger] snaps@[j]@,
                    ),
                yield_len(self.instrs@) == ventries.len(),
                subst_views(out@) == program_results(*self, *egraph, eclass).take(idx as int),
                program_results(*self, *egraph, eclass).len() == snaps@.len(),
            decreases snaps@.len() - idx,
        {
            let snap = &snaps[idx];
            proof {
                assert(views_of(snaps@)[idx as int] == snaps@[idx as int]@);
                assert(snap@.len() == ventries.len());
            }
            let mut pairs: Vec<(Var, Id)> = Vec::new();
            let mut k: usize = 0;
            while k < vars.len()
                invariant
                    k <= vars@.len(),
                    snap@.len() == vars@.len(),
                    pairs@.len() == k,
                    forall|m: int|
                        0 <= m < k ==> #[trigger] pairs@[m] == (vars@[m].0, snap@[m]),
                decreases vars@.len() - k,
            {
                let entry = vars[k];
                pairs.push((entry.0, snap[k]));
                k = k + 1;
            }
            proof {
                assert(pairs@ =~= subst_pairs(ventries, snap@));
            }
            let ghost out0 = out@;
            let sub = Subst { pairs };
            let ghost subg = sub;
            out.push(sub);
            idx = idx + 1;
            proof {
                assert(out@ =~= out0.push(subg));
                let results = program_results(*self, *egraph, eclass);
                assert(results[idx - 1] == subst_pairs(ventries, snaps@[idx - 1]@)) by {
                    assert(sols(*egraph, self.instrs@, 0, start_regs)[idx - 1] == views_of(
                        snaps@,
                    )[idx - 1]);
                }
                assert(out0.len() == idx - 1) by {
                    assert(subst_views(out0).len() == out0.len());
                }
                assert(subst_views(out@) =~= results.take(idx as int)) by {
                    assert forall|m: int| 0 <= m < idx implies subst_views(out@)[m]
                        == results.take(idx as int)[m] by {
                        assert(subst_views(out@)[m] == out@[m]@);
                        if m < idx - 1 {
                            assert(out@[m] == out0[m]);
                            assert(subst_views(out0)[m] == out0[m]@);
                        } else {
                            assert(out@[m] == subg);
                        }
                    }
                }
            }
        }
        proof {
            assert(program_results(*self, *egraph, eclass).take(snaps@.len() as int)
                =~= program_results(*self, *egraph, eclass));
        }
        out
    }
}

/// The node of some slot of the pattern, by operator and child list.
pub open spec fn slot_node(p: Seq<ENodeOrVar>, op: u64, cs: Seq<Id>) -> bool {
    exists|s: int|
        0 <= s < p.len() && (#[trigger] p[s]) is ENode && p[s]->ENode_0.op == op
            && p[s]->ENode_0.children@ == cs
}

/// What every emitted instruction owes the pattern: a `Check` carries a leaf
/// slot's node, a `Bind` a non-leaf slot's node.
pub open spec fn emitted_ok(p: Seq<ENodeOrVar>, m: InstructionModel) -> bool {
    match m {
        InstructionModel::Check(_, op, cs) => cs.len() == 0 && slot_node(p, op, cs),
        InstructionModel::Bind(_, op, cs, _) => cs.len() >= 1 && slot_node(p, op, cs),
        _ => true,
    }
}

/// A `Compare`'s first register is one the variable table assigns.
pub open spec fn compare_reg_ok(m: InstructionModel, table: Seq<(usize, usize)>) -> bool {
    match m {
        InstructionModel::Compare(a, _) => exists|q: int|
            0 <= q < table.len() && (#[trigger] table[q]).1 == a,
        _ => true,
    }
}

/// A table entry's key is a variable the pattern holds.
pub open spec fn table_entry_from_pattern(p: Seq<ENodeOrVar>, entry: (usize, usize)) -> bool {
    exists|s: int| 0 <= s < p.len() && #[trigger] p[s] == ENodeOrVar::Var(entry.0)
}

/// Invariants of the compiler's output, from any worklist state: `Check` is
/// emitted only for leaf templates and `Bind` only for non-leaf ones, both
/// taken from the pattern; a `Compare`'s first register is one the variable
/// table assigns; and the table only grows, so first-seen entries keep their
/// place and order.
pub proof fn lemma_emitted_shape(
    p: Seq<ENodeOrVar>,
    pending: Seq<(usize, usize)>,
    vars: Seq<(usize, usize)>,
    next_reg: int,
)
    requires
        pattern_wf(p),
        pending_ok(p, pending),
    ensures
        forall|k: int|
            0 <= k < compile_spec(p, pending, vars, next_reg).0.len() ==> emitted_ok(
                p,
                #[trigger] compile_spec(p, pending, vars, next_reg).0[k],
            ),
        forall|k: int|
            0 <= k < compile_spec(p, pending, vars, next_reg).0.len() ==> compare_reg_ok(
                #[trigger] compile_spec(p, pending, vars, next_reg).0[k],
                compile_spec(p, pending, vars, next_reg).1,
            ),
        vars.len() <= compile_spec(p, pending, vars, next_reg).1.len(),
        forall|q: int|
            0 <= q < vars.len() ==> #[trigger] compile_spec(p, pending, vars, next_reg).1[q]
                == vars[q],
        forall|q: int|
            vars.len() <= q < compile_spec(p, pending, vars, next_reg).1.len()
                ==> table_entry_from_pattern(
                p,
                #[trigger] compile_spec(p, pending, vars, next_reg).1[q],
            ),
    decreases pending_total(p, pending), pending.len(),
{
    let r = compile_spec(p, pending, vars, next_reg);
    if pending.len() > 0 {
        let reg = pending.last().0;
        let slot = pending.last().1 as int;
        let rest = pending.drop_last();
        lemma_pending_nonneg(p, rest);
        lemma_slot_size_pos(p, slot);
        assert(pending_ok(p, rest));
        match p[slot] {
            ENodeOrVar::ENode(e) => {
                assert(slot_node(p, e.op, e.children@)) by {
                    assert(0 <= slot < p.len() && p[slot] is ENode);
                }
                if e.children@.len() == 0 {
                    lemma_emitted_shape(p, rest, vars, next_reg);
                    let tail = compile_spec(p, rest, vars, next_reg);
                    assert forall|k: int| 0 <= k < r.0.len() implies emitted_ok(
                        p,
                        #[trigger] r.0[k],
                    ) by {
                        if k > 0 {
                            assert(r.0[k] == tail.0[k - 1]);
                        }
                    }
                    assert forall|k: int| 0 <= k < r.0.len() implies compare_reg_ok(
                        #[trigger] r.0[k],
                        r.1,
                    ) by {
                        if k > 0 {
                            assert(r.0[k] == tail.0[k - 1]);
                            assert(compare_reg_ok(tail.0[k - 1], tail.1));
                        }
                    }
                } else {
                    let cs = e.children@;
                    assert(slot_wf(p, slot));
                    assert forall|k: int| 0 <= k < cs.len() implies 0 <= (
                    #[trigger] cs[k] as int) < slot by {
                        let e2 = p[slot]->ENode_0;
                        assert(0 <= (e2.children@[k] as int) < slot);
                    }
                    lemma_pending_concat(p, rest, child_entries(cs, next_reg));
                    lemma_pending_tail(p, cs, next_reg, slot, cs.len() as int);
                    assert(slot_size(p, slot) == 1 + kids_size(p, cs, 0, slot));
                    lemma_kids_size_lower(p, cs, 0, slot);
                    let pending2 = rest + child_entries(cs, next_reg);
                    assert(pending_ok(p, pending2)) by {
                        assert forall|q: int| 0 <= q < pending2.len() implies ((
                        #[trigger] pending2[q]).1 as int) < p.len() by {
                            if q >= rest.len() {
                                assert(pending2[q] == child_entries(cs, next_reg)[q
                                    - rest.len()]);
                            }
                        }
                    }
                    lemma_emitted_shape(p, pending2, vars, next_reg + cs.len() as int);
                    let tail = compile_spec(p, pending2, vars, next_reg + cs.len() as int);
                    assert forall|k: int| 0 <= k < r.0.len() implies emitted_ok(
                        p,
                        #[trigger] r.0[k],
                    ) by {
                        if k > 0 {
                            assert(r.0[k] == tail.0[k - 1]);
                        }
                    }
                    assert forall|k: int| 0 <= k < r.0.len() implies compare_reg_ok(
                        #[trigger] r.0[k],
                        r.1,
                    ) by {
                        if k > 0 {
                            assert(r.0[k] == tail.0[k - 1]);
                            assert(compare_reg_ok(tail.0[k - 1], tail.1));
                        }
                    }
                }
            },
            ENodeOrVar::Var(v) => {
                let i = key_index(vars, v);
                lemma_key_index(vars, v);
                if i < vars.len() {
                    lemma_emitted_shape(p, rest, vars, next_reg);
                    let tail = compile_spec(p, rest, vars, next_reg);
                    assert forall|k: int| 0 <= k < r.0.len() implies emitted_ok(
                        p,
                        #[trigger] r.0[k],
                    ) by {
                        if k > 0 {
                            assert(r.0[k] == tail.0[k - 1]);
                        }
                    }
                    assert forall|k: int| 0 <= k < r.0.len() implies compare_reg_ok(
                        #[trigger] r.0[k],
                        r.1,
                    ) by {
                        if k > 0 {
                            assert(r.0[k] == tail.0[k - 1]);
                            assert(compare_reg_ok(tail.0[k - 1], tail.1));
                        } else {
                            assert(r.1[i] == vars[i]);
                            assert(r.1[i].1 == vars[i].1);
                        }
                    }
                } else {
                    lemma_emitted_shape(p, rest, vars.push((v, reg)), next_reg);
                    assert forall|q: int| 0 <= q < vars.len() implies #[trigger] r.1[q]
                        == vars[q] by {
                        assert(r.1[q] == vars.push((v, reg))[q]);
                    }
                    assert forall|q: int|
                        vars.len() <= q < r.1.len() implies table_entry_from_pattern(
                        p,
                        #[trigger] r.1[q],
                    ) by {
                        if q == vars.len() {
                            assert(r.1[q] == vars.push((v, reg))[q]);
                            assert(r.1[q] == (v, reg));
                            assert(p[slot] == ENodeOrVar::Var(v));
                        }
                    }
                }
            },
        }
    }
}

/// Invariants of a compiled program, at the artifact itself: every `Check`
/// carries a leaf node of the pattern, every `Bind` a non-leaf node of the
/// pattern, and every `Compare` tests against a register the variable table
/// assigns.
pub proof fn lemma_compiled_templates(prg: Program, pattern: Seq<ENodeOrVar>)
    requires
        pattern_wf(pattern),
        instrs_model(prg.instrs@) == pattern_program(pattern).0,
        imap_entries(prg.v2r) == pattern_program(pattern).1,
    ensures
        forall|k: int|
            0 <= k < prg.instrs@.len() ==> emitted_ok(
                pattern,
                #[trigger] instrs_model(prg.instrs@)[k],
            ),
        forall|k: int|
            0 <= k < prg.instrs@.len() ==> compare_reg_ok(
                #[trigger] instrs_model(prg.instrs@)[k],
                imap_entries(prg.v2r),
            ),
        forall|q: int|
            0 <= q < imap_entries(prg.v2r).len() ==> table_entry_from_pattern(
                pattern,
                #[trigger] imap_entries(prg.v2r)[q],
            ),
{
    let seed: Seq<(usize, usize)> = seq![(0usize, (pattern.len() - 1) as usize)];
    assert(pending_ok(pattern, seed));
    lemma_emitted_shape(pattern, seed, Seq::empty(), 1);
    assert(instrs_model(prg.instrs@).len() == prg.instrs@.len());
}

/// A program that opens with a `Bind` on the start register reports nothing
/// when no node of the start class matches the template: the result list is
/// empty.
pub proof fn lemma_no_matching_node(prg: Program, eg: EGraph, start: Id)
    requires
        prg.instrs@.len() > 0,
        match prg.instrs@[0] {
            Instruction::Bind(i, t, _) => i == 0usize && forall|j: int|
                0 <= j < eg.class_nodes_spec(start).len() ==> !node_matches(
                    t,
                    #[trigger] eg.class_nodes_spec(start)[j],
                ),
            _ => false,
        },
    ensures
        program_results(prg, eg, start) == Seq::<Seq<(Var, Id)>>::empty(),
{
    let regs0: Seq<Id> = seq![start];
    match prg.instrs@[0] {
        Instruction::Bind(i, t, out) => {
            let ns = eg.class_nodes_spec(regs0[0]);
            crate::searcher::lemma_first_match(t, ns, 0);
            let fm = first_match(t, ns, 0);
            assert(fm == ns.len());
            assert(run_end(t, ns, fm) == fm);
            assert(sols(eg, prg.instrs@, 0, regs0) == bind_sols(
                eg,
                prg.instrs@,
                1,
                regs0.take(out as int),
                ns,
                fm,
                fm,
            ));
            assert(bind_sols(eg, prg.instrs@, 1, regs0.take(out as int), ns, fm, fm) == Seq::<
                Seq<Id>,
            >::empty());
            assert(program_results(prg, eg, start) =~= Seq::<Seq<(Var, Id)>>::empty());
        },
        _ => {
            assert(false);
        },
    }
}

/// A bare-variable pattern compiles to a program with no `Bind`, `Check` or
/// `Compare` and a single `Yield` of register 0, the variable's register;
/// run against any class it matches unconditionally, exactly once, binding
/// the variable to the class's canonical id.
pub proof fn lemma_bare_variable(
    prg: Program,
    pattern: Seq<ENodeOrVar>,
    v: Var,
    eg: EGraph,
    start: Id,
)
    requires
        pattern == seq![ENodeOrVar::Var(v)],
        instrs_model(prg.instrs@) == pattern_program(pattern).0,
        imap_entries(prg.v2r) == pattern_program(pattern).1,
    ensures
        pattern_program(pattern).0 == seq![InstructionModel::Yield(seq![0usize])],
        pattern_program(pattern).1 == seq![(v, 0usize)],
        program_results(prg, eg, start) == seq![seq![(v, eg.find_spec(start))]],
{
    let pp = pattern_program(pattern);
    let pending0: Seq<(usize, usize)> = seq![(0usize, 0usize)];
    assert(seq![(0usize, (pattern.len() - 1) as usize)] =~= pending0);
    assert(pattern_wf(pattern)) by {
        assert forall|i: int| 0 <= i < pattern.len() implies slot_wf(pattern, i) by {
            assert(pattern[0] == ENodeOrVar::Var(v));
        }
    }
    assert(pending_ok(pattern, pending0));
    reveal_with_fuel(compile_spec, 3);
    assert(pending0.last() == (0usize, 0usize));
    assert(pending0.drop_last() =~= Seq::<(usize, usize)>::empty());
    assert(pattern[0] == ENodeOrVar::Var(v));
    let vars1: Seq<(usize, usize)> = seq![(v, 0usize)];
    assert(Seq::<(usize, usize)>::empty().push((v, 0usize)) =~= vars1);
    assert(values_of(vars1) =~= seq![0usize]);
    assert(pp.0 == seq![InstructionModel::Yield(seq![0usize])]);
    assert(pp.1 == vars1);
    assert(prg.instrs@.len() == 1) by {
        assert(instrs_model(prg.instrs@).len() == prg.instrs@.len());
    }
    assert(instr_model(prg.instrs@[0]) == InstructionModel::Yield(seq![0usize])) by {
        assert(instrs_model(prg.instrs@)[0] == instr_model(prg.instrs@[0]));
    }
    let regs0: Seq<Id> = seq![start];
    match prg.instrs@[0] {
        Instruction::Yield(rs) => {
            assert(rs@ == seq![0usize]);
            assert(sols(eg, prg.instrs@, 0, regs0) =~= seq![seq![eg.find_spec(start)]]) by {
                assert(Seq::new(rs@.len(), |k: int| eg.find_spec(regs0[rs@[k] as int])) =~= seq![
                    eg.find_spec(start),
                ]);
            }
            assert(subst_pairs(vars1, seq![eg.find_spec(start)]) =~= seq![
                (v, eg.find_spec(start)),
            ]);
            assert(program_results(prg, eg, start) =~= seq![seq![(v, eg.find_spec(start))]]);
        },
        _ => {
            assert(false);
        },
    }
}

/// The flat form of a two-child template over one repeated variable
/// compiles to exactly `Bind(0, _, 1)`, `Compare(1, 2)`, `Yield([1])`, with
/// the variable first seen at register 1.
pub proof fn lemma_repeated_variable_program(pattern: Seq<ENodeOrVar>, v: Var)
    requires
        pattern.len() == 3,
        pattern[0] == ENodeOrVar::Var(v),
        pattern[1] == ENodeOrVar::Var(v),
        pattern[2] is ENode,
        pattern[2]->ENode_0.children@ == seq![0usize, 1usize],
    ensures
        pattern_program(pattern).0 == seq![
            InstructionModel::Bind(0, pattern[2]->ENode_0.op, seq![0usize, 1usize], 1),
            InstructionModel::Compare(1, 2),
            InstructionModel::Yield(seq![1usize]),
        ],
        pattern_program(pattern).1 == seq![(v, 1usize)],
{
    let e = pattern[2]->ENode_0;
    let cs: Seq<Id> = seq![0usize, 1usize];
    assert(pattern_wf(pattern)) by {
        assert forall|i: int| 0 <= i < pattern.len() implies slot_wf(pattern, i) by {
            if i == 2 {
                assert(forall|k: int|
                    0 <= k < cs.len() ==> (#[trigger] cs[k] as int) < 2);
            }
        }
    }
    reveal_with_fuel(compile_spec, 5);
    let pending0: Seq<(usize, usize)> = seq![(0usize, 2usize)];
    assert(seq![(0usize, (pattern.len() - 1) as usize)] =~= pending0);
    assert(pending_ok(pattern, pending0));
    assert(pending0.last() == (0usize, 2usize));
    assert(pending0.drop_last() =~= Seq::<(usize, usize)>::empty());
    let pending1: Seq<(usize, usize)> = seq![(2usize, 1usize), (1usize, 0usize)];
    assert(child_entries(cs, 1) =~= pending1);
    assert(Seq::<(usize, usize)>::empty() + child_entries(cs, 1) =~= pending1);
    assert(pending_ok(pattern, pending1));
    assert(pending1.last() == (1usize, 0usize));
    let pending2: Seq<(usize, usize)> = seq![(2usize, 1usize)];
    assert(pending1.drop_last() =~= pending2);
    assert(pending_ok(pattern, pending2));
    let vars1: Seq<(usize, usize)> = seq![(v, 1usize)];
    assert(Seq::<(usize, usize)>::empty().push((v, 1usize)) =~= vars1);
    assert(pending2.last() == (2usize, 1usize));
    assert(pending2.drop_last() =~= Seq::<(usize, usize)>::empty());
    assert(key_index(vars1, v) == 0);
    assert(vars1[0].1 == 1usize);
    assert(values_of(vars1) =~= seq![1usize]);
    assert(pattern_program(pattern).0 =~= seq![
        InstructionModel::Bind(0, e.op, cs, 1),
        InstructionModel::Compare(1, 2),
        InstructionModel::Yield(seq![1usize]),
    ]);
}

/// Running the compiled form of that pattern against a class holding one
/// node with two equal children yields exactly one substitution, binding the
/// variable to the children's canonical id.
pub proof fn lemma_repeated_variable_run(
    prg: Program,
    pattern: Seq<ENodeOrVar>,
    v: Var,
    eg: EGraph,
    start: Id,
    nd: ENode,
    e2: Id,
)
    requires
        pattern.len() == 3,
        pattern[0] == ENodeOrVar::Var(v),
        pattern[1] == ENodeOrVar::Var(v),
        pattern[2] is ENode,
        pattern[2]->ENode_0.children@ == seq![0usize, 1usize],
        instrs_model(prg.instrs@) == pattern_program(pattern).0,
        imap_entries(prg.v2r) == pattern_program(pattern).1,
        eg.class_nodes_spec(start) == seq![nd],
        nd.op == pattern[2]->ENode_0.op,
        nd.children@ == seq![e2, e2],
    ensures
        program_results(prg, eg, start) == seq![seq![(v, eg.find_spec(e2))]],
{
    lemma_repeated_variable_program(pattern, v);
    let e = pattern[2]->ENode_0;
    let cs: Seq<Id> = seq![0usize, 1usize];
    assert(prg.instrs@.len() == 3) by {
        assert(instrs_model(prg.instrs@).len() == prg.instrs@.len());
    }
    assert(instr_model(prg.instrs@[0]) == InstructionModel::Bind(0, e.op, cs, 1)) by {
        assert(instrs_model(prg.instrs@)[0] == instr_model(prg.instrs@[0]));
    }
    assert(instr_model(prg.instrs@[1]) == InstructionModel::Compare(1, 2)) by {
        assert(instrs_model(prg.instrs@)[1] == instr_model(prg.instrs@[1]));
    }
    assert(instr_model(prg.instrs@[2]) == InstructionModel::Yield(seq![1usize])) by {
        assert(instrs_model(prg.instrs@)[2] == instr_model(prg.instrs@[2]));
    }
    let regs0: Seq<Id> = seq![start];
    let ns = eg.class_nodes_spec(start);
    match prg.instrs@[0] {
        Instruction::Bind(b_i, t, b_out) => {
            assert(b_i == 0usize && b_out == 1usize && t.op == e.op && t.children@ == cs);
            assert(node_matches(t, nd));
            assert(first_match(t, ns, 0) == 0);
            assert(run_end(t, ns, 0) == 1) by {
                reveal_with_fuel(run_end, 3);
            }
            let regs1: Seq<Id> = seq![start, e2, e2];
            assert(regs0.take(1) =~= regs0);
            assert(regs0.take(1) + ns[0].children@ =~= regs1);
            assert(sols(eg, prg.instrs@, 0, regs0) == bind_sols(
                eg,
                prg.instrs@,
                1,
                regs0.take(1),
                ns,
                0,
                1,
            ));
            assert(bind_sols(eg, prg.instrs@, 1, regs0.take(1), ns, 0, 1) == sols(
                eg,
                prg.instrs@,
                1,
                regs1,
            ) + bind_sols(eg, prg.instrs@, 1, regs0.take(1), ns, 1, 1)) by {
                reveal_with_fuel(bind_sols, 2);
            }
            match prg.instrs@[1] {
                Instruction::Compare(c_a, c_b) => {
                    assert(c_a == 1usize && c_b == 2usize);
                    assert(eg.find_spec(regs1[1]) == eg.find_spec(regs1[2]));
                    assert(sols(eg, prg.instrs@, 1, regs1) == sols(eg, prg.instrs@, 2, regs1));
                    match prg.instrs@[2] {
                        Instruction::Yield(rs) => {
                            assert(rs@ == seq![1usize]);
                            assert(sols(eg, prg.instrs@, 2, regs1) =~= seq![
                                seq![eg.find_spec(e2)],
                            ]) by {
                                assert(Seq::new(
                                    rs@.len(),
                                    |k: int| eg.find_spec(regs1[rs@[k] as int]),
                                ) =~= seq![eg.find_spec(e2)]);
                            }
                            assert(sols(eg, prg.instrs@, 0, regs0) =~= seq![
                                seq![eg.find_spec(e2)],
                            ]);
                            assert(subst_pairs(seq![(v, 1usize)], seq![eg.find_spec(e2)]) =~= seq![
                                (v, eg.find_spec(e2)),
                            ]);
                            assert(program_results(prg, eg, start) =~= seq![
                                seq![(v, eg.find_spec(e2))],
                            ]);
                        },
                        _ => {
                            assert(false);
                        },
                    }
                },
                _ => {
                    assert(false);
                },
            }
        },
        _ => {
            assert(false);
        },
    }
}

/// The flat form of a one-child template over a variable compiles to
/// exactly `Bind(0, _, 1)`, `Yield([1])`, the variable first seen at
/// register 1.
pub proof fn lemma_single_child_program(pattern: Seq<ENodeOrVar>, v: Var)
    requires
        pattern.len() == 2,
        pattern[0] == ENodeOrVar::Var(v),
        pattern[1] is ENode,
        pattern[1]->ENode_0.children@ == seq![0usize],
    ensures
        pattern_program(pattern).0 == seq![
            InstructionModel::Bind(0, pattern[1]->ENode_0.op, seq![0usize], 1),
            InstructionModel::Yield(seq![1usize]),
        ],
        pattern_program(pattern).1 == seq![(v, 1usize)],
{
    let e = pattern[1]->ENode_0;
    let cs: Seq<Id> = seq![0usize];
    assert(pattern_wf(pattern)) by {
        assert forall|i: int| 0 <= i < pattern.len() implies slot_wf(pattern, i) by {
            if i == 1 {
                assert(forall|k: int| 0 <= k < cs.len() ==> (#[trigger] cs[k] as int) < 1);
            }
        }
    }
    reveal_with_fuel(compile_spec, 4);
    let pending0: Seq<(usize, usize)> = seq![(0usize, 1usize)];
    assert(seq![(0usize, (pattern.len() - 1) as usize)] =~= pending0);
    assert(pending_ok(pattern, pending0));
    assert(pending0.last() == (0usize, 1usize));
    assert(pending0.drop_last() =~= Seq::<(usize, usize)>::empty());
    let pending1: Seq<(usize, usize)> = seq![(1usize, 0usize)];
    assert(child_entries(cs, 1) =~= pending1);
    assert(Seq::<(usize, usize)>::empty() + child_entries(cs, 1) =~= pending1);
    assert(pending_ok(pattern, pending1));
    assert(pending1.last() == (1usize, 0usize));
    assert(pending1.drop_last() =~= Seq::<(usize, usize)>::empty());
    let vars1: Seq<(usize, usize)> = seq![(v, 1usize)];
    assert(Seq::<(usize, usize)>::empty().push((v, 1usize)) =~= vars1);
    assert(values_of(vars1) =~= seq![1usize]);
    assert(pattern_program(pattern).0 =~= seq![
        InstructionModel::Bind(0, e.op, cs, 1),
        InstructionModel::Yield(seq![1usize]),
    ]);
}

/// Running that compiled pattern against a class whose nodes all differ
/// from the template in operator or arity yields the empty list.
pub proof fn lemma_mismatched_operator_run(
    prg: Program,
    pattern: Seq<ENodeOrVar>,
    v: Var,
    eg: EGraph,
    start: Id,
)
    requires
        pattern.len() == 2,
        pattern[0] == ENodeOrVar::Var(v),
        pattern[1] is ENode,
        pattern[1]->ENode_0.children@ == seq![0usize],
        instrs_model(prg.instrs@) == pattern_program(pattern).0,
        imap_entries(prg.v2r) == pattern_program(pattern).1,
        forall|j: int|
            0 <= j < eg.class_nodes_spec(start).len() ==> !((
            #[trigger] eg.class_nodes_spec(start)[j]).op == pattern[1]->ENode_0.op
                && eg.class_nodes_spec(start)[j].children@.len() == 1),
    ensures
        program_results(prg, eg, start) == Seq::<Seq<(Var, Id)>>::empty(),
{
    lemma_single_child_program(pattern, v);
    let e = pattern[1]->ENode_0;
    assert(prg.instrs@.len() == 2) by {
        assert(instrs_model(prg.instrs@).len() == prg.instrs@.len());
    }
    assert(instr_model(prg.instrs@[0]) == InstructionModel::Bind(0, e.op, seq![0usize], 1)) by {
        assert(instrs_model(prg.instrs@)[0] == instr_model(prg.instrs@[0]));
    }
    match prg.instrs@[0] {
        Instruction::Bind(i, t, out) => {
            assert(i == 0usize && t.op == e.op && t.children@ == seq![0usize]);
            assert forall|j: int| 0 <= j < eg.class_nodes_spec(start).len() implies !node_matches(
                t,
                #[trigger] eg.class_nodes_spec(start)[j],
            ) by {
                assert(t.children@.len() == 1);
            }
            lemma_no_matching_node(prg, eg, start);
        },
        _ => {
            assert(false);
        },
    }
}

/// A worklist over a variable-free pattern never grows the variable table.
pub proof fn lemma_ground_vars(
    p: Seq<ENodeOrVar>,
    pending: Seq<(usize, usize)>,
    vars: Seq<(usize, usize)>,
    next_reg: int,
)
    requires
        pattern_wf(p),
        pending_ok(p, pending),
        forall|i: int| 0 <= i < p.len() ==> !(#[trigger] p[i] is Var),
    ensures
        compile_spec(p, pending, vars, next_reg).1 == vars,
    decreases pending_total(p, pending), pending.len(),
{
    if pending.len() > 0 {
        let slot = pending.last().1 as int;
        let rest = pending.drop_last();
        lemma_pending_nonneg(p, rest);
        lemma_slot_size_pos(p, slot);
        assert(pending_ok(p, rest));
        match p[slot] {
            ENodeOrVar::ENode(e) => {
                if e.children@.len() == 0 {
                    lemma_ground_vars(p, rest, vars, next_reg);
                } else {
                    let cs = e.children@;
                    assert(slot_wf(p, slot));
                    assert forall|k: int| 0 <= k < cs.len() implies 0 <= (
                    #[trigger] cs[k] as int) < slot by {
                        let e2 = p[slot]->ENode_0;
                        assert(0 <= (e2.children@[k] as int) < slot);
                    }
                    lemma_pending_concat(p, rest, child_entries(cs, next_reg));
                    lemma_pending_tail(p, cs, next_reg, slot, cs.len() as int);
                    assert(slot_size(p, slot) == 1 + kids_size(p, cs, 0, slot));
                    lemma_kids_size_lower(p, cs, 0, slot);
                    let pending2 = rest + child_entries(cs, next_reg);
                    assert(pending_ok(p, pending2)) by {
                        assert forall|q: int| 0 <= q < pending2.len() implies ((
                        #[trigger] pending2[q]).1 as int) < p.len() by {
                            if q >= rest.len() {
                                assert(pending2[q] == child_entries(cs, next_reg)[q
                                    - rest.len()]);
                            }
                        }
                    }
                    lemma_ground_vars(p, pending2, vars, next_reg + cs.len() as int);
                }
            },
            ENodeOrVar::Var(_) => {
                assert(false);
            },
        }
    }
}

/// A variable-free pattern compiles to an empty variable table, so every
/// substitution it ever returns is the empty mapping.
pub proof fn lemma_ground_substitutions_empty(
    prg: Program,
    pattern: Seq<ENodeOrVar>,
    eg: EGraph,
    start: Id,
)
    requires
        pattern_wf(pattern),
        forall|i: int| 0 <= i < pattern.len() ==> !(#[trigger] pattern[i] is Var),
        instrs_model(prg.instrs@) == pattern_program(pattern).0,
        imap_entries(prg.v2r) == pattern_program(pattern).1,
    ensures
        imap_entries(prg.v2r) == Seq::<(usize, usize)>::empty(),
        forall|j: int|
            0 <= j < program_results(prg, eg, start).len() ==> #[trigger] program_results(
                prg,
                eg,
                start,
            )[j] == Seq::<(Var, Id)>::empty(),
{
    let seed: Seq<(usize, usize)> = seq![(0usize, (pattern.len() - 1) as usize)];
    assert(pending_ok(pattern, seed));
    lemma_ground_vars(pattern, seed, Seq::empty(), 1);
    assert forall|j: int| 0 <= j < program_results(prg, eg, start).len() implies #[trigger] program_results(
        prg,
        eg,
        start,
    )[j] == Seq::<(Var, Id)>::empty() by {
        let raw = sols(eg, prg.instrs@, 0, seq![start]);
        assert(program_results(prg, eg, start)[j] == subst_pairs(imap_entries(prg.v2r), raw[j]));
        assert(subst_pairs(Seq::<(usize, usize)>::empty(), raw[j]) =~= Seq::<(Var, Id)>::empty());
    }
}

/// A single ground leaf compiles to exactly `Check(0, _)`, `Yield([])` with
/// an empty variable table.
pub proof fn lemma_leaf_program(pattern: Seq<ENodeOrVar>)
    requires
        pattern.len() == 1,
        pattern[0] is ENode,
        pattern[0]->ENode_0.children@.len() == 0,
    ensures
        pattern_program(pattern).0 == seq![
            InstructionModel::Check(0, pattern[0]->ENode_0.op, pattern[0]->ENode_0.children@),
            InstructionModel::Yield(Seq::<usize>::empty()),
        ],
        pattern_program(pattern).1 == Seq::<(usize, usize)>::empty(),
{
    let e = pattern[0]->ENode_0;
    assert(pattern_wf(pattern)) by {
        assert forall|i: int| 0 <= i < pattern.len() implies slot_wf(pattern, i) by {
            assert(pattern[i]->ENode_0.children@.len() == 0);
        }
    }
    reveal_with_fuel(compile_spec, 3);
    let pending0: Seq<(usize, usize)> = seq![(0usize, 0usize)];
    assert(seq![(0usize, (pattern.len() - 1) as usize)] =~= pending0);
    assert(pending_ok(pattern, pending0));
    assert(pending0.last() == (0usize, 0usize));
    assert(pending0.drop_last() =~= Seq::<(usize, usize)>::empty());
    assert(values_of(Seq::<(usize, usize)>::empty()) =~= Seq::<usize>::empty());
    assert(pattern_program(pattern).0 =~= seq![
        InstructionModel::Check(0, e.op, e.children@),
        InstructionModel::Yield(Seq::<usize>::empty()),
    ]);
}

/// Running a compiled ground leaf yields one empty substitution exactly when
/// that leaf value is present in the target class's node list, and nothing
/// otherwise.
pub proof fn lemma_leaf_run(prg: Program, pattern: Seq<ENodeOrVar>, eg: EGraph, start: Id)
    requires
        pattern.len() == 1,
        pattern[0] is ENode,
        pattern[0]->ENode_0.children@.len() == 0,
        instrs_model(prg.instrs@) == pattern_program(pattern).0,
        imap_entries(prg.v2r) == pattern_program(pattern).1,
    ensures
        program_results(prg, eg, start) == (if exists|k: int|
            0 <= k < eg.class_nodes_spec(start).len() && (
            #[trigger] eg.class_nodes_spec(start)[k]).op == pattern[0]->ENode_0.op
                && eg.class_nodes_spec(start)[k].children@.len() == 0 {
            seq![Seq::<(Var, Id)>::empty()]
        } else {
            Seq::<Seq<(Var, Id)>>::empty()
        }),
{
    lemma_leaf_program(pattern);
    let e = pattern[0]->ENode_0;
    let ns = eg.class_nodes_spec(start);
    let regs0: Seq<Id> = seq![start];
    assert(prg.instrs@.len() == 2) by {
        assert(instrs_model(prg.instrs@).len() == prg.instrs@.len());
    }
    assert(instr_model(prg.instrs@[0]) == InstructionModel::Check(0, e.op, e.children@)) by {
        assert(instrs_model(prg.instrs@)[0] == instr_model(prg.instrs@[0]));
    }
    assert(instr_model(prg.instrs@[1]) == InstructionModel::Yield(Seq::<usize>::empty())) by {
        assert(instrs_model(prg.instrs@)[1] == instr_model(prg.instrs@[1]));
    }
    match prg.instrs@[0] {
        Instruction::Check(i, t) => {
            assert(i == 0usize && t.op == e.op && t.children@ == e.children@);
            let present = exists|k: int|
                0 <= k < ns.len() && (#[trigger] ns[k]).op == e.op && ns[k].children@.len() == 0;
            assert(ns_contains(ns, t) == present) by {
                if ns_contains(ns, t) {
                    let k = choose|k: int| 0 <= k < ns.len() && node_eq_spec(ns[k], t);
                    assert(ns[k].op == e.op && ns[k].children@.len() == 0);
                }
                if present {
                    let k = choose|k: int|
                        0 <= k < ns.len() && (#[trigger] ns[k]).op == e.op && ns[k].children@.len()
                            == 0;
                    assert(ns[k].children@ =~= t.children@);
                    assert(node_eq_spec(ns[k], t));
                }
            }
            match prg.instrs@[1] {
                Instruction::Yield(rs) => {
                    assert(rs@ == Seq::<usize>::empty());
                    if present {
                        assert(sols(eg, prg.instrs@, 1, regs0) =~= seq![Seq::<Id>::empty()]) by {
                            assert(Seq::new(
                                rs@.len(),
                                |k: int| eg.find_spec(regs0[rs@[k] as int]),
                            ) =~= Seq::<Id>::empty());
                        }
                        assert(subst_pairs(Seq::<(usize, usize)>::empty(), Seq::<Id>::empty())
                            =~= Seq::<(Var, Id)>::empty());
                        assert(program_results(prg, eg, start) =~= seq![
                            Seq::<(Var, Id)>::empty(),
                        ]);
                    } else {
                        assert(sols(eg, prg.instrs@, 0, regs0) =~= Seq::<Seq<Id>>::empty());
                        assert(program_results(prg, eg, start) =~= Seq::<Seq<(Var, Id)>>::empty());
                    }
                },
                _ => {
                    assert(false);
                },
            }
        },
        _ => {
            assert(false);
        },
    }
}

/// Running one compiled program twice against an unmodified e-graph and
/// start class yields the same substitutions: the result is a function of
/// the program, the e-graph and the start class alone.
pub proof fn lemma_rerun_deterministic(
    p: Program,
    eg: EGraph,
    start: Id,
    r1: Seq<Seq<(Var, Id)>>,
    r2: Seq<Seq<(Var, Id)>>,
)
    requires
        r1 == program_results(p, eg, start),
        r2 == program_results(p, eg, start),
    ensures
        r1 == r2,
{
}

/// Every returned substitution binds each variable at most once, and always
/// to its own canonical representative; a repeated pattern variable thus
/// resolves every occurrence to the identical canonical id.
pub proof fn lemma_substitution_canonical(p: Program, eg: EGraph, start: Id, j: int)
    requires
        p.wf(),
        eg.wf(),
        (start as int) < eg.n(),
        0 <= j < program_results(p, eg, start).len(),
    ensures
        forall|k1: int, k2: int|
            0 <= k1 < k2 < program_results(p, eg, start)[j].len() ==> (
            #[trigger] program_results(p, eg, start)[j][k1]).0 != (
            #[trigger] program_results(p, eg, start)[j][k2]).0,
        forall|k: int|
            0 <= k < program_results(p, eg, start)[j].len() ==> eg.find_spec(
                (#[trigger] program_results(p, eg, start)[j][k]).1,
            ) == program_results(p, eg, start)[j][k].1,
{
    let start_regs: Seq<Id> = seq![start];
    assert(len_at(p.instrs@, 0) == 1);
    crate::machine::lemma_sols_shape(eg, p.instrs@, 0, start_regs);
    let results = program_results(p, eg, start);
    let raw = sols(eg, p.instrs@, 0, start_regs);
    let ventries = imap_entries(p.v2r);
    assert(yield_len(p.instrs@) == ventries.len()) by {
        assert(values_of(ventries).len() == ventries.len());
    }
    assert(results[j] == subst_pairs(ventries, raw[j]));
    assert(snapshot_ok(eg, p.instrs@, raw[j]));
    assert forall|k1: int, k2: int| 0 <= k1 < k2 < results[j].len() implies (
    #[trigger] results[j][k1]).0 != (#[trigger] results[j][k2]).0 by {
        assert(results[j][k1].0 == ventries[k1].0);
        assert(results[j][k2].0 == ventries[k2].0);
    }
    assert forall|k: int| 0 <= k < results[j].len() implies eg.find_spec(
        (#[trigger] results[j][k]).1,
    ) == results[j][k].1 by {
        assert(results[j][k].1 == raw[j][k]);
    }
}

} // verus!

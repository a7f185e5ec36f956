//! Splitting call arguments: before a call that passes a split local, its
//! children are gathered into a new tuple temporary.
use vstd::prelude::*;

use crate::local_map::{lm_get, LocalMap};
use crate::mir::{
    append_statements, dummy_source_info, spec_dummy_source_info, BasicBlock, BasicBlockData,
    Constant, Local, LocalDecl, Lvalue, LvalueProjection, Mir, Operand, ProjectionElem, Rvalue,
    Statement, StatementKind, Terminator, TerminatorKind,
};
use crate::ty::{is_tuple_of, the_ty, Ty, TyCtxt, TyKind};

verus! {

/// The arguments of the call a block ends in (none when it ends
/// otherwise).
pub open spec fn call_args(t: Option<Terminator>) -> Seq<Operand> {
    match t {
        Some(t) => match t.kind {
            TerminatorKind::Call { args, .. } => args@,
            _ => seq![],
        },
        None => seq![],
    }
}

/// The locals with children that `args` pass directly, in order.
pub open spec fn split_args(lm: Seq<(Local, Seq<(Ty, Local)>)>, args: Seq<Operand>) -> Seq<Local>
    decreases args.len(),
{
    if args.len() == 0 {
        seq![]
    } else {
        let rest = split_args(lm, args.drop_last());
        match args.last() {
            Operand::Consume(Lvalue::Local(l)) => if lm_get(lm, l) is Some {
                rest.push(l)
            } else {
                rest
            },
            _ => rest,
        }
    }
}

/// How many split locals the calls of the first `n` blocks pass.
pub open spec fn splits_before(lm: Seq<(Local, Seq<(Ty, Local)>)>, blocks: Seq<BasicBlockData>, n: nat) -> nat
    decreases n,
{
    if n == 0 {
        0
    } else {
        splits_before(lm, blocks, (n - 1) as nat) + split_args(
            lm,
            call_args(blocks[n - 1].terminator),
        ).len()
    }
}

/// The split local passed `k`-th over all calls, in block order, and its
/// block.
pub open spec fn nth_split(lm: Seq<(Local, Seq<(Ty, Local)>)>, blocks: Seq<BasicBlockData>, k: nat) -> (
    BasicBlock,
    Local,
) {
    let b = choose|b: nat|
        b < blocks.len() && #[trigger] splits_before(lm, blocks, b) <= k < splits_before(
            lm,
            blocks,
            b + 1,
        );
    (b as BasicBlock, split_args(lm, call_args(blocks[b as int].terminator))[k - splits_before(lm, blocks, b)])
}

/// `tup[i] = child`, with `i` a constant of type `uty`.
pub open spec fn gather_statement(tup: Local, i: int, child: Local, uty: Ty) -> Statement {
    Statement {
        source_info: spec_dummy_source_info(),
        kind: StatementKind::Assign(
            Lvalue::Projection(
                Box::new(
                    LvalueProjection {
                        base: Lvalue::Local(tup),
                        elem: ProjectionElem::Index(
                            Operand::Constant(Constant { ty: uty, value: i as u128 }),
                        ),
                    },
                ),
            ),
            Rvalue::Use(Operand::Consume(Lvalue::Local(child))),
        ),
    }
}

/// The statements that gather children `cs` into temporary `tup`.
pub open spec fn gather_statements(tup: Local, cs: Seq<(Ty, Local)>, uty: Ty) -> Seq<Statement> {
    Seq::new(cs.len(), |i: int| gather_statement(tup, i, cs[i].1, uty))
}

/// The statements added to a block whose call passes split locals `ls`,
/// gathered into temporaries `first`, `first + 1`, ...
pub open spec fn block_gathers(
    lm: Seq<(Local, Seq<(Ty, Local)>)>,
    ls: Seq<Local>,
    first: nat,
    uty: Ty,
) -> Seq<Statement>
    decreases ls.len(),
{
    if ls.len() == 0 {
        seq![]
    } else {
        block_gathers(lm, ls.drop_last(), first, uty) + gather_statements(
            (first + ls.len() - 1) as Local,
            lm_get(lm, ls.last())->0,
            uty,
        )
    }
}

/// The types of children `cs`.
pub open spec fn child_keys(cs: Seq<(Ty, Local)>) -> Seq<Ty> {
    cs.map_values(|p: (Ty, Local)| p.0)
}

fn split_locals_of(lm: &LocalMap, t: &Option<Terminator>) -> (r: Vec<Local>)
    ensures
        r@ == split_args(lm.model(), call_args(*t)),
{
    let mut r: Vec<Local> = Vec::new();
    match t {
        Some(term) => match &term.kind {
            TerminatorKind::Call { args, .. } => {
                for i in 0..args.len()
                    invariant
                        r@ == split_args(lm.model(), args@.take(i as int)),
                {
                    proof {
                        assert(args@.take(i + 1).drop_last() =~= args@.take(i as int));
                    }
                    match &args[i] {
                        Operand::Consume(Lvalue::Local(l)) => {
                            if lm.get(*l).is_some() {
                                r.push(*l);
                            }
                        },
                        _ => {},
                    }
                }
                proof {
                    assert(args@.take(args@.len() as int) =~= args@);
                }
            },
            _ => {},
        },
        None => {},
    }
    r
}

/// `m1` is `m0` with the split locals passed to calls gathered, by decl
/// map `lm`, the new tuple types interned in `tcx1`: one new tuple
/// temporary per split local passed, in block order, of the types of that
/// local's children; and at the end of each block whose call passes split
/// locals, the statements that copy their children into them.
pub open spec fn calls_gathered(tcx1: &TyCtxt, lm: Seq<(Local, Seq<(Ty, Local)>)>, m0: &Mir, m1: &Mir) -> bool {
    &&& m1.arg_count == m0.arg_count
    &&& m1.return_ty == m0.return_ty
    &&& {
        let blocks = m0.basic_blocks@;
        let n0 = m0.local_decls@.len();
        let uty = the_ty(tcx1, TyKind::Uint(128));
        &&& m1.local_decls@.len() == n0 + splits_before(lm, blocks, blocks.len())
        &&& forall|l: int| 0 <= l < n0 ==> #[trigger] m1.local_decls@[l] == m0.local_decls@[l]
        &&& forall|k: nat|
            k < splits_before(lm, blocks, blocks.len()) ==> is_tuple_of(
                tcx1,
                (#[trigger] m1.local_decls@[(n0 + k) as int]).ty,
                child_keys(lm_get(lm, nth_split(lm, blocks, k).1)->0),
            )
        &&& m1.basic_blocks@.len() == blocks.len()
        &&& forall|b: int|
            0 <= b < blocks.len() ==> {
                &&& (#[trigger] m1.basic_blocks@[b]).statements@ == blocks[b].statements@
                    + block_gathers(
                    lm,
                    split_args(lm, call_args(blocks[b].terminator)),
                    n0 + splits_before(lm, blocks, b as nat),
                    uty,
                )
                &&& m1.basic_blocks@[b].terminator == blocks[b].terminator
                &&& m1.basic_blocks@[b].is_cleanup == blocks[b].is_cleanup
            }
    }
}

/// Before each call that passes a local with children, a new tuple
/// temporary of the children's types is declared, and statements that
/// copy each child into it are added at the end of the call's block. The
/// call itself and everything else stay as they were.
pub fn split_function_call(tcx: &mut TyCtxt, mir: &mut Mir, decl_maps: &LocalMap)
    requires
        old(tcx).wf(),
        forall|k: int, j: int|
            0 <= k < decl_maps.model().len() && 0 <= j < decl_maps.model()[k].1.len() ==> old(
                tcx,
            ).has((#[trigger] decl_maps.model()[k].1[j]).0),
    ensures
        final(tcx).wf(),
        final(tcx).extends(old(tcx)),
        calls_gathered(final(tcx), decl_maps.model(), old(mir), final(mir)),
{
    let ghost lm = decl_maps.model();
    let ghost blocks0 = mir.basic_blocks@;
    let ghost decls0 = mir.local_decls@;
    let ghost n0 = decls0.len();
    let ghost tcx0 = *tcx;
    let index_ty = tcx.mk_ty(TyKind::Uint(128));
    let nb = mir.basic_blocks.len();
    for block in 0..nb
        invariant
            lm == decl_maps.model(),
            tcx.wf(),
            tcx.extends(&tcx0),
            tcx.has(index_ty),
            tcx.kind(index_ty) == TyKind::Uint(128),
            forall|k: int, j: int|
                0 <= k < lm.len() && 0 <= j < lm[k].1.len() ==> tcx0.has((#[trigger] lm[k].1[j]).0),
            nb == blocks0.len(),
            n0 == decls0.len(),
            mir.arg_count == old(mir).arg_count,
            mir.return_ty == old(mir).return_ty,
            blocks0 == old(mir).basic_blocks@,
            decls0 == old(mir).local_decls@,
            mir.basic_blocks@.len() == nb,
            mir.local_decls@.len() == n0 + splits_before(lm, blocks0, block as nat),
            forall|l: int| 0 <= l < n0 ==> #[trigger] mir.local_decls@[l] == decls0[l],
            forall|k: nat|
                k < splits_before(lm, blocks0, block as nat) ==> is_tuple_of(
                    tcx,
                    (#[trigger] mir.local_decls@[(n0 + k) as int]).ty,
                    child_keys(lm_get(lm, nth_split(lm, blocks0, k).1)->0),
                ),
            forall|b: int|
                block <= b < nb ==> #[trigger] mir.basic_blocks@[b] == blocks0[b],
            forall|b: int|
                0 <= b < block ==> {
                    &&& (#[trigger] mir.basic_blocks@[b]).statements@ == blocks0[b].statements@ + block_gathers(
                        lm,
                        split_args(lm, call_args(blocks0[b].terminator)),
                        n0 + splits_before(lm, blocks0, b as nat),
                        index_ty,
                    )
                    &&& mir.basic_blocks@[b].terminator == blocks0[b].terminator
                    &&& mir.basic_blocks@[b].is_cleanup == blocks0[b].is_cleanup
                },
    {
        let ls = split_locals_of(decl_maps, &mir.basic_blocks[block].terminator);
        let ghost first = mir.local_decls@.len();
        let ghost bstmts = mir.basic_blocks@[block as int].statements@;
        let ghost blocks_start = mir.basic_blocks@;
        proof {
            lemma_split_args_have_entries(lm, call_args(blocks0[block as int].terminator));
        }
        for j in 0..ls.len()
            invariant
                lm == decl_maps.model(),
                ls@ == split_args(lm, call_args(blocks0[block as int].terminator)),
                tcx.wf(),
                tcx.extends(&tcx0),
                tcx.has(index_ty),
                tcx.kind(index_ty) == TyKind::Uint(128),
                forall|k: int, j2: int|
                    0 <= k < lm.len() && 0 <= j2 < lm[k].1.len() ==> tcx0.has((#[trigger] lm[k].1[j2]).0),
                block < nb,
                nb == blocks0.len(),
                first == n0 + splits_before(lm, blocks0, block as nat),
                mir.arg_count == old(mir).arg_count,
                mir.return_ty == old(mir).return_ty,
                mir.basic_blocks@.len() == nb,
                mir.local_decls@.len() == first + j,
                forall|l: int| 0 <= l < n0 ==> #[trigger] mir.local_decls@[l] == decls0[l],
                forall|k: nat|
                    k < splits_before(lm, blocks0, block as nat) + j ==> is_tuple_of(
                        tcx,
                        (#[trigger] mir.local_decls@[(n0 + k) as int]).ty,
                        child_keys(lm_get(lm, nth_split(lm, blocks0, k).1)->0),
                    ),
                blocks_start.len() == nb,
                forall|b: int| 0 <= b < nb && b != block ==> #[trigger] mir.basic_blocks@[b] == blocks_start[b],
                forall|i: int| 0 <= i < ls@.len() ==> lm_get(lm, #[trigger] ls@[i]) is Some,
                mir.basic_blocks@[block as int].statements@ == bstmts + block_gathers(
                    lm,
                    ls@.take(j as int),
                    first,
                    index_ty,
                ),
                mir.basic_blocks@[block as int].terminator == blocks0[block as int].terminator,
                mir.basic_blocks@[block as int].is_cleanup == blocks0[block as int].is_cleanup,
        {
            let l = ls[j];
            let cs = decl_maps.get(l).unwrap();
            let ghost tcx_before = *tcx;
            let mut tys: Vec<Ty> = Vec::new();
            let mut locals: Vec<Local> = Vec::new();
            for i in 0..cs.len()
                invariant
                    tys@ == child_keys(cs@.take(i as int)),
                    locals@ == cs@.take(i as int).map_values(|p: (Ty, Local)| p.1),
            {
                tys.push(cs[i].0);
                locals.push(cs[i].1);
                proof {
                    assert(cs@.take(i + 1) =~= cs@.take(i as int).push(cs@[i as int]));
                    assert(tys@ =~= child_keys(cs@.take(i + 1)));
                    assert(locals@ =~= cs@.take(i + 1).map_values(|p: (Ty, Local)| p.1));
                }
            }
            proof {
                assert(cs@.take(cs@.len() as int) =~= cs@);
                crate::local_map::lemma_entry_position(lm, l);
                let p = crate::local_map::entry_position(lm, l);
                assert(cs@ == lm[p].1);
                assert forall|i: int| 0 <= i < tys@.len() implies tcx.has(#[trigger] tys@[i]) by {
                    assert(tys@[i] == lm[p].1[i].0);
                    assert(tcx0.has(lm[p].1[i].0));
                }
            }
            let tup_ty = tcx.intern_tup(&tys, false);
            let tup_local = mir.local_decls.len();
            mir.local_decls.push(LocalDecl::new_temp(tup_ty));
            let mut assignments: Vec<Statement> = Vec::new();
            for i in 0..locals.len()
                invariant
                    locals@.len() == cs@.len(),
                    forall|k: int| 0 <= k < cs@.len() ==> #[trigger] locals@[k] == cs@[k].1,
                    assignments@ == gather_statements(tup_local, cs@.take(i as int), index_ty),
                    i <= u128::MAX,
            {
                let tuple_projection = Lvalue::Projection(
                    Box::new(
                        LvalueProjection {
                            base: Lvalue::Local(tup_local),
                            elem: ProjectionElem::Index(
                                Operand::Constant(Constant { ty: index_ty, value: i as u128 }),
                            ),
                        },
                    ),
                );
                assignments.push(
                    Statement {
                        source_info: dummy_source_info(),
                        kind: StatementKind::Assign(
                            tuple_projection,
                            Rvalue::Use(Operand::Consume(Lvalue::Local(locals[i]))),
                        ),
                    },
                );
                proof {
                    assert(assignments@ =~= gather_statements(tup_local, cs@.take(i + 1), index_ty));
                }
            }
            proof {
                assert(cs@.take(cs@.len() as int) =~= cs@);
            }
            append_statements(&mut mir.basic_blocks, block, assignments);
            proof {
                assert(ls@.take(j + 1).drop_last() =~= ls@.take(j as int));
                assert(mir.basic_blocks@[block as int].statements@ =~= bstmts + block_gathers(
                    lm,
                    ls@.take(j + 1),
                    first,
                    index_ty,
                ));
                lemma_nth_split(lm, blocks0, block as nat, j as nat);
                assert forall|k: nat|
                    k < splits_before(lm, blocks0, block as nat) + j + 1 implies is_tuple_of(
                    tcx,
                    (#[trigger] mir.local_decls@[(n0 + k) as int]).ty,
                    child_keys(lm_get(lm, nth_split(lm, blocks0, k).1)->0),
                ) by {
                    if k < splits_before(lm, blocks0, block as nat) + j {
                        crate::ty::lemma_tuple_stable(
                            &tcx_before,
                            tcx,
                            mir.local_decls@[(n0 + k) as int].ty,
                            child_keys(lm_get(lm, nth_split(lm, blocks0, k).1)->0),
                        );
                    }
                }
            }
        }
        proof {
            assert(ls@.take(ls@.len() as int) =~= ls@);
            lemma_splits_before_step(lm, blocks0, block as nat);
        }
    }
    proof {
        crate::ty::lemma_the_ty(tcx, index_ty);
    }
}

/// How many children the first `j` of locals `ls` have together.
pub open spec fn children_before(lm: Seq<(Local, Seq<(Ty, Local)>)>, ls: Seq<Local>, j: int) -> nat
    decreases j,
{
    if j <= 0 {
        0
    } else {
        children_before(lm, ls, j - 1) + lm_get(lm, ls[j - 1])->0.len()
    }
}

proof fn lemma_children_before_prefix(lm: Seq<(Local, Seq<(Ty, Local)>)>, ls: Seq<Local>, n: int, j: int)
    requires
        0 <= j <= n <= ls.len(),
    ensures
        children_before(lm, ls.take(n), j) == children_before(lm, ls, j),
    decreases j,
{
    if j > 0 {
        lemma_children_before_prefix(lm, ls, n, j - 1);
        assert(ls.take(n)[j - 1] == ls[j - 1]);
    }
}

proof fn lemma_children_before_mono(lm: Seq<(Local, Seq<(Ty, Local)>)>, ls: Seq<Local>, a: int, b: int)
    requires
        0 <= a <= b,
    ensures
        children_before(lm, ls, a) <= children_before(lm, ls, b),
    decreases b - a,
{
    if a < b {
        lemma_children_before_mono(lm, ls, a, b - 1);
    }
}

/// Statement `children_before(j) + i` of the gathering statements of a
/// block copies child `i` of the block's `j`-th split local into field `i`
/// of temporary `first + j`; there are as many statements as children.
proof fn lemma_block_gathers_at(lm: Seq<(Local, Seq<(Ty, Local)>)>, ls: Seq<Local>, first: nat, uty: Ty, j: int, i: int)
    requires
        0 <= j < ls.len(),
        0 <= i < lm_get(lm, ls[j])->0.len(),
    ensures
        block_gathers(lm, ls, first, uty).len() == children_before(lm, ls, ls.len() as int),
        block_gathers(lm, ls, first, uty)[children_before(lm, ls, j) + i] == gather_statement(
            (first + j) as Local,
            i,
            lm_get(lm, ls[j])->0[i].1,
            uty,
        ),
    decreases ls.len(),
{
    lemma_block_gathers_len(lm, ls, first, uty);
    let n = ls.len() - 1;
    let d = ls.drop_last();
    assert(d =~= ls.take(n));
    lemma_children_before_prefix(lm, ls, n, n);
    if j < n {
        lemma_block_gathers_at(lm, d, first, uty, j, i);
        lemma_children_before_prefix(lm, ls, n, j);
        lemma_children_before_mono(lm, ls, j + 1, n);
        assert(d[j] == ls[j]);
    }
}

proof fn lemma_block_gathers_len(lm: Seq<(Local, Seq<(Ty, Local)>)>, ls: Seq<Local>, first: nat, uty: Ty)
    ensures
        block_gathers(lm, ls, first, uty).len() == children_before(lm, ls, ls.len() as int),
    decreases ls.len(),
{
    if ls.len() > 0 {
        let n = ls.len() - 1;
        lemma_block_gathers_len(lm, ls.drop_last(), first, uty);
        assert(ls.drop_last() =~= ls.take(n));
        lemma_children_before_prefix(lm, ls, n, n);
    }
}

/// Each split local passed to a call gets a temporary of its own: the
/// `j`-th split local of block `b`'s call is gathered into the new local
/// numbered after the old locals and the split locals of the calls before
/// it, whose type is the tuple of that local's children's types; and its
/// `i`-th child is copied into field `i` of that local and of no other.
pub proof fn lemma_gathers_fill_their_own_temporary(
    tcx1: &TyCtxt,
    lm: Seq<(Local, Seq<(Ty, Local)>)>,
    m0: &Mir,
    m1: &Mir,
    b: int,
    j: int,
    i: int,
)
    requires
        calls_gathered(tcx1, lm, m0, m1),
        0 <= b < m0.basic_blocks@.len(),
        0 <= j < split_args(lm, call_args(m0.basic_blocks@[b].terminator)).len(),
        0 <= i < lm_get(lm, split_args(lm, call_args(m0.basic_blocks@[b].terminator))[j])->0.len(),
    ensures
        ({
            let blocks = m0.basic_blocks@;
            let ls = split_args(lm, call_args(blocks[b].terminator));
            let cs = lm_get(lm, ls[j])->0;
            let tup = m0.local_decls@.len() + splits_before(lm, blocks, b as nat) + j;
            let old_len = blocks[b].statements@.len();
            &&& m0.local_decls@.len() <= tup < m1.local_decls@.len()
            &&& is_tuple_of(tcx1, m1.local_decls@[tup].ty, cs.map_values(|p: (Ty, Local)| p.0))
            &&& m1.basic_blocks@[b].statements@.len() == old_len + children_before(lm, ls, ls.len() as int)
            &&& m1.basic_blocks@[b].statements@[old_len + children_before(lm, ls, j) + i].kind
                == StatementKind::Assign(
                Lvalue::Projection(
                    Box::new(
                        LvalueProjection {
                            base: Lvalue::Local(tup as Local),
                            elem: ProjectionElem::Index(
                                Operand::Constant(
                                    Constant { ty: the_ty(tcx1, TyKind::Uint(128)), value: i as u128 },
                                ),
                            ),
                        },
                    ),
                ),
                Rvalue::Use(Operand::Consume(Lvalue::Local(cs[i].1))),
            )
        }),
{
    let blocks = m0.basic_blocks@;
    let ls = split_args(lm, call_args(blocks[b].terminator));
    let n0 = m0.local_decls@.len();
    let first = n0 + splits_before(lm, blocks, b as nat);
    let uty = the_ty(tcx1, TyKind::Uint(128));
    lemma_block_gathers_at(lm, ls, first, uty, j, i);
    let g = block_gathers(lm, ls, first, uty);
    let x = children_before(lm, ls, j) + i;
    let old_len = blocks[b].statements@.len();
    lemma_children_before_mono(lm, ls, j + 1, ls.len() as int);
    assert(x < g.len());
    assert(m1.basic_blocks@[b].statements@ == blocks[b].statements@ + g);
    assert(m1.basic_blocks@[b].statements@[old_len + x] == g[x]);
    let k = (splits_before(lm, blocks, b as nat) + j) as nat;
    lemma_nth_split(lm, blocks, b as nat, j as nat);
    lemma_splits_before_step(lm, blocks, b as nat);
    lemma_splits_before_mono(lm, blocks, (b + 1) as nat, blocks.len());
    assert(k < splits_before(lm, blocks, blocks.len()));
    assert(is_tuple_of(
        tcx1,
        m1.local_decls@[(n0 + k) as int].ty,
        child_keys(lm_get(lm, nth_split(lm, blocks, k).1)->0),
    ));
}

/// Gathering only adds: every old local keeps its declaration, and every
/// block keeps its statements, in front of the new ones (as many as the
/// children of the split locals its call passes), its terminator and its
/// cleanup mark; no block is added or removed.
pub proof fn lemma_gathering_keeps_what_was_there(
    tcx1: &TyCtxt,
    lm: Seq<(Local, Seq<(Ty, Local)>)>,
    m0: &Mir,
    m1: &Mir,
    b: int,
)
    requires
        calls_gathered(tcx1, lm, m0, m1),
        0 <= b < m0.basic_blocks@.len(),
    ensures
        m1.arg_count == m0.arg_count,
        m1.return_ty == m0.return_ty,
        m1.basic_blocks@.len() == m0.basic_blocks@.len(),
        m0.local_decls@.len() <= m1.local_decls@.len(),
        forall|l: int| 0 <= l < m0.local_decls@.len() ==> #[trigger] m1.local_decls@[l] == m0.local_decls@[l],
        m1.basic_blocks@[b].statements@.len() == m0.basic_blocks@[b].statements@.len() + children_before(
            lm,
            split_args(lm, call_args(m0.basic_blocks@[b].terminator)),
            split_args(lm, call_args(m0.basic_blocks@[b].terminator)).len() as int,
        ),
        forall|i: int|
            0 <= i < m0.basic_blocks@[b].statements@.len() ==> #[trigger] m1.basic_blocks@[b].statements@[i]
                == m0.basic_blocks@[b].statements@[i],
        m1.basic_blocks@[b].terminator == m0.basic_blocks@[b].terminator,
        m1.basic_blocks@[b].is_cleanup == m0.basic_blocks@[b].is_cleanup,
{
    let blocks = m0.basic_blocks@;
    let ls = split_args(lm, call_args(blocks[b].terminator));
    let first = m0.local_decls@.len() + splits_before(lm, blocks, b as nat);
    let uty = the_ty(tcx1, TyKind::Uint(128));
    lemma_block_gathers_len(lm, ls, first, uty);
    assert(m1.basic_blocks@[b].statements@ == blocks[b].statements@ + block_gathers(lm, ls, first, uty));
}

/// Two different split locals passed to calls, `j1`-th of block `b1` and
/// `j2`-th of block `b2`, are gathered into different temporaries.
pub proof fn lemma_gather_temporaries_distinct(
    lm: Seq<(Local, Seq<(Ty, Local)>)>,
    blocks: Seq<BasicBlockData>,
    b1: int,
    j1: int,
    b2: int,
    j2: int,
)
    requires
        0 <= b1 < blocks.len(),
        0 <= b2 < blocks.len(),
        0 <= j1 < split_args(lm, call_args(blocks[b1].terminator)).len(),
        0 <= j2 < split_args(lm, call_args(blocks[b2].terminator)).len(),
        b1 != b2 || j1 != j2,
    ensures
        splits_before(lm, blocks, b1 as nat) + j1 != splits_before(lm, blocks, b2 as nat) + j2,
{
    lemma_splits_before_step(lm, blocks, b1 as nat);
    lemma_splits_before_step(lm, blocks, b2 as nat);
    if b1 < b2 {
        lemma_splits_before_mono(lm, blocks, (b1 + 1) as nat, b2 as nat);
    } else if b2 < b1 {
        lemma_splits_before_mono(lm, blocks, (b2 + 1) as nat, b1 as nat);
    }
}

proof fn lemma_split_args_have_entries(lm: Seq<(Local, Seq<(Ty, Local)>)>, args: Seq<Operand>)
    ensures
        forall|i: int|
            0 <= i < split_args(lm, args).len() ==> lm_get(lm, #[trigger] split_args(lm, args)[i]) is Some,
    decreases args.len(),
{
    if args.len() > 0 {
        lemma_split_args_have_entries(lm, args.drop_last());
    }
}

proof fn lemma_splits_before_step(lm: Seq<(Local, Seq<(Ty, Local)>)>, blocks: Seq<BasicBlockData>, b: nat)
    ensures
        splits_before(lm, blocks, b + 1) == splits_before(lm, blocks, b) + split_args(
            lm,
            call_args(blocks[b as int].terminator),
        ).len(),
{
}

proof fn lemma_splits_before_mono(lm: Seq<(Local, Seq<(Ty, Local)>)>, blocks: Seq<BasicBlockData>, a: nat, b: nat)
    requires
        a <= b,
    ensures
        splits_before(lm, blocks, a) <= splits_before(lm, blocks, b),
    decreases b - a,
{
    if a < b {
        lemma_splits_before_mono(lm, blocks, a, (b - 1) as nat);
    }
}

proof fn lemma_nth_split(lm: Seq<(Local, Seq<(Ty, Local)>)>, blocks: Seq<BasicBlockData>, b: nat, j: nat)
    requires
        b < blocks.len(),
        j < split_args(lm, call_args(blocks[b as int].terminator)).len(),
    ensures
        nth_split(lm, blocks, splits_before(lm, blocks, b) + j) == (
            b as BasicBlock,
            split_args(lm, call_args(blocks[b as int].terminator))[j as int],
        ),
{
    let k = splits_before(lm, blocks, b) + j;
    assert(b < blocks.len() && splits_before(lm, blocks, b) <= k < splits_before(lm, blocks, b + 1));
    let b2 = choose|b2: nat|
        b2 < blocks.len() && #[trigger] splits_before(lm, blocks, b2) <= k < splits_before(
            lm,
            blocks,
            b2 + 1,
        );
    if b2 < b {
        lemma_splits_before_mono(lm, blocks, b2 + 1, b);
    } else if b2 > b {
        lemma_splits_before_mono(lm, blocks, b + 1, b2);
    }
}

} // verus!

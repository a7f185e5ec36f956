//! Factoring projections out of calls: an argument or destination of a
//! call that is a projection is replaced by a new temporary, assigned from
//! the projection before the call, or copied into it after the call in a
//! new block.
use vstd::prelude::*;

use crate::mir::{
    copy_lvalue, copy_operand, dummy_source_info, lvalue_ty, lvalue_type, operand_ty, operand_type,
    spec_dummy_source_info, BasicBlock, BasicBlockData, Local, LocalDecl, Lvalue, Mir, Operand,
    Rvalue, Statement, StatementKind, Terminator, TerminatorKind,
};
use crate::ty::{Ty, TyCtxt};

verus! {

/// An operand that reads a projection.
pub open spec fn is_projection_operand(op: Operand) -> bool {
    op matches Operand::Consume(Lvalue::Projection(_))
}

/// How many of `args` read projections.
pub open spec fn projection_count(args: Seq<Operand>) -> nat
    decreases args.len(),
{
    if args.len() == 0 {
        0
    } else {
        projection_count(args.drop_last()) + if is_projection_operand(args.last()) {
            1nat
        } else {
            0
        }
    }
}

/// `args` with the `k`-th projection replaced by temporary `first + k`.
pub open spec fn factored_args(args: Seq<Operand>, first: nat) -> Seq<Operand>
    decreases args.len(),
{
    if args.len() == 0 {
        seq![]
    } else {
        factored_args(args.drop_last(), first).push(
            if is_projection_operand(args.last()) {
                Operand::Consume(Lvalue::Local((first + projection_count(args.drop_last())) as Local))
            } else {
                args.last()
            },
        )
    }
}

/// The statements that move the projections of `args` into temporaries
/// `first`, `first + 1`, ...
pub open spec fn argument_moves(args: Seq<Operand>, first: nat) -> Seq<Statement>
    decreases args.len(),
{
    if args.len() == 0 {
        seq![]
    } else {
        argument_moves(args.drop_last(), first) + if is_projection_operand(args.last()) {
            seq![
                Statement {
                    source_info: spec_dummy_source_info(),
                    kind: StatementKind::Assign(
                        Lvalue::Local((first + projection_count(args.drop_last())) as Local),
                        Rvalue::Use(args.last()),
                    ),
                },
            ]
        } else {
            seq![]
        }
    }
}

/// The call a block ends in: its arguments and destination.
pub open spec fn call_parts(t: Option<Terminator>) -> Option<(Seq<Operand>, Option<(Lvalue, BasicBlock)>)> {
    match t {
        Some(t) => match t.kind {
            TerminatorKind::Call { args, destination, .. } => Some((args@, destination)),
            _ => None,
        },
        None => None,
    }
}

/// The block's call writes its result into a projection.
pub open spec fn has_projection_destination(t: Option<Terminator>) -> bool {
    match call_parts(t) {
        Some((_, Some((Lvalue::Projection(_), _)))) => true,
        _ => false,
    }
}

/// The temporaries factoring a block adds.
pub open spec fn block_temps(t: Option<Terminator>) -> nat {
    match call_parts(t) {
        Some((args, _)) => projection_count(args) + if has_projection_destination(t) {
            1nat
        } else {
            0
        },
        None => 0,
    }
}

/// The temporaries added for the first `n` blocks.
pub open spec fn temps_before(blocks: Seq<BasicBlockData>, n: nat) -> nat
    decreases n,
{
    if n == 0 {
        0
    } else {
        temps_before(blocks, (n - 1) as nat) + block_temps(blocks[n - 1].terminator)
    }
}

/// The blocks added for the first `n` blocks.
pub open spec fn blocks_before(blocks: Seq<BasicBlockData>, n: nat) -> nat
    decreases n,
{
    if n == 0 {
        0
    } else {
        blocks_before(blocks, (n - 1) as nat) + if has_projection_destination(blocks[n - 1].terminator) {
            1nat
        } else {
            0
        }
    }
}

/// The calls of the blocks have types for their projections.
pub open spec fn calls_typed(tcx: &TyCtxt, decls: Seq<LocalDecl>, blocks: Seq<BasicBlockData>) -> bool {
    forall|b: int|
        0 <= b < blocks.len() ==> match #[trigger] call_parts(blocks[b].terminator) {
            Some((args, dest)) => {
                &&& forall|i: int|
                    0 <= i < args.len() && is_projection_operand(args[i]) ==> operand_ty(
                        tcx,
                        decls,
                        #[trigger] args[i],
                    ) is Some
                &&& match dest {
                    Some((lv, _)) => lv is Projection ==> lvalue_ty(tcx, decls, lv) is Some,
                    None => true,
                }
            },
            None => true,
        }
}

/// Growing the declarations keeps the type of a place that has one.
pub proof fn lemma_lvalue_ty_prefix(tcx: &TyCtxt, d1: Seq<LocalDecl>, d2: Seq<LocalDecl>, lv: Lvalue)
    requires
        d1.len() <= d2.len(),
        forall|i: int| 0 <= i < d1.len() ==> d2[i] == d1[i],
        lvalue_ty(tcx, d1, lv) is Some,
    ensures
        lvalue_ty(tcx, d2, lv) == lvalue_ty(tcx, d1, lv),
    decreases lv,
{
    if let Lvalue::Projection(p) = lv {
        lemma_lvalue_ty_prefix(tcx, d1, d2, p.base);
    }
}

/// The block a call with a projection destination continues in: it copies
/// the temporary into the projection and goes on to the call's target.
pub open spec fn destination_block_ok(data: BasicBlockData, dest: Lvalue, temp: Local, target: BasicBlock) -> bool {
    &&& data.statements@ == seq![
        Statement {
            source_info: spec_dummy_source_info(),
            kind: StatementKind::Assign(dest, Rvalue::Use(Operand::Consume(Lvalue::Local(temp)))),
        },
    ]
    &&& data.terminator == Some(
        Terminator { source_info: spec_dummy_source_info(), kind: TerminatorKind::Goto { target } },
    )
    &&& !data.is_cleanup
}

/// The call after factoring: the same function and cleanup, the factored
/// arguments, and the destination moved to the temporary and new block
/// where it is a projection.
pub open spec fn factored_terminator(old_t: Option<Terminator>, new_t: Option<Terminator>, first: nat, new_block: nat) -> bool {
    match (old_t, new_t) {
        (Some(o), Some(n)) => match (o.kind, n.kind) {
            (
                TerminatorKind::Call { func: f1, args: a1, destination: d1, cleanup: c1 },
                TerminatorKind::Call { func: f2, args: a2, destination: d2, cleanup: c2 },
            ) => {
                &&& n.source_info == spec_dummy_source_info()
                &&& f2 == f1
                &&& c2 == c1
                &&& a2@ == factored_args(a1@, first)
                &&& match d1 {
                    Some((Lvalue::Projection(p), target)) => d2 == Some(
                        (
                            Lvalue::Local((first + projection_count(a1@)) as Local),
                            new_block as BasicBlock,
                        ),
                    ),
                    _ => d2 == d1,
                }
            },
            _ => false,
        },
        _ => false,
    }
}

/// Factors the projections out of every call: for each block that ends in
/// a call, in order, each argument that reads a projection gets a new
/// temporary of its type, assigned at the end of the block and passed in
/// its place; a destination that is a projection gets a new temporary
/// that the call writes, and a new block that copies it into the
/// projection and goes on to the call's target.
pub fn factor_mir(tcx: &TyCtxt, mir: &mut Mir)
    requires
        tcx.wf(),
        calls_typed(tcx, old(mir).local_decls@, old(mir).basic_blocks@),
    ensures
        final(mir).arg_count == old(mir).arg_count,
        final(mir).return_ty == old(mir).return_ty,
        ({
            let blocks = old(mir).basic_blocks@;
            let decls = old(mir).local_decls@;
            let n0 = decls.len();
            let nb0 = blocks.len();
            &&& final(mir).local_decls@.len() == n0 + temps_before(blocks, nb0)
            &&& forall|l: int| 0 <= l < n0 ==> #[trigger] final(mir).local_decls@[l] == decls[l]
            &&& final(mir).basic_blocks@.len() == nb0 + blocks_before(blocks, nb0)
            &&& forall|b: int|
                0 <= b < nb0 ==> #[trigger] block_done(
                    tcx,
                    decls,
                    blocks,
                    final(mir).local_decls@,
                    final(mir).basic_blocks@,
                    b,
                )
        }),
{
    let ghost blocks0 = mir.basic_blocks@;
    let ghost decls0 = mir.local_decls@;
    let ghost n0 = decls0.len();
    let nb0 = mir.basic_blocks.len();
    for b in 0..nb0
        invariant
            tcx.wf(),
            nb0 == blocks0.len(),
            n0 == decls0.len(),
            blocks0 == old(mir).basic_blocks@,
            decls0 == old(mir).local_decls@,
            calls_typed(tcx, decls0, blocks0),
            mir.arg_count == old(mir).arg_count,
            mir.return_ty == old(mir).return_ty,
            mir.local_decls@.len() == n0 + temps_before(blocks0, b as nat),
            forall|l: int| 0 <= l < n0 ==> #[trigger] mir.local_decls@[l] == decls0[l],
            mir.basic_blocks@.len() == nb0 + blocks_before(blocks0, b as nat),
            forall|k: int| b <= k < nb0 ==> #[trigger] mir.basic_blocks@[k] == blocks0[k],
            forall|k: int|
                0 <= k < b ==> #[trigger] block_done(
                    tcx,
                    decls0,
                    blocks0,
                    mir.local_decls@,
                    mir.basic_blocks@,
                    k,
                ),
    {
        let ghost decls_start = mir.local_decls@;
        let ghost blocks_start = mir.basic_blocks@;
        proof {
            lemma_blocks_before_grows(blocks0, b as nat);
        }
        factor_block(tcx, mir, b, Ghost(decls0), Ghost(blocks0));
        proof {
            assert(temps_before(blocks0, (b + 1) as nat) == temps_before(blocks0, b as nat) + block_temps(
                blocks0[b as int].terminator,
            ));
            assert forall|k: int| 0 <= k < b + 1 implies #[trigger] block_done(
                tcx,
                decls0,
                blocks0,
                mir.local_decls@,
                mir.basic_blocks@,
                k,
            ) by {
                if k < b {
                    lemma_block_done_stable(
                        tcx,
                        decls0,
                        blocks0,
                        decls_start,
                        blocks_start,
                        mir.local_decls@,
                        mir.basic_blocks@,
                        k,
                        b as int,
                    );
                }
            }
        }
    }
    proof {
        assert forall|bb: int| 0 <= bb < nb0 implies #[trigger] block_done(
            tcx,
            decls0,
            blocks0,
            mir.local_decls@,
            mir.basic_blocks@,
            bb,
        ) by {}
    }
}

/// After factoring, no argument of a call reads a projection; an argument
/// that did not is passed as it was, and the `k`-th one that did is passed
/// as temporary `first + k`, which the `k`-th added statement assigns from
/// it.
pub proof fn lemma_factored_args(args: Seq<Operand>, first: nat)
    ensures
        factored_args(args, first).len() == args.len(),
        argument_moves(args, first).len() == projection_count(args),
        forall|i: int|
            0 <= i < args.len() ==> !is_projection_operand(#[trigger] factored_args(args, first)[i]),
        forall|i: int|
            0 <= i < args.len() && !is_projection_operand(args[i]) ==> #[trigger] factored_args(
                args,
                first,
            )[i] == args[i],
        forall|i: int|
            0 <= i < args.len() && is_projection_operand(args[i]) ==> {
                let temp = (first + projection_count(args.take(i))) as Local;
                &&& #[trigger] factored_args(args, first)[i] == Operand::Consume(Lvalue::Local(temp))
                &&& argument_moves(args, first)[projection_count(args.take(i)) as int] == Statement {
                    source_info: spec_dummy_source_info(),
                    kind: StatementKind::Assign(Lvalue::Local(temp), Rvalue::Use(args[i])),
                }
            },
    decreases args.len(),
{
    if args.len() > 0 {
        let d = args.drop_last();
        lemma_factored_args(d, first);
        assert forall|i: int| 0 <= i < d.len() implies args.take(i) =~= d.take(i) by {}
        assert(args.take(d.len() as int) =~= d);
        assert forall|i: int| 0 <= i < d.len() && is_projection_operand(args[i]) implies projection_count(
            args.take(i),
        ) < projection_count(d) by {
            lemma_projection_count_take(d, i);
            assert(d[i] == args[i]);
        }
    }
}

proof fn lemma_calls_typed_at(tcx: &TyCtxt, decls: Seq<LocalDecl>, blocks: Seq<BasicBlockData>, b: int)
    requires
        calls_typed(tcx, decls, blocks),
        0 <= b < blocks.len(),
    ensures
        match call_parts(blocks[b].terminator) {
            Some((args, dest)) => {
                &&& forall|i: int|
                    0 <= i < args.len() && is_projection_operand(args[i]) ==> operand_ty(
                        tcx,
                        decls,
                        #[trigger] args[i],
                    ) is Some
                &&& match dest {
                    Some((lv, _)) => lv is Projection ==> lvalue_ty(tcx, decls, lv) is Some,
                    None => true,
                }
            },
            None => true,
        },
{
    assert(match call_parts(blocks[b].terminator) {
        Some((args, dest)) => {
            &&& forall|i: int|
                0 <= i < args.len() && is_projection_operand(args[i]) ==> operand_ty(
                    tcx,
                    decls,
                    #[trigger] args[i],
                ) is Some
            &&& match dest {
                Some((lv, _)) => lv is Projection ==> lvalue_ty(tcx, decls, lv) is Some,
                None => true,
            }
        },
        None => true,
    });
}

proof fn lemma_temps_before_mono(blocks: Seq<BasicBlockData>, a: nat, b: nat)
    requires
        a <= b,
    ensures
        temps_before(blocks, a) <= temps_before(blocks, b),
        blocks_before(blocks, a) <= blocks_before(blocks, b),
    decreases b - a,
{
    if a < b {
        lemma_temps_before_mono(blocks, a, (b - 1) as nat);
    }
}

proof fn lemma_blocks_before_grows(blocks: Seq<BasicBlockData>, b: nat)
    ensures
        temps_before(blocks, b + 1) == temps_before(blocks, b) + block_temps(blocks[b as int].terminator),
        blocks_before(blocks, b + 1) == blocks_before(blocks, b) + if has_projection_destination(
            blocks[b as int].terminator,
        ) {
            1nat
        } else {
            0
        },
{
}

proof fn lemma_projection_count_take(args: Seq<Operand>, i: int)
    requires
        0 <= i < args.len(),
    ensures
        projection_count(args.take(i)) < projection_count(args) || !is_projection_operand(args[i]),
        projection_count(args.take(i)) <= projection_count(args),
    decreases args.len() - i,
{
    if i < args.len() - 1 {
        lemma_projection_count_take(args.drop_last(), i);
        assert(args.drop_last().take(i) =~= args.take(i));
        assert(args.drop_last()[i] == args[i]);
    } else {
        assert(args.take(i) =~= args.drop_last());
    }
}

proof fn lemma_block_done_stable(
    tcx: &TyCtxt,
    decls: Seq<LocalDecl>,
    blocks: Seq<BasicBlockData>,
    d1: Seq<LocalDecl>,
    bl1: Seq<BasicBlockData>,
    d2: Seq<LocalDecl>,
    bl2: Seq<BasicBlockData>,
    k: int,
    b: int,
)
    requires
        0 <= k < b < blocks.len(),
        block_done(tcx, decls, blocks, d1, bl1, k),
        d1.len() == decls.len() + temps_before(blocks, b as nat),
        bl1.len() == blocks.len() + blocks_before(blocks, b as nat),
        d1.len() <= d2.len(),
        forall|i: int| 0 <= i < d1.len() ==> d2[i] == d1[i],
        bl1.len() <= bl2.len(),
        forall|i: int| 0 <= i < bl1.len() && i != b ==> bl2[i] == bl1[i],
    ensures
        block_done(tcx, decls, blocks, d2, bl2, k),
{
    lemma_blocks_before_grows(blocks, k as nat);
    lemma_temps_before_mono(blocks, (k + 1) as nat, b as nat);
    let n0 = decls.len();
    let first = n0 + temps_before(blocks, k as nat);
    match call_parts(blocks[k].terminator) {
        Some((args, dest)) => {
            assert forall|i: int| 0 <= i < args.len() && is_projection_operand(args[i]) implies d2[(first
                + projection_count(args.take(i))) as int] == d1[(first + projection_count(args.take(i))) as int] by {
                lemma_projection_count_take(args, i);
            }
        },
        None => {},
    }
}

/// Factors the call that block `b` ends in, as `factor_mir` describes for
/// one block: the temporaries are added after the current locals and the
/// destination's block after the current blocks.
fn factor_block(
    tcx: &TyCtxt,
    mir: &mut Mir,
    b: usize,
    Ghost(decls0): Ghost<Seq<LocalDecl>>,
    Ghost(blocks0): Ghost<Seq<BasicBlockData>>,
)
    requires
        tcx.wf(),
        b < blocks0.len(),
        b < old(mir).basic_blocks@.len(),
        old(mir).basic_blocks@[b as int] == blocks0[b as int],
        calls_typed(tcx, decls0, blocks0),
        decls0.len() <= old(mir).local_decls@.len(),
        forall|l: int| 0 <= l < decls0.len() ==> #[trigger] old(mir).local_decls@[l] == decls0[l],
        old(mir).local_decls@.len() == decls0.len() + temps_before(blocks0, b as nat),
        old(mir).basic_blocks@.len() == blocks0.len() + blocks_before(blocks0, b as nat),
    ensures
        final(mir).arg_count == old(mir).arg_count,
        final(mir).return_ty == old(mir).return_ty,
        final(mir).local_decls@.len() == old(mir).local_decls@.len() + block_temps(blocks0[b as int].terminator),
        forall|l: int| 0 <= l < old(mir).local_decls@.len() ==> #[trigger] final(mir).local_decls@[l]
            == old(mir).local_decls@[l],
        final(mir).basic_blocks@.len() == old(mir).basic_blocks@.len() + if has_projection_destination(
            blocks0[b as int].terminator,
        ) {
            1nat
        } else {
            0
        },
        forall|k: int|
            0 <= k < old(mir).basic_blocks@.len() && k != b ==> #[trigger] final(mir).basic_blocks@[k]
                == old(mir).basic_blocks@[k],
        block_done(tcx, decls0, blocks0, final(mir).local_decls@, final(mir).basic_blocks@, b as int),
{
    let ghost first = mir.local_decls@.len();
    let nbs_exec = mir.basic_blocks.len();
    let ghost nbs = mir.basic_blocks@.len();
    let ghost blocks_start = mir.basic_blocks@;
    let ghost decls_start = mir.local_decls@;
    let mut data = mir.basic_blocks.remove(b);
    let ghost stmts0 = data.statements@;
    assert(data == blocks0[b as int]);
    let mut term: Option<Terminator> = None;
    std::mem::swap(&mut term, &mut data.terminator);
    match term {
        Some(Terminator { source_info, kind }) => match kind {
            TerminatorKind::Call { func, args, destination, cleanup } => {
                let ghost a = args@;
                let ghost dest_g = destination;
                let mut new_args: Vec<Operand> = Vec::new();
                for i in 0..args.len()
                    invariant
                        tcx.wf(),
                        a == args@,
                        call_parts(blocks0[b as int].terminator) == Some((a, destination)),
                        calls_typed(tcx, decls0, blocks0),
                        b < blocks0.len(),
                        decls0.len() <= first,
                        first == decls_start.len(),
                        forall|l: int| 0 <= l < decls0.len() ==> #[trigger] decls_start[l] == decls0[l],
                        mir.local_decls@.len() == first + projection_count(a.take(i as int)),
                        forall|l: int| 0 <= l < first ==> #[trigger] mir.local_decls@[l] == decls_start[l],
                        forall|j: int|
                            0 <= j < i && is_projection_operand(a[j]) ==> Some(
                                mir.local_decls@[(first + projection_count(a.take(j))) as int].ty,
                            ) == operand_ty(tcx, decls0, #[trigger] a[j]),
                        new_args@ == factored_args(a.take(i as int), first),
                        data.statements@ == stmts0 + argument_moves(a.take(i as int), first),
                        data.is_cleanup == blocks0[b as int].is_cleanup,
                        mir.arg_count == old(mir).arg_count,
                        mir.return_ty == old(mir).return_ty,
                        mir.basic_blocks@ == blocks_start.remove(b as int),
                {
                    proof {
                        assert(a.take(i + 1).drop_last() =~= a.take(i as int));
                        assert(a.take(i + 1).last() == a[i as int]);
                    }
                    match &args[i] {
                        Operand::Consume(Lvalue::Projection(_)) => {
                            proof {
                                assert(is_projection_operand(a[i as int]));
                                lemma_calls_typed_at(tcx, decls0, blocks0, b as int);
                                assert(operand_ty(tcx, decls0, a[i as int]) is Some);
                                if let Operand::Consume(lv) = a[i as int] {
                                    lemma_lvalue_ty_prefix(tcx, decls0, mir.local_decls@, lv);
                                }
                            }
                            let local_ty = operand_type(tcx, &mir.local_decls, &args[i]);
                            let new_local = mir.local_decls.len();
                            mir.local_decls.push(LocalDecl::new_temp(local_ty));
                            data.statements.push(
                                Statement {
                                    source_info: dummy_source_info(),
                                    kind: StatementKind::Assign(
                                        Lvalue::Local(new_local),
                                        Rvalue::Use(copy_operand(&args[i])),
                                    ),
                                },
                            );
                            new_args.push(Operand::Consume(Lvalue::Local(new_local)));
                        },
                        _ => {
                            new_args.push(copy_operand(&args[i]));
                        },
                    }
                    proof {
                        assert(data.statements@ =~= stmts0 + argument_moves(a.take(i + 1), first));
                        assert(new_args@ =~= factored_args(a.take(i + 1), first));
                        assert forall|j: int|
                            0 <= j < i + 1 && is_projection_operand(a[j]) implies Some(
                            mir.local_decls@[(first + projection_count(a.take(j))) as int].ty,
                        ) == operand_ty(tcx, decls0, #[trigger] a[j]) by {
                            if j < i {
                                lemma_projection_count_take(a.take(i as int), j);
                                assert(a.take(i as int).take(j) =~= a.take(j));
                            } else {
                                assert(a.take(j) =~= a.take(i as int));
                            }
                        }
                    }
                }
                proof {
                    assert(a.take(a.len() as int) =~= a);
                }
                let new_block = nbs_exec;
                let mut pending: Option<BasicBlockData> = None;
                let new_destination = match destination {
                    Some((Lvalue::Projection(p), target)) => {
                        let proj = Lvalue::Projection(p);
                        proof {
                            lemma_lvalue_ty_prefix(tcx, decls0, mir.local_decls@, proj);
                        }
                        let proj_ty = lvalue_type(tcx, &mir.local_decls, &proj);
                        let new_local = mir.local_decls.len();
                        mir.local_decls.push(LocalDecl::new_temp(proj_ty));
                        let mut stmts: Vec<Statement> = Vec::new();
                        stmts.push(
                            Statement {
                                source_info: dummy_source_info(),
                                kind: StatementKind::Assign(
                                    proj,
                                    Rvalue::Use(Operand::Consume(Lvalue::Local(new_local))),
                                ),
                            },
                        );
                        pending = Some(
                            BasicBlockData {
                                statements: stmts,
                                terminator: Some(
                                    Terminator {
                                        source_info: dummy_source_info(),
                                        kind: TerminatorKind::Goto { target },
                                    },
                                ),
                                is_cleanup: false,
                            },
                        );
                        Some((Lvalue::Local(new_local), new_block))
                    },
                    other => other,
                };
                data.terminator = Some(
                    Terminator {
                        source_info: dummy_source_info(),
                        kind: TerminatorKind::Call {
                            func,
                            args: new_args,
                            destination: new_destination,
                            cleanup,
                        },
                    },
                );
                let ghost dg = data;
                let ghost pg = pending;
                mir.basic_blocks.insert(b, data);
                match pending {
                    Some(nd) => {
                        mir.basic_blocks.push(nd);
                    },
                    None => {},
                }
                proof {
                    assert(mir.basic_blocks@[b as int] == dg);
                    assert(dg.statements@ == blocks0[b as int].statements@ + argument_moves(a, first));
                    assert(factored_terminator(
                        blocks0[b as int].terminator,
                        dg.terminator,
                        first,
                        nbs,
                    ));
                    match dest_g {
                        Some((Lvalue::Projection(p), target)) => {
                            assert(pg is Some);
                            assert(mir.basic_blocks@[nbs as int] == pg->0);
                            assert(destination_block_ok(
                                mir.basic_blocks@[nbs as int],
                                Lvalue::Projection(p),
                                (first + projection_count(a)) as Local,
                                target,
                            ));
                            assert(Some(mir.local_decls@[(first + projection_count(a)) as int].ty)
                                == lvalue_ty(tcx, decls0, Lvalue::Projection(p)));
                        },
                        _ => {},
                    }
                    assert(call_parts(blocks0[b as int].terminator) == Some((a, dest_g)));
                    assert(first == decls0.len() + temps_before(blocks0, b as nat));
                    assert(nbs == blocks0.len() + blocks_before(blocks0, b as nat));
                    assert(mir.basic_blocks@[b as int].is_cleanup == blocks0[b as int].is_cleanup);
                    assert forall|i: int|
                        0 <= i < a.len() && is_projection_operand(a[i]) implies Some(
                        mir.local_decls@[(first + projection_count(a.take(i))) as int].ty,
                    ) == operand_ty(tcx, decls0, #[trigger] a[i]) by {
                        lemma_projection_count_take(a, i);
                    }
                    assert forall|k: int|
                        0 <= k < nbs && k != b implies #[trigger] mir.basic_blocks@[k] == blocks_start[k] by {
                        if k < b {
                            assert(blocks_start.remove(b as int)[k] == blocks_start[k]);
                        } else {
                            assert(blocks_start.remove(b as int)[k - 1] == blocks_start[k]);
                        }
                    }
                }
            },
            other => {
                data.terminator = Some(Terminator { source_info, kind: other });
                mir.basic_blocks.insert(b, data);
                proof {
                    assert(mir.basic_blocks@ =~= blocks_start);
                }
            },
        },
        None => {
            mir.basic_blocks.insert(b, data);
            proof {
                assert(mir.basic_blocks@ =~= blocks_start);
            }
        },
    }
}

/// Block `k` has been factored as `factor_mir` says.
pub open spec fn block_done(
    tcx: &TyCtxt,
    decls: Seq<LocalDecl>,
    blocks: Seq<BasicBlockData>,
    decls_now: Seq<LocalDecl>,
    blocks_now: Seq<BasicBlockData>,
    b: int,
) -> bool {
    let n0 = decls.len();
    let nb0 = blocks.len();
    match call_parts(blocks[b].terminator) {
        Some((args, dest)) => {
            let first = n0 + temps_before(blocks, b as nat);
            &&& blocks_now[b].statements@ == blocks[b].statements@ + argument_moves(args, first)
            &&& blocks_now[b].is_cleanup == blocks[b].is_cleanup
            &&& factored_terminator(
                blocks[b].terminator,
                blocks_now[b].terminator,
                first,
                nb0 + blocks_before(blocks, b as nat),
            )
            &&& forall|i: int|
                0 <= i < args.len() && is_projection_operand(args[i]) ==> Some(
                    decls_now[(first + projection_count(args.take(i))) as int].ty,
                ) == operand_ty(tcx, decls, #[trigger] args[i])
            &&& match dest {
                Some((Lvalue::Projection(p), target)) => {
                    &&& Some(decls_now[(first + projection_count(args)) as int].ty) == lvalue_ty(
                        tcx,
                        decls,
                        Lvalue::Projection(p),
                    )
                    &&& destination_block_ok(
                        blocks_now[(nb0 + blocks_before(blocks, b as nat)) as int],
                        Lvalue::Projection(p),
                        (first + projection_count(args)) as Local,
                        target,
                    )
                },
                _ => true,
            }
        },
        None => blocks_now[b] == blocks[b],
    }
}

} // verus!

//! The structure-splitting pass over one function: child locals are made
//! for every local whose type holds a split struct, the arguments are
//! split into tuples of children, field accesses are redirected to the
//! children, and assignments to split locals are split.
use vstd::prelude::*;

use crate::hir::Hir;
use crate::local_map::{lm_get, LocalMap};
use crate::lvalue_splitter::{block_split_ok, block_splittable, StructLvalueSplitter};
use crate::mir::{BasicBlockData, Local, LocalDecl, Mir, START_BLOCK};
use crate::split_arg::{child_types, decls_at, ordered_children, unpack_prefix, ArgumentSplitter};
use crate::split_struct::{
    candidates_map, decl_candidates, lemma_decl_map_children, lemma_node_map_typed, make_decl_map,
    make_split_ty_map, nm_model, split_ty_maps, Candidate, SplitMap, SplitRegistry,
};
use crate::struct_base_replacer::StructFieldReplacer;
use crate::ty::{is_tuple_of, Ty, TyCtxt};
use crate::walkmut::split_as;

verus! {

/// Why the pass stopped before changing every place it had to.
#[derive(Clone, Copy, Debug, PartialEq, Eq, Structural)]
pub enum SplitError {
    /// A field access on a split struct could not be redirected to a child.
    FieldAccess,
    /// An assignment to a split local could not be split.
    Assignment,
}

/// The child locals planned for `mir0`.
pub open spec fn pass_candidates(tcx0: &TyCtxt, registry: &SplitRegistry, hir: &Hir, mir0: Mir) -> Seq<Candidate> {
    let nm = split_ty_maps(hir.items@, registry.structs@).0;
    decl_candidates(tcx0, nm, hir.items@, mir0.local_decls@, mir0.local_decls@.len())
}

/// The decl map of the pass: each planned child, numbered after the locals
/// of `mir0`.
pub open spec fn pass_decl_map(tcx0: &TyCtxt, registry: &SplitRegistry, hir: &Hir, mir0: Mir) -> Seq<
    (Local, Seq<(Ty, Local)>),
> {
    candidates_map(pass_candidates(tcx0, registry, hir, mir0), mir0.local_decls@.len())
}

/// First step: `mir1` is `mir0` with a new local, of the split type, for
/// each planned child.
pub open spec fn locals_added(
    tcx0: &TyCtxt,
    tcx1: &TyCtxt,
    registry: &SplitRegistry,
    hir: &Hir,
    mir0: Mir,
    mir1: Mir,
) -> bool {
    let decls = mir0.local_decls@;
    let c = pass_candidates(tcx0, registry, hir, mir0);
    &&& tcx1.wf()
    &&& tcx1.extends(tcx0)
    &&& mir1.basic_blocks == mir0.basic_blocks
    &&& mir1.arg_count == mir0.arg_count
    &&& mir1.return_ty == mir0.return_ty
    &&& mir1.local_decls@.len() == decls.len() + c.len()
    &&& forall|l: int| 0 <= l < decls.len() ==> #[trigger] mir1.local_decls@[l] == decls[l]
    &&& forall|k: int|
        0 <= k < c.len() ==> split_as(
            tcx1,
            c[k].1,
            c[k].3,
            decls[c[k].0 as int].ty,
            (#[trigger] mir1.local_decls@[decls.len() + k]).ty,
        )
}

/// Second step: each argument with children gets the tuple of their types,
/// and statements moving the children out of it are put in front of the
/// first block.
pub open spec fn arguments_split(
    tcx1: &TyCtxt,
    tcx2: &TyCtxt,
    lm: Seq<(Local, Seq<(Ty, Local)>)>,
    mir1: Mir,
    mir2: Mir,
) -> bool {
    &&& tcx2.wf()
    &&& tcx2.extends(tcx1)
    &&& mir2.arg_count == mir1.arg_count
    &&& mir2.return_ty == mir1.return_ty
    &&& mir2.local_decls@.len() == mir1.local_decls@.len()
    &&& mir2.basic_blocks@.len() == mir1.basic_blocks@.len()
    &&& forall|l: int|
        0 <= l < mir1.local_decls@.len() && !(1 <= l <= mir1.arg_count && lm_get(lm, l as Local) is Some)
            ==> #[trigger] mir2.local_decls@[l] == mir1.local_decls@[l]
    &&& forall|l: int|
        1 <= l <= mir1.arg_count && lm_get(lm, l as Local) is Some ==> is_tuple_of(
            tcx2,
            (#[trigger] mir2.local_decls@[l]).ty,
            child_types(
                decls_at(lm, mir1.local_decls@, mir2.local_decls@, l),
                ordered_children(tcx1, lm, l as Local)->0,
            ),
        )
    &&& mir2.basic_blocks@[START_BLOCK as int].statements@ == unpack_prefix(
        tcx1,
        lm,
        mir1.local_decls@,
        mir2.local_decls@,
        mir1.arg_count as nat,
    ) + mir1.basic_blocks@[START_BLOCK as int].statements@
    &&& mir2.basic_blocks@[START_BLOCK as int].terminator == mir1.basic_blocks@[START_BLOCK as int].terminator
    &&& mir2.basic_blocks@[START_BLOCK as int].is_cleanup == mir1.basic_blocks@[START_BLOCK as int].is_cleanup
    &&& forall|b: int| 1 <= b < mir1.basic_blocks@.len() ==> #[trigger] mir2.basic_blocks@[b] == mir1.basic_blocks@[b]
}

/// The field replacer of the pass: it reads types from the declarations
/// of `decls_mir`.
pub open spec fn pass_replacer<'b>(
    decls_mir: &'b Mir,
    sm: &'b SplitMap,
    registry: &'b SplitRegistry,
    hir: &'b Hir,
    lmap: &'b LocalMap,
) -> StructFieldReplacer<'b> {
    StructFieldReplacer { mir: decls_mir, ty2structsplit: sm, registry, hir, decl_map: lmap }
}

/// The field replacer may run on every block of `mir`.
pub open spec fn fields_redirectable(rep: StructFieldReplacer, tcx: &TyCtxt, mir: Mir) -> bool {
    forall|b: int| 0 <= b < mir.basic_blocks@.len() ==> rep.block_ok(tcx, #[trigger] mir.basic_blocks@[b])
}

/// Third step: every place of `mir2` redirected by `rep`.
pub open spec fn fields_redirected(rep: StructFieldReplacer, tcx: &TyCtxt, mir2: Mir, mir3: Mir) -> bool {
    &&& mir3.local_decls == mir2.local_decls
    &&& mir3.arg_count == mir2.arg_count
    &&& mir3.return_ty == mir2.return_ty
    &&& mir3.basic_blocks@.len() == mir2.basic_blocks@.len()
    &&& forall|b: int|
        0 <= b < mir2.basic_blocks@.len() ==> rep.block_visited(
            tcx,
            mir2.basic_blocks@[b],
            #[trigger] mir3.basic_blocks@[b],
        )
}

/// The assignment splitter may run on every block of `mir`.
pub open spec fn assignments_splittable(
    tcx: &TyCtxt,
    decls: Seq<LocalDecl>,
    lm: Seq<(Local, Seq<(Ty, Local)>)>,
    mir: Mir,
) -> bool {
    forall|b: int|
        0 <= b < mir.basic_blocks@.len() ==> block_splittable(
            tcx,
            decls,
            lm,
            (#[trigger] mir.basic_blocks@[b]).statements@,
        )
}

/// Fourth step: the assignments to split locals in `mir3` split.
pub open spec fn assignments_split(
    tcx: &TyCtxt,
    decls: Seq<LocalDecl>,
    lm: Seq<(Local, Seq<(Ty, Local)>)>,
    mir3: Mir,
    mir4: Mir,
) -> bool {
    &&& mir4.local_decls == mir3.local_decls
    &&& mir4.arg_count == mir3.arg_count
    &&& mir4.return_ty == mir3.return_ty
    &&& mir4.basic_blocks@.len() == mir3.basic_blocks@.len()
    &&& forall|b: int|
        0 <= b < mir3.basic_blocks@.len() ==> {
            &&& block_split_ok(
                tcx,
                decls,
                lm,
                mir3.basic_blocks@[b].statements@,
                (#[trigger] mir4.basic_blocks@[b]).statements@,
            )
            &&& mir4.basic_blocks@[b].terminator == mir3.basic_blocks@[b].terminator
            &&& mir4.basic_blocks@[b].is_cleanup == mir3.basic_blocks@[b].is_cleanup
        }
}

/// The first two steps, from `mir0` to `mir2`, with the replacer built on
/// the declarations of `mir1`, the split map and the decl map of the pass.
pub open spec fn first_steps<'b>(
    tcx0: &TyCtxt,
    tcx1: &TyCtxt,
    tcx2: &TyCtxt,
    registry: &'b SplitRegistry,
    hir: &'b Hir,
    mir0: Mir,
    mir1: Mir,
    mir2: Mir,
    decls_mir: &'b Mir,
    sm: &'b SplitMap,
    lmap: &'b LocalMap,
) -> bool {
    let lm = pass_decl_map(tcx0, registry, hir, mir0);
    &&& locals_added(tcx0, tcx1, registry, hir, mir0, mir1)
    &&& arguments_split(tcx1, tcx2, lm, mir1, mir2)
    &&& decls_mir.local_decls@ == mir1.local_decls@
    &&& sm.entries@ == split_ty_maps(hir.items@, registry.structs@).1
    &&& lmap.model() == lm
}

/// The pass went through: the four steps lead from `mir0` to `mir4`.
pub open spec fn pass_done<'b>(
    tcx0: &TyCtxt,
    tcx1: &TyCtxt,
    tcx2: &TyCtxt,
    registry: &'b SplitRegistry,
    hir: &'b Hir,
    mir0: Mir,
    mir1: Mir,
    mir2: Mir,
    mir3: Mir,
    mir4: Mir,
    decls_mir: &'b Mir,
    sm: &'b SplitMap,
    lmap: &'b LocalMap,
) -> bool {
    let rep = pass_replacer(decls_mir, sm, registry, hir, lmap);
    let lm = pass_decl_map(tcx0, registry, hir, mir0);
    &&& first_steps(tcx0, tcx1, tcx2, registry, hir, mir0, mir1, mir2, decls_mir, sm, lmap)
    &&& fields_redirectable(rep, tcx2, mir2)
    &&& fields_redirected(rep, tcx2, mir2, mir3)
    &&& assignments_splittable(tcx2, mir1.local_decls@, lm, mir3)
    &&& assignments_split(tcx2, mir1.local_decls@, lm, mir3, mir4)
}

/// The pass stopped at the field accesses of `mir2`.
pub open spec fn fields_refused<'b>(
    tcx0: &TyCtxt,
    tcx1: &TyCtxt,
    tcx2: &TyCtxt,
    registry: &'b SplitRegistry,
    hir: &'b Hir,
    mir0: Mir,
    mir1: Mir,
    mir2: Mir,
    decls_mir: &'b Mir,
    sm: &'b SplitMap,
    lmap: &'b LocalMap,
) -> bool {
    let rep = pass_replacer(decls_mir, sm, registry, hir, lmap);
    &&& first_steps(tcx0, tcx1, tcx2, registry, hir, mir0, mir1, mir2, decls_mir, sm, lmap)
    &&& !fields_redirectable(rep, tcx2, mir2)
}

/// The pass stopped at the assignments of `mir3`.
pub open spec fn assignments_refused<'b>(
    tcx0: &TyCtxt,
    tcx1: &TyCtxt,
    tcx2: &TyCtxt,
    registry: &'b SplitRegistry,
    hir: &'b Hir,
    mir0: Mir,
    mir1: Mir,
    mir2: Mir,
    mir3: Mir,
    decls_mir: &'b Mir,
    sm: &'b SplitMap,
    lmap: &'b LocalMap,
) -> bool {
    let rep = pass_replacer(decls_mir, sm, registry, hir, lmap);
    let lm = pass_decl_map(tcx0, registry, hir, mir0);
    &&& first_steps(tcx0, tcx1, tcx2, registry, hir, mir0, mir1, mir2, decls_mir, sm, lmap)
    &&& fields_redirectable(rep, tcx2, mir2)
    &&& fields_redirected(rep, tcx2, mir2, mir3)
    &&& !assignments_splittable(tcx2, mir1.local_decls@, lm, mir3)
}

/// A pass that went through keeps the blocks, the argument count and the
/// return type of the function, and only adds locals: one per planned
/// child, after the locals it had.
pub proof fn lemma_pass_shape<'b>(
    tcx0: &TyCtxt,
    tcx1: &TyCtxt,
    tcx2: &TyCtxt,
    registry: &'b SplitRegistry,
    hir: &'b Hir,
    mir0: Mir,
    mir1: Mir,
    mir2: Mir,
    mir3: Mir,
    mir4: Mir,
    decls_mir: &'b Mir,
    sm: &'b SplitMap,
    lmap: &'b LocalMap,
)
    requires
        pass_done(tcx0, tcx1, tcx2, registry, hir, mir0, mir1, mir2, mir3, mir4, decls_mir, sm, lmap),
    ensures
        mir4.basic_blocks@.len() == mir0.basic_blocks@.len(),
        mir4.arg_count == mir0.arg_count,
        mir4.return_ty == mir0.return_ty,
        mir4.local_decls@.len() == mir0.local_decls@.len() + pass_candidates(tcx0, registry, hir, mir0).len(),
        forall|l: int|
            mir0.arg_count < l < mir0.local_decls@.len() ==> #[trigger] mir4.local_decls@[l]
                == mir0.local_decls@[l],
{
    assert forall|l: int| mir0.arg_count < l < mir0.local_decls@.len() implies #[trigger] mir4.local_decls@[l]
        == mir0.local_decls@[l] by {
        assert(mir1.local_decls@[l] == mir0.local_decls@[l]);
        assert(mir2.local_decls@[l] == mir1.local_decls@[l]);
    }
}

fn copy_decls(decls: &Vec<LocalDecl>) -> (r: Vec<LocalDecl>)
    ensures
        r@ == decls@,
{
    let mut r: Vec<LocalDecl> = Vec::new();
    for i in 0..decls.len()
        invariant
            r@ == decls@.take(i as int),
    {
        r.push(decls[i]);
        proof {
            assert(r@ =~= decls@.take(i + 1));
        }
    }
    proof {
        assert(decls@.take(decls@.len() as int) =~= decls@);
    }
    r
}

/// The structure-splitting pass.
pub struct StructureSplitting;

impl StructureSplitting {
    /// Runs the pass on one function, for the structs of `registry` whose
    /// items `hir` holds. It stops with an error where a field access or an
    /// assignment of the function cannot be rewritten, leaving the function
    /// as the steps before left it.
    pub fn run_pass<'a>(&self, tcx: &mut TyCtxt, registry: &'a SplitRegistry, hir: &'a Hir, mir: &mut Mir) -> (r:
        Result<(), SplitError>)
        requires
            old(tcx).wf(),
            forall|i: int| 0 <= i < old(mir).local_decls@.len() ==> old(tcx).has(#[trigger] old(mir).local_decls@[i].ty),
            forall|i: int| 0 <= i < hir.items@.len() ==> old(tcx).has(#[trigger] hir.items@[i].ty),
            old(mir).basic_blocks@.len() > 0,
            old(mir).arg_count < old(mir).local_decls@.len(),
        ensures
            final(tcx).wf(),
            final(tcx).extends(old(tcx)),
            match r {
                Ok(()) => exists|
                    tcx1: TyCtxt,
                    mir1: Mir,
                    mir2: Mir,
                    mir3: Mir,
                    decls_mir: Mir,
                    sm: SplitMap,
                    lmap: LocalMap,
                |
                    #[trigger] pass_done(
                        old(tcx),
                        &tcx1,
                        final(tcx),
                        registry,
                        hir,
                        *old(mir),
                        mir1,
                        mir2,
                        mir3,
                        *final(mir),
                        &decls_mir,
                        &sm,
                        &lmap,
                    ),
                Err(SplitError::FieldAccess) => exists|
                    tcx1: TyCtxt,
                    mir1: Mir,
                    decls_mir: Mir,
                    sm: SplitMap,
                    lmap: LocalMap,
                |
                    #[trigger] fields_refused(
                        old(tcx),
                        &tcx1,
                        final(tcx),
                        registry,
                        hir,
                        *old(mir),
                        mir1,
                        *final(mir),
                        &decls_mir,
                        &sm,
                        &lmap,
                    ),
                Err(SplitError::Assignment) => exists|
                    tcx1: TyCtxt,
                    mir1: Mir,
                    mir2: Mir,
                    decls_mir: Mir,
                    sm: SplitMap,
                    lmap: LocalMap,
                |
                    #[trigger] assignments_refused(
                        old(tcx),
                        &tcx1,
                        final(tcx),
                        registry,
                        hir,
                        *old(mir),
                        mir1,
                        mir2,
                        *final(mir),
                        &decls_mir,
                        &sm,
                        &lmap,
                    ),
            },
    {
        let ghost tcx0 = *tcx;
        let ghost mir0 = *mir;
        let (split_map, ty2structsplit) = make_split_ty_map(hir, registry);
        proof {
            lemma_node_map_typed(tcx, hir.items@, registry.structs@);
        }
        let decl_map = make_decl_map(tcx, mir, &split_map, hir);
        let ghost tcx1 = *tcx;
        let ghost mir1 = *mir;
        let _ = mir.local_decls.len();
        proof {
            let nm = split_ty_maps(hir.items@, registry.structs@).0;
            lemma_decl_map_children(&tcx0, nm, hir.items@, mir0.local_decls@);
            let c = pass_candidates(&tcx0, registry, hir, mir0);
            let n = mir0.local_decls@.len();
            assert forall|i: int| 0 <= i < mir1.local_decls@.len() implies tcx1.has(#[trigger] mir1.local_decls@[i].ty) by {
                if i < n {
                    assert(mir1.local_decls@[i] == mir0.local_decls@[i]);
                } else {
                    assert(split_as(&tcx1, c[i - n].1, c[i - n].3, mir0.local_decls@[c[i - n].0 as int].ty, mir1.local_decls@[n + (i - n)].ty));
                }
            }
        }
        let decls_mir = Mir {
            basic_blocks: Vec::new(),
            local_decls: copy_decls(&mir.local_decls),
            arg_count: mir.arg_count,
            return_ty: mir.return_ty,
        };
        proof {
            let lm = decl_map.model();
            let n = mir0.local_decls@.len();
            assert forall|l: Local, j: int|
                1 <= l <= mir1.arg_count && lm_get(lm, l) is Some && 0 <= j < lm_get(lm, l)->0.len() implies tcx1.has(
                (#[trigger] lm_get(lm, l)->0[j]).0,
            ) && lm_get(lm, l)->0[j].1 < mir1.local_decls@.len() by {
                crate::local_map::lemma_entry_position(lm, l);
                let p = crate::local_map::entry_position(lm, l);
                assert(lm_get(lm, l)->0[j] == lm[p].1[j]);
            }
        }
        let arg_tupler = ArgumentSplitter::new(&decl_map);
        arg_tupler.visit_mir(tcx, mir);
        let ghost tcx2 = *tcx;
        let ghost mir2 = *mir;
        proof {
            assert(first_steps(&tcx0, &tcx1, &tcx2, registry, hir, mir0, mir1, mir2, &decls_mir, &ty2structsplit, &decl_map));
        }
        let replacer = StructFieldReplacer::new(&decls_mir, &ty2structsplit, registry, hir, &decl_map);
        if !replacer.check_mir(tcx, mir) {
            proof {
                assert(fields_refused(&tcx0, &tcx1, &tcx2, registry, hir, mir0, mir1, mir2, &decls_mir, &ty2structsplit, &decl_map));
            }
            return Err(SplitError::FieldAccess);
        }
        replacer.visit_mir(tcx, mir);
        let ghost mir3 = *mir;
        let splitter = StructLvalueSplitter::new(&decls_mir, &decl_map);
        if !splitter.check_mir(tcx, mir) {
            proof {
                assert(assignments_refused(&tcx0, &tcx1, &tcx2, registry, hir, mir0, mir1, mir2, mir3, &decls_mir, &ty2structsplit, &decl_map));
            }
            return Err(SplitError::Assignment);
        }
        splitter.visit_mir(tcx, mir);
        proof {
            assert(pass_done(&tcx0, &tcx1, &tcx2, registry, hir, mir0, mir1, mir2, mir3, *mir, &decls_mir, &ty2structsplit, &decl_map));
        }
        Ok(())
    }
}

} // verus!

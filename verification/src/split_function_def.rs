//! Splitting a function's signature: arguments of the split struct's type
//! are passed as tuples of their children, and a return value of that
//! type is returned as a tuple of its children, filled in before each
//! return.
use vstd::prelude::*;

use crate::local_map::{lm_get, LocalMap};
use crate::mir::{
    append_statements, copy_lvalue, same_function, dummy_source_info, prepend_statements, spec_dummy_source_info, Local,
    LocalDecl, Lvalue, LvalueProjection, Mir, Operand, ProjectionElem, Rvalue, Statement,
    StatementKind, Terminator, TerminatorKind, RETURN_POINTER, START_BLOCK,
};
use crate::split_arg::{
    arguments_split, child_types, decl_map_fits, decls_at, lemma_decls_at_maps, lemma_split_decls_agree,
    lemma_unpack_prefix_frame, lemma_unpack_prefix_maps, ordered_children, unpack_prefix, unpack_statements,
};
use crate::split_utils::get_split_structures;
use crate::ty::{is_tuple_of, lemma_tuple_unique, Ty, TyCtxt, TyKind};

verus! {

/// `local.i = child`, moving a child into field `i` of the tuple in
/// `local`.
pub open spec fn pack_statement(local: Local, i: int, child: Local, ty: Ty) -> Statement {
    Statement {
        source_info: spec_dummy_source_info(),
        kind: StatementKind::Assign(
            Lvalue::Projection(
                Box::new(
                    LvalueProjection {
                        base: Lvalue::Local(local),
                        elem: ProjectionElem::Field(i as usize, ty),
                    },
                ),
            ),
            Rvalue::Use(Operand::Consume(Lvalue::Local(child))),
        ),
    }
}

/// The statements that pack `locals` into the tuple in `local`.
pub open spec fn pack_statements(decls: Seq<LocalDecl>, local: Local, locals: Seq<Local>) -> Seq<
    Statement,
> {
    Seq::new(
        locals.len(),
        |i: int| pack_statement(local, i, locals[i], decls[locals[i] as int].ty),
    )
}

/// Whether a block ends by returning.
pub open spec fn ends_in_return(t: Option<Terminator>) -> bool {
    match t {
        Some(t) => t.kind is Return,
        None => false,
    }
}

/// The children of the locals the splitter reads have ADT types.
pub open spec fn split_children_are_adts(tcx: &TyCtxt, lm: Seq<(Local, Seq<(Ty, Local)>)>, arg_count: usize) -> bool {
    forall|l: Local, j: int|
        l <= arg_count && lm_get(lm, l) is Some && 0 <= j < lm_get(lm, l)->0.len() ==> tcx.kind(
            (#[trigger] lm_get(lm, l)->0[j]).0,
        ) is Adt
}

fn pack_assigns(local: Local, tys: &Vec<Ty>, locals: &Vec<Local>) -> (r: Vec<Statement>)
    requires
        tys@.len() == locals@.len(),
    ensures
        r@ == Seq::new(
            locals@.len(),
            |i: int| pack_statement(local, i, locals@[i], tys@[i]),
        ),
{
    let mut r: Vec<Statement> = Vec::new();
    for i in 0..locals.len()
        invariant
            tys@.len() == locals@.len(),
            r@ == Seq::new(i as nat, |k: int| pack_statement(local, k, locals@[k], tys@[k])),
    {
        let tuple_projection = Lvalue::Local(local).field(i, tys[i]);
        r.push(
            Statement {
                source_info: dummy_source_info(),
                kind: StatementKind::Assign(
                    tuple_projection,
                    Rvalue::Use(Operand::Consume(Lvalue::Local(locals[i]))),
                ),
            },
        );
        proof {
            assert(r@ =~= Seq::new((i + 1) as nat, |k: int| pack_statement(local, k, locals@[k], tys@[k])));
        }
    }
    r
}

/// `m1` is `m0` with its signature split by decl map `lm`, the new tuple
/// types interned in `tcx1`: the arguments as the argument splitter splits
/// them; and when the return value has children, the return type and the
/// return local are the tuple of the children's types, as they are once the
/// arguments are split, and every block that returns ends by moving each
/// child into its field.
pub open spec fn signature_split(
    tcx0: &TyCtxt,
    lm: Seq<(Local, Seq<(Ty, Local)>)>,
    m0: &Mir,
    tcx1: &TyCtxt,
    m1: &Mir,
) -> bool {
    &&& m1.arg_count == m0.arg_count
    &&& m1.local_decls@.len() == m0.local_decls@.len()
    &&& m1.basic_blocks@.len() == m0.basic_blocks@.len()
    &&& forall|l: int|
        0 <= l < m0.local_decls@.len() && !(l <= m0.arg_count && lm_get(lm, l as Local) is Some)
            ==> #[trigger] m1.local_decls@[l] == m0.local_decls@[l]
    &&& forall|l: int|
        0 <= l <= m0.arg_count && lm_get(lm, l as Local) is Some ==> is_tuple_of(
            tcx1,
            (#[trigger] m1.local_decls@[l]).ty,
            child_types(
                decls_at(
                    lm,
                    m0.local_decls@,
                    m1.local_decls@,
                    if l == 0 {
                        m0.arg_count + 1
                    } else {
                        l
                    },
                ),
                ordered_children(tcx0, lm, l as Local)->0,
            ),
        )
    &&& lm_get(lm, RETURN_POINTER) is Some ==> m1.return_ty == m1.local_decls@[RETURN_POINTER as int].ty
    &&& lm_get(lm, RETURN_POINTER) is None ==> m1.return_ty == m0.return_ty
    &&& forall|b: int|
        0 <= b < m0.basic_blocks@.len() ==> {
            let before = if b == START_BLOCK {
                unpack_prefix(tcx0, lm, m0.local_decls@, m1.local_decls@, m0.arg_count as nat)
                    + m0.basic_blocks@[b].statements@
            } else {
                m0.basic_blocks@[b].statements@
            };
            let after = match ordered_children(tcx0, lm, RETURN_POINTER) {
                Some(ls) => if ends_in_return(m0.basic_blocks@[b].terminator) {
                    pack_statements(
                        decls_at(lm, m0.local_decls@, m1.local_decls@, m0.arg_count + 1),
                        RETURN_POINTER,
                        ls,
                    )
                } else {
                    seq![]
                },
                None => seq![],
            };
            &&& (#[trigger] m1.basic_blocks@[b]).statements@ == before + after
            &&& m1.basic_blocks@[b].terminator == m0.basic_blocks@[b].terminator
            &&& m1.basic_blocks@[b].is_cleanup == m0.basic_blocks@[b].is_cleanup
        }
}

/// Splits the signature of a function.
pub struct SignatureSplitter<'a> {
    pub decl_maps: &'a LocalMap,
}

impl<'a> SignatureSplitter<'a> {
    pub fn new(decl_maps: &'a LocalMap) -> (r: SignatureSplitter<'a>)
        ensures
            r.decl_maps == decl_maps,
    {
        SignatureSplitter { decl_maps }
    }

    /// Each argument with children becomes the tuple of its children, as
    /// the argument splitter does; when the return value has children, the
    /// return type and the return local become the tuple of the children,
    /// with the types they have once the arguments are split, and every
    /// block that returns first moves each child into its field.
    pub fn visit_mir(&self, tcx: &mut TyCtxt, mir: &mut Mir)
        requires
            old(tcx).wf(),
            old(mir).basic_blocks@.len() > 0,
            old(mir).arg_count < old(mir).local_decls@.len(),
            decl_map_fits(old(tcx), self.decl_maps.model(), old(mir), 0),
            split_children_are_adts(old(tcx), self.decl_maps.model(), old(mir).arg_count),
        ensures
            final(tcx).wf(),
            final(tcx).extends(old(tcx)),
            signature_split(old(tcx), self.decl_maps.model(), old(mir), final(tcx), final(mir)),
    {
        let ghost tcx0 = *tcx;
        let ghost decls0 = mir.local_decls@;
        let ghost blocks0 = mir.basic_blocks@;
        let ghost lm = self.decl_maps.model();
        let n = mir.arg_count;
        let total = mir.local_decls.len();
        let mut local: usize = 1;
        while local <= n
            invariant
                1 <= local <= n + 1,
                n < total,
                n == mir.arg_count,
                n == old(mir).arg_count,
                n < decls0.len(),
                lm == self.decl_maps.model(),
                tcx0 == *old(tcx),
                decls0 == old(mir).local_decls@,
                blocks0 == old(mir).basic_blocks@,
                blocks0.len() > 0,
                tcx.wf(),
                tcx.extends(&tcx0),
                tcx0.wf(),
                decl_map_fits(&tcx0, lm, old(mir), 0),
                split_children_are_adts(&tcx0, lm, n),
                mir.return_ty == old(mir).return_ty,
                mir.local_decls@.len() == decls0.len(),
                mir.basic_blocks@.len() == blocks0.len(),
                forall|l: int|
                    0 <= l < decls0.len() && !(1 <= l < local && lm_get(lm, l as Local) is Some)
                        ==> #[trigger] mir.local_decls@[l] == decls0[l],
                forall|l: int| 0 <= l < decls0.len() ==> tcx.has(#[trigger] mir.local_decls@[l].ty),
                forall|l: int|
                    1 <= l < local && lm_get(lm, l as Local) is Some ==> is_tuple_of(
                        tcx,
                        (#[trigger] mir.local_decls@[l]).ty,
                        child_types(
                            decls_at(lm, decls0, mir.local_decls@, l),
                            ordered_children(&tcx0, lm, l as Local)->0,
                        ),
                    ),
                mir.basic_blocks@[0].statements@ == unpack_prefix(
                    &tcx0,
                    lm,
                    decls0,
                    mir.local_decls@,
                    (local - 1) as nat,
                ) + blocks0[0].statements@,
                mir.basic_blocks@[0].terminator == blocks0[0].terminator,
                mir.basic_blocks@[0].is_cleanup == blocks0[0].is_cleanup,
                forall|b: int| 1 <= b < blocks0.len() ==> #[trigger] mir.basic_blocks@[b] == blocks0[b],
            decreases n + 1 - local,
        {
            let ghost tcx_before = *tcx;
            let ghost decls_before = mir.local_decls@;
            proof {
                assert(decls_at(lm, decls0, decls_before, local as int) =~= decls_before);
            }
            match self.decl_maps.get(local) {
                Some(local_map) => {
                    let ghost ls = ordered_children(&tcx0, lm, local)->0;
                    proof {
                        self.lemma_entry_fits(&tcx0, tcx, old(mir), local, local_map@);
                        crate::split_arg::lemma_sort_stable(&tcx0, tcx, local_map@);
                    }
                    let (tys, vals) = get_split_structures(tcx, local, &mir.local_decls, local_map);
                    proof {
                        assert(tys@ =~= child_types(decls_before, ls));
                        assert forall|i: int| 0 <= i < tys@.len() implies tcx.has(#[trigger] tys@[i]) by {
                            assert(tys@[i] == mir.local_decls@[ls[i] as int].ty);
                        }
                    }
                    let tuple_ty = tcx.intern_tup(&tys, false);
                    mir.local_decls.set(local, LocalDecl { ty: tuple_ty });
                    let assigns = self.unpack_assigns(vals, Ghost(decls_before), Ghost(local), Ghost(ls));
                    prepend_statements(&mut mir.basic_blocks, START_BLOCK, assigns);
                    proof {
                        let cur = mir.local_decls@;
                        assert(decls_at(lm, decls0, cur, local as int) =~= decls_at(
                            lm,
                            decls0,
                            decls_before,
                            local as int,
                        ));
                        lemma_unpack_prefix_frame(&tcx0, lm, decls0, decls_before, cur, (local - 1) as nat);
                        assert forall|l: int|
                            1 <= l < local + 1 && lm_get(lm, l as Local) is Some implies is_tuple_of(
                            tcx,
                            (#[trigger] mir.local_decls@[l]).ty,
                            child_types(decls_at(lm, decls0, mir.local_decls@, l), ordered_children(&tcx0, lm, l as Local)->0),
                        ) by {
                            assert(decls_at(lm, decls0, cur, l) =~= decls_at(lm, decls0, decls_before, l));
                            if l < local {
                                crate::ty::lemma_tuple_stable(
                                    &tcx_before,
                                    tcx,
                                    decls_before[l].ty,
                                    child_types(
                                        decls_at(lm, decls0, decls_before, l),
                                        ordered_children(&tcx0, lm, l as Local)->0,
                                    ),
                                );
                            }
                        }
                        assert forall|l: int| 0 <= l < decls0.len() implies tcx.has(
                            #[trigger] mir.local_decls@[l].ty,
                        ) by {
                            if l != local {
                                assert(mir.local_decls@[l] == decls_before[l]);
                            }
                        }
                    }
                },
                None => {},
            }
            local = local + 1;
        }
        let ghost tcx_mid = *tcx;
        let ghost decls_mid = mir.local_decls@;
        let ghost blocks_mid = mir.basic_blocks@;
        let ghost dn = decls_at(lm, decls0, decls_mid, n + 1);
        proof {
            assert(dn =~= decls_mid);
        }
        match self.decl_maps.get(RETURN_POINTER) {
            Some(local_map) => {
                let ghost ls = ordered_children(&tcx0, lm, RETURN_POINTER)->0;
                proof {
                    self.lemma_entry_fits(&tcx0, tcx, old(mir), RETURN_POINTER, local_map@);
                    crate::split_arg::lemma_sort_stable(&tcx0, tcx, local_map@);
                }
                let (tys, vals) = get_split_structures(tcx, RETURN_POINTER, &mir.local_decls, local_map);
                proof {
                    assert(tys@ =~= child_types(dn, ls));
                    assert forall|i: int| 0 <= i < tys@.len() implies tcx.has(#[trigger] tys@[i]) by {
                        assert(tys@[i] == mir.local_decls@[ls[i] as int].ty);
                    }
                }
                let tuple_ty = tcx.intern_tup(&tys, false);
                mir.local_decls.set(RETURN_POINTER, LocalDecl { ty: tuple_ty });
                mir.return_ty = tuple_ty;
                let mut locals: Vec<Local> = Vec::new();
                for i in 0..vals.len()
                    invariant
                        vals@.len() == ls.len(),
                        forall|k: int| 0 <= k < ls.len() ==> #[trigger] vals@[k].0 == Lvalue::Local(ls[k]),
                        locals@ == ls.take(i as int),
                {
                    match &vals[i].0 {
                        Lvalue::Local(l) => {
                            locals.push(*l);
                        },
                        _ => {},
                    }
                    proof {
                        assert(ls.take(i + 1) =~= ls.take(i as int).push(ls[i as int]));
                    }
                }
                proof {
                    assert(ls.take(ls.len() as int) =~= ls);
                }
                let nb = mir.basic_blocks.len();
                for b in 0..nb
                    invariant
                        nb == mir.basic_blocks@.len(),
                        nb == blocks_mid.len(),
                        mir.arg_count == n,
                        mir.local_decls@ == decls_mid.update(0, LocalDecl { ty: tuple_ty }),
                        mir.return_ty == tuple_ty,
                        locals@ == ls,
                        tys@ == child_types(dn, ls),
                        forall|k: int|
                            b <= k < nb ==> #[trigger] mir.basic_blocks@[k] == blocks_mid[k],
                        forall|k: int|
                            0 <= k < b ==> {
                                &&& (#[trigger] mir.basic_blocks@[k]).statements@ == blocks_mid[k].statements@
                                    + if ends_in_return(blocks_mid[k].terminator) {
                                    pack_statements(dn, RETURN_POINTER, ls)
                                } else {
                                    seq![]
                                }
                                &&& mir.basic_blocks@[k].terminator == blocks_mid[k].terminator
                                &&& mir.basic_blocks@[k].is_cleanup == blocks_mid[k].is_cleanup
                            },
                {
                    let is_return = match &mir.basic_blocks[b].terminator {
                        Some(t) => match &t.kind {
                            TerminatorKind::Return => true,
                            _ => false,
                        },
                        None => false,
                    };
                    if is_return {
                        let assigns = pack_assigns(RETURN_POINTER, &tys, &locals);
                        proof {
                            assert(assigns@ =~= pack_statements(dn, RETURN_POINTER, ls));
                        }
                        append_statements(&mut mir.basic_blocks, b, assigns);
                    } else {
                        proof {
                            assert(mir.basic_blocks@[b as int].statements@ =~= blocks_mid[b as int].statements@
                                + seq![]);
                        }
                    }
                }
                proof {
                    let fin = mir.local_decls@;
                    assert(decls_at(lm, decls0, fin, n + 1) =~= dn);
                    lemma_unpack_prefix_frame(&tcx0, lm, decls0, decls_mid, fin, n as nat);
                    assert forall|l: int|
                        0 <= l <= n && lm_get(lm, l as Local) is Some implies is_tuple_of(
                        tcx,
                        (#[trigger] mir.local_decls@[l]).ty,
                        child_types(
                            decls_at(lm, decls0, mir.local_decls@, if l == 0 { n + 1 } else { l }),
                            ordered_children(&tcx0, lm, l as Local)->0,
                        ),
                    ) by {
                        if l > 0 {
                            assert(decls_at(lm, decls0, fin, l) =~= decls_at(lm, decls0, decls_mid, l));
                            crate::ty::lemma_tuple_stable(
                                &tcx_mid,
                                tcx,
                                decls_mid[l].ty,
                                child_types(
                                    decls_at(lm, decls0, decls_mid, l),
                                    ordered_children(&tcx0, lm, l as Local)->0,
                                ),
                            );
                        }
                    }
                    assert forall|b: int| 0 <= b < blocks0.len() implies (#[trigger] mir.basic_blocks@[b]).statements@
                        == (if b == 0 {
                        unpack_prefix(&tcx0, lm, decls0, fin, n as nat) + blocks0[b].statements@
                    } else {
                        blocks0[b].statements@
                    }) + (if ends_in_return(blocks0[b].terminator) {
                        pack_statements(decls_at(lm, decls0, fin, n + 1), RETURN_POINTER, ls)
                    } else {
                        seq![]
                    }) by {
                        assert(blocks_mid[b].terminator == blocks0[b].terminator);
                    }
                }
            },
            None => {
                proof {
                    assert forall|b: int| 0 <= b < blocks0.len() implies (#[trigger] mir.basic_blocks@[b]).statements@
                        == (if b == 0 {
                        unpack_prefix(&tcx0, lm, decls0, mir.local_decls@, n as nat) + blocks0[b].statements@
                    } else {
                        blocks0[b].statements@
                    }) + seq![] by {
                        assert(mir.basic_blocks@[b].statements@ =~= mir.basic_blocks@[b].statements@ + seq![]);
                    }
                }
            },
        }
    }

    proof fn lemma_entry_fits(
        &self,
        tcx0: &TyCtxt,
        tcx: &TyCtxt,
        mir: &Mir,
        local: Local,
        cs: Seq<(Ty, Local)>,
    )
        requires
            tcx.extends(tcx0),
            local <= mir.arg_count,
            decl_map_fits(tcx0, self.decl_maps.model(), mir, 0),
            split_children_are_adts(tcx0, self.decl_maps.model(), mir.arg_count),
            lm_get(self.decl_maps.model(), local) == Some(cs),
        ensures
            forall|j: int| 0 <= j < cs.len() ==> tcx0.has(#[trigger] cs[j].0),
            forall|j: int| 0 <= j < cs.len() ==> tcx.has(#[trigger] cs[j].0),
            forall|j: int| 0 <= j < cs.len() ==> tcx.kind(#[trigger] cs[j].0) is Adt,
            forall|j: int| 0 <= j < cs.len() ==> (#[trigger] cs[j]).1 < mir.local_decls@.len(),
            ordered_children(tcx0, self.decl_maps.model(), local)->0.len() == cs.len(),
            forall|i: int|
                0 <= i < cs.len() ==> #[trigger] ordered_children(tcx0, self.decl_maps.model(), local)->0[i]
                    < mir.local_decls@.len(),
    {
        let lm = self.decl_maps.model();
        assert forall|j: int| 0 <= j < cs.len() implies tcx0.has(#[trigger] cs[j].0) && cs[j].1
            < mir.local_decls@.len() && tcx0.kind(cs[j].0) is Adt by {
            assert(lm_get(lm, local)->0[j] == cs[j]);
        }
        crate::split_utils::lemma_sorted_member(tcx0, cs);
        let srt = crate::split_utils::sort_by_adt(tcx0, cs);
        assert forall|i: int| 0 <= i < cs.len() implies #[trigger] ordered_children(tcx0, lm, local)->0[i]
            < mir.local_decls@.len() by {
            assert(cs.contains(srt[i]));
            let j = choose|j: int| 0 <= j < cs.len() && cs[j] == srt[i];
            assert(lm_get(lm, local)->0[j] == cs[j]);
        }
        assert forall|j: int| 0 <= j < cs.len() implies tcx.kind(#[trigger] cs[j].0) is Adt by {
            assert(tcx0.kind(cs[j].0) is Adt);
            assert(tcx.kinds@[cs[j].0.id as int] == tcx0.kinds@[cs[j].0.id as int]);
        }
    }

    fn unpack_assigns(
        &self,
        vals: Vec<(Lvalue, Lvalue)>,
        Ghost(decls): Ghost<Seq<LocalDecl>>,
        Ghost(local): Ghost<Local>,
        Ghost(ls): Ghost<Seq<Local>>,
    ) -> (r: Vec<Statement>)
        requires
            vals@.len() == ls.len(),
            forall|i: int|
                0 <= i < ls.len() ==> #[trigger] vals@[i] == (
                    Lvalue::Local(ls[i]),
                    Lvalue::Projection(
                        Box::new(
                            LvalueProjection {
                                base: Lvalue::Local(local),
                                elem: ProjectionElem::Field(i as usize, decls[ls[i] as int].ty),
                            },
                        ),
                    ),
                ),
        ensures
            r@ == unpack_statements(decls, local, ls),
    {
        let mut r: Vec<Statement> = Vec::new();
        for i in 0..vals.len()
            invariant
                vals@.len() == ls.len(),
                forall|k: int|
                    0 <= k < ls.len() ==> #[trigger] vals@[k] == (
                        Lvalue::Local(ls[k]),
                        Lvalue::Projection(
                            Box::new(
                                LvalueProjection {
                                    base: Lvalue::Local(local),
                                    elem: ProjectionElem::Field(k as usize, decls[ls[k] as int].ty),
                                },
                            ),
                        ),
                    ),
                r@ == unpack_statements(decls, local, ls.take(i as int)),
        {
            let lhs = copy_lvalue(&vals[i].0);
            let rhs = copy_lvalue(&vals[i].1);
            r.push(
                Statement {
                    source_info: dummy_source_info(),
                    kind: StatementKind::Assign(lhs, Rvalue::Use(Operand::Consume(rhs))),
                },
            );
            proof {
                assert(vals@[i as int] == vals@[i as int]);
                assert(r@ =~= unpack_statements(decls, local, ls.take(i + 1)));
            }
        }
        proof {
            assert(ls.take(vals@.len() as int) =~= ls);
        }
        r
    }
}


/// The signature splitter's result is fixed by what it reads: two results
/// on one function, by decl maps that give every argument and the return
/// value the same ordered children (as two maps do that list the same
/// children in another order), each read in the context its run started
/// from, are the same function, where the second run's final context
/// extends the first's (as when the second run follows the first, or both
/// share one context).
pub proof fn lemma_signature_split_deterministic(
    tcxa: &TyCtxt,
    lm1: Seq<(Local, Seq<(Ty, Local)>)>,
    tcx1: &TyCtxt,
    m1: &Mir,
    tcxb: &TyCtxt,
    lm2: Seq<(Local, Seq<(Ty, Local)>)>,
    tcx2: &TyCtxt,
    m2: &Mir,
    m0: &Mir,
)
    requires
        tcx2.wf(),
        tcx2.extends(tcx1),
        m0.arg_count < m0.local_decls@.len(),
        forall|l: int|
            0 <= l <= m0.arg_count ==> #[trigger] ordered_children(tcxa, lm1, l as Local) == ordered_children(
                tcxb,
                lm2,
                l as Local,
            ),
        signature_split(tcxa, lm1, m0, tcx1, m1),
        signature_split(tcxb, lm2, m0, tcx2, m2),
    ensures
        same_function(m1, m2),
{
    let n = m0.arg_count;
    let d0 = m0.local_decls@;
    let a1 = m1.local_decls@;
    let a2 = m2.local_decls@;
    assert forall|l: int| 1 <= l <= n && lm_get(lm1, l as Local) is None implies #[trigger] a1[l] == d0[l] by {}
    assert forall|l: int| 1 <= l <= n && lm_get(lm2, l as Local) is None implies #[trigger] a2[l] == d0[l] by {}
    lemma_split_decls_agree(tcxa, lm1, tcxb, lm2, d0, tcx1, a1, tcx2, a2, n as nat);
    assert(ordered_children(tcxa, lm1, RETURN_POINTER) == ordered_children(tcxb, lm2, RETURN_POINTER));
    lemma_decls_at_maps(tcxa, lm1, tcxb, lm2, d0, a2, n + 1);
    assert(decls_at(lm1, d0, a1, n + 1) =~= decls_at(lm1, d0, a2, n + 1));
    assert(decls_at(lm2, d0, a2, n + 1) == decls_at(lm1, d0, a1, n + 1));
    assert forall|l: int| 0 <= l < d0.len() implies #[trigger] a1[l] == a2[l] by {
        if l == 0 && lm_get(lm1, RETURN_POINTER) is Some {
            let tys = child_types(decls_at(lm1, d0, a1, n + 1), ordered_children(tcxa, lm1, RETURN_POINTER)->0);
            crate::ty::lemma_tuple_stable(tcx1, tcx2, a1[0].ty, tys);
            lemma_tuple_unique(tcx2, a1[0].ty, a2[0].ty, tys);
        }
    }
    assert(a1 =~= a2);
    lemma_unpack_prefix_maps(tcxa, lm1, tcxb, lm2, d0, a1, n as nat);
    assert forall|b: int| 0 <= b < m1.basic_blocks@.len() implies {
        &&& (#[trigger] m1.basic_blocks@[b]).statements@ == m2.basic_blocks@[b].statements@
        &&& m1.basic_blocks@[b].terminator == m2.basic_blocks@[b].terminator
        &&& m1.basic_blocks@[b].is_cleanup == m2.basic_blocks@[b].is_cleanup
    } by {
        assert(m2.basic_blocks@[b] == m2.basic_blocks@[b]);
    }
}

/// Splitting a signature twice in a row with one decl map, the second run
/// starting from the context the first left, gives the same function twice.
pub proof fn lemma_signature_split_twice(
    tcx0: &TyCtxt,
    lm: Seq<(Local, Seq<(Ty, Local)>)>,
    m0: &Mir,
    tcx1: &TyCtxt,
    m1: &Mir,
    tcx2: &TyCtxt,
    m2: &Mir,
)
    requires
        tcx1.extends(tcx0),
        tcx2.wf(),
        tcx2.extends(tcx1),
        m0.arg_count < m0.local_decls@.len(),
        decl_map_fits(tcx0, lm, m0, 0),
        signature_split(tcx0, lm, m0, tcx1, m1),
        signature_split(tcx1, lm, m0, tcx2, m2),
    ensures
        same_function(m1, m2),
{
    assert forall|l: int| 0 <= l <= m0.arg_count implies #[trigger] ordered_children(tcx0, lm, l as Local)
        == ordered_children(tcx1, lm, l as Local) by {
        if lm_get(lm, l as Local) is Some {
            crate::split_arg::lemma_sort_stable(tcx0, tcx1, lm_get(lm, l as Local)->0);
        }
    }
    lemma_signature_split_deterministic(tcx0, lm, tcx1, m1, tcx1, lm, tcx2, m2, m0);
}

/// Where the return value has no children, the signature splitter does
/// what the argument splitter does: the two give the same function, both
/// reading the decl map in the context they started from, where the
/// signature splitter's final context extends the argument splitter's.
pub proof fn lemma_argument_signature_agree(
    tcxa: &TyCtxt,
    tcx1: &TyCtxt,
    m1: &Mir,
    tcxb: &TyCtxt,
    tcx2: &TyCtxt,
    m2: &Mir,
    lm: Seq<(Local, Seq<(Ty, Local)>)>,
    m0: &Mir,
)
    requires
        tcx2.wf(),
        tcx2.extends(tcx1),
        m0.arg_count < m0.local_decls@.len(),
        m0.basic_blocks@.len() > 0,
        lm_get(lm, RETURN_POINTER) is None,
        forall|l: int|
            1 <= l <= m0.arg_count ==> #[trigger] ordered_children(tcxa, lm, l as Local) == ordered_children(
                tcxb,
                lm,
                l as Local,
            ),
        arguments_split(tcxa, lm, m0, tcx1, m1),
        signature_split(tcxb, lm, m0, tcx2, m2),
    ensures
        same_function(m1, m2),
{
    let n = m0.arg_count;
    let d0 = m0.local_decls@;
    let a1 = m1.local_decls@;
    let a2 = m2.local_decls@;
    assert forall|l: int| 1 <= l <= n && lm_get(lm, l as Local) is None implies #[trigger] a1[l] == d0[l] by {}
    assert forall|l: int| 1 <= l <= n && lm_get(lm, l as Local) is None implies #[trigger] a2[l] == d0[l] by {}
    lemma_split_decls_agree(tcxa, lm, tcxb, lm, d0, tcx1, a1, tcx2, a2, n as nat);
    assert forall|l: int| 0 <= l < d0.len() implies #[trigger] a1[l] == a2[l] by {
        if l == 0 {
            assert(a1[0] == d0[0]);
            assert(a2[0] == d0[0]);
        }
    }
    assert(a1 =~= a2);
    lemma_unpack_prefix_maps(tcxa, lm, tcxb, lm, d0, a1, n as nat);
    assert forall|b: int| 0 <= b < m1.basic_blocks@.len() implies {
        &&& (#[trigger] m1.basic_blocks@[b]).statements@ == m2.basic_blocks@[b].statements@
        &&& m1.basic_blocks@[b].terminator == m2.basic_blocks@[b].terminator
        &&& m1.basic_blocks@[b].is_cleanup == m2.basic_blocks@[b].is_cleanup
    } by {
        assert(m2.basic_blocks@[b] == m2.basic_blocks@[b]);
        if b == START_BLOCK {
            assert(m2.basic_blocks@[b].statements@ =~= unpack_prefix(tcxb, lm, d0, a2, n as nat)
                + m0.basic_blocks@[b].statements@);
        } else {
            assert(m1.basic_blocks@[b] == m0.basic_blocks@[b]);
            assert(m2.basic_blocks@[b].statements@ =~= m0.basic_blocks@[b].statements@);
        }
    }
}

/// The argument splitter, then the signature splitter starting from the
/// context the first left, with one decl map that gives the return value
/// no children, give the same function.
pub proof fn lemma_argument_then_signature(
    tcx0: &TyCtxt,
    lm: Seq<(Local, Seq<(Ty, Local)>)>,
    m0: &Mir,
    tcx1: &TyCtxt,
    m1: &Mir,
    tcx2: &TyCtxt,
    m2: &Mir,
)
    requires
        tcx1.extends(tcx0),
        tcx2.wf(),
        tcx2.extends(tcx1),
        m0.arg_count < m0.local_decls@.len(),
        m0.basic_blocks@.len() > 0,
        lm_get(lm, RETURN_POINTER) is None,
        decl_map_fits(tcx0, lm, m0, 1),
        arguments_split(tcx0, lm, m0, tcx1, m1),
        signature_split(tcx1, lm, m0, tcx2, m2),
    ensures
        same_function(m1, m2),
{
    assert forall|l: int| 1 <= l <= m0.arg_count implies #[trigger] ordered_children(tcx0, lm, l as Local)
        == ordered_children(tcx1, lm, l as Local) by {
        if lm_get(lm, l as Local) is Some {
            crate::split_arg::lemma_sort_stable(tcx0, tcx1, lm_get(lm, l as Local)->0);
        }
    }
    lemma_argument_signature_agree(tcx0, tcx1, m1, tcx1, tcx2, m2, lm, m0);
}

} // verus!

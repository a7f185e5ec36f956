//! Splitting arguments: an argument of the split struct's type is passed
//! as a tuple of its children, and the function starts by moving each
//! child out of the tuple into the child's local.
use vstd::prelude::*;

use crate::local_map::{lm_get, LocalMap};
use crate::mir::{
    dummy_source_info, prepend_statements, spec_dummy_source_info, Local, LocalDecl, Lvalue,
    LvalueProjection, Mir, Operand, ProjectionElem, Rvalue, Statement, StatementKind, START_BLOCK,
};
use crate::split_utils::{keys_determine, lemma_sort_order_irrelevant, sort_by_adt, sorted_children};
use crate::ty::{is_tuple_of, lemma_tuple_unique, Ty, TyCtxt, TyKind};

verus! {

/// The child locals of `local`, ordered by the definitions of their types.
pub open spec fn ordered_children(tcx: &TyCtxt, lm: Seq<(Local, Seq<(Ty, Local)>)>, local: Local) -> Option<
    Seq<Local>,
> {
    match lm_get(lm, local) {
        Some(cs) => Some(sort_by_adt(tcx, cs).map_values(|p: (Ty, Local)| p.1)),
        None => None,
    }
}

/// Two decl maps that give `local` the same children, listed in any order,
/// give it the same ordered children, where the definition of a child's
/// type tells it apart from the other children.
pub proof fn lemma_children_order_irrelevant(
    tcx: &TyCtxt,
    lm1: Seq<(Local, Seq<(Ty, Local)>)>,
    lm2: Seq<(Local, Seq<(Ty, Local)>)>,
    local: Local,
)
    requires
        (lm_get(lm1, local) is Some) == (lm_get(lm2, local) is Some),
        lm_get(lm1, local) is Some ==> lm_get(lm1, local)->0.to_multiset() == lm_get(lm2, local)->0.to_multiset(),
        lm_get(lm1, local) is Some ==> keys_determine(tcx, lm_get(lm1, local)->0),
    ensures
        ordered_children(tcx, lm1, local) == ordered_children(tcx, lm2, local),
{
    if lm_get(lm1, local) is Some {
        lemma_sort_order_irrelevant(tcx, lm_get(lm1, local)->0, lm_get(lm2, local)->0);
    }
}

/// The declared types of `locals`.
pub open spec fn child_types(decls: Seq<LocalDecl>, locals: Seq<Local>) -> Seq<Ty> {
    locals.map_values(|l: Local| decls[l as int].ty)
}

/// `child = local.i`, moving child `i` out of the tuple in `local`.
pub open spec fn unpack_statement(local: Local, i: int, child: Local, ty: Ty) -> Statement {
    Statement {
        source_info: spec_dummy_source_info(),
        kind: StatementKind::Assign(
            Lvalue::Local(child),
            Rvalue::Use(
                Operand::Consume(
                    Lvalue::Projection(
                        Box::new(
                            LvalueProjection {
                                base: Lvalue::Local(local),
                                elem: ProjectionElem::Field(i as usize, ty),
                            },
                        ),
                    ),
                ),
            ),
        ),
    }
}

/// The statements that unpack argument `local` into `locals`.
pub open spec fn unpack_statements(decls: Seq<LocalDecl>, local: Local, locals: Seq<Local>) -> Seq<
    Statement,
> {
    Seq::new(
        locals.len(),
        |i: int| unpack_statement(local, i, locals[i], decls[locals[i] as int].ty),
    )
}

/// The declarations as the splitters read them on reaching local `l`:
/// each argument before `l` that has children as in `after`, where it has
/// become a tuple, and every other local as in `decls`.
pub open spec fn decls_at(
    lm: Seq<(Local, Seq<(Ty, Local)>)>,
    decls: Seq<LocalDecl>,
    after: Seq<LocalDecl>,
    l: int,
) -> Seq<LocalDecl> {
    Seq::new(
        decls.len(),
        |x: int|
            if 1 <= x < l && lm_get(lm, x as Local) is Some {
                after[x]
            } else {
                decls[x]
            },
    )
}

/// The statements put in front of the first block for arguments `1..=n`:
/// those of a later argument come first, each with the types its children
/// have on reaching it.
pub open spec fn unpack_prefix(
    tcx: &TyCtxt,
    lm: Seq<(Local, Seq<(Ty, Local)>)>,
    decls: Seq<LocalDecl>,
    after: Seq<LocalDecl>,
    n: nat,
) -> Seq<Statement>
    decreases n,
{
    if n == 0 {
        seq![]
    } else {
        let rest = unpack_prefix(tcx, lm, decls, after, (n - 1) as nat);
        match ordered_children(tcx, lm, n as Local) {
            Some(ls) => unpack_statements(decls_at(lm, decls, after, n as int), n as Local, ls) + rest,
            None => rest,
        }
    }
}

/// The prefix for arguments `1..=n` reads only the arguments before `n`.
pub proof fn lemma_unpack_prefix_frame(
    tcx: &TyCtxt,
    lm: Seq<(Local, Seq<(Ty, Local)>)>,
    decls: Seq<LocalDecl>,
    a: Seq<LocalDecl>,
    b: Seq<LocalDecl>,
    n: nat,
)
    requires
        forall|x: int| 1 <= x < n ==> a[x] == b[x],
    ensures
        unpack_prefix(tcx, lm, decls, a, n) == unpack_prefix(tcx, lm, decls, b, n),
    decreases n,
{
    if n > 0 {
        lemma_unpack_prefix_frame(tcx, lm, decls, a, b, (n - 1) as nat);
        assert(decls_at(lm, decls, a, n as int) =~= decls_at(lm, decls, b, n as int));
    }
}

/// Decl maps that agree on the ordered children of the arguments before `k`
/// (each read in its own context) read the declarations alike on reaching
/// `k`.
pub proof fn lemma_decls_at_maps(
    tcx1: &TyCtxt,
    lm1: Seq<(Local, Seq<(Ty, Local)>)>,
    tcx2: &TyCtxt,
    lm2: Seq<(Local, Seq<(Ty, Local)>)>,
    decls: Seq<LocalDecl>,
    after: Seq<LocalDecl>,
    k: int,
)
    requires
        forall|l: int| 1 <= l < k ==> #[trigger] ordered_children(tcx1, lm1, l as Local) == ordered_children(tcx2, lm2, l as Local),
    ensures
        decls_at(lm1, decls, after, k) == decls_at(lm2, decls, after, k),
{
    assert forall|x: int| 0 <= x < decls.len() implies #[trigger] decls_at(lm1, decls, after, k)[x] == decls_at(
        lm2,
        decls,
        after,
        k,
    )[x] by {
        if 1 <= x < k {
            assert(ordered_children(tcx1, lm1, x as Local) == ordered_children(tcx2, lm2, x as Local));
        }
    }
    assert(decls_at(lm1, decls, after, k) =~= decls_at(lm2, decls, after, k));
}

/// Decl maps that agree on the ordered children of arguments `1..=n` (each
/// read in its own context) put the same statements in front of the first
/// block.
pub proof fn lemma_unpack_prefix_maps(
    tcx1: &TyCtxt,
    lm1: Seq<(Local, Seq<(Ty, Local)>)>,
    tcx2: &TyCtxt,
    lm2: Seq<(Local, Seq<(Ty, Local)>)>,
    decls: Seq<LocalDecl>,
    after: Seq<LocalDecl>,
    n: nat,
)
    requires
        forall|l: int| 1 <= l <= n ==> #[trigger] ordered_children(tcx1, lm1, l as Local) == ordered_children(tcx2, lm2, l as Local),
    ensures
        unpack_prefix(tcx1, lm1, decls, after, n) == unpack_prefix(tcx2, lm2, decls, after, n),
    decreases n,
{
    if n > 0 {
        lemma_unpack_prefix_maps(tcx1, lm1, tcx2, lm2, decls, after, (n - 1) as nat);
        lemma_decls_at_maps(tcx1, lm1, tcx2, lm2, decls, after, n as int);
        assert(ordered_children(tcx1, lm1, n as Local) == ordered_children(tcx2, lm2, n as Local));
    }
}

/// Two splits of arguments `1..=n`, by decl maps that agree on the
/// arguments' ordered children (read in contexts `tcxa` and `tcxb`), the
/// second with its new types in a context `tcx2` that extends the first's
/// `tcx1`, give the arguments the same declarations.
pub proof fn lemma_split_decls_agree(
    tcxa: &TyCtxt,
    lm1: Seq<(Local, Seq<(Ty, Local)>)>,
    tcxb: &TyCtxt,
    lm2: Seq<(Local, Seq<(Ty, Local)>)>,
    d0: Seq<LocalDecl>,
    tcx1: &TyCtxt,
    a1: Seq<LocalDecl>,
    tcx2: &TyCtxt,
    a2: Seq<LocalDecl>,
    n: nat,
)
    requires
        tcx2.wf(),
        tcx2.extends(tcx1),
        a1.len() == d0.len(),
        a2.len() == d0.len(),
        n < d0.len(),
        forall|l: int| 1 <= l <= n ==> #[trigger] ordered_children(tcxa, lm1, l as Local) == ordered_children(tcxb, lm2, l as Local),
        forall|l: int| 1 <= l <= n && lm_get(lm1, l as Local) is None ==> #[trigger] a1[l] == d0[l],
        forall|l: int| 1 <= l <= n && lm_get(lm2, l as Local) is None ==> #[trigger] a2[l] == d0[l],
        forall|l: int|
            1 <= l <= n && lm_get(lm1, l as Local) is Some ==> is_tuple_of(
                tcx1,
                (#[trigger] a1[l]).ty,
                child_types(decls_at(lm1, d0, a1, l), ordered_children(tcxa, lm1, l as Local)->0),
            ),
        forall|l: int|
            1 <= l <= n && lm_get(lm2, l as Local) is Some ==> is_tuple_of(
                tcx2,
                (#[trigger] a2[l]).ty,
                child_types(decls_at(lm2, d0, a2, l), ordered_children(tcxb, lm2, l as Local)->0),
            ),
    ensures
        forall|l: int| 1 <= l <= n ==> #[trigger] a1[l] == a2[l],
    decreases n,
{
    if n > 0 {
        lemma_split_decls_agree(tcxa, lm1, tcxb, lm2, d0, tcx1, a1, tcx2, a2, (n - 1) as nat);
        let k = n as int;
        assert(ordered_children(tcxa, lm1, n as Local) == ordered_children(tcxb, lm2, n as Local));
        if lm_get(lm1, n as Local) is Some {
            assert(decls_at(lm1, d0, a1, k) =~= decls_at(lm2, d0, a2, k)) by {
                assert forall|x: int| 0 <= x < d0.len() implies #[trigger] decls_at(lm1, d0, a1, k)[x] == decls_at(
                    lm2,
                    d0,
                    a2,
                    k,
                )[x] by {
                    if 1 <= x < k {
                        assert(ordered_children(tcxa, lm1, x as Local) == ordered_children(tcxb, lm2, x as Local));
                        assert(a1[x] == a2[x]);
                    }
                }
            }
            assert(a1[k] == a1[n as int]);
            let tys = child_types(decls_at(lm1, d0, a1, k), ordered_children(tcxa, lm1, n as Local)->0);
            crate::ty::lemma_tuple_stable(tcx1, tcx2, a1[k].ty, tys);
            lemma_tuple_unique(tcx2, a1[k].ty, a2[k].ty, tys);
        }
    }
}

/// The decl map fits the MIR for the keys `from..=arg_count` that the
/// splitters read: their children are locals of the MIR whose keys are
/// types of the context; and the types of all locals are types of the
/// context.
pub open spec fn decl_map_fits(tcx: &TyCtxt, lm: Seq<(Local, Seq<(Ty, Local)>)>, mir: &Mir, from: Local) -> bool {
    &&& forall|i: int| 0 <= i < mir.local_decls@.len() ==> tcx.has(#[trigger] mir.local_decls@[i].ty)
    &&& forall|l: Local, j: int|
        from <= l <= mir.arg_count && lm_get(lm, l) is Some && 0 <= j < lm_get(lm, l)->0.len() ==> tcx.has(
            (#[trigger] lm_get(lm, l)->0[j]).0,
        ) && lm_get(lm, l)->0[j].1 < mir.local_decls@.len()
}

/// `m1` is `m0` with its arguments split by decl map `lm`, the new tuple
/// types interned in `tcx1`: each argument with children has the tuple of
/// its children's types, ordered by their ADTs, and the first block starts
/// with the statements that move each child out of its tuple; nothing else
/// changes.
pub open spec fn arguments_split(
    tcx0: &TyCtxt,
    lm: Seq<(Local, Seq<(Ty, Local)>)>,
    m0: &Mir,
    tcx1: &TyCtxt,
    m1: &Mir,
) -> bool {
    &&& m1.arg_count == m0.arg_count
    &&& m1.return_ty == m0.return_ty
    &&& m1.local_decls@.len() == m0.local_decls@.len()
    &&& m1.basic_blocks@.len() == m0.basic_blocks@.len()
    &&& forall|l: int|
        0 <= l < m0.local_decls@.len() && !(1 <= l <= m0.arg_count && lm_get(lm, l as Local) is Some)
            ==> #[trigger] m1.local_decls@[l] == m0.local_decls@[l]
    &&& forall|l: int|
        1 <= l <= m0.arg_count && lm_get(lm, l as Local) is Some ==> is_tuple_of(
            tcx1,
            (#[trigger] m1.local_decls@[l]).ty,
            child_types(decls_at(lm, m0.local_decls@, m1.local_decls@, l), ordered_children(tcx0, lm, l as Local)->0),
        )
    &&& m1.basic_blocks@[START_BLOCK as int].statements@ == unpack_prefix(
        tcx0,
        lm,
        m0.local_decls@,
        m1.local_decls@,
        m0.arg_count as nat,
    ) + m0.basic_blocks@[START_BLOCK as int].statements@
    &&& m1.basic_blocks@[START_BLOCK as int].terminator == m0.basic_blocks@[START_BLOCK as int].terminator
    &&& m1.basic_blocks@[START_BLOCK as int].is_cleanup == m0.basic_blocks@[START_BLOCK as int].is_cleanup
    &&& forall|b: int| 1 <= b < m0.basic_blocks@.len() ==> #[trigger] m1.basic_blocks@[b] == m0.basic_blocks@[b]
}

/// Splits the arguments of a function.
pub struct ArgumentSplitter<'a> {
    pub decl_maps: &'a LocalMap,
}

impl<'a> ArgumentSplitter<'a> {
    pub fn new(decl_maps: &'a LocalMap) -> (r: ArgumentSplitter<'a>)
        ensures
            r.decl_maps == decl_maps,
    {
        ArgumentSplitter { decl_maps }
    }

    /// For each argument with children, in order: the argument's type
    /// becomes the tuple of the children's types, ordered by their ADTs,
    /// and statements that move each child out of the tuple are put in
    /// front of the first block.
    pub fn visit_mir(&self, tcx: &mut TyCtxt, mir: &mut Mir)
        requires
            old(tcx).wf(),
            old(mir).basic_blocks@.len() > 0,
            old(mir).arg_count < old(mir).local_decls@.len(),
            decl_map_fits(old(tcx), self.decl_maps.model(), old(mir), 1),
        ensures
            final(tcx).wf(),
            final(tcx).extends(old(tcx)),
            arguments_split(old(tcx), self.decl_maps.model(), old(mir), final(tcx), final(mir)),
    {
        let ghost tcx0 = *tcx;
        let ghost decls0 = mir.local_decls@;
        let ghost blocks0 = mir.basic_blocks@;
        let ghost lm = self.decl_maps.model();
        let n = mir.arg_count;
        let total = mir.local_decls.len();
        let mut local: usize = 1;
        while local <= n
            invariant
                1 <= local <= n + 1,
                n < total,
                n == mir.arg_count,
                n == old(mir).arg_count,
                n < decls0.len(),
                lm == self.decl_maps.model(),
                tcx0 == *old(tcx),
                decls0 == old(mir).local_decls@,
                blocks0 == old(mir).basic_blocks@,
                blocks0.len() > 0,
                tcx.wf(),
                tcx.extends(&tcx0),
                tcx0.wf(),
                decl_map_fits(&tcx0, lm, old(mir), 1),
                mir.return_ty == old(mir).return_ty,
                mir.local_decls@.len() == decls0.len(),
                mir.basic_blocks@.len() == blocks0.len(),
                forall|l: int|
                    0 <= l < decls0.len() && !(1 <= l < local && lm_get(lm, l as Local) is Some)
                        ==> #[trigger] mir.local_decls@[l] == decls0[l],
                forall|l: int| 0 <= l < decls0.len() ==> tcx.has(#[trigger] mir.local_decls@[l].ty),
                forall|l: int|
                    1 <= l < local && lm_get(lm, l as Local) is Some ==> is_tuple_of(
                        tcx,
                        (#[trigger] mir.local_decls@[l]).ty,
                        child_types(
                            decls_at(lm, decls0, mir.local_decls@, l),
                            ordered_children(&tcx0, lm, l as Local)->0,
                        ),
                    ),
                mir.basic_blocks@[0].statements@ == unpack_prefix(
                    &tcx0,
                    lm,
                    decls0,
                    mir.local_decls@,
                    (local - 1) as nat,
                ) + blocks0[0].statements@,
                mir.basic_blocks@[0].terminator == blocks0[0].terminator,
                mir.basic_blocks@[0].is_cleanup == blocks0[0].is_cleanup,
                forall|b: int| 1 <= b < blocks0.len() ==> #[trigger] mir.basic_blocks@[b] == blocks0[b],
            decreases n + 1 - local,
        {
            let ghost tcx_before = *tcx;
            let ghost decls_before = mir.local_decls@;
            proof {
                assert(decls_at(lm, decls0, decls_before, local as int) =~= decls_before);
            }
            match self.decl_maps.get(local) {
                Some(local_map) => {
                    proof {
                        assert forall|j: int| 0 <= j < local_map@.len() implies tcx.has(
                            #[trigger] local_map@[j].0,
                        ) && local_map@[j].1 < decls0.len() by {
                            assert(local_map@[j] == lm_get(lm, local)->0[j]);
                        }
                    }
                    let sorted = sorted_children(tcx, local_map);
                    let mut local_vec: Vec<Local> = Vec::new();
                    let mut ty_vec: Vec<Ty> = Vec::new();
                    proof {
                        crate::split_utils::lemma_sort_by_adt(tcx, local_map@);
                        assert(sort_by_adt(tcx, local_map@) == sort_by_adt(&tcx0, local_map@)) by {
                            lemma_sort_stable(&tcx0, tcx, local_map@);
                        }
                        assert forall|j: int| 0 <= j < sorted@.len() implies (#[trigger] sorted@[j]).1
                            < decls0.len() by {
                            broadcast use vstd::seq_lib::to_multiset_contains;

                            assert(sorted@.contains(sorted@[j]));
                            assert(sorted@.to_multiset().count(sorted@[j]) > 0);
                            assert(local_map@.contains(sorted@[j]));
                        }
                    }
                    for i in 0..sorted.len()
                        invariant
                            local_vec@ == sorted@.take(i as int).map_values(|p: (Ty, Local)| p.1),
                            ty_vec@ == child_types(decls_before, local_vec@),
                            mir.local_decls@ == decls_before,
                            decls_before.len() == decls0.len(),
                            forall|j: int| 0 <= j < sorted@.len() ==> (#[trigger] sorted@[j]).1 < decls0.len(),
                    {
                        let l = sorted[i].1;
                        local_vec.push(l);
                        ty_vec.push(mir.local_decls[l].ty);
                        proof {
                            assert(sorted@.take(i + 1) =~= sorted@.take(i as int).push(sorted@[i as int]));
                            assert(local_vec@ =~= sorted@.take(i + 1).map_values(|p: (Ty, Local)| p.1));
                            assert(ty_vec@ =~= child_types(decls_before, local_vec@));
                        }
                    }
                    proof {
                        assert(sorted@.take(sorted@.len() as int) =~= sorted@);
                        assert forall|i: int| 0 <= i < ty_vec@.len() implies tcx.has(#[trigger] ty_vec@[i]) by {
                            assert(local_vec@[i] == sorted@[i].1);
                        }
                    }
                    let new_type_list = tcx.intern_type_list(&ty_vec);
                    let tuple_ty = tcx.mk_ty(TyKind::Tuple(new_type_list, false));
                    mir.local_decls.set(local, LocalDecl { ty: tuple_ty });
                    let mut assigns: Vec<Statement> = Vec::new();
                    for i in 0..local_vec.len()
                        invariant
                            assigns@ == unpack_statements(decls_before, local, local_vec@.take(i as int)),
                            ty_vec@ == child_types(decls_before, local_vec@),
                    {
                        let tuple_projection = Lvalue::Local(local).field(i, ty_vec[i]);
                        let rhs = Rvalue::Use(Operand::Consume(tuple_projection));
                        let lhs = Lvalue::Local(local_vec[i]);
                        let statement = Statement {
                            source_info: dummy_source_info(),
                            kind: StatementKind::Assign(lhs, rhs),
                        };
                        assigns.push(statement);
                        proof {
                            assert(assigns@ =~= unpack_statements(decls_before, local, local_vec@.take(i + 1)));
                        }
                    }
                    proof {
                        assert(local_vec@.take(local_vec@.len() as int) =~= local_vec@);
                    }
                    let ghost prefix_before = mir.basic_blocks@[0].statements@;
                    prepend_statements(&mut mir.basic_blocks, START_BLOCK, assigns);
                    proof {
                        let cur = mir.local_decls@;
                        assert(decls_at(lm, decls0, cur, local as int) =~= decls_at(
                            lm,
                            decls0,
                            decls_before,
                            local as int,
                        ));
                        lemma_unpack_prefix_frame(&tcx0, lm, decls0, decls_before, cur, (local - 1) as nat);
                        assert(ordered_children(&tcx0, lm, local) == Some(local_vec@));
                        assert forall|l: int|
                            1 <= l < local + 1 && lm_get(lm, l as Local) is Some implies is_tuple_of(
                            tcx,
                            (#[trigger] mir.local_decls@[l]).ty,
                            child_types(decls_at(lm, decls0, mir.local_decls@, l), ordered_children(&tcx0, lm, l as Local)->0),
                        ) by {
                            assert(decls_at(lm, decls0, cur, l) =~= decls_at(lm, decls0, decls_before, l));
                            if l < local {
                                crate::ty::lemma_tuple_stable(
                                    &tcx_before,
                                    tcx,
                                    decls_before[l].ty,
                                    child_types(
                                        decls_at(lm, decls0, decls_before, l),
                                        ordered_children(&tcx0, lm, l as Local)->0,
                                    ),
                                );
                            }
                        }
                        assert forall|l: int| 0 <= l < decls0.len() implies tcx.has(
                            #[trigger] mir.local_decls@[l].ty,
                        ) by {
                            if l != local {
                                assert(mir.local_decls@[l] == decls_before[l]);
                            }
                        }
                    }
                },
                None => {
                    proof {
                        lemma_unpack_prefix_frame(&tcx0, lm, decls0, decls_before, decls_before, (local - 1) as nat);
                    }
                },
            }
            local = local + 1;
        }
    }
}

/// Sorting by ADT reads only kinds, which a growing context keeps.
pub proof fn lemma_sort_stable(tcx1: &TyCtxt, tcx2: &TyCtxt, s: Seq<(Ty, Local)>)
    requires
        tcx2.extends(tcx1),
        forall|i: int| 0 <= i < s.len() ==> tcx1.has(#[trigger] s[i].0),
    ensures
        sort_by_adt(tcx2, s) == sort_by_adt(tcx1, s),
    decreases s.len(),
{
    if s.len() > 0 {
        let d = s.drop_last();
        lemma_sort_stable(tcx1, tcx2, d);
        let t = sort_by_adt(tcx1, d);
        crate::split_utils::lemma_sort_by_adt(tcx1, d);
        assert(forall|i: int| 0 <= i < s.len() ==> tcx2.kind(#[trigger] s[i].0) == tcx1.kind(s[i].0));
        lemma_insert_pos_stable(tcx1, tcx2, t, crate::split_utils::adt_key(tcx1, s.last().0), d);
    }
}

proof fn lemma_insert_pos_stable(
    tcx1: &TyCtxt,
    tcx2: &TyCtxt,
    t: Seq<(Ty, Local)>,
    k: crate::ty::AdtId,
    d: Seq<(Ty, Local)>,
)
    requires
        tcx2.extends(tcx1),
        t.to_multiset() == d.to_multiset(),
        forall|i: int| 0 <= i < d.len() ==> tcx1.has(#[trigger] d[i].0),
    ensures
        crate::split_utils::insert_pos(tcx2, t, k) == crate::split_utils::insert_pos(tcx1, t, k),
    decreases t.len(),
{
    broadcast use vstd::seq_lib::to_multiset_contains;

    if t.len() > 0 {
        assert(t.contains(t.last()));
        assert(t.to_multiset().count(t.last()) > 0);
        assert(d.contains(t.last()));
        assert(tcx1.has(t.last().0));
        assert(tcx2.kind(t.last().0) == tcx1.kind(t.last().0));
        let t2 = t.drop_last();
        assert forall|i: int| 0 <= i < t2.len() implies tcx1.has(#[trigger] t2[i].0) by {
            assert(t.contains(t2[i]));
            assert(t2[i] == t[i]);
            assert(t.to_multiset().count(t[i]) > 0);
            assert(d.contains(t[i]));
        }
        lemma_insert_pos_stable(tcx1, tcx2, t2, k, t2);
    }
}

} // verus!

//! Splitting assignments: an assignment to a split local becomes one
//! assignment per child of that local, with every split local in the
//! statement replaced by its child of the same rank.
use vstd::prelude::*;

use crate::local_map::{entry_position, lm_get, LocalMap};
use crate::mir::{
    copy_operand, operand_ty, operand_type, try_operand_type, AggregateKind, BasicBlockData, Local, LocalDecl,
    Lvalue, LvalueProjection, Mir, Operand, ProjectionElem, Rvalue, Statement, StatementKind,
};
use crate::ty::{Ty, TyCtxt};

verus! {

/// Where `x` goes in `s`: after every element at most `x`, counted from
/// the back.
pub open spec fn asc_pos(s: Seq<Local>, x: Local) -> int
    decreases s.len(),
{
    if s.len() == 0 {
        0
    } else if s.last() <= x {
        s.len() as int
    } else {
        asc_pos(s.drop_last(), x)
    }
}

/// `s` in ascending order.
pub open spec fn sort_locals(s: Seq<Local>) -> Seq<Local>
    decreases s.len(),
{
    if s.len() == 0 {
        s
    } else {
        let t = sort_locals(s.drop_last());
        t.insert(asc_pos(t, s.last()), s.last())
    }
}

/// The children of `l`, in ascending order of their locals.
pub open spec fn child_locals(lm: Seq<(Local, Seq<(Ty, Local)>)>, l: Local) -> Option<Seq<Local>> {
    match lm_get(lm, l) {
        Some(cs) => Some(sort_locals(cs.map_values(|p: (Ty, Local)| p.1))),
        None => None,
    }
}

/// Place `lv` with each split local replaced by its child of rank `off`.
pub open spec fn rep_lvalue(lm: Seq<(Local, Seq<(Ty, Local)>)>, off: int, lv: Lvalue) -> Lvalue
    decreases lv,
{
    match lv {
        Lvalue::Local(l) => match child_locals(lm, l) {
            Some(ls) => Lvalue::Local(ls[off]),
            None => Lvalue::Local(l),
        },
        Lvalue::Static(s) => Lvalue::Static(s),
        Lvalue::Projection(p) => Lvalue::Projection(
            Box::new(LvalueProjection { base: rep_lvalue(lm, off, p.base), elem: rep_elem(lm, off, p.elem) }),
        ),
    }
}

pub open spec fn rep_elem(lm: Seq<(Local, Seq<(Ty, Local)>)>, off: int, e: ProjectionElem) -> ProjectionElem
    decreases e,
{
    match e {
        ProjectionElem::Index(op) => ProjectionElem::Index(rep_operand(lm, off, op)),
        _ => e,
    }
}

pub open spec fn rep_operand(lm: Seq<(Local, Seq<(Ty, Local)>)>, off: int, op: Operand) -> Operand
    decreases op,
{
    match op {
        Operand::Consume(lv) => Operand::Consume(rep_lvalue(lm, off, lv)),
        Operand::Constant(c) => Operand::Constant(c),
    }
}

/// Every split local in `lv` has a child of rank `off`.
pub open spec fn lvalue_indexable(lm: Seq<(Local, Seq<(Ty, Local)>)>, off: int, lv: Lvalue) -> bool
    decreases lv,
{
    match lv {
        Lvalue::Local(l) => match child_locals(lm, l) {
            Some(ls) => 0 <= off < ls.len(),
            None => true,
        },
        Lvalue::Static(_) => true,
        Lvalue::Projection(p) => lvalue_indexable(lm, off, p.base) && elem_indexable(lm, off, p.elem),
    }
}

pub open spec fn elem_indexable(lm: Seq<(Local, Seq<(Ty, Local)>)>, off: int, e: ProjectionElem) -> bool
    decreases e,
{
    match e {
        ProjectionElem::Index(op) => operand_indexable(lm, off, op),
        _ => true,
    }
}

pub open spec fn operand_indexable(lm: Seq<(Local, Seq<(Ty, Local)>)>, off: int, op: Operand) -> bool
    decreases op,
{
    match op {
        Operand::Consume(lv) => lvalue_indexable(lm, off, lv),
        Operand::Constant(_) => true,
    }
}

pub open spec fn rvalue_indexable(lm: Seq<(Local, Seq<(Ty, Local)>)>, off: int, rv: Rvalue) -> bool {
    match rv {
        Rvalue::Use(o) => operand_indexable(lm, off, o),
        Rvalue::Ref(_, _, lv) => lvalue_indexable(lm, off, lv),
        Rvalue::Len(lv) => lvalue_indexable(lm, off, lv),
        Rvalue::Cast(o, _) => operand_indexable(lm, off, o),
        Rvalue::BinaryOp(_, a, b) => operand_indexable(lm, off, a) && operand_indexable(lm, off, b),
        Rvalue::UnaryOp(_, o) => operand_indexable(lm, off, o),
        Rvalue::Discriminant(lv) => lvalue_indexable(lm, off, lv),
        Rvalue::Aggregate(_, ops) => forall|i: int|
            0 <= i < ops@.len() ==> operand_indexable(lm, off, #[trigger] ops@[i]),
    }
}

pub open spec fn statement_indexable(lm: Seq<(Local, Seq<(Ty, Local)>)>, off: int, s: Statement) -> bool {
    match s.kind {
        StatementKind::Assign(lv, rv) => lvalue_indexable(lm, off, lv) && rvalue_indexable(lm, off, rv),
        StatementKind::StorageLive(lv) => lvalue_indexable(lm, off, lv),
        StatementKind::StorageDead(lv) => lvalue_indexable(lm, off, lv),
        StatementKind::Nop => true,
    }
}

/// The operand as rewritten: replaced at rank `off`, or kept.
pub open spec fn rep_operand_opt(lm: Seq<(Local, Seq<(Ty, Local)>)>, off: Option<usize>, op: Operand) -> Operand {
    match off {
        Some(o) => rep_operand(lm, o as int, op),
        None => op,
    }
}

pub open spec fn rep_lvalue_opt(lm: Seq<(Local, Seq<(Ty, Local)>)>, off: Option<usize>, lv: Lvalue) -> Lvalue {
    match off {
        Some(o) => rep_lvalue(lm, o as int, lv),
        None => lv,
    }
}

/// `rv2` is `rv` rewritten: split locals replaced at rank `off` (when
/// there is one), and an array aggregate with elements given the type of
/// its first element.
pub open spec fn split_rvalue_ok(
    tcx: &TyCtxt,
    decls: Seq<LocalDecl>,
    lm: Seq<(Local, Seq<(Ty, Local)>)>,
    off: Option<usize>,
    rv: Rvalue,
    rv2: Rvalue,
) -> bool {
    match (rv, rv2) {
        (Rvalue::Use(o), Rvalue::Use(o2)) => o2 == rep_operand_opt(lm, off, o),
        (Rvalue::Ref(r, m, lv), Rvalue::Ref(r2, m2, lv2)) => r2 == r && m2 == m && lv2 == rep_lvalue_opt(
            lm,
            off,
            lv,
        ),
        (Rvalue::Len(lv), Rvalue::Len(lv2)) => lv2 == rep_lvalue_opt(lm, off, lv),
        (Rvalue::Cast(o, t), Rvalue::Cast(o2, t2)) => t2 == t && o2 == rep_operand_opt(lm, off, o),
        (Rvalue::BinaryOp(k, a, b), Rvalue::BinaryOp(k2, a2, b2)) => k2 == k && a2 == rep_operand_opt(
            lm,
            off,
            a,
        ) && b2 == rep_operand_opt(lm, off, b),
        (Rvalue::UnaryOp(k, o), Rvalue::UnaryOp(k2, o2)) => k2 == k && o2 == rep_operand_opt(lm, off, o),
        (Rvalue::Discriminant(lv), Rvalue::Discriminant(lv2)) => lv2 == rep_lvalue_opt(lm, off, lv),
        (Rvalue::Aggregate(k, ops), Rvalue::Aggregate(k2, ops2)) => {
            &&& ops2@.len() == ops@.len()
            &&& forall|i: int| 0 <= i < ops@.len() ==> #[trigger] ops2@[i] == rep_operand_opt(lm, off, ops@[i])
            &&& if k is Array && ops@.len() > 0 {
                k2 == AggregateKind::Array(operand_ty(tcx, decls, ops2@[0])->0)
            } else {
                k2 == k
            }
        },
        _ => false,
    }
}

/// `s2` is `s` rewritten as `split_rvalue_ok` says.
pub open spec fn split_statement_ok(
    tcx: &TyCtxt,
    decls: Seq<LocalDecl>,
    lm: Seq<(Local, Seq<(Ty, Local)>)>,
    off: Option<usize>,
    s: Statement,
    s2: Statement,
) -> bool {
    &&& s2.source_info == s.source_info
    &&& match (s.kind, s2.kind) {
        (StatementKind::Assign(lv, rv), StatementKind::Assign(lv2, rv2)) => lv2 == rep_lvalue_opt(
            lm,
            off,
            lv,
        ) && split_rvalue_ok(tcx, decls, lm, off, rv, rv2),
        (StatementKind::StorageLive(lv), StatementKind::StorageLive(lv2)) => lv2 == rep_lvalue_opt(
            lm,
            off,
            lv,
        ),
        (StatementKind::StorageDead(lv), StatementKind::StorageDead(lv2)) => lv2 == rep_lvalue_opt(
            lm,
            off,
            lv,
        ),
        (StatementKind::Nop, StatementKind::Nop) => true,
        _ => false,
    }
}

/// The first element of an array aggregate in `s`, rewritten, has a type.
pub open spec fn statement_retypable(
    tcx: &TyCtxt,
    decls: Seq<LocalDecl>,
    lm: Seq<(Local, Seq<(Ty, Local)>)>,
    off: Option<usize>,
    s: Statement,
) -> bool {
    match s.kind {
        StatementKind::Assign(_, Rvalue::Aggregate(AggregateKind::Array(_), ops)) => ops@.len() > 0
            ==> operand_ty(tcx, decls, rep_operand_opt(lm, off, ops@[0])) is Some,
        _ => true,
    }
}

/// The statement assigns to a split local.
pub open spec fn assigns_split_local(lm: Seq<(Local, Seq<(Ty, Local)>)>, s: Statement) -> bool {
    match s.kind {
        StatementKind::Assign(Lvalue::Local(l), _) => lm_get(lm, l) is Some,
        _ => false,
    }
}

/// How many statements `s` becomes: an assignment to a split local one
/// per child of that local, any other statement one.
pub open spec fn copies(lm: Seq<(Local, Seq<(Ty, Local)>)>, s: Statement) -> nat {
    match s.kind {
        StatementKind::Assign(Lvalue::Local(l), _) => match child_locals(lm, l) {
            Some(ls) => ls.len(),
            None => 1,
        },
        _ => 1,
    }
}

/// How many statements `stmts` become.
pub open spec fn copies_count(lm: Seq<(Local, Seq<(Ty, Local)>)>, stmts: Seq<Statement>) -> nat
    decreases stmts.len(),
{
    if stmts.len() == 0 {
        0
    } else {
        copies_count(lm, stmts.drop_last()) + copies(lm, stmts.last())
    }
}

/// Statement `s` can be split: an assignment to a split local can be
/// rewritten at each rank below its local's number of children, and every
/// rewritten array aggregate has a typed first element.
pub open spec fn statement_splittable(
    tcx: &TyCtxt,
    decls: Seq<LocalDecl>,
    lm: Seq<(Local, Seq<(Ty, Local)>)>,
    s: Statement,
) -> bool {
    if assigns_split_local(lm, s) {
        forall|r: int|
            0 <= r < copies(lm, s) ==> #[trigger] statement_indexable(lm, r, s) && statement_retypable(
                tcx,
                decls,
                lm,
                Some(r as usize),
                s,
            )
    } else {
        statement_retypable(tcx, decls, lm, None, s)
    }
}

/// The statements of a block can be split.
pub open spec fn block_splittable(
    tcx: &TyCtxt,
    decls: Seq<LocalDecl>,
    lm: Seq<(Local, Seq<(Ty, Local)>)>,
    stmts: Seq<Statement>,
) -> bool {
    forall|j: int| 0 <= j < stmts.len() ==> statement_splittable(tcx, decls, lm, #[trigger] stmts[j])
}

/// `outs` are what statement `s` becomes: for an assignment to a split
/// local, one statement per child, the `r`-th rewritten at rank `r`; for
/// any other statement, the statement rewritten without replacing locals.
#[verifier::opaque]
pub open spec fn statement_split_ok(
    tcx: &TyCtxt,
    decls: Seq<LocalDecl>,
    lm: Seq<(Local, Seq<(Ty, Local)>)>,
    s: Statement,
    outs: Seq<Statement>,
) -> bool {
    if assigns_split_local(lm, s) {
        &&& outs.len() == copies(lm, s)
        &&& forall|r: int|
            0 <= r < outs.len() ==> split_statement_ok(tcx, decls, lm, Some(r as usize), s, #[trigger] outs[r])
    } else {
        &&& outs.len() == 1
        &&& split_statement_ok(tcx, decls, lm, None, s, outs[0])
    }
}

/// `out` are the statements `stmts` split, each in its turn as
/// `statement_split_ok` says.
pub open spec fn block_split_ok(
    tcx: &TyCtxt,
    decls: Seq<LocalDecl>,
    lm: Seq<(Local, Seq<(Ty, Local)>)>,
    stmts: Seq<Statement>,
    out: Seq<Statement>,
) -> bool {
    &&& out.len() == copies_count(lm, stmts)
    &&& forall|j: int|
        0 <= j < stmts.len() ==> statement_split_ok(
            tcx,
            decls,
            lm,
            #[trigger] stmts[j],
            out.subrange(copies_count(lm, stmts.take(j)) as int, copies_count(lm, stmts.take(j + 1)) as int),
        )
}

/// `v` in ascending order.
pub fn sorted_locals(v: &Vec<Local>) -> (r: Vec<Local>)
    ensures
        r@ == sort_locals(v@),
{
    let mut r: Vec<Local> = Vec::new();
    for i in 0..v.len()
        invariant
            r@ == sort_locals(v@.take(i as int)),
    {
        let x = v[i];
        let mut p = r.len();
        proof {
            assert(r@.take(p as int) =~= r@);
        }
        while p > 0 && r[p - 1] > x
            invariant
                p <= r@.len(),
                asc_pos(r@, x) == asc_pos(r@.take(p as int), x),
            decreases p,
        {
            proof {
                assert(r@.take(p as int).drop_last() =~= r@.take(p - 1));
            }
            p = p - 1;
        }
        proof {
            if p > 0 {
                assert(r@.take(p as int).last() == r@[p - 1]);
            }
            assert(asc_pos(r@.take(p as int), x) == p);
            assert(v@.take(i + 1).drop_last() =~= v@.take(i as int));
        }
        r.insert(p, x);
    }
    proof {
        assert(v@.take(v@.len() as int) =~= v@);
    }
    r
}

/// For each split local, its children's locals in ascending order, in the
/// order of the decl map.
pub open spec fn index_matches(idx: Seq<(Local, Vec<Local>)>, lm: Seq<(Local, Seq<(Ty, Local)>)>) -> bool {
    &&& idx.len() == lm.len()
    &&& forall|i: int|
        0 <= i < lm.len() ==> (#[trigger] idx[i]).0 == lm[i].0 && idx[i].1@ == sort_locals(
            lm[i].1.map_values(|p: (Ty, Local)| p.1),
        )
}

/// The index of children that the statements are rewritten by.
pub fn build_local_index(decl_maps: &LocalMap) -> (r: Vec<(Local, Vec<Local>)>)
    ensures
        index_matches(r@, decl_maps.model()),
{
    let ghost lm = decl_maps.model();
    let mut r: Vec<(Local, Vec<Local>)> = Vec::new();
    for i in 0..decl_maps.entries.len()
        invariant
            lm == decl_maps.model(),
            index_matches(r@, lm.take(i as int)),
    {
        let e = &decl_maps.entries[i];
        let mut locals: Vec<Local> = Vec::new();
        for k in 0..e.children.len()
            invariant
                locals@ == e.children@.take(k as int).map_values(|p: (Ty, Local)| p.1),
        {
            locals.push(e.children[k].1);
            proof {
                assert(e.children@.take(k + 1) =~= e.children@.take(k as int).push(e.children@[k as int]));
                assert(locals@ =~= e.children@.take(k + 1).map_values(|p: (Ty, Local)| p.1));
            }
        }
        proof {
            assert(e.children@.take(e.children@.len() as int) =~= e.children@);
        }
        let sorted = sorted_locals(&locals);
        r.push((e.local, sorted));
        proof {
            assert(lm[i as int] == (e.local, e.children@));
            let t = lm.take(i + 1);
            assert forall|j: int| 0 <= j < t.len() implies (#[trigger] r@[j]).0 == t[j].0 && r@[j].1@
                == sort_locals(t[j].1.map_values(|p: (Ty, Local)| p.1)) by {
                if j < i {
                    assert(t[j] == lm.take(i as int)[j]);
                }
            }
        }
    }
    proof {
        assert(lm.take(decl_maps.entries@.len() as int) =~= lm);
    }
    r
}

/// The children of `l` in the index.
fn index_get<'b>(idx: &'b Vec<(Local, Vec<Local>)>, Ghost(lm): Ghost<Seq<(Local, Seq<(Ty, Local)>)>>, l: Local) -> (r:
    Option<&'b Vec<Local>>)
    requires
        index_matches(idx@, lm),
    ensures
        match r {
            Some(ls) => child_locals(lm, l) == Some(ls@),
            None => child_locals(lm, l) is None,
        },
{
    let mut found: Option<usize> = None;
    for i in 0..idx.len()
        invariant
            index_matches(idx@, lm),
            match found {
                Some(k) => k < i && k as int == entry_position(lm.take(i as int), l),
                None => entry_position(lm.take(i as int), l) == -1,
            },
    {
        proof {
            assert(lm.take(i + 1).drop_last() =~= lm.take(i as int));
            assert(idx@[i as int].0 == lm[i as int].0);
        }
        if idx[i].0 == l {
            found = Some(i);
        }
    }
    proof {
        assert(lm.take(idx@.len() as int) =~= lm);
    }
    match found {
        Some(k) => Some(&idx[k].1),
        None => None,
    }
}

/// Place `lv` with each split local replaced by its child of rank `off`.
pub fn replace_lvalue(
    idx: &Vec<(Local, Vec<Local>)>,
    Ghost(lm): Ghost<Seq<(Local, Seq<(Ty, Local)>)>>,
    off: usize,
    lv: &Lvalue,
) -> (r: Lvalue)
    requires
        index_matches(idx@, lm),
        lvalue_indexable(lm, off as int, *lv),
    ensures
        r == rep_lvalue(lm, off as int, *lv),
    decreases lv,
{
    match lv {
        Lvalue::Local(l) => match index_get(idx, Ghost(lm), *l) {
            Some(ls) => Lvalue::Local(ls[off]),
            None => Lvalue::Local(*l),
        },
        Lvalue::Static(s) => Lvalue::Static(*s),
        Lvalue::Projection(p) => {
            let base = replace_lvalue(idx, Ghost(lm), off, &p.base);
            let elem = replace_elem(idx, Ghost(lm), off, &p.elem);
            Lvalue::Projection(Box::new(LvalueProjection { base, elem }))
        },
    }
}

fn replace_elem(
    idx: &Vec<(Local, Vec<Local>)>,
    Ghost(lm): Ghost<Seq<(Local, Seq<(Ty, Local)>)>>,
    off: usize,
    e: &ProjectionElem,
) -> (r: ProjectionElem)
    requires
        index_matches(idx@, lm),
        elem_indexable(lm, off as int, *e),
    ensures
        r == rep_elem(lm, off as int, *e),
    decreases e,
{
    match e {
        ProjectionElem::Deref => ProjectionElem::Deref,
        ProjectionElem::Field(f, t) => ProjectionElem::Field(*f, *t),
        ProjectionElem::Index(op) => ProjectionElem::Index(replace_operand(idx, Ghost(lm), off, op)),
        ProjectionElem::Downcast(a, v) => ProjectionElem::Downcast(*a, *v),
    }
}

/// Operand `op` with each split local replaced by its child of rank `off`.
pub fn replace_operand(
    idx: &Vec<(Local, Vec<Local>)>,
    Ghost(lm): Ghost<Seq<(Local, Seq<(Ty, Local)>)>>,
    off: usize,
    op: &Operand,
) -> (r: Operand)
    requires
        index_matches(idx@, lm),
        operand_indexable(lm, off as int, *op),
    ensures
        r == rep_operand(lm, off as int, *op),
    decreases op,
{
    match op {
        Operand::Consume(lv) => Operand::Consume(replace_lvalue(idx, Ghost(lm), off, lv)),
        Operand::Constant(c) => Operand::Constant(*c),
    }
}

fn rewrite_operand(
    idx: &Vec<(Local, Vec<Local>)>,
    Ghost(lm): Ghost<Seq<(Local, Seq<(Ty, Local)>)>>,
    off: Option<usize>,
    op: &Operand,
) -> (r: Operand)
    requires
        index_matches(idx@, lm),
        off matches Some(o) ==> operand_indexable(lm, o as int, *op),
    ensures
        r == rep_operand_opt(lm, off, *op),
{
    match off {
        Some(o) => replace_operand(idx, Ghost(lm), o, op),
        None => copy_operand(op),
    }
}

fn rewrite_lvalue(
    idx: &Vec<(Local, Vec<Local>)>,
    Ghost(lm): Ghost<Seq<(Local, Seq<(Ty, Local)>)>>,
    off: Option<usize>,
    lv: &Lvalue,
) -> (r: Lvalue)
    requires
        index_matches(idx@, lm),
        off matches Some(o) ==> lvalue_indexable(lm, o as int, *lv),
    ensures
        r == rep_lvalue_opt(lm, off, *lv),
{
    match off {
        Some(o) => replace_lvalue(idx, Ghost(lm), o, lv),
        None => crate::mir::copy_lvalue(lv),
    }
}

/// Rvalue `rv` rewritten as `split_rvalue_ok` says.
fn rewrite_rvalue(
    tcx: &TyCtxt,
    decls: &Vec<LocalDecl>,
    idx: &Vec<(Local, Vec<Local>)>,
    Ghost(lm): Ghost<Seq<(Local, Seq<(Ty, Local)>)>>,
    off: Option<usize>,
    rv: &Rvalue,
) -> (r: Rvalue)
    requires
        tcx.wf(),
        index_matches(idx@, lm),
        off matches Some(o) ==> rvalue_indexable(lm, o as int, *rv),
        match *rv {
            Rvalue::Aggregate(AggregateKind::Array(_), ops) => ops@.len() > 0 ==> operand_ty(
                tcx,
                decls@,
                rep_operand_opt(lm, off, ops@[0]),
            ) is Some,
            _ => true,
        },
    ensures
        split_rvalue_ok(tcx, decls@, lm, off, *rv, r),
{
    match rv {
        Rvalue::Use(o) => Rvalue::Use(rewrite_operand(idx, Ghost(lm), off, o)),
        Rvalue::Ref(r, m, lv) => Rvalue::Ref(*r, *m, rewrite_lvalue(idx, Ghost(lm), off, lv)),
        Rvalue::Len(lv) => Rvalue::Len(rewrite_lvalue(idx, Ghost(lm), off, lv)),
        Rvalue::Cast(o, t) => Rvalue::Cast(rewrite_operand(idx, Ghost(lm), off, o), *t),
        Rvalue::BinaryOp(k, a, b) => Rvalue::BinaryOp(
            *k,
            rewrite_operand(idx, Ghost(lm), off, a),
            rewrite_operand(idx, Ghost(lm), off, b),
        ),
        Rvalue::UnaryOp(k, o) => Rvalue::UnaryOp(*k, rewrite_operand(idx, Ghost(lm), off, o)),
        Rvalue::Discriminant(lv) => Rvalue::Discriminant(rewrite_lvalue(idx, Ghost(lm), off, lv)),
        Rvalue::Aggregate(k, ops) => {
            let mut new_ops: Vec<Operand> = Vec::new();
            for i in 0..ops.len()
                invariant
                    index_matches(idx@, lm),
                    off matches Some(o) ==> forall|j: int|
                        0 <= j < ops@.len() ==> operand_indexable(lm, o as int, #[trigger] ops@[j]),
                    new_ops@.len() == i,
                    forall|j: int| 0 <= j < i ==> #[trigger] new_ops@[j] == rep_operand_opt(lm, off, ops@[j]),
            {
                new_ops.push(rewrite_operand(idx, Ghost(lm), off, &ops[i]));
            }
            let kind = match k {
                AggregateKind::Array(t) => {
                    if new_ops.len() > 0 {
                        AggregateKind::Array(operand_type(tcx, decls, &new_ops[0]))
                    } else {
                        AggregateKind::Array(*t)
                    }
                },
                other => *other,
            };
            Rvalue::Aggregate(kind, new_ops)
        },
    }
}

/// Statement `s` rewritten as `split_statement_ok` says.
fn rewrite_statement(
    tcx: &TyCtxt,
    decls: &Vec<LocalDecl>,
    idx: &Vec<(Local, Vec<Local>)>,
    Ghost(lm): Ghost<Seq<(Local, Seq<(Ty, Local)>)>>,
    off: Option<usize>,
    s: &Statement,
) -> (r: Statement)
    requires
        tcx.wf(),
        index_matches(idx@, lm),
        off matches Some(o) ==> statement_indexable(lm, o as int, *s),
        statement_retypable(tcx, decls@, lm, off, *s),
    ensures
        split_statement_ok(tcx, decls@, lm, off, *s, r),
{
    let kind = match &s.kind {
        StatementKind::Assign(lv, rv) => StatementKind::Assign(
            rewrite_lvalue(idx, Ghost(lm), off, lv),
            rewrite_rvalue(tcx, decls, idx, Ghost(lm), off, rv),
        ),
        StatementKind::StorageLive(lv) => StatementKind::StorageLive(rewrite_lvalue(idx, Ghost(lm), off, lv)),
        StatementKind::StorageDead(lv) => StatementKind::StorageDead(rewrite_lvalue(idx, Ghost(lm), off, lv)),
        StatementKind::Nop => StatementKind::Nop,
    };
    Statement { source_info: s.source_info, kind }
}

/// For an assignment to a split local, the number of that local's
/// children; for any other statement, `None`.
fn split_copies(idx: &Vec<(Local, Vec<Local>)>, Ghost(lm): Ghost<Seq<(Local, Seq<(Ty, Local)>)>>, s: &Statement) -> (r:
    Option<usize>)
    requires
        index_matches(idx@, lm),
    ensures
        (r is Some) == assigns_split_local(lm, *s),
        r matches Some(n) ==> n == copies(lm, *s),
{
    match &s.kind {
        StatementKind::Assign(Lvalue::Local(l), _) => match index_get(idx, Ghost(lm), *l) {
            Some(ls) => Some(ls.len()),
            None => None,
        },
        _ => None,
    }
}

fn check_lvalue_indexable(
    idx: &Vec<(Local, Vec<Local>)>,
    Ghost(lm): Ghost<Seq<(Local, Seq<(Ty, Local)>)>>,
    off: usize,
    lv: &Lvalue,
) -> (r: bool)
    requires
        index_matches(idx@, lm),
    ensures
        r == lvalue_indexable(lm, off as int, *lv),
    decreases lv,
{
    match lv {
        Lvalue::Local(l) => {
            let found = index_get(idx, Ghost(lm), *l);
            let ok = match found {
                Some(ls) => off < ls.len(),
                None => true,
            };
            proof {
                match found {
                    Some(ls) => assert(child_locals(lm, *l) == Some(ls@)),
                    None => {},
                }
            }
            ok
        },
        Lvalue::Static(_) => true,
        Lvalue::Projection(p) => check_lvalue_indexable(idx, Ghost(lm), off, &p.base) && check_elem_indexable(
            idx,
            Ghost(lm),
            off,
            &p.elem,
        ),
    }
}

fn check_elem_indexable(
    idx: &Vec<(Local, Vec<Local>)>,
    Ghost(lm): Ghost<Seq<(Local, Seq<(Ty, Local)>)>>,
    off: usize,
    e: &ProjectionElem,
) -> (r: bool)
    requires
        index_matches(idx@, lm),
    ensures
        r == elem_indexable(lm, off as int, *e),
    decreases e,
{
    match e {
        ProjectionElem::Index(op) => check_operand_indexable(idx, Ghost(lm), off, op),
        _ => true,
    }
}

fn check_operand_indexable(
    idx: &Vec<(Local, Vec<Local>)>,
    Ghost(lm): Ghost<Seq<(Local, Seq<(Ty, Local)>)>>,
    off: usize,
    op: &Operand,
) -> (r: bool)
    requires
        index_matches(idx@, lm),
    ensures
        r == operand_indexable(lm, off as int, *op),
    decreases op,
{
    match op {
        Operand::Consume(lv) => check_lvalue_indexable(idx, Ghost(lm), off, lv),
        Operand::Constant(_) => true,
    }
}

fn check_statement_indexable(
    idx: &Vec<(Local, Vec<Local>)>,
    Ghost(lm): Ghost<Seq<(Local, Seq<(Ty, Local)>)>>,
    off: usize,
    s: &Statement,
) -> (r: bool)
    requires
        index_matches(idx@, lm),
    ensures
        r == statement_indexable(lm, off as int, *s),
{
    match &s.kind {
        StatementKind::Assign(lv, rv) => {
            check_lvalue_indexable(idx, Ghost(lm), off, lv) && match rv {
                Rvalue::Use(o) => check_operand_indexable(idx, Ghost(lm), off, o),
                Rvalue::Ref(_, _, lv2) => check_lvalue_indexable(idx, Ghost(lm), off, lv2),
                Rvalue::Len(lv2) => check_lvalue_indexable(idx, Ghost(lm), off, lv2),
                Rvalue::Cast(o, _) => check_operand_indexable(idx, Ghost(lm), off, o),
                Rvalue::BinaryOp(_, a, b) => check_operand_indexable(idx, Ghost(lm), off, a)
                    && check_operand_indexable(idx, Ghost(lm), off, b),
                Rvalue::UnaryOp(_, o) => check_operand_indexable(idx, Ghost(lm), off, o),
                Rvalue::Discriminant(lv2) => check_lvalue_indexable(idx, Ghost(lm), off, lv2),
                Rvalue::Aggregate(_, ops) => {
                    let mut ok = true;
                    for i in 0..ops.len()
                        invariant
                            index_matches(idx@, lm),
                            ok == forall|j: int| 0 <= j < i ==> operand_indexable(lm, off as int, #[trigger] ops@[j]),
                    {
                        if !check_operand_indexable(idx, Ghost(lm), off, &ops[i]) {
                            ok = false;
                        }
                    }
                    ok
                },
            }
        },
        StatementKind::StorageLive(lv) => check_lvalue_indexable(idx, Ghost(lm), off, lv),
        StatementKind::StorageDead(lv) => check_lvalue_indexable(idx, Ghost(lm), off, lv),
        StatementKind::Nop => true,
    }
}

fn check_statement_retypable(
    tcx: &TyCtxt,
    decls: &Vec<LocalDecl>,
    idx: &Vec<(Local, Vec<Local>)>,
    Ghost(lm): Ghost<Seq<(Local, Seq<(Ty, Local)>)>>,
    off: Option<usize>,
    s: &Statement,
) -> (r: bool)
    requires
        index_matches(idx@, lm),
        off matches Some(o) ==> statement_indexable(lm, o as int, *s),
    ensures
        r == statement_retypable(tcx, decls@, lm, off, *s),
{
    match &s.kind {
        StatementKind::Assign(_, Rvalue::Aggregate(AggregateKind::Array(_), ops)) => {
            if ops.len() == 0 {
                true
            } else {
                proof {
                    if let Some(o) = off {
                        assert(operand_indexable(lm, o as int, ops@[0]));
                    }
                }
                let first = rewrite_operand(idx, Ghost(lm), off, &ops[0]);
                try_operand_type(tcx, decls, &first).is_some()
            }
        },
        _ => true,
    }
}

/// Splits the assignments to split locals in a function's blocks.
pub struct StructLvalueSplitter<'a> {
    /// The function as it was before the splitting passes changed it; the
    /// types of operands are read from it.
    pub mir: &'a Mir,
    pub decl_maps: &'a LocalMap,
}

impl<'a> StructLvalueSplitter<'a> {
    pub fn new(mir: &'a Mir, decl_maps: &'a LocalMap) -> (r: StructLvalueSplitter<'a>)
        ensures
            r.mir == mir,
            r.decl_maps == decl_maps,
    {
        StructLvalueSplitter { mir, decl_maps }
    }

    /// Splits the statements of one block as `block_split_ok` says; the
    /// terminator stays.
    #[verifier::rlimit(80)]
    #[verifier::spinoff_prover]
    pub fn visit_basic_block_data(&self, tcx: &TyCtxt, data: &mut BasicBlockData)
        requires
            tcx.wf(),
            block_splittable(tcx, self.mir.local_decls@, self.decl_maps.model(), old(data).statements@),
        ensures
            block_split_ok(
                tcx,
                self.mir.local_decls@,
                self.decl_maps.model(),
                old(data).statements@,
                final(data).statements@,
            ),
            final(data).terminator == old(data).terminator,
            final(data).is_cleanup == old(data).is_cleanup,
    {
        let ghost lm = self.decl_maps.model();
        let ghost decls = self.mir.local_decls@;
        let local_index = build_local_index(self.decl_maps);
        let mut new_statements: Vec<Statement> = Vec::new();
        let stmts = &data.statements;
        for j in 0..stmts.len()
            invariant
                tcx.wf(),
                lm == self.decl_maps.model(),
                decls == self.mir.local_decls@,
                index_matches(local_index@, lm),
                block_splittable(tcx, decls, lm, stmts@),
                new_statements@.len() == copies_count(lm, stmts@.take(j as int)),
                forall|k: int|
                    0 <= k < j ==> statement_split_ok(
                        tcx,
                        decls,
                        lm,
                        #[trigger] stmts@[k],
                        new_statements@.subrange(
                            copies_count(lm, stmts@.take(k)) as int,
                            copies_count(lm, stmts@.take(k + 1)) as int,
                        ),
                    ),
        {
            let ghost before = new_statements@;
            let statement = &stmts[j];
            proof {
                assert(stmts@.take(j + 1).drop_last() =~= stmts@.take(j as int));
                assert(stmts@.take(j + 1).last() == stmts@[j as int]);
                assert(statement_splittable(tcx, decls, lm, stmts@[j as int]));
            }
            let mut outs: Vec<Statement> = Vec::new();
            match split_copies(&local_index, Ghost(lm), statement) {
                Some(n) => {
                    for r in 0..n
                        invariant
                            tcx.wf(),
                            lm == self.decl_maps.model(),
                            decls == self.mir.local_decls@,
                            index_matches(local_index@, lm),
                            statement_splittable(tcx, decls, lm, *statement),
                            assigns_split_local(lm, *statement),
                            n == copies(lm, *statement),
                            outs@.len() == r,
                            forall|rr: int|
                                0 <= rr < r ==> split_statement_ok(
                                    tcx,
                                    decls,
                                    lm,
                                    Some(rr as usize),
                                    *statement,
                                    #[trigger] outs@[rr],
                                ),
                    {
                        proof {
                            assert(statement_indexable(lm, r as int, *statement));
                        }
                        let s2 = rewrite_statement(tcx, &self.mir.local_decls, &local_index, Ghost(lm), Some(r), statement);
                        outs.push(s2);
                    }
                },
                None => {
                    let s2 = rewrite_statement(tcx, &self.mir.local_decls, &local_index, Ghost(lm), None, statement);
                    outs.push(s2);
                },
            }
            let ghost outs_v = outs@;
            proof {
                assert(statement_split_ok(tcx, decls, lm, *statement, outs_v)) by {
                    reveal(statement_split_ok);
                }
            }
            new_statements.append(&mut outs);
            proof {
                lemma_split_step(tcx, decls, lm, stmts@, j as int, before, outs_v, new_statements@);
            }
        }
        proof {
            assert(stmts@.take(stmts@.len() as int) =~= stmts@);
        }
        data.statements = new_statements;
    }

    fn check_statement(
        &self,
        tcx: &TyCtxt,
        idx: &Vec<(Local, Vec<Local>)>,
        Ghost(lm): Ghost<Seq<(Local, Seq<(Ty, Local)>)>>,
        s: &Statement,
    ) -> (r: bool)
        requires
            index_matches(idx@, lm),
        ensures
            r == statement_splittable(tcx, self.mir.local_decls@, lm, *s),
    {
        let ghost decls = self.mir.local_decls@;
        match split_copies(idx, Ghost(lm), s) {
            Some(n) => {
                let mut k: usize = 0;
                while k < n
                    invariant
                        k <= n,
                        index_matches(idx@, lm),
                        decls == self.mir.local_decls@,
                        assigns_split_local(lm, *s),
                        n == copies(lm, *s),
                        forall|rr: int| 0 <= rr < k ==> #[trigger] statement_indexable(lm, rr, *s),
                        forall|rr: usize| rr < k ==> #[trigger] statement_retypable(tcx, decls, lm, Some(rr), *s),
                    decreases n - k,
                {
                    if !check_statement_indexable(idx, Ghost(lm), k, s) {
                        proof {
                            assert(!statement_indexable(lm, k as int, *s));
                        }
                        return false;
                    }
                    if !check_statement_retypable(tcx, &self.mir.local_decls, idx, Ghost(lm), Some(k), s) {
                        proof {
                            assert(statement_indexable(lm, k as int, *s));
                            assert(!statement_retypable(tcx, decls, lm, Some(k), *s));
                        }
                        return false;
                    }
                    proof {
                        assert(statement_indexable(lm, k as int, *s));
                        assert(statement_retypable(tcx, decls, lm, Some(k), *s));
                        assert(Some(k) == Some((k as int) as usize));
                    }
                    k = k + 1;
                }
                proof {
                    assert forall|r: int| 0 <= r < copies(lm, *s) implies #[trigger] statement_indexable(lm, r, *s)
                        && statement_retypable(tcx, decls, lm, Some(r as usize), *s) by {
                        assert(statement_retypable(tcx, decls, lm, Some(r as usize), *s));
                    }
                }
                true
            },
            None => check_statement_retypable(tcx, &self.mir.local_decls, idx, Ghost(lm), None, s),
        }
    }

    /// Whether the statements of a block can be split, as
    /// `block_splittable` says.
    pub fn check_block(&self, tcx: &TyCtxt, d: &BasicBlockData) -> (r: bool)
        ensures
            r == block_splittable(tcx, self.mir.local_decls@, self.decl_maps.model(), d.statements@),
    {
        let ghost lm = self.decl_maps.model();
        let ghost decls = self.mir.local_decls@;
        let local_index = build_local_index(self.decl_maps);
        let stmts = &d.statements;
        for j in 0..stmts.len()
            invariant
                lm == self.decl_maps.model(),
                decls == self.mir.local_decls@,
                stmts@ == d.statements@,
                index_matches(local_index@, lm),
                forall|k: int| 0 <= k < j ==> statement_splittable(tcx, decls, lm, #[trigger] stmts@[k]),
        {
            if !self.check_statement(tcx, &local_index, Ghost(lm), &stmts[j]) {
                return false;
            }
        }
        true
    }

    /// Whether every block of `mir` can be split: exactly when `visit_mir`
    /// may run on it.
    pub fn check_mir(&self, tcx: &TyCtxt, mir: &Mir) -> (r: bool)
        ensures
            r == forall|b: int|
                0 <= b < mir.basic_blocks@.len() ==> block_splittable(
                    tcx,
                    self.mir.local_decls@,
                    self.decl_maps.model(),
                    (#[trigger] mir.basic_blocks@[b]).statements@,
                ),
    {
        for b in 0..mir.basic_blocks.len()
            invariant
                forall|k: int|
                    0 <= k < b ==> block_splittable(
                        tcx,
                        self.mir.local_decls@,
                        self.decl_maps.model(),
                        (#[trigger] mir.basic_blocks@[k]).statements@,
                    ),
        {
            if !self.check_block(tcx, &mir.basic_blocks[b]) {
                return false;
            }
        }
        true
    }

    /// Splits the statements of every block.
    pub fn visit_mir(&self, tcx: &TyCtxt, mir: &mut Mir)
        requires
            tcx.wf(),
            forall|b: int|
                0 <= b < old(mir).basic_blocks@.len() ==> block_splittable(
                    tcx,
                    self.mir.local_decls@,
                    self.decl_maps.model(),
                    (#[trigger] old(mir).basic_blocks@[b]).statements@,
                ),
        ensures
            final(mir).local_decls == old(mir).local_decls,
            final(mir).arg_count == old(mir).arg_count,
            final(mir).return_ty == old(mir).return_ty,
            final(mir).basic_blocks@.len() == old(mir).basic_blocks@.len(),
            forall|b: int|
                0 <= b < old(mir).basic_blocks@.len() ==> {
                    &&& block_split_ok(
                        tcx,
                        self.mir.local_decls@,
                        self.decl_maps.model(),
                        old(mir).basic_blocks@[b].statements@,
                        (#[trigger] final(mir).basic_blocks@[b]).statements@,
                    )
                    &&& final(mir).basic_blocks@[b].terminator == old(mir).basic_blocks@[b].terminator
                    &&& final(mir).basic_blocks@[b].is_cleanup == old(mir).basic_blocks@[b].is_cleanup
                },
    {
        let ghost blocks0 = mir.basic_blocks@;
        let nb = mir.basic_blocks.len();
        for b in 0..nb
            invariant
                tcx.wf(),
                nb == blocks0.len(),
                blocks0 == old(mir).basic_blocks@,
                mir.local_decls == old(mir).local_decls,
                mir.arg_count == old(mir).arg_count,
                mir.return_ty == old(mir).return_ty,
                mir.basic_blocks@.len() == nb,
                forall|k: int|
                    0 <= k < nb ==> block_splittable(
                        tcx,
                        self.mir.local_decls@,
                        self.decl_maps.model(),
                        (#[trigger] blocks0[k]).statements@,
                    ),
                forall|k: int| b <= k < nb ==> #[trigger] mir.basic_blocks@[k] == blocks0[k],
                forall|k: int|
                    0 <= k < b ==> {
                        &&& block_split_ok(
                            tcx,
                            self.mir.local_decls@,
                            self.decl_maps.model(),
                            blocks0[k].statements@,
                            (#[trigger] mir.basic_blocks@[k]).statements@,
                        )
                        &&& mir.basic_blocks@[k].terminator == blocks0[k].terminator
                        &&& mir.basic_blocks@[k].is_cleanup == blocks0[k].is_cleanup
                    },
        {
            let ghost before = mir.basic_blocks@;
            let mut data = mir.basic_blocks.remove(b);
            proof {
                assert(data == blocks0[b as int]);
            }
            self.visit_basic_block_data(tcx, &mut data);
            mir.basic_blocks.insert(b, data);
            proof {
                assert forall|k: int| 0 <= k < nb && k != b implies #[trigger] mir.basic_blocks@[k]
                    == before[k] by {
                    if k < b {
                        assert(before.remove(b as int)[k] == before[k]);
                    } else {
                        assert(before.remove(b as int)[k - 1] == before[k]);
                    }
                }
            }
        }
    }
}

proof fn lemma_split_step(
    tcx: &TyCtxt,
    decls: Seq<LocalDecl>,
    lm: Seq<(Local, Seq<(Ty, Local)>)>,
    stmts: Seq<Statement>,
    j: int,
    before: Seq<Statement>,
    outs: Seq<Statement>,
    after: Seq<Statement>,
)
    requires
        0 <= j < stmts.len(),
        before.len() == copies_count(lm, stmts.take(j)),
        forall|k: int|
            0 <= k < j ==> statement_split_ok(
                tcx,
                decls,
                lm,
                #[trigger] stmts[k],
                before.subrange(copies_count(lm, stmts.take(k)) as int, copies_count(lm, stmts.take(k + 1)) as int),
            ),
        statement_split_ok(tcx, decls, lm, stmts[j], outs),
        after == before + outs,
    ensures
        after.len() == copies_count(lm, stmts.take(j + 1)),
        forall|k: int|
            0 <= k < j + 1 ==> statement_split_ok(
                tcx,
                decls,
                lm,
                #[trigger] stmts[k],
                after.subrange(copies_count(lm, stmts.take(k)) as int, copies_count(lm, stmts.take(k + 1)) as int),
            ),
{
    assert(stmts.take(j + 1).drop_last() =~= stmts.take(j));
    assert(stmts.take(j + 1).last() == stmts[j]);
    assert(outs.len() == copies(lm, stmts[j])) by {
        reveal(statement_split_ok);
    }
    let base = before.len() as int;
    assert(after.subrange(base, base + outs.len()) =~= outs);
    assert forall|k: int| 0 <= k < j + 1 implies statement_split_ok(
        tcx,
        decls,
        lm,
        #[trigger] stmts[k],
        after.subrange(copies_count(lm, stmts.take(k)) as int, copies_count(lm, stmts.take(k + 1)) as int),
    ) by {
        if k < j {
            let lo = copies_count(lm, stmts.take(k)) as int;
            let hi = copies_count(lm, stmts.take(k + 1)) as int;
            lemma_copies_count_le(lm, stmts, k, k + 1);
            lemma_copies_count_le(lm, stmts, k + 1, j);
            assert(after.subrange(lo, hi) =~= before.subrange(lo, hi));
        }
    }
}

proof fn lemma_copies_count_le(lm: Seq<(Local, Seq<(Ty, Local)>)>, stmts: Seq<Statement>, a: int, b: int)
    requires
        0 <= a <= b <= stmts.len(),
    ensures
        copies_count(lm, stmts.take(a)) <= copies_count(lm, stmts.take(b)),
    decreases b - a,
{
    if a < b {
        lemma_copies_count_le(lm, stmts, a, b - 1);
        assert(stmts.take(b).drop_last() =~= stmts.take(b - 1));
    }
}

} // verus!

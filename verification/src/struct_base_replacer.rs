//! Redirecting field accesses: a field of a split local becomes the
//! matching field of the child that holds it.
use vstd::prelude::*;

use crate::hir::{matching_items, node_type, Hir};
use crate::local_map::{child_position, lm_get, LocalMap};
use crate::mir::{
    lvalue_ty, lvalue_type, try_lvalue_type, BasicBlockData, Local, LocalDecl, Lvalue, LvalueProjection, Mir, Operand,
    ProjectionElem, Rvalue, Statement, StatementKind, Terminator, TerminatorKind,
};
use crate::split_struct::{split_of, SplitMap, SplitRegistry, SplitStruct};
use crate::ty::{Ty, TyCtxt};

verus! {

broadcast use vstd::std_specs::hash::group_hash_axioms;

/// The first local met in `lv`, searching the base before the index.
pub open spec fn first_local(lv: Lvalue) -> Option<Local>
    decreases lv,
{
    match lv {
        Lvalue::Local(l) => Some(l),
        Lvalue::Static(_) => None,
        Lvalue::Projection(p) => match first_local(p.base) {
            Some(l) => Some(l),
            None => first_local_elem(p.elem),
        },
    }
}

pub open spec fn first_local_elem(e: ProjectionElem) -> Option<Local>
    decreases e,
{
    match e {
        ProjectionElem::Index(op) => first_local_operand(op),
        _ => None,
    }
}

pub open spec fn first_local_operand(op: Operand) -> Option<Local>
    decreases op,
{
    match op {
        Operand::Consume(lv) => first_local(lv),
        Operand::Constant(_) => None,
    }
}

/// `lv` with local `old` renamed `new` wherever it occurs.
pub open spec fn rename_lvalue(lv: Lvalue, old: Local, new: Local) -> Lvalue
    decreases lv,
{
    match lv {
        Lvalue::Local(l) => if l == old {
            Lvalue::Local(new)
        } else {
            Lvalue::Local(l)
        },
        Lvalue::Static(s) => Lvalue::Static(s),
        Lvalue::Projection(p) => Lvalue::Projection(
            Box::new(LvalueProjection { base: rename_lvalue(p.base, old, new), elem: rename_elem(p.elem, old, new) }),
        ),
    }
}

pub open spec fn rename_elem(e: ProjectionElem, old: Local, new: Local) -> ProjectionElem
    decreases e,
{
    match e {
        ProjectionElem::Index(op) => ProjectionElem::Index(rename_operand(op, old, new)),
        _ => e,
    }
}

pub open spec fn rename_operand(op: Operand, old: Local, new: Local) -> Operand
    decreases op,
{
    match op {
        Operand::Consume(lv) => Operand::Consume(rename_lvalue(lv, old, new)),
        Operand::Constant(c) => Operand::Constant(c),
    }
}

/// Renaming keeps where the first local is: the first local of the renamed
/// place is the first local of the place, renamed.
pub proof fn lemma_rename_first(lv: Lvalue, a: Local, b: Local)
    ensures
        first_local(rename_lvalue(lv, a, b)) == match first_local(lv) {
            Some(l) => Some(if l == a { b } else { l }),
            None => None,
        },
    decreases lv,
{
    match lv {
        Lvalue::Projection(p) => {
            lemma_rename_first(p.base, a, b);
            lemma_rename_first_elem(p.elem, a, b);
        },
        _ => {},
    }
}

proof fn lemma_rename_first_elem(e: ProjectionElem, a: Local, b: Local)
    ensures
        first_local_elem(rename_elem(e, a, b)) == match first_local_elem(e) {
            Some(l) => Some(if l == a { b } else { l }),
            None => None,
        },
    decreases e,
{
    if let ProjectionElem::Index(op) = e {
        lemma_rename_first_operand(op, a, b);
    }
}

proof fn lemma_rename_first_operand(op: Operand, a: Local, b: Local)
    ensures
        first_local_operand(rename_operand(op, a, b)) == match first_local_operand(op) {
            Some(l) => Some(if l == a { b } else { l }),
            None => None,
        },
    decreases op,
{
    if let Operand::Consume(lv) = op {
        lemma_rename_first(lv, a, b);
    }
}

/// The child of local `l` of type `t`, if it has one.
pub open spec fn child_of(lm: Seq<(Local, Seq<(Ty, Local)>)>, l: Local, t: Ty) -> Option<Local> {
    match lm_get(lm, l) {
        Some(cs) => {
            let q = child_position(cs, t);
            if q < 0 {
                None
            } else {
                Some(cs[q].1)
            }
        },
        None => None,
    }
}

/// Finds the first local of a place.
pub fn local_finder(lv: &Lvalue) -> (r: Option<Local>)
    ensures
        r == first_local(*lv),
    decreases lv,
{
    match lv {
        Lvalue::Local(l) => Some(*l),
        Lvalue::Static(_) => None,
        Lvalue::Projection(p) => match local_finder(&p.base) {
            Some(l) => Some(l),
            None => local_finder_elem(&p.elem),
        },
    }
}

fn local_finder_elem(e: &ProjectionElem) -> (r: Option<Local>)
    ensures
        r == first_local_elem(*e),
    decreases e,
{
    match e {
        ProjectionElem::Index(op) => local_finder_operand(op),
        _ => None,
    }
}

fn local_finder_operand(op: &Operand) -> (r: Option<Local>)
    ensures
        r == first_local_operand(*op),
    decreases op,
{
    match op {
        Operand::Consume(lv) => local_finder(lv),
        Operand::Constant(_) => None,
    }
}

/// Renames local `old` to `new` in a place.
pub fn local_replacer(lv: &Lvalue, old: Local, new: Local) -> (r: Lvalue)
    ensures
        r == rename_lvalue(*lv, old, new),
    decreases lv,
{
    match lv {
        Lvalue::Local(l) => if *l == old {
            Lvalue::Local(new)
        } else {
            Lvalue::Local(*l)
        },
        Lvalue::Static(s) => Lvalue::Static(*s),
        Lvalue::Projection(p) => {
            let base = local_replacer(&p.base, old, new);
            let elem = local_replacer_elem(&p.elem, old, new);
            Lvalue::Projection(Box::new(LvalueProjection { base, elem }))
        },
    }
}

fn local_replacer_elem(e: &ProjectionElem, old: Local, new: Local) -> (r: ProjectionElem)
    ensures
        r == rename_elem(*e, old, new),
    decreases e,
{
    match e {
        ProjectionElem::Deref => ProjectionElem::Deref,
        ProjectionElem::Field(f, t) => ProjectionElem::Field(*f, *t),
        ProjectionElem::Index(op) => ProjectionElem::Index(local_replacer_operand(op, old, new)),
        ProjectionElem::Downcast(a, v) => ProjectionElem::Downcast(*a, *v),
    }
}

fn local_replacer_operand(op: &Operand, old: Local, new: Local) -> (r: Operand)
    ensures
        r == rename_operand(*op, old, new),
    decreases op,
{
    match op {
        Operand::Consume(lv) => Operand::Consume(local_replacer(lv, old, new)),
        Operand::Constant(c) => Operand::Constant(*c),
    }
}

/// Redirects field accesses on split structs to their children.
pub struct StructFieldReplacer<'a> {
    /// The function as it was before the passes changed it; the types of
    /// places are read from it.
    pub mir: &'a Mir,
    pub ty2structsplit: &'a SplitMap,
    pub registry: &'a SplitRegistry,
    pub hir: &'a Hir,
    pub decl_map: &'a LocalMap,
}

impl<'a> StructFieldReplacer<'a> {
    pub fn new(
        mir: &'a Mir,
        ty2structsplit: &'a SplitMap,
        registry: &'a SplitRegistry,
        hir: &'a Hir,
        decl_map: &'a LocalMap,
    ) -> (r: StructFieldReplacer<'a>)
        ensures
            r.mir == mir,
            r.ty2structsplit == ty2structsplit,
            r.registry == registry,
            r.hir == hir,
            r.decl_map == decl_map,
    {
        StructFieldReplacer { mir, ty2structsplit, registry, hir, decl_map }
    }

    /// The split struct of the base of `p`, if the base's type has one.
    pub open spec fn base_split(&self, tcx: &TyCtxt, p: LvalueProjection) -> Option<usize> {
        split_of(self.ty2structsplit.entries@, lvalue_ty(tcx, self.mir.local_decls@, p.base)->0)
    }

    /// Where field `f` of split struct `si` goes: the child's name and the
    /// field's index there.
    pub open spec fn field_target(&self, si: usize, f: usize) -> (String, usize) {
        self.registry.structs@[si as int].field_map@[f]
    }

    /// Projection `p` after the redirecting steps for the items `ms` that
    /// carry the child's name, in order: at each step the first local of
    /// the base is looked up, and where it has a child local of the item's
    /// type, that local is renamed to the child local in the base and the
    /// field becomes field `index` of type `fty`.
    pub open spec fn redirect_steps(&self, p: LvalueProjection, ms: Seq<(u64, Ty)>, index: usize, fty: Ty) -> LvalueProjection
        decreases ms.len(),
    {
        if ms.len() == 0 {
            p
        } else {
            let q = self.redirect_steps(p, ms.drop_last(), index, fty);
            let child_ty = node_type(self.hir.items@, ms.last().0)->0;
            let bl = first_local(q.base)->0;
            match child_of(self.decl_map.model(), bl, child_ty) {
                Some(tl) => LvalueProjection {
                    base: rename_lvalue(q.base, bl, tl),
                    elem: ProjectionElem::Field(index, fty),
                },
                None => q,
            }
        }
    }

    /// No redirecting step for the items `ms` fails: before each, the base
    /// has a first local, and that local has children.
    pub open spec fn redirect_ok(&self, p: LvalueProjection, ms: Seq<(u64, Ty)>, index: usize, fty: Ty) -> bool
        decreases ms.len(),
    {
        if ms.len() == 0 {
            true
        } else {
            let q = self.redirect_steps(p, ms.drop_last(), index, fty);
            &&& self.redirect_ok(p, ms.drop_last(), index, fty)
            &&& first_local(q.base) is Some
            &&& lm_get(self.decl_map.model(), first_local(q.base)->0) is Some
        }
    }

    /// Projection `p` with a field of a split struct redirected: when the
    /// base has a split struct's type and `p` takes field `f`, the steps of
    /// `redirect_steps` are taken for the items named like the child that
    /// holds `f`, with `f`'s index in that child. Otherwise `p` stays.
    pub open spec fn spec_visit_projection(&self, tcx: &TyCtxt, p: LvalueProjection) -> LvalueProjection {
        match self.base_split(tcx, p) {
            Some(si) => match p.elem {
                ProjectionElem::Field(f, fty) => {
                    let (tname, index) = self.field_target(si, f);
                    self.redirect_steps(p, matching_items(self.hir.items@, tname@), index, fty)
                },
                _ => p,
            },
            None => p,
        }
    }

    /// Redirecting `p` does not fail: its base has a type; and for a field
    /// of a split struct, the field is in the split and no redirecting
    /// step fails.
    pub open spec fn projection_ok(&self, tcx: &TyCtxt, p: LvalueProjection) -> bool {
        &&& lvalue_ty(tcx, self.mir.local_decls@, p.base) is Some
        &&& match self.base_split(tcx, p) {
            Some(si) => match p.elem {
                ProjectionElem::Field(f, fty) => {
                    &&& si < self.registry.structs@.len()
                    &&& self.registry.structs@[si as int].field_map@.contains_key(f)
                    &&& self.redirect_ok(
                        p,
                        matching_items(self.hir.items@, self.field_target(si, f).0@),
                        self.field_target(si, f).1,
                        fty,
                    )
                },
                _ => true,
            },
            None => true,
        }
    }

    /// A place as the visitor leaves it: a projection is redirected, a
    /// local or static stays.
    pub open spec fn spec_visit_lvalue(&self, tcx: &TyCtxt, lv: Lvalue) -> Lvalue {
        match lv {
            Lvalue::Projection(p) => Lvalue::Projection(Box::new(self.spec_visit_projection(tcx, *p))),
            _ => lv,
        }
    }

    pub open spec fn lvalue_ok(&self, tcx: &TyCtxt, lv: Lvalue) -> bool {
        match lv {
            Lvalue::Projection(p) => self.projection_ok(tcx, *p),
            _ => true,
        }
    }

    pub open spec fn spec_visit_operand(&self, tcx: &TyCtxt, op: Operand) -> Operand {
        match op {
            Operand::Consume(lv) => Operand::Consume(self.spec_visit_lvalue(tcx, lv)),
            _ => op,
        }
    }

    pub open spec fn operand_ok(&self, tcx: &TyCtxt, op: Operand) -> bool {
        match op {
            Operand::Consume(lv) => self.lvalue_ok(tcx, lv),
            _ => true,
        }
    }

    /// `rv2` is `rv` with each of its places visited.
    pub open spec fn rvalue_visited(&self, tcx: &TyCtxt, rv: Rvalue, rv2: Rvalue) -> bool {
        match (rv, rv2) {
            (Rvalue::Use(o), Rvalue::Use(o2)) => o2 == self.spec_visit_operand(tcx, o),
            (Rvalue::Ref(r, m, lv), Rvalue::Ref(r2, m2, lv2)) => r2 == r && m2 == m && lv2
                == self.spec_visit_lvalue(tcx, lv),
            (Rvalue::Len(lv), Rvalue::Len(lv2)) => lv2 == self.spec_visit_lvalue(tcx, lv),
            (Rvalue::Cast(o, t), Rvalue::Cast(o2, t2)) => t2 == t && o2 == self.spec_visit_operand(tcx, o),
            (Rvalue::BinaryOp(k, a, b), Rvalue::BinaryOp(k2, a2, b2)) => k2 == k && a2
                == self.spec_visit_operand(tcx, a) && b2 == self.spec_visit_operand(tcx, b),
            (Rvalue::UnaryOp(k, o), Rvalue::UnaryOp(k2, o2)) => k2 == k && o2 == self.spec_visit_operand(tcx, o),
            (Rvalue::Discriminant(lv), Rvalue::Discriminant(lv2)) => lv2 == self.spec_visit_lvalue(tcx, lv),
            (Rvalue::Aggregate(k, ops), Rvalue::Aggregate(k2, ops2)) => {
                &&& k2 == k
                &&& ops2@.len() == ops@.len()
                &&& forall|i: int| 0 <= i < ops@.len() ==> #[trigger] ops2@[i] == self.spec_visit_operand(tcx, ops@[i])
            },
            _ => false,
        }
    }

    pub open spec fn rvalue_ok(&self, tcx: &TyCtxt, rv: Rvalue) -> bool {
        match rv {
            Rvalue::Use(o) => self.operand_ok(tcx, o),
            Rvalue::Ref(_, _, lv) => self.lvalue_ok(tcx, lv),
            Rvalue::Len(lv) => self.lvalue_ok(tcx, lv),
            Rvalue::Cast(o, _) => self.operand_ok(tcx, o),
            Rvalue::BinaryOp(_, a, b) => self.operand_ok(tcx, a) && self.operand_ok(tcx, b),
            Rvalue::UnaryOp(_, o) => self.operand_ok(tcx, o),
            Rvalue::Discriminant(lv) => self.lvalue_ok(tcx, lv),
            Rvalue::Aggregate(_, ops) => forall|i: int| 0 <= i < ops@.len() ==> self.operand_ok(tcx, #[trigger] ops@[i]),
        }
    }

    /// `s2` is `s` with each of its places visited.
    pub open spec fn statement_visited(&self, tcx: &TyCtxt, s: Statement, s2: Statement) -> bool {
        &&& s2.source_info == s.source_info
        &&& match (s.kind, s2.kind) {
            (StatementKind::Assign(lv, rv), StatementKind::Assign(lv2, rv2)) => lv2 == self.spec_visit_lvalue(tcx, lv)
                && self.rvalue_visited(tcx, rv, rv2),
            (StatementKind::StorageLive(lv), StatementKind::StorageLive(lv2)) => lv2 == self.spec_visit_lvalue(tcx, lv),
            (StatementKind::StorageDead(lv), StatementKind::StorageDead(lv2)) => lv2 == self.spec_visit_lvalue(tcx, lv),
            (StatementKind::Nop, StatementKind::Nop) => true,
            _ => false,
        }
    }

    pub open spec fn statement_ok(&self, tcx: &TyCtxt, s: Statement) -> bool {
        match s.kind {
            StatementKind::Assign(lv, rv) => self.lvalue_ok(tcx, lv) && self.rvalue_ok(tcx, rv),
            StatementKind::StorageLive(lv) => self.lvalue_ok(tcx, lv),
            StatementKind::StorageDead(lv) => self.lvalue_ok(tcx, lv),
            StatementKind::Nop => true,
        }
    }

    /// `t2` is `t` with the places of a call visited: its function, its
    /// arguments and its destination.
    pub open spec fn terminator_visited(&self, tcx: &TyCtxt, t: Option<Terminator>, t2: Option<Terminator>) -> bool {
        match (t, t2) {
            (Some(a), Some(b)) => {
                &&& b.source_info == a.source_info
                &&& match (a.kind, b.kind) {
                    (
                        TerminatorKind::Call { func: f, args: xs, destination: d, cleanup: c },
                        TerminatorKind::Call { func: f2, args: xs2, destination: d2, cleanup: c2 },
                    ) => {
                        &&& f2 == self.spec_visit_operand(tcx, f)
                        &&& c2 == c
                        &&& xs2@.len() == xs@.len()
                        &&& forall|i: int| 0 <= i < xs@.len() ==> #[trigger] xs2@[i] == self.spec_visit_operand(tcx, xs@[i])
                        &&& match d {
                            Some((lv, bb)) => d2 == Some((self.spec_visit_lvalue(tcx, lv), bb)),
                            None => d2 is None,
                        }
                    },
                    (TerminatorKind::Call { .. }, _) => false,
                    (k, k2) => k2 == k,
                }
            },
            (None, None) => true,
            _ => false,
        }
    }

    pub open spec fn terminator_ok(&self, tcx: &TyCtxt, t: Option<Terminator>) -> bool {
        match t {
            Some(a) => match a.kind {
                TerminatorKind::Call { func, args, destination, .. } => {
                    &&& self.operand_ok(tcx, func)
                    &&& forall|i: int| 0 <= i < args@.len() ==> self.operand_ok(tcx, #[trigger] args@[i])
                    &&& match destination {
                        Some((lv, _)) => self.lvalue_ok(tcx, lv),
                        None => true,
                    }
                },
                _ => true,
            },
            None => true,
        }
    }
}

impl<'a> StructFieldReplacer<'a> {
    /// Whether redirecting `p` does not fail, as `projection_ok` says.
    pub fn check_projection(&self, tcx: &TyCtxt, p: &LvalueProjection) -> (r: bool)
        requires
            tcx.wf(),
        ensures
            r == self.projection_ok(tcx, *p),
    {
        match try_lvalue_type(tcx, &self.mir.local_decls, &p.base) {
            None => false,
            Some(base_ty) => match self.ty2structsplit.get(base_ty) {
                Some(si) => match &p.elem {
                    ProjectionElem::Field(field, field_ty) => {
                        if si >= self.registry.structs.len() {
                            false
                        } else {
                            match self.registry.structs[si].field_map.get(field) {
                                None => false,
                                Some(target) => {
                                    let nodes = self.hir.nodes_matching_suffix(&target.0);
                                    proof {
                                        crate::hir::lemma_matching_items_found(self.hir.items@, target.0@);
                                    }
                                    self.check_redirect(p, &nodes, target.1, *field_ty)
                                },
                            }
                        }
                    },
                    _ => true,
                },
                None => true,
            },
        }
    }

    pub fn check_lvalue(&self, tcx: &TyCtxt, lv: &Lvalue) -> (r: bool)
        requires
            tcx.wf(),
        ensures
            r == self.lvalue_ok(tcx, *lv),
    {
        match lv {
            Lvalue::Projection(p) => self.check_projection(tcx, p),
            _ => true,
        }
    }

    pub fn check_operand(&self, tcx: &TyCtxt, op: &Operand) -> (r: bool)
        requires
            tcx.wf(),
        ensures
            r == self.operand_ok(tcx, *op),
    {
        match op {
            Operand::Consume(lv) => self.check_lvalue(tcx, lv),
            _ => true,
        }
    }

    fn check_operands(&self, tcx: &TyCtxt, ops: &Vec<Operand>) -> (r: bool)
        requires
            tcx.wf(),
        ensures
            r == forall|i: int| 0 <= i < ops@.len() ==> self.operand_ok(tcx, #[trigger] ops@[i]),
    {
        for i in 0..ops.len()
            invariant
                tcx.wf(),
                forall|j: int| 0 <= j < i ==> self.operand_ok(tcx, #[trigger] ops@[j]),
        {
            if !self.check_operand(tcx, &ops[i]) {
                return false;
            }
        }
        true
    }

    pub fn check_rvalue(&self, tcx: &TyCtxt, rv: &Rvalue) -> (r: bool)
        requires
            tcx.wf(),
        ensures
            r == self.rvalue_ok(tcx, *rv),
    {
        match rv {
            Rvalue::Use(o) => self.check_operand(tcx, o),
            Rvalue::Ref(_, _, lv) => self.check_lvalue(tcx, lv),
            Rvalue::Len(lv) => self.check_lvalue(tcx, lv),
            Rvalue::Cast(o, _) => self.check_operand(tcx, o),
            Rvalue::BinaryOp(_, a, b) => self.check_operand(tcx, a) && self.check_operand(tcx, b),
            Rvalue::UnaryOp(_, o) => self.check_operand(tcx, o),
            Rvalue::Discriminant(lv) => self.check_lvalue(tcx, lv),
            Rvalue::Aggregate(_, ops) => self.check_operands(tcx, ops),
        }
    }

    pub fn check_statement(&self, tcx: &TyCtxt, s: &Statement) -> (r: bool)
        requires
            tcx.wf(),
        ensures
            r == self.statement_ok(tcx, *s),
    {
        match &s.kind {
            StatementKind::Assign(lv, rv) => self.check_lvalue(tcx, lv) && self.check_rvalue(tcx, rv),
            StatementKind::StorageLive(lv) => self.check_lvalue(tcx, lv),
            StatementKind::StorageDead(lv) => self.check_lvalue(tcx, lv),
            StatementKind::Nop => true,
        }
    }

    pub fn check_terminator(&self, tcx: &TyCtxt, t: &Option<Terminator>) -> (r: bool)
        requires
            tcx.wf(),
        ensures
            r == self.terminator_ok(tcx, *t),
    {
        match t {
            Some(a) => match &a.kind {
                TerminatorKind::Call { func, args, destination, .. } => {
                    self.check_operand(tcx, func) && self.check_operands(tcx, args) && match destination {
                        Some((lv, _)) => self.check_lvalue(tcx, lv),
                        None => true,
                    }
                },
                _ => true,
            },
            None => true,
        }
    }

    /// Whether redirecting the places of a block does not fail.
    pub fn check_block(&self, tcx: &TyCtxt, d: &BasicBlockData) -> (r: bool)
        requires
            tcx.wf(),
        ensures
            r == self.block_ok(tcx, *d),
    {
        for i in 0..d.statements.len()
            invariant
                tcx.wf(),
                forall|j: int| 0 <= j < i ==> self.statement_ok(tcx, #[trigger] d.statements@[j]),
        {
            if !self.check_statement(tcx, &d.statements[i]) {
                return false;
            }
        }
        self.check_terminator(tcx, &d.terminator)
    }

    /// Whether redirecting the places of every block of `mir` does not
    /// fail: exactly when `visit_mir` may run on it.
    pub fn check_mir(&self, tcx: &TyCtxt, mir: &Mir) -> (r: bool)
        requires
            tcx.wf(),
        ensures
            r == forall|b: int| 0 <= b < mir.basic_blocks@.len() ==> self.block_ok(tcx, #[trigger] mir.basic_blocks@[b]),
    {
        for b in 0..mir.basic_blocks.len()
            invariant
                tcx.wf(),
                forall|k: int| 0 <= k < b ==> self.block_ok(tcx, #[trigger] mir.basic_blocks@[k]),
        {
            if !self.check_block(tcx, &mir.basic_blocks[b]) {
                return false;
            }
        }
        true
    }
}

fn find_child(cs: &Vec<(Ty, Local)>, t: Ty) -> (r: Option<Local>)
    ensures
        match r {
            Some(l) => child_position(cs@, t) >= 0 && l == cs@[child_position(cs@, t)].1,
            None => child_position(cs@, t) < 0,
        },
{
    let mut found: Option<usize> = None;
    for i in 0..cs.len()
        invariant
            match found {
                Some(k) => k < i && k as int == child_position(cs@.take(i as int), t),
                None => child_position(cs@.take(i as int), t) == -1,
            },
    {
        proof {
            assert(cs@.take(i + 1).drop_last() =~= cs@.take(i as int));
        }
        if cs[i].0 == t {
            found = Some(i);
        }
    }
    proof {
        assert(cs@.take(cs@.len() as int) =~= cs@);
    }
    match found {
        Some(k) => Some(cs[k].1),
        None => None,
    }
}

impl<'a> StructFieldReplacer<'a> {
    /// The redirecting steps hold for every prefix of the items once they
    /// hold for all of them.
    proof fn lemma_redirect_ok_prefix(&self, p: LvalueProjection, ms: Seq<(u64, Ty)>, index: usize, fty: Ty, k: int)
        requires
            self.redirect_ok(p, ms, index, fty),
            0 <= k <= ms.len(),
        ensures
            self.redirect_ok(p, ms.take(k), index, fty),
        decreases ms.len(),
    {
        if k == ms.len() {
            assert(ms.take(k) =~= ms);
        } else {
            assert(ms.drop_last().take(k) =~= ms.take(k));
            self.lemma_redirect_ok_prefix(p, ms.drop_last(), index, fty, k);
        }
    }

    /// After any redirecting steps, the projection is either untouched or
    /// takes field `index` with type `fty`, and the first local of its base
    /// is then a child local, of the type of one of the items `ms`.
    proof fn lemma_redirect_steps_field(&self, p: LvalueProjection, ms: Seq<(u64, Ty)>, index: usize, fty: Ty)
        requires
            self.redirect_ok(p, ms, index, fty),
        ensures
            self.redirect_steps(p, ms, index, fty) == p || {
                let r = self.redirect_steps(p, ms, index, fty);
                &&& r.elem == ProjectionElem::Field(index, fty)
                &&& first_local(r.base) is Some
                &&& exists|l: Local, k: int|
                    0 <= k < ms.len() && #[trigger] child_of(
                        self.decl_map.model(),
                        l,
                        node_type(self.hir.items@, ms[k].0)->0,
                    ) == Some(first_local(r.base)->0)
            },
        decreases ms.len(),
    {
        if ms.len() > 0 {
            let d = ms.drop_last();
            self.lemma_redirect_steps_field(p, d, index, fty);
            let q = self.redirect_steps(p, d, index, fty);
            let child_ty = node_type(self.hir.items@, ms.last().0)->0;
            let bl = first_local(q.base)->0;
            match child_of(self.decl_map.model(), bl, child_ty) {
                Some(tl) => {
                    lemma_rename_first(q.base, bl, tl);
                    if first_local(q.base) is Some {
                        assert(child_of(self.decl_map.model(), bl, node_type(self.hir.items@, ms[ms.len() - 1].0)->0)
                            == Some(tl));
                    }
                },
                None => {
                    if q != p {
                        let r = q;
                        let (l, k) = choose|l: Local, k: int|
                            0 <= k < d.len() && #[trigger] child_of(
                                self.decl_map.model(),
                                l,
                                node_type(self.hir.items@, d[k].0)->0,
                            ) == Some(first_local(r.base)->0);
                        assert(d[k] == ms[k]);
                    }
                },
            }
        }
    }

    /// A field access on a split struct is left as it is or goes to the
    /// index that the struct's field map gives for the field, keeping the
    /// field's type: field `f` becomes field `field_map[f].1` of the child.
    /// The place it is then taken from starts at a child local of the type
    /// of an item named like the child that the field map gives; where one
    /// item is named so and the base's first local has a child of its type,
    /// that local is renamed to the child. (This is for every access the
    /// visitor takes: those where `projection_ok` holds.)
    pub proof fn lemma_redirect_uses_field_map(&self, tcx: &TyCtxt, p: LvalueProjection)
        requires
            self.projection_ok(tcx, p),
        ensures
            split_of(self.ty2structsplit.entries@, lvalue_ty(tcx, self.mir.local_decls@, p.base)->0) matches Some(si) ==> (p.elem matches ProjectionElem::Field(f, fty) ==> (
            self.spec_visit_projection(tcx, p) == p || {
                let r = self.spec_visit_projection(tcx, p);
                let ms = matching_items(self.hir.items@, self.registry.structs@[si as int].field_map@[f].0@);
                &&& r.elem == ProjectionElem::Field(self.registry.structs@[si as int].field_map@[f].1, fty)
                &&& first_local(r.base) is Some
                &&& exists|l: Local, k: int|
                    0 <= k < ms.len() && #[trigger] child_of(
                        self.decl_map.model(),
                        l,
                        node_type(self.hir.items@, ms[k].0)->0,
                    ) == Some(first_local(r.base)->0)
            })),
            split_of(self.ty2structsplit.entries@, lvalue_ty(tcx, self.mir.local_decls@, p.base)->0) matches Some(si) ==> (p.elem matches ProjectionElem::Field(f, fty) ==> ({
                let ms = matching_items(self.hir.items@, self.registry.structs@[si as int].field_map@[f].0@);
                let bl = first_local(p.base)->0;
                let found = child_of(self.decl_map.model(), bl, node_type(self.hir.items@, ms[0].0)->0);
                ms.len() == 1 && found is Some ==> self.spec_visit_projection(tcx, p) == LvalueProjection {
                    base: rename_lvalue(p.base, bl, found->0),
                    elem: ProjectionElem::Field(self.registry.structs@[si as int].field_map@[f].1, fty),
                }
            })),
            split_of(self.ty2structsplit.entries@, lvalue_ty(tcx, self.mir.local_decls@, p.base)->0) is None ==> self.spec_visit_projection(tcx, p) == p,
            !(p.elem is Field) ==> self.spec_visit_projection(tcx, p) == p,
    {
        if let Some(si) = self.base_split(tcx, p) {
            if let ProjectionElem::Field(f, fty) = p.elem {
                let (tname, index) = self.field_target(si, f);
                let ms = matching_items(self.hir.items@, tname@);
                self.lemma_redirect_steps_field(p, ms, index, fty);
                if ms.len() == 1 {
                    assert(ms.drop_last().len() == 0);
                    assert(self.redirect_steps(p, ms.drop_last(), index, fty) == p);
                    assert(ms.last() == ms[0]);
                }
            }
        }
    }

    /// Takes the redirecting steps of `redirect_steps` for the items
    /// `nodes`, one after the other.
    fn redirect(&self, p: LvalueProjection, nodes: &Vec<(u64, Ty)>, index: usize, fty: Ty) -> (r: LvalueProjection)
        requires
            self.redirect_ok(p, nodes@, index, fty),
            forall|i: int| 0 <= i < nodes@.len() ==> node_type(self.hir.items@, (#[trigger] nodes@[i]).0) is Some,
        ensures
            r == self.redirect_steps(p, nodes@, index, fty),
    {
        let ghost ms = nodes@;
        let ghost p0 = p;
        let mut q = p;
        for i in 0..nodes.len()
            invariant
                ms == nodes@,
                self.redirect_ok(p0, ms, index, fty),
                forall|j: int| 0 <= j < ms.len() ==> node_type(self.hir.items@, (#[trigger] ms[j]).0) is Some,
                q == self.redirect_steps(p0, ms.take(i as int), index, fty),
        {
            proof {
                self.lemma_redirect_ok_prefix(p0, ms, index, fty, i + 1);
                assert(ms.take(i + 1).drop_last() =~= ms.take(i as int));
                assert(ms.take(i + 1).last() == ms[i as int]);
            }
            let child_ty = self.hir.item_type(nodes[i].0).unwrap();
            let base_local = local_finder(&q.base).unwrap();
            let cs = self.decl_map.get(base_local).unwrap();
            match find_child(cs, child_ty) {
                Some(target_local) => {
                    q = LvalueProjection {
                        base: local_replacer(&q.base, base_local, target_local),
                        elem: ProjectionElem::Field(index, fty),
                    };
                },
                None => {},
            }
        }
        proof {
            assert(ms.take(ms.len() as int) =~= ms);
        }
        q
    }

    /// Whether the redirecting steps for the items `nodes` do not fail.
    fn check_redirect(&self, p: &LvalueProjection, nodes: &Vec<(u64, Ty)>, index: usize, fty: Ty) -> (r: bool)
        requires
            forall|i: int| 0 <= i < nodes@.len() ==> node_type(self.hir.items@, (#[trigger] nodes@[i]).0) is Some,
        ensures
            r == self.redirect_ok(*p, nodes@, index, fty),
    {
        let ghost ms = nodes@;
        let ghost p0 = *p;
        let mut q = crate::mir::copy_lvalue(&p.base);
        let mut q_elem = crate::mir::copy_elem(&p.elem);
        for i in 0..nodes.len()
            invariant
                ms == nodes@,
                p0 == *p,
                forall|j: int| 0 <= j < ms.len() ==> node_type(self.hir.items@, (#[trigger] ms[j]).0) is Some,
                self.redirect_ok(p0, ms.take(i as int), index, fty),
                (LvalueProjection { base: q, elem: q_elem }) == self.redirect_steps(p0, ms.take(i as int), index, fty),
        {
            proof {
                assert(ms.take(i + 1).drop_last() =~= ms.take(i as int));
                assert(ms.take(i + 1).last() == ms[i as int]);
            }
            let child_ty = self.hir.item_type(nodes[i].0).unwrap();
            let base_local = match local_finder(&q) {
                Some(l) => l,
                None => {
                    proof {
                        if self.redirect_ok(p0, ms, index, fty) {
                            self.lemma_redirect_ok_prefix(p0, ms, index, fty, i + 1);
                        }
                    }
                    return false;
                },
            };
            let cs = match self.decl_map.get(base_local) {
                Some(cs) => cs,
                None => {
                    proof {
                        if self.redirect_ok(p0, ms, index, fty) {
                            self.lemma_redirect_ok_prefix(p0, ms, index, fty, i + 1);
                        }
                    }
                    return false;
                },
            };
            match find_child(cs, child_ty) {
                Some(target_local) => {
                    q = local_replacer(&q, base_local, target_local);
                    q_elem = ProjectionElem::Field(index, fty);
                },
                None => {},
            }
        }
        proof {
            assert(ms.take(ms.len() as int) =~= ms);
        }
        true
    }

    /// Redirects projection `p` as `spec_visit_projection` says.
    pub fn visit_projection(&self, tcx: &TyCtxt, p: LvalueProjection) -> (r: LvalueProjection)
        requires
            tcx.wf(),
            self.projection_ok(tcx, p),
        ensures
            r == self.spec_visit_projection(tcx, p),
    {
        let base_ty = lvalue_type(tcx, &self.mir.local_decls, &p.base);
        match self.ty2structsplit.get(base_ty) {
            Some(si) => match p.elem {
                ProjectionElem::Field(field, field_ty) => {
                    let split = &self.registry.structs[si];
                    let target = split.field_map.get(&field).unwrap();
                    let index = target.1;
                    let nodes = self.hir.nodes_matching_suffix(&target.0);
                    proof {
                        crate::hir::lemma_matching_items_found(self.hir.items@, target.0@);
                    }
                    self.redirect(p, &nodes, index, field_ty)
                },
                _ => p,
            },
            None => p,
        }
    }

    /// Visits a place: a projection is redirected.
    pub fn visit_lvalue(&self, tcx: &TyCtxt, lv: Lvalue) -> (r: Lvalue)
        requires
            tcx.wf(),
            self.lvalue_ok(tcx, lv),
        ensures
            r == self.spec_visit_lvalue(tcx, lv),
    {
        match lv {
            Lvalue::Projection(p) => Lvalue::Projection(Box::new(self.visit_projection(tcx, *p))),
            other => other,
        }
    }

    fn visit_operand(&self, tcx: &TyCtxt, op: Operand) -> (r: Operand)
        requires
            tcx.wf(),
            self.operand_ok(tcx, op),
        ensures
            r == self.spec_visit_operand(tcx, op),
    {
        match op {
            Operand::Consume(lv) => Operand::Consume(self.visit_lvalue(tcx, lv)),
            other => other,
        }
    }

    fn visit_operands(&self, tcx: &TyCtxt, ops: Vec<Operand>) -> (r: Vec<Operand>)
        requires
            tcx.wf(),
            forall|i: int| 0 <= i < ops@.len() ==> self.operand_ok(tcx, #[trigger] ops@[i]),
        ensures
            r@.len() == ops@.len(),
            forall|i: int| 0 <= i < ops@.len() ==> #[trigger] r@[i] == self.spec_visit_operand(tcx, ops@[i]),
    {
        let ghost all = ops@;
        let mut rest = ops;
        let mut rev: Vec<Operand> = Vec::new();
        while rest.len() > 0
            invariant
                tcx.wf(),
                rest@.len() + rev@.len() == all.len(),
                rest@ == all.take(rest@.len() as int),
                forall|i: int| 0 <= i < all.len() ==> self.operand_ok(tcx, #[trigger] all[i]),
                forall|k: int|
                    0 <= k < rev@.len() ==> #[trigger] rev@[k] == self.spec_visit_operand(
                        tcx,
                        all[all.len() - 1 - k],
                    ),
            decreases rest@.len(),
        {
            let ghost n = rest@.len();
            let op = rest.pop().unwrap();
            proof {
                assert(op == all[n - 1]);
                assert(rest@ =~= all.take(rest@.len() as int));
            }
            rev.push(self.visit_operand(tcx, op));
        }
        let mut r: Vec<Operand> = Vec::new();
        let m = rev.len();
        while rev.len() > 0
            invariant
                m == all.len(),
                rev@.len() + r@.len() == m,
                forall|k: int|
                    0 <= k < rev@.len() ==> #[trigger] rev@[k] == self.spec_visit_operand(tcx, all[m - 1 - k]),
                forall|i: int| 0 <= i < r@.len() ==> #[trigger] r@[i] == self.spec_visit_operand(tcx, all[i]),
            decreases rev@.len(),
        {
            let ghost n = rev@.len();
            let op = rev.pop().unwrap();
            proof {
                assert(op == self.spec_visit_operand(tcx, all[m - n]));
            }
            r.push(op);
        }
        r
    }

    fn visit_rvalue(&self, tcx: &TyCtxt, rv: Rvalue) -> (r: Rvalue)
        requires
            tcx.wf(),
            self.rvalue_ok(tcx, rv),
        ensures
            self.rvalue_visited(tcx, rv, r),
    {
        match rv {
            Rvalue::Use(o) => Rvalue::Use(self.visit_operand(tcx, o)),
            Rvalue::Ref(r, m, lv) => Rvalue::Ref(r, m, self.visit_lvalue(tcx, lv)),
            Rvalue::Len(lv) => Rvalue::Len(self.visit_lvalue(tcx, lv)),
            Rvalue::Cast(o, t) => Rvalue::Cast(self.visit_operand(tcx, o), t),
            Rvalue::BinaryOp(k, a, b) => Rvalue::BinaryOp(k, self.visit_operand(tcx, a), self.visit_operand(tcx, b)),
            Rvalue::UnaryOp(k, o) => Rvalue::UnaryOp(k, self.visit_operand(tcx, o)),
            Rvalue::Discriminant(lv) => Rvalue::Discriminant(self.visit_lvalue(tcx, lv)),
            Rvalue::Aggregate(k, ops) => Rvalue::Aggregate(k, self.visit_operands(tcx, ops)),
        }
    }

    /// Visits the places of a statement.
    pub fn visit_statement(&self, tcx: &TyCtxt, s: Statement) -> (r: Statement)
        requires
            tcx.wf(),
            self.statement_ok(tcx, s),
        ensures
            self.statement_visited(tcx, s, r),
    {
        let kind = match s.kind {
            StatementKind::Assign(lv, rv) => StatementKind::Assign(self.visit_lvalue(tcx, lv), self.visit_rvalue(tcx, rv)),
            StatementKind::StorageLive(lv) => StatementKind::StorageLive(self.visit_lvalue(tcx, lv)),
            StatementKind::StorageDead(lv) => StatementKind::StorageDead(self.visit_lvalue(tcx, lv)),
            StatementKind::Nop => StatementKind::Nop,
        };
        Statement { source_info: s.source_info, kind }
    }

    /// Visits the places of a terminator.
    pub fn visit_terminator(&self, tcx: &TyCtxt, t: Option<Terminator>) -> (r: Option<Terminator>)
        requires
            tcx.wf(),
            self.terminator_ok(tcx, t),
        ensures
            self.terminator_visited(tcx, t, r),
    {
        match t {
            Some(Terminator { source_info, kind }) => {
                let kind2 = match kind {
                    TerminatorKind::Call { func, args, destination, cleanup } => {
                        let func2 = self.visit_operand(tcx, func);
                        let args2 = self.visit_operands(tcx, args);
                        let dest2 = match destination {
                            Some((lv, bb)) => Some((self.visit_lvalue(tcx, lv), bb)),
                            None => None,
                        };
                        TerminatorKind::Call { func: func2, args: args2, destination: dest2, cleanup }
                    },
                    other => other,
                };
                Some(Terminator { source_info, kind: kind2 })
            },
            None => None,
        }
    }
}

impl<'a> StructFieldReplacer<'a> {
    /// `d2` is block `d` with every statement and its terminator visited.
    pub open spec fn block_visited(&self, tcx: &TyCtxt, d: BasicBlockData, d2: BasicBlockData) -> bool {
        &&& d2.statements@.len() == d.statements@.len()
        &&& forall|j: int|
            0 <= j < d.statements@.len() ==> self.statement_visited(
                tcx,
                d.statements@[j],
                #[trigger] d2.statements@[j],
            )
        &&& self.terminator_visited(tcx, d.terminator, d2.terminator)
        &&& d2.is_cleanup == d.is_cleanup
    }

    pub open spec fn block_ok(&self, tcx: &TyCtxt, d: BasicBlockData) -> bool {
        &&& forall|j: int| 0 <= j < d.statements@.len() ==> self.statement_ok(tcx, #[trigger] d.statements@[j])
        &&& self.terminator_ok(tcx, d.terminator)
    }

    fn visit_statements(&self, tcx: &TyCtxt, stmts: Vec<Statement>) -> (r: Vec<Statement>)
        requires
            tcx.wf(),
            forall|i: int| 0 <= i < stmts@.len() ==> self.statement_ok(tcx, #[trigger] stmts@[i]),
        ensures
            r@.len() == stmts@.len(),
            forall|i: int| 0 <= i < stmts@.len() ==> self.statement_visited(tcx, stmts@[i], #[trigger] r@[i]),
    {
        let ghost all = stmts@;
        let mut rest = stmts;
        let mut rev: Vec<Statement> = Vec::new();
        while rest.len() > 0
            invariant
                tcx.wf(),
                rest@.len() + rev@.len() == all.len(),
                rest@ == all.take(rest@.len() as int),
                forall|i: int| 0 <= i < all.len() ==> self.statement_ok(tcx, #[trigger] all[i]),
                forall|k: int|
                    0 <= k < rev@.len() ==> self.statement_visited(tcx, all[all.len() - 1 - k], #[trigger] rev@[k]),
            decreases rest@.len(),
        {
            let ghost n = rest@.len();
            let st = rest.pop().unwrap();
            proof {
                assert(st == all[n - 1]);
                assert(rest@ =~= all.take(rest@.len() as int));
            }
            rev.push(self.visit_statement(tcx, st));
        }
        let mut r: Vec<Statement> = Vec::new();
        let m = rev.len();
        while rev.len() > 0
            invariant
                m == all.len(),
                rev@.len() + r@.len() == m,
                forall|k: int|
                    0 <= k < rev@.len() ==> self.statement_visited(tcx, all[m - 1 - k], #[trigger] rev@[k]),
                forall|i: int| 0 <= i < r@.len() ==> self.statement_visited(tcx, all[i], #[trigger] r@[i]),
            decreases rev@.len(),
        {
            let ghost n = rev@.len();
            let st = rev.pop().unwrap();
            proof {
                assert(self.statement_visited(tcx, all[m - n], st));
            }
            r.push(st);
        }
        r
    }

    /// Visits the places of a block.
    pub fn visit_basic_block_data(&self, tcx: &TyCtxt, data: BasicBlockData) -> (r: BasicBlockData)
        requires
            tcx.wf(),
            self.block_ok(tcx, data),
        ensures
            self.block_visited(tcx, data, r),
    {
        let BasicBlockData { statements, terminator, is_cleanup } = data;
        let statements2 = self.visit_statements(tcx, statements);
        let terminator2 = self.visit_terminator(tcx, terminator);
        BasicBlockData { statements: statements2, terminator: terminator2, is_cleanup }
    }

    /// Redirects the field accesses of every place in the function, in
    /// its statements and in its calls.
    pub fn visit_mir(&self, tcx: &TyCtxt, mir: &mut Mir)
        requires
            tcx.wf(),
            forall|b: int| 0 <= b < old(mir).basic_blocks@.len() ==> self.block_ok(tcx, #[trigger] old(mir).basic_blocks@[b]),
        ensures
            final(mir).local_decls == old(mir).local_decls,
            final(mir).arg_count == old(mir).arg_count,
            final(mir).return_ty == old(mir).return_ty,
            final(mir).basic_blocks@.len() == old(mir).basic_blocks@.len(),
            forall|b: int|
                0 <= b < old(mir).basic_blocks@.len() ==> self.block_visited(
                    tcx,
                    old(mir).basic_blocks@[b],
                    #[trigger] final(mir).basic_blocks@[b],
                ),
    {
        let ghost blocks0 = mir.basic_blocks@;
        let nb = mir.basic_blocks.len();
        for b in 0..nb
            invariant
                tcx.wf(),
                nb == blocks0.len(),
                blocks0 == old(mir).basic_blocks@,
                mir.local_decls == old(mir).local_decls,
                mir.arg_count == old(mir).arg_count,
                mir.return_ty == old(mir).return_ty,
                mir.basic_blocks@.len() == nb,
                forall|k: int| 0 <= k < nb ==> self.block_ok(tcx, #[trigger] blocks0[k]),
                forall|k: int| b <= k < nb ==> #[trigger] mir.basic_blocks@[k] == blocks0[k],
                forall|k: int| 0 <= k < b ==> self.block_visited(tcx, blocks0[k], #[trigger] mir.basic_blocks@[k]),
        {
            let ghost before = mir.basic_blocks@;
            let data = mir.basic_blocks.remove(b);
            let data2 = self.visit_basic_block_data(tcx, data);
            mir.basic_blocks.insert(b, data2);
            proof {
                assert forall|k: int| 0 <= k < nb && k != b implies #[trigger] mir.basic_blocks@[k] == before[k] by {
                    if k < b {
                        assert(before.remove(b as int)[k] == before[k]);
                    } else {
                        assert(before.remove(b as int)[k - 1] == before[k]);
                    }
                }
            }
        }
    }
}

} // verus!

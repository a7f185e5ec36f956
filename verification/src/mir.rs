//! The MIR of a function, as far as the splitting passes read and write
//! it: locals with their types, basic blocks of statements ending in a
//! terminator, and the places (lvalues) and operands they use.
use vstd::prelude::*;

use crate::ty::{AdtId, Ty, TyCtxt, TyKind};

verus! {

/// A local variable, by index; local 0 holds the return value and locals
/// `1..=arg_count` the arguments.
pub type Local = usize;

/// A basic block, by index; block 0 is where the function starts.
pub type BasicBlock = usize;

/// The local that holds the return value.
pub const RETURN_POINTER: Local = 0;

/// The block where the function starts.
pub const START_BLOCK: BasicBlock = 0;

/// Where a statement comes from.
#[derive(Clone, Copy, Debug, PartialEq, Eq, Structural)]
pub struct SourceInfo {
    pub span: u64,
    pub scope: u32,
}

/// The source information of statements the passes add: no span, in the
/// scope of the arguments.
pub open spec fn spec_dummy_source_info() -> SourceInfo {
    SourceInfo { span: 0, scope: 0 }
}

/// The source information of statements the passes add.
pub fn dummy_source_info() -> (r: SourceInfo)
    ensures
        r == spec_dummy_source_info(),
{
    SourceInfo { span: 0, scope: 0 }
}

/// A static item and its type.
#[derive(Clone, Copy, Debug, PartialEq, Eq, Structural)]
pub struct Static {
    pub def_id: u64,
    pub ty: Ty,
}

/// A place.
#[derive(Debug)]
pub enum Lvalue {
    Local(Local),
    Static(Static),
    Projection(Box<LvalueProjection>),
}

/// A place inside another place.
#[derive(Debug)]
pub struct LvalueProjection {
    pub base: Lvalue,
    pub elem: ProjectionElem,
}

/// How a projection goes inside its base.
#[derive(Debug)]
pub enum ProjectionElem {
    /// `*base`.
    Deref,
    /// Field `n` of `base`, of the given type.
    Field(usize, Ty),
    /// `base[i]`.
    Index(Operand),
    /// `base` as the given variant of an enum.
    Downcast(AdtId, usize),
}

/// A constant operand: an integer of the given type.
#[derive(Clone, Copy, Debug, PartialEq, Eq, Structural)]
pub struct Constant {
    pub ty: Ty,
    pub value: u128,
}

/// An operand.
#[derive(Debug)]
pub enum Operand {
    Consume(Lvalue),
    Constant(Constant),
}

/// What an aggregate builds.
#[derive(Clone, Copy, Debug, PartialEq, Eq, Structural)]
pub enum AggregateKind {
    /// An array whose elements have the given type.
    Array(Ty),
    Tuple,
    /// A variant of an ADT.
    Adt(AdtId, usize),
}

/// The right side of an assignment.
#[derive(Debug)]
pub enum Rvalue {
    Use(Operand),
    /// A borrow of a place in a region, shared (`false`) or mutable.
    Ref(u32, bool, Lvalue),
    Len(Lvalue),
    Cast(Operand, Ty),
    /// A binary operation, by its number.
    BinaryOp(u8, Operand, Operand),
    /// A unary operation, by its number.
    UnaryOp(u8, Operand),
    Discriminant(Lvalue),
    Aggregate(AggregateKind, Vec<Operand>),
}

/// What a statement does.
#[derive(Debug)]
pub enum StatementKind {
    Assign(Lvalue, Rvalue),
    StorageLive(Lvalue),
    StorageDead(Lvalue),
    Nop,
}

/// Where a statement stands: its block and its index in the block.
#[derive(Clone, Copy, Debug, PartialEq, Eq, Structural)]
pub struct Location {
    pub block: BasicBlock,
    pub statement_index: usize,
}

/// A statement.
#[derive(Debug)]
pub struct Statement {
    pub source_info: SourceInfo,
    pub kind: StatementKind,
}

/// How a block ends.
#[derive(Debug)]
pub enum TerminatorKind {
    Goto { target: BasicBlock },
    Return,
    Resume,
    Unreachable,
    Call {
        func: Operand,
        args: Vec<Operand>,
        destination: Option<(Lvalue, BasicBlock)>,
        cleanup: Option<BasicBlock>,
    },
}

/// The end of a block.
#[derive(Debug)]
pub struct Terminator {
    pub source_info: SourceInfo,
    pub kind: TerminatorKind,
}

/// A basic block.
#[derive(Debug)]
pub struct BasicBlockData {
    pub statements: Vec<Statement>,
    pub terminator: Option<Terminator>,
    pub is_cleanup: bool,
}

/// The declaration of a local.
#[derive(Clone, Copy, Debug, PartialEq, Eq, Structural)]
pub struct LocalDecl {
    pub ty: Ty,
}

/// The MIR of a function.
#[derive(Debug)]
pub struct Mir {
    pub basic_blocks: Vec<BasicBlockData>,
    pub local_decls: Vec<LocalDecl>,
    pub arg_count: usize,
    pub return_ty: Ty,
}

impl LocalDecl {
    /// A temporary of type `ty`.
    pub fn new_temp(ty: Ty) -> (r: LocalDecl)
        ensures
            r.ty == ty,
    {
        LocalDecl { ty }
    }
}

impl Lvalue {
    /// Field `f`, of type `ty`, of this place.
    pub fn field(self, f: usize, ty: Ty) -> (r: Lvalue)
        ensures
            r == Lvalue::Projection(
                Box::new(LvalueProjection { base: self, elem: ProjectionElem::Field(f, ty) }),
            ),
    {
        Lvalue::Projection(Box::new(LvalueProjection { base: self, elem: ProjectionElem::Field(f, ty) }))
    }
}

/// A copy of a place.
pub fn copy_lvalue(lv: &Lvalue) -> (r: Lvalue)
    ensures
        r == *lv,
    decreases lv,
{
    match lv {
        Lvalue::Local(l) => Lvalue::Local(*l),
        Lvalue::Static(s) => Lvalue::Static(*s),
        Lvalue::Projection(p) => {
            let base = copy_lvalue(&p.base);
            let elem = copy_elem(&p.elem);
            Lvalue::Projection(Box::new(LvalueProjection { base, elem }))
        },
    }
}

/// A copy of a projection element.
pub fn copy_elem(e: &ProjectionElem) -> (r: ProjectionElem)
    ensures
        r == *e,
    decreases e,
{
    match e {
        ProjectionElem::Deref => ProjectionElem::Deref,
        ProjectionElem::Field(f, t) => ProjectionElem::Field(*f, *t),
        ProjectionElem::Index(op) => ProjectionElem::Index(copy_operand(op)),
        ProjectionElem::Downcast(a, v) => ProjectionElem::Downcast(*a, *v),
    }
}

/// A copy of an operand.
pub fn copy_operand(op: &Operand) -> (r: Operand)
    ensures
        r == *op,
    decreases op,
{
    match op {
        Operand::Consume(lv) => Operand::Consume(copy_lvalue(lv)),
        Operand::Constant(c) => Operand::Constant(*c),
    }
}

/// The type of a place, when it has one: a local has its declared type, a
/// static its type, a dereference the pointee of a reference or raw
/// pointer, an index the element of an array or slice, a field the type it
/// carries, and a downcast the type of its ADT.
pub open spec fn lvalue_ty(tcx: &TyCtxt, decls: Seq<LocalDecl>, lv: Lvalue) -> Option<Ty>
    decreases lv,
{
    match lv {
        Lvalue::Local(l) => if l < decls.len() {
            Some(decls[l as int].ty)
        } else {
            None
        },
        Lvalue::Static(s) => Some(s.ty),
        Lvalue::Projection(p) => match lvalue_ty(tcx, decls, p.base) {
            Some(bt) => elem_ty(tcx, bt, p.elem),
            None => None,
        },
    }
}

/// The type of projecting a place of type `bt` by `elem`.
pub open spec fn elem_ty(tcx: &TyCtxt, bt: Ty, elem: ProjectionElem) -> Option<Ty> {
    if !tcx.has(bt) {
        None
    } else {
        match elem {
            ProjectionElem::Deref => match tcx.kind(bt) {
                TyKind::Ref(_, t, _) => Some(t),
                TyKind::RawPtr(t, _) => Some(t),
                _ => None,
            },
            ProjectionElem::Field(_, t) => Some(t),
            ProjectionElem::Index(_) => match tcx.kind(bt) {
                TyKind::Array(t, _) => Some(t),
                TyKind::Slice(t) => Some(t),
                _ => None,
            },
            ProjectionElem::Downcast(a, _) => match tcx.kind(bt) {
                TyKind::Adt(a2, _) => if a2 == a {
                    Some(bt)
                } else {
                    None
                },
                _ => None,
            },
        }
    }
}

/// The type of an operand, when it has one.
pub open spec fn operand_ty(tcx: &TyCtxt, decls: Seq<LocalDecl>, op: Operand) -> Option<Ty> {
    match op {
        Operand::Consume(lv) => lvalue_ty(tcx, decls, lv),
        Operand::Constant(c) => Some(c.ty),
    }
}

/// The type of place `lv`.
pub fn lvalue_type(tcx: &TyCtxt, decls: &Vec<LocalDecl>, lv: &Lvalue) -> (r: Ty)
    requires
        lvalue_ty(tcx, decls@, *lv) is Some,
        tcx.wf(),
    ensures
        Some(r) == lvalue_ty(tcx, decls@, *lv),
    decreases lv,
{
    match lv {
        Lvalue::Local(l) => decls[*l].ty,
        Lvalue::Static(s) => s.ty,
        Lvalue::Projection(p) => {
            let bt = lvalue_type(tcx, decls, &p.base);
            match &p.elem {
                ProjectionElem::Deref => match tcx.kind_of(bt) {
                    TyKind::Ref(_, t, _) => t,
                    TyKind::RawPtr(t, _) => t,
                    _ => bt,
                },
                ProjectionElem::Field(_, t) => *t,
                ProjectionElem::Index(_) => match tcx.kind_of(bt) {
                    TyKind::Array(t, _) => t,
                    TyKind::Slice(t) => t,
                    _ => bt,
                },
                ProjectionElem::Downcast(_, _) => bt,
            }
        },
    }
}

/// The type of operand `op`.
pub fn operand_type(tcx: &TyCtxt, decls: &Vec<LocalDecl>, op: &Operand) -> (r: Ty)
    requires
        operand_ty(tcx, decls@, *op) is Some,
        tcx.wf(),
    ensures
        Some(r) == operand_ty(tcx, decls@, *op),
{
    match op {
        Operand::Consume(lv) => lvalue_type(tcx, decls, lv),
        Operand::Constant(c) => c.ty,
    }
}

/// The type of place `lv`, or `None` where it has none.
pub fn try_lvalue_type(tcx: &TyCtxt, decls: &Vec<LocalDecl>, lv: &Lvalue) -> (r: Option<Ty>)
    ensures
        r == lvalue_ty(tcx, decls@, *lv),
    decreases lv,
{
    match lv {
        Lvalue::Local(l) => if *l < decls.len() {
            Some(decls[*l].ty)
        } else {
            None
        },
        Lvalue::Static(s) => Some(s.ty),
        Lvalue::Projection(p) => match try_lvalue_type(tcx, decls, &p.base) {
            Some(bt) => {
                if bt.id >= tcx.kinds.len() {
                    None
                } else {
                    match &p.elem {
                        ProjectionElem::Deref => match tcx.kind_of(bt) {
                            TyKind::Ref(_, t, _) => Some(t),
                            TyKind::RawPtr(t, _) => Some(t),
                            _ => None,
                        },
                        ProjectionElem::Field(_, t) => Some(*t),
                        ProjectionElem::Index(_) => match tcx.kind_of(bt) {
                            TyKind::Array(t, _) => Some(t),
                            TyKind::Slice(t) => Some(t),
                            _ => None,
                        },
                        ProjectionElem::Downcast(a, _) => match tcx.kind_of(bt) {
                            TyKind::Adt(a2, _) => if a2 == *a {
                                Some(bt)
                            } else {
                                None
                            },
                            _ => None,
                        },
                    }
                }
            },
            None => None,
        },
    }
}

/// The type of operand `op`, or `None` where it has none.
pub fn try_operand_type(tcx: &TyCtxt, decls: &Vec<LocalDecl>, op: &Operand) -> (r: Option<Ty>)
    ensures
        r == operand_ty(tcx, decls@, *op),
{
    match op {
        Operand::Consume(lv) => try_lvalue_type(tcx, decls, lv),
        Operand::Constant(c) => Some(c.ty),
    }
}

/// Puts `stmts` in front of the statements of block `b`.
pub fn prepend_statements(blocks: &mut Vec<BasicBlockData>, b: BasicBlock, stmts: Vec<Statement>)
    requires
        b < old(blocks)@.len(),
    ensures
        final(blocks)@.len() == old(blocks)@.len(),
        final(blocks)@[b as int].statements@ == stmts@ + old(blocks)@[b as int].statements@,
        final(blocks)@[b as int].terminator == old(blocks)@[b as int].terminator,
        final(blocks)@[b as int].is_cleanup == old(blocks)@[b as int].is_cleanup,
        forall|i: int| 0 <= i < final(blocks)@.len() && i != b ==> final(blocks)@[i] == old(blocks)@[i],
{
    let ghost before = blocks@;
    let mut data = blocks.remove(b);
    let mut front = stmts;
    front.append(&mut data.statements);
    data.statements = front;
    blocks.insert(b, data);
    proof {
        assert forall|i: int| 0 <= i < blocks@.len() && i != b implies blocks@[i] == before[i] by {
            if i < b {
                assert(blocks@[i] == before.remove(b as int)[i]);
            } else {
                assert(blocks@[i] == before.remove(b as int)[i - 1]);
            }
        }
    }
}

/// Puts `stmts` after the statements of block `b`.
pub fn append_statements(blocks: &mut Vec<BasicBlockData>, b: BasicBlock, stmts: Vec<Statement>)
    requires
        b < old(blocks)@.len(),
    ensures
        final(blocks)@.len() == old(blocks)@.len(),
        final(blocks)@[b as int].statements@ == old(blocks)@[b as int].statements@ + stmts@,
        final(blocks)@[b as int].terminator == old(blocks)@[b as int].terminator,
        final(blocks)@[b as int].is_cleanup == old(blocks)@[b as int].is_cleanup,
        forall|i: int| 0 <= i < final(blocks)@.len() && i != b ==> final(blocks)@[i] == old(blocks)@[i],
{
    let ghost before = blocks@;
    let mut data = blocks.remove(b);
    let mut back = stmts;
    data.statements.append(&mut back);
    blocks.insert(b, data);
    proof {
        assert forall|i: int| 0 <= i < blocks@.len() && i != b implies blocks@[i] == before[i] by {
            if i < b {
                assert(blocks@[i] == before.remove(b as int)[i]);
            } else {
                assert(blocks@[i] == before.remove(b as int)[i - 1]);
            }
        }
    }
}

/// Two functions are the same: the same argument count, return type and
/// locals, and blocks with the same statements, terminators and cleanup
/// marks.
pub open spec fn same_function(m1: &Mir, m2: &Mir) -> bool {
    &&& m1.arg_count == m2.arg_count
    &&& m1.return_ty == m2.return_ty
    &&& m1.local_decls@ == m2.local_decls@
    &&& m1.basic_blocks@.len() == m2.basic_blocks@.len()
    &&& forall|b: int|
        0 <= b < m1.basic_blocks@.len() ==> {
            &&& (#[trigger] m1.basic_blocks@[b]).statements@ == m2.basic_blocks@[b].statements@
            &&& m1.basic_blocks@[b].terminator == m2.basic_blocks@[b].terminator
            &&& m1.basic_blocks@[b].is_cleanup == m2.basic_blocks@[b].is_cleanup
        }
}

} // verus!

//! Types, interned in a type context: a type is the index of its kind in
//! the context, and the context holds each kind once, so two types are
//! the same exactly when their indices are.
use vstd::prelude::*;

verus! {

/// The definition an ADT type refers to.
pub type AdtId = u64;

/// An interned type.
#[derive(Clone, Copy, Debug, PartialEq, Eq, Structural)]
pub struct Ty {
    pub id: usize,
}

/// An interned list of types (the substitutions of an ADT, the elements of
/// a tuple).
#[derive(Clone, Copy, Debug, PartialEq, Eq, Structural)]
pub struct TyList {
    pub id: usize,
}

/// The kinds of types that hold other types only through a definition's
/// substitutions or a signature.
#[derive(Clone, Copy, Debug, PartialEq, Eq, Structural)]
pub enum OtherKind {
    Projection,
    Dynamic,
    Anon,
    Closure,
    FnDef,
    FnPtr,
}

/// The kind of a type.
#[derive(Clone, Copy, Debug, PartialEq, Eq, Structural)]
pub enum TyKind {
    Bool,
    Char,
    /// A signed integer of the given width in bits (0 for `isize`).
    Int(u8),
    /// An unsigned integer of the given width in bits (0 for `usize`).
    Uint(u8),
    /// A floating-point number of the given width in bits.
    Float(u8),
    Str,
    Never,
    Param(u32),
    Infer(u32),
    Error,
    /// `[T; n]`.
    Array(Ty, usize),
    /// `[T]`.
    Slice(Ty),
    /// `*const T` (`false`) or `*mut T` (`true`).
    RawPtr(Ty, bool),
    /// `&'r T` (`false`) or `&'r mut T` (`true`), with the region's number.
    Ref(u32, Ty, bool),
    /// A struct or enum with its substitutions.
    Adt(AdtId, TyList),
    /// A tuple; the flag is the one rustc keeps on tuples made for
    /// defaulted type parameters.
    Tuple(TyList, bool),
    /// A projection, trait object, anonymous type, closure, function item
    /// or function pointer: the number of its definition (or signature),
    /// and the types inside it (its substitutions, or the signature's
    /// inputs and output).
    Other(OtherKind, u64, TyList),
}

/// A type context: the kinds and lists it has interned.
pub struct TyCtxt {
    pub kinds: Vec<TyKind>,
    pub lists: Vec<Vec<Ty>>,
}

/// The types inside kind `k` are below `bound`, and its lists exist.
pub open spec fn kind_refs_below(k: TyKind, bound: nat, lists: Seq<Vec<Ty>>) -> bool {
    match k {
        TyKind::Array(t, _) => t.id < bound,
        TyKind::Slice(t) => t.id < bound,
        TyKind::RawPtr(t, _) => t.id < bound,
        TyKind::Ref(_, t, _) => t.id < bound,
        TyKind::Adt(_, l) => l.id < lists.len() && forall|i: int|
            0 <= i < lists[l.id as int]@.len() ==> (#[trigger] lists[l.id as int]@[i]).id < bound,
        TyKind::Tuple(l, _) => l.id < lists.len() && forall|i: int|
            0 <= i < lists[l.id as int]@.len() ==> (#[trigger] lists[l.id as int]@[i]).id < bound,
        TyKind::Other(_, _, l) => l.id < lists.len() && forall|i: int|
            0 <= i < lists[l.id as int]@.len() ==> (#[trigger] lists[l.id as int]@[i]).id < bound,
        _ => true,
    }
}

impl TyCtxt {
    /// Whether `t` is a type of this context.
    pub open spec fn has(&self, t: Ty) -> bool {
        t.id < self.kinds@.len()
    }

    /// Whether `l` is a list of this context.
    pub open spec fn has_list(&self, l: TyList) -> bool {
        l.id < self.lists@.len()
    }

    /// The kind of type `t`.
    pub open spec fn kind(&self, t: Ty) -> TyKind {
        self.kinds@[t.id as int]
    }

    /// The types of list `l`.
    pub open spec fn list(&self, l: TyList) -> Seq<Ty> {
        self.lists@[l.id as int]@
    }

    /// Whether all types of `tys` are types of this context.
    pub open spec fn has_all(&self, tys: Seq<Ty>) -> bool {
        forall|i: int| 0 <= i < tys.len() ==> self.has(#[trigger] tys[i])
    }

    /// The context is well formed: a kind refers only to types interned
    /// before it, and no kind and no list is interned twice.
    pub open spec fn wf(&self) -> bool {
        &&& forall|i: int|
            0 <= i < self.kinds@.len() ==> kind_refs_below(
                #[trigger] self.kinds@[i],
                i as nat,
                self.lists@,
            )
        &&& forall|i: int, j: int|
            0 <= i < self.kinds@.len() && 0 <= j < self.kinds@.len() && i != j ==> #[trigger] self.kinds@[i]
                != #[trigger] self.kinds@[j]
        &&& forall|i: int, j: int|
            0 <= i < self.lists@.len() && 0 <= j < self.lists@.len() && i != j ==> (#[trigger] self.lists@[i])@
                != (#[trigger] self.lists@[j])@
        &&& forall|i: int| 0 <= i < self.lists@.len() ==> self.has_all((#[trigger] self.lists@[i])@)
    }

    /// This context holds every kind and list of `old`, at the same place.
    pub open spec fn extends(&self, old: &TyCtxt) -> bool {
        &&& old.kinds@.len() <= self.kinds@.len()
        &&& old.lists@.len() <= self.lists@.len()
        &&& forall|i: int| 0 <= i < old.kinds@.len() ==> self.kinds@[i] == #[trigger] old.kinds@[i]
        &&& forall|i: int| 0 <= i < old.lists@.len() ==> self.lists@[i]@ == (#[trigger] old.lists@[i])@
    }

    /// An empty context.
    pub fn new() -> (r: TyCtxt)
        ensures
            r.wf(),
            r.kinds@.len() == 0,
            r.lists@.len() == 0,
    {
        TyCtxt { kinds: Vec::new(), lists: Vec::new() }
    }

    /// Whether the context is well formed, as `wf` says.
    pub fn is_wf(&self) -> (r: bool)
        ensures
            r == self.wf(),
    {
        self.kinds_refer_below() && self.kinds_distinct() && self.lists_distinct() && self.lists_typed()
    }

    fn list_below(&self, l: TyList, bound: usize) -> (r: bool)
        ensures
            r == (l.id < self.lists@.len() && forall|i: int|
                0 <= i < self.lists@[l.id as int]@.len() ==> (#[trigger] self.lists@[l.id as int]@[i]).id
                    < bound),
    {
        if l.id >= self.lists.len() {
            return false;
        }
        let tys = &self.lists[l.id];
        for i in 0..tys.len()
            invariant
                tys@ == self.lists@[l.id as int]@,
                forall|j: int| 0 <= j < i ==> (#[trigger] tys@[j]).id < bound,
        {
            if tys[i].id >= bound {
                return false;
            }
        }
        true
    }

    fn kind_below(&self, k: TyKind, bound: usize) -> (r: bool)
        ensures
            r == kind_refs_below(k, bound as nat, self.lists@),
    {
        match k {
            TyKind::Array(t, _) => t.id < bound,
            TyKind::Slice(t) => t.id < bound,
            TyKind::RawPtr(t, _) => t.id < bound,
            TyKind::Ref(_, t, _) => t.id < bound,
            TyKind::Adt(_, l) => self.list_below(l, bound),
            TyKind::Tuple(l, _) => self.list_below(l, bound),
            TyKind::Other(_, _, l) => self.list_below(l, bound),
            _ => true,
        }
    }

    fn kinds_refer_below(&self) -> (r: bool)
        ensures
            r == forall|i: int|
                0 <= i < self.kinds@.len() ==> kind_refs_below(#[trigger] self.kinds@[i], i as nat, self.lists@),
    {
        for i in 0..self.kinds.len()
            invariant
                forall|j: int| 0 <= j < i ==> kind_refs_below(#[trigger] self.kinds@[j], j as nat, self.lists@),
        {
            if !self.kind_below(self.kinds[i], i) {
                return false;
            }
        }
        true
    }

    fn kinds_distinct(&self) -> (r: bool)
        ensures
            r == forall|i: int, j: int|
                0 <= i < self.kinds@.len() && 0 <= j < self.kinds@.len() && i != j ==> #[trigger] self.kinds@[i]
                    != #[trigger] self.kinds@[j],
    {
        let n = self.kinds.len();
        for i in 0..n
            invariant
                n == self.kinds@.len(),
                forall|a: int, b: int|
                    0 <= a < i && 0 <= b < n && a != b ==> #[trigger] self.kinds@[a] != #[trigger] self.kinds@[b],
        {
            for j in 0..n
                invariant
                    n == self.kinds@.len(),
                    0 <= i < n,
                    forall|a: int, b: int|
                        0 <= a < i && 0 <= b < n && a != b ==> #[trigger] self.kinds@[a] != #[trigger] self.kinds@[b],
                    forall|b: int| 0 <= b < j && b != i ==> self.kinds@[i as int] != #[trigger] self.kinds@[b],
            {
                if j != i && self.kinds[i] == self.kinds[j] {
                    return false;
                }
            }
        }
        true
    }

    fn lists_distinct(&self) -> (r: bool)
        ensures
            r == forall|i: int, j: int|
                0 <= i < self.lists@.len() && 0 <= j < self.lists@.len() && i != j ==> (#[trigger] self.lists@[i])@
                    != (#[trigger] self.lists@[j])@,
    {
        let n = self.lists.len();
        for i in 0..n
            invariant
                n == self.lists@.len(),
                forall|a: int, b: int|
                    0 <= a < i && 0 <= b < n && a != b ==> (#[trigger] self.lists@[a])@ != (
                    #[trigger] self.lists@[b])@,
        {
            for j in 0..n
                invariant
                    n == self.lists@.len(),
                    0 <= i < n,
                    forall|a: int, b: int|
                        0 <= a < i && 0 <= b < n && a != b ==> (#[trigger] self.lists@[a])@ != (
                        #[trigger] self.lists@[b])@,
                    forall|b: int| 0 <= b < j && b != i ==> self.lists@[i as int]@ != (#[trigger] self.lists@[b])@,
            {
                if j != i && same_types(&self.lists[i], &self.lists[j]) {
                    return false;
                }
            }
        }
        true
    }

    fn lists_typed(&self) -> (r: bool)
        ensures
            r == forall|i: int| 0 <= i < self.lists@.len() ==> self.has_all((#[trigger] self.lists@[i])@),
    {
        for i in 0..self.lists.len()
            invariant
                forall|j: int| 0 <= j < i ==> self.has_all((#[trigger] self.lists@[j])@),
        {
            let tys = &self.lists[i];
            for k in 0..tys.len()
                invariant
                    i < self.lists@.len(),
                    tys@ == self.lists@[i as int]@,
                    forall|j: int| 0 <= j < i ==> self.has_all((#[trigger] self.lists@[j])@),
                    forall|m: int| 0 <= m < k ==> self.has(#[trigger] tys@[m]),
            {
                if tys[k].id >= self.kinds.len() {
                    proof {
                        assert(!self.has(self.lists@[i as int]@[k as int]));
                        assert(!self.has_all(self.lists@[i as int]@));
                    }
                    return false;
                }
            }
        }
        true
    }

    /// The kind of type `t`.
    pub fn kind_of(&self, t: Ty) -> (r: TyKind)
        requires
            self.has(t),
        ensures
            r == self.kind(t),
    {
        self.kinds[t.id]
    }

    /// The types of list `l`.
    pub fn list_of(&self, l: TyList) -> (r: &Vec<Ty>)
        requires
            self.has_list(l),
        ensures
            r@ == self.list(l),
    {
        &self.lists[l.id]
    }

    /// The type of kind `k`, interned if it is new.
    pub fn mk_ty(&mut self, k: TyKind) -> (r: Ty)
        requires
            old(self).wf(),
            kind_refs_below(k, old(self).kinds@.len() as nat, old(self).lists@),
        ensures
            final(self).wf(),
            final(self).extends(old(self)),
            final(self).lists@ == old(self).lists@,
            final(self).has(r),
            final(self).kind(r) == k,
    {
        let n = self.kinds.len();
        for i in 0..n
            invariant
                n == self.kinds@.len(),
                self.wf(),
                *self == *old(self),
                kind_refs_below(k, n as nat, self.lists@),
                forall|j: int| 0 <= j < i ==> self.kinds@[j] != k,
        {
            if self.kinds[i] == k {
                return Ty { id: i };
            }
        }
        let ghost before = self.kinds@;
        self.kinds.push(k);
        proof {
            assert forall|i: int| 0 <= i < self.kinds@.len() implies kind_refs_below(
                #[trigger] self.kinds@[i],
                i as nat,
                self.lists@,
            ) by {
                if i < n {
                    assert(self.kinds@[i] == before[i]);
                }
            }
        }
        Ty { id: n }
    }

    /// The list of types `tys`, interned if it is new.
    pub fn intern_type_list(&mut self, tys: &Vec<Ty>) -> (r: TyList)
        requires
            old(self).wf(),
            old(self).has_all(tys@),
        ensures
            final(self).wf(),
            final(self).extends(old(self)),
            final(self).kinds@ == old(self).kinds@,
            final(self).has_list(r),
            final(self).list(r) == tys@,
    {
        let n = self.lists.len();
        for i in 0..n
            invariant
                n == self.lists@.len(),
                self.wf(),
                *self == *old(self),
                self.has_all(tys@),
                forall|j: int| 0 <= j < i ==> self.lists@[j]@ != tys@,
        {
            if same_types(&self.lists[i], tys) {
                return TyList { id: i };
            }
        }
        let ghost before = self.lists@;
        self.lists.push(copy_types(tys));
        proof {
            assert forall|i: int| 0 <= i < self.kinds@.len() implies kind_refs_below(
                #[trigger] self.kinds@[i],
                i as nat,
                self.lists@,
            ) by {
                match self.kinds@[i] {
                    TyKind::Adt(_, l) => {
                        assert(self.lists@[l.id as int] == before[l.id as int]);
                    },
                    TyKind::Tuple(l, _) => {
                        assert(self.lists@[l.id as int] == before[l.id as int]);
                    },
                    TyKind::Other(_, _, l) => {
                        assert(self.lists@[l.id as int] == before[l.id as int]);
                    },
                    _ => {},
                }
            }
            assert forall|i: int| 0 <= i < self.lists@.len() implies self.has_all(
                (#[trigger] self.lists@[i])@,
            ) by {
                if i < n {
                    assert(self.lists@[i] == before[i]);
                }
            }
            assert forall|i: int, j: int|
                0 <= i < self.lists@.len() && 0 <= j < self.lists@.len() && i != j implies (
                #[trigger] self.lists@[i])@ != (#[trigger] self.lists@[j])@ by {
                if i < n && j < n {
                    assert(self.lists@[i] == before[i]);
                    assert(self.lists@[j] == before[j]);
                }
            }
        }
        TyList { id: n }
    }

    /// `[t; n]`.
    pub fn mk_array(&mut self, t: Ty, n: usize) -> (r: Ty)
        requires
            old(self).wf(),
            old(self).has(t),
        ensures
            final(self).wf(),
            final(self).extends(old(self)),
            final(self).lists@ == old(self).lists@,
            final(self).has(r),
            final(self).kind(r) == TyKind::Array(t, n),
    {
        self.mk_ty(TyKind::Array(t, n))
    }

    /// `[t]`.
    pub fn mk_slice(&mut self, t: Ty) -> (r: Ty)
        requires
            old(self).wf(),
            old(self).has(t),
        ensures
            final(self).wf(),
            final(self).extends(old(self)),
            final(self).lists@ == old(self).lists@,
            final(self).has(r),
            final(self).kind(r) == TyKind::Slice(t),
    {
        self.mk_ty(TyKind::Slice(t))
    }

    /// A reference to `t` in `region`.
    pub fn mk_ref(&mut self, region: u32, t: Ty, mutable: bool) -> (r: Ty)
        requires
            old(self).wf(),
            old(self).has(t),
        ensures
            final(self).wf(),
            final(self).extends(old(self)),
            final(self).lists@ == old(self).lists@,
            final(self).has(r),
            final(self).kind(r) == TyKind::Ref(region, t, mutable),
    {
        self.mk_ty(TyKind::Ref(region, t, mutable))
    }

    /// ADT `adt` with substitutions `substs`.
    pub fn mk_adt(&mut self, adt: AdtId, substs: TyList) -> (r: Ty)
        requires
            old(self).wf(),
            old(self).has_list(substs),
        ensures
            final(self).wf(),
            final(self).extends(old(self)),
            final(self).lists@ == old(self).lists@,
            final(self).has(r),
            final(self).kind(r) == TyKind::Adt(adt, substs),
    {
        self.mk_ty(TyKind::Adt(adt, substs))
    }

    /// The tuple of `tys`.
    pub fn intern_tup(&mut self, tys: &Vec<Ty>, defaulted: bool) -> (r: Ty)
        requires
            old(self).wf(),
            old(self).has_all(tys@),
        ensures
            final(self).wf(),
            final(self).extends(old(self)),
            final(self).has(r),
            final(self).kind(r) matches TyKind::Tuple(l, d) && d == defaulted
                && final(self).has_list(l) && final(self).list(l) == tys@,
    {
        let l = self.intern_type_list(tys);
        self.mk_ty(TyKind::Tuple(l, defaulted))
    }
}

fn same_types(a: &Vec<Ty>, b: &Vec<Ty>) -> (r: bool)
    ensures
        r == (a@ == b@),
{
    if a.len() != b.len() {
        return false;
    }
    for i in 0..a.len()
        invariant
            a@.len() == b@.len(),
            forall|j: int| 0 <= j < i ==> a@[j] == b@[j],
    {
        if a[i] != b[i] {
            return false;
        }
    }
    proof {
        assert(a@ =~= b@);
    }
    true
}

/// A copy of a list of types.
pub fn copy_types(v: &Vec<Ty>) -> (r: Vec<Ty>)
    ensures
        r@ == v@,
{
    let mut r: Vec<Ty> = Vec::new();
    for i in 0..v.len()
        invariant
            r@ == v@.take(i as int),
    {
        r.push(v[i]);
        proof {
            assert(v@.take(i + 1) =~= v@.take(i as int).push(v@[i as int]));
        }
    }
    proof {
        assert(v@.take(v@.len() as int) =~= v@);
    }
    r
}

/// Extending a context keeps the kinds and lists of the types it had.
pub proof fn lemma_extends_keeps(old: &TyCtxt, new: &TyCtxt, t: Ty)
    requires
        new.extends(old),
        old.has(t),
    ensures
        new.has(t),
        new.kind(t) == old.kind(t),
{
}

/// `t` is the (non-defaulted) tuple of `tys`.
pub open spec fn is_tuple_of(tcx: &TyCtxt, t: Ty, tys: Seq<Ty>) -> bool {
    tcx.has(t) && match tcx.kind(t) {
        TyKind::Tuple(l, d) => !d && tcx.has_list(l) && tcx.list(l) == tys,
        _ => false,
    }
}

/// In a well-formed context there is one tuple of given types.
pub proof fn lemma_tuple_unique(tcx: &TyCtxt, t1: Ty, t2: Ty, tys: Seq<Ty>)
    requires
        tcx.wf(),
        is_tuple_of(tcx, t1, tys),
        is_tuple_of(tcx, t2, tys),
    ensures
        t1 == t2,
{
    if let (TyKind::Tuple(l1, _), TyKind::Tuple(l2, _)) = (tcx.kind(t1), tcx.kind(t2)) {
        assert(tcx.lists@[l1.id as int]@ == tcx.lists@[l2.id as int]@);
        assert(l1.id == l2.id);
        assert(tcx.kinds@[t1.id as int] == tcx.kinds@[t2.id as int]);
    }
}

/// In a well-formed context a kind is interned once: types of one kind
/// are one type.
pub proof fn lemma_same_kind(tcx: &TyCtxt, t1: Ty, t2: Ty)
    requires
        tcx.wf(),
        tcx.has(t1),
        tcx.has(t2),
        tcx.kind(t1) == tcx.kind(t2),
    ensures
        t1 == t2,
{
    assert(tcx.kinds@[t1.id as int] == tcx.kinds@[t2.id as int]);
}

/// In a well-formed context a list is interned once: lists with the same
/// types are one list.
pub proof fn lemma_same_list(tcx: &TyCtxt, l1: TyList, l2: TyList)
    requires
        tcx.wf(),
        tcx.has_list(l1),
        tcx.has_list(l2),
        tcx.list(l1) == tcx.list(l2),
    ensures
        l1 == l2,
{
    assert(tcx.lists@[l1.id as int]@ == tcx.lists@[l2.id as int]@);
}

/// A tuple type stays one as the context grows.
pub proof fn lemma_tuple_stable(old: &TyCtxt, new: &TyCtxt, t: Ty, tys: Seq<Ty>)
    requires
        new.extends(old),
        is_tuple_of(old, t, tys),
    ensures
        is_tuple_of(new, t, tys),
{
    assert(new.kinds@[t.id as int] == old.kinds@[t.id as int]);
    if let TyKind::Tuple(l, _) = old.kind(t) {
        assert(new.lists@[l.id as int]@ == old.lists@[l.id as int]@);
    }
}

/// The type of kind `k` in the context (the one there is, when there is one).
pub open spec fn the_ty(tcx: &TyCtxt, k: TyKind) -> Ty {
    choose|t: Ty| tcx.has(t) && tcx.kind(t) == k
}

/// A kind is interned once: the type of that kind is `the_ty`.
pub proof fn lemma_the_ty(tcx: &TyCtxt, t: Ty)
    requires
        tcx.wf(),
        tcx.has(t),
    ensures
        the_ty(tcx, tcx.kind(t)) == t,
{
    let k = tcx.kind(t);
    let t2 = the_ty(tcx, k);
    assert(tcx.has(t2) && tcx.kind(t2) == k);
    assert(tcx.kinds@[t2.id as int] == tcx.kinds@[t.id as int]);
}

/// The types directly inside `t`: the element of an array, slice or
/// pointer, the substitutions of an ADT, the elements of a tuple, the
/// types inside any other kind.
pub open spec fn children(tcx: &TyCtxt, t: Ty) -> Seq<Ty> {
    match tcx.kind(t) {
        TyKind::Array(e, _) => seq![e],
        TyKind::Slice(e) => seq![e],
        TyKind::RawPtr(e, _) => seq![e],
        TyKind::Ref(_, e, _) => seq![e],
        TyKind::Adt(_, l) => tcx.list(l),
        TyKind::Tuple(l, _) => tcx.list(l),
        TyKind::Other(_, _, l) => tcx.list(l),
        _ => seq![],
    }
}

/// The types in `t`, `t` first, then those in each child, left to right.
pub open spec fn walk(tcx: &TyCtxt, t: Ty) -> Seq<Ty>
    decreases t.id, 1nat, 0nat,
{
    if !tcx.has(t) {
        seq![t]
    } else {
        seq![t] + walk_list(tcx, children(tcx, t), t.id)
    }
}

/// The types in each of `ts` (those below `bound`), in order.
pub open spec fn walk_list(tcx: &TyCtxt, ts: Seq<Ty>, bound: usize) -> Seq<Ty>
    decreases bound, 0nat, ts.len(),
{
    if ts.len() == 0 {
        seq![]
    } else {
        walk_list(tcx, ts.drop_last(), bound) + if ts.last().id < bound {
            walk(tcx, ts.last())
        } else {
            seq![]
        }
    }
}

impl TyCtxt {
    /// The types in `t`, in the order `walk` gives.
    pub fn walk(&self, t: Ty) -> (r: Vec<Ty>)
        requires
            self.wf(),
            self.has(t),
        ensures
            r@ == walk(self, t),
            forall|i: int| 0 <= i < r@.len() ==> self.has(#[trigger] r@[i]),
        decreases t.id, 1nat, 0nat,
    {
        let mut r: Vec<Ty> = Vec::new();
        r.push(t);
        let k = self.kind_of(t);
        proof {
            assert(kind_refs_below(self.kinds@[t.id as int], t.id as nat, self.lists@));
        }
        let mut kids: Vec<Ty> = Vec::new();
        match k {
            TyKind::Array(e, _) => kids.push(e),
            TyKind::Slice(e) => kids.push(e),
            TyKind::RawPtr(e, _) => kids.push(e),
            TyKind::Ref(_, e, _) => kids.push(e),
            TyKind::Adt(_, l) => {
                kids = copy_types(self.list_of(l));
            },
            TyKind::Tuple(l, _) => {
                kids = copy_types(self.list_of(l));
            },
            TyKind::Other(_, _, l) => {
                kids = copy_types(self.list_of(l));
            },
            _ => {},
        }
        proof {
            assert(kids@ =~= children(self, t));
        }
        let mut rest = self.walk_children(&kids, t.id);
        r.append(&mut rest);
        r
    }

    fn walk_children(&self, ts: &Vec<Ty>, bound: usize) -> (r: Vec<Ty>)
        requires
            self.wf(),
            forall|i: int| 0 <= i < ts@.len() ==> (#[trigger] ts@[i]).id < bound && self.has(ts@[i]),
        ensures
            r@ == walk_list(self, ts@, bound),
            forall|i: int| 0 <= i < r@.len() ==> self.has(#[trigger] r@[i]),
        decreases bound, 0nat, ts@.len(),
    {
        let mut r: Vec<Ty> = Vec::new();
        for i in 0..ts.len()
            invariant
                self.wf(),
                forall|j: int| 0 <= j < ts@.len() ==> (#[trigger] ts@[j]).id < bound && self.has(ts@[j]),
                r@ == walk_list(self, ts@.take(i as int), bound),
                forall|j: int| 0 <= j < r@.len() ==> self.has(#[trigger] r@[j]),
        {
            proof {
                assert(ts@.take(i + 1).drop_last() =~= ts@.take(i as int));
                assert(ts@.take(i + 1).last() == ts@[i as int]);
            }
            let mut sub = self.walk(ts[i]);
            r.append(&mut sub);
        }
        proof {
            assert(ts@.take(ts@.len() as int) =~= ts@);
        }
        r
    }
}

} // verus!

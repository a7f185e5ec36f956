//! Rewriting types: replacing the split struct by one of its children in
//! the type of a place.
use vstd::prelude::*;

use crate::ty::{kind_refs_below, AdtId, Ty, TyCtxt, TyKind, TyList};

verus! {

/// Type `t` can be rewritten by replacing ADT `old`: it is `old` itself,
/// or an array, slice or reference whose element can.
pub open spec fn splits(tcx: &TyCtxt, old: AdtId, t: Ty) -> bool
    decreases t.id,
{
    if !tcx.has(t) {
        false
    } else {
        match tcx.kind(t) {
            TyKind::Array(e, _) => e.id < t.id && splits(tcx, old, e),
            TyKind::Slice(e) => e.id < t.id && splits(tcx, old, e),
            TyKind::Ref(_, e, _) => e.id < t.id && splits(tcx, old, e),
            TyKind::Adt(a, _) => a == old,
            _ => false,
        }
    }
}

/// `r` is `t` with ADT `old` replaced by ADT `new`, keeping every array
/// length, region, mutability and substitution.
pub open spec fn split_as(tcx: &TyCtxt, old: AdtId, new: AdtId, t: Ty, r: Ty) -> bool
    decreases t.id,
{
    if !tcx.has(t) || !tcx.has(r) {
        false
    } else {
        match tcx.kind(t) {
            TyKind::Array(e, n) => e.id < t.id && match tcx.kind(r) {
                TyKind::Array(e2, n2) => n2 == n && split_as(tcx, old, new, e, e2),
                _ => false,
            },
            TyKind::Slice(e) => e.id < t.id && match tcx.kind(r) {
                TyKind::Slice(e2) => split_as(tcx, old, new, e, e2),
                _ => false,
            },
            TyKind::Ref(reg, e, m) => e.id < t.id && match tcx.kind(r) {
                TyKind::Ref(reg2, e2, m2) => reg2 == reg && m2 == m && split_as(tcx, old, new, e, e2),
                _ => false,
            },
            TyKind::Adt(a, s) => a == old && tcx.kind(r) == TyKind::Adt(new, s),
            _ => false,
        }
    }
}

/// Whether a type can be split does not change as the context grows.
pub proof fn lemma_splits_stable(tcx1: &TyCtxt, tcx2: &TyCtxt, old: AdtId, t: Ty)
    requires
        tcx1.wf(),
        tcx2.extends(tcx1),
        tcx1.has(t),
    ensures
        splits(tcx2, old, t) == splits(tcx1, old, t),
    decreases t.id,
{
    assert(tcx2.kinds@[t.id as int] == tcx1.kinds@[t.id as int]);
    assert(crate::ty::kind_refs_below(tcx1.kinds@[t.id as int], t.id as nat, tcx1.lists@));
    match tcx1.kind(t) {
        TyKind::Array(e, _) => lemma_splits_stable(tcx1, tcx2, old, e),
        TyKind::Slice(e) => lemma_splits_stable(tcx1, tcx2, old, e),
        TyKind::Ref(_, e, _) => lemma_splits_stable(tcx1, tcx2, old, e),
        _ => {},
    }
}

/// A split type stays one as the context grows.
pub proof fn lemma_split_as_stable(tcx1: &TyCtxt, tcx2: &TyCtxt, old: AdtId, new: AdtId, t: Ty, r: Ty)
    requires
        tcx2.extends(tcx1),
        split_as(tcx1, old, new, t, r),
    ensures
        split_as(tcx2, old, new, t, r),
    decreases t.id,
{
    assert(tcx2.kinds@[t.id as int] == tcx1.kinds@[t.id as int]);
    assert(tcx2.kinds@[r.id as int] == tcx1.kinds@[r.id as int]);
    match tcx1.kind(t) {
        TyKind::Array(e, _) => {
            if let TyKind::Array(e2, _) = tcx1.kind(r) {
                lemma_split_as_stable(tcx1, tcx2, old, new, e, e2);
            }
        },
        TyKind::Slice(e) => {
            if let TyKind::Slice(e2) = tcx1.kind(r) {
                lemma_split_as_stable(tcx1, tcx2, old, new, e, e2);
            }
        },
        TyKind::Ref(_, e, _) => {
            if let TyKind::Ref(_, e2, _) = tcx1.kind(r) {
                lemma_split_as_stable(tcx1, tcx2, old, new, e, e2);
            }
        },
        _ => {},
    }
}

/// Type `t` can be rewritten with replacements `m`: it is an ADT that `m`
/// replaces, or an array, slice or reference whose element can be.
pub open spec fn modifiable(tcx: &TyCtxt, m: spec_fn(AdtId) -> Option<AdtId>, t: Ty) -> bool
    decreases t.id,
{
    if !tcx.has(t) {
        false
    } else {
        match tcx.kind(t) {
            TyKind::Array(e, _) => e.id < t.id && modifiable(tcx, m, e),
            TyKind::Slice(e) => e.id < t.id && modifiable(tcx, m, e),
            TyKind::Ref(_, e, _) => e.id < t.id && modifiable(tcx, m, e),
            TyKind::Adt(a, _) => m(a) is Some,
            _ => false,
        }
    }
}

/// `r` is `t` rewritten with replacements `m`: the ADT replaced by the one
/// `m` gives for it, keeping every array length, region, mutability and
/// substitution.
pub open spec fn modified(tcx: &TyCtxt, m: spec_fn(AdtId) -> Option<AdtId>, t: Ty, r: Ty) -> bool
    decreases t.id,
{
    if !tcx.has(t) || !tcx.has(r) {
        false
    } else {
        match tcx.kind(t) {
            TyKind::Array(e, n) => e.id < t.id && match tcx.kind(r) {
                TyKind::Array(e2, n2) => n2 == n && modified(tcx, m, e, e2),
                _ => false,
            },
            TyKind::Slice(e) => e.id < t.id && match tcx.kind(r) {
                TyKind::Slice(e2) => modified(tcx, m, e, e2),
                _ => false,
            },
            TyKind::Ref(reg, e, mu) => e.id < t.id && match tcx.kind(r) {
                TyKind::Ref(reg2, e2, mu2) => reg2 == reg && mu2 == mu && modified(tcx, m, e, e2),
                _ => false,
            },
            TyKind::Adt(a, s) => match m(a) {
                Some(b) => tcx.kind(r) == TyKind::Adt(b, s),
                None => false,
            },
            _ => false,
        }
    }
}

/// Rewriting a compound type is rewriting its element: an array, slice or
/// reference is rewritten to one of the same length, region and
/// mutability exactly when its element is rewritten to that one's element.
pub proof fn lemma_modify_compound(tcx: &TyCtxt, m: spec_fn(AdtId) -> Option<AdtId>, t: Ty, r: Ty)
    requires
        tcx.wf(),
        tcx.has(t),
        tcx.has(r),
    ensures
        (tcx.kind(t), tcx.kind(r)) matches (TyKind::Array(e, n), TyKind::Array(e2, n2)) ==> (modified(
            tcx,
            m,
            t,
            r,
        ) <==> (n2 == n && modified(tcx, m, e, e2))),
        (tcx.kind(t), tcx.kind(r)) matches (TyKind::Slice(e), TyKind::Slice(e2)) ==> (modified(tcx, m, t, r)
            <==> modified(tcx, m, e, e2)),
        (tcx.kind(t), tcx.kind(r)) matches (TyKind::Ref(g, e, mu), TyKind::Ref(g2, e2, mu2)) ==> (modified(
            tcx,
            m,
            t,
            r,
        ) <==> (g2 == g && mu2 == mu && modified(tcx, m, e, e2))),
        tcx.kind(t) matches TyKind::Array(e, _) ==> (modifiable(tcx, m, t) <==> modifiable(tcx, m, e)),
        tcx.kind(t) matches TyKind::Slice(e) ==> (modifiable(tcx, m, t) <==> modifiable(tcx, m, e)),
        tcx.kind(t) matches TyKind::Ref(_, e, _) ==> (modifiable(tcx, m, t) <==> modifiable(tcx, m, e)),
{
    assert(kind_refs_below(tcx.kinds@[t.id as int], t.id as nat, tcx.lists@));
}

/// A rewrite gives one type: two types that `t` is rewritten to are the
/// same.
pub proof fn lemma_modified_unique(tcx: &TyCtxt, m: spec_fn(AdtId) -> Option<AdtId>, t: Ty, r1: Ty, r2: Ty)
    requires
        tcx.wf(),
        modified(tcx, m, t, r1),
        modified(tcx, m, t, r2),
    ensures
        r1 == r2,
    decreases t.id,
{
    match tcx.kind(t) {
        TyKind::Array(e, _) => {
            if let (TyKind::Array(e1, _), TyKind::Array(e2, _)) = (tcx.kind(r1), tcx.kind(r2)) {
                lemma_modified_unique(tcx, m, e, e1, e2);
            }
        },
        TyKind::Slice(e) => {
            if let (TyKind::Slice(e1), TyKind::Slice(e2)) = (tcx.kind(r1), tcx.kind(r2)) {
                lemma_modified_unique(tcx, m, e, e1, e2);
            }
        },
        TyKind::Ref(_, e, _) => {
            if let (TyKind::Ref(_, e1, _), TyKind::Ref(_, e2, _)) = (tcx.kind(r1), tcx.kind(r2)) {
                lemma_modified_unique(tcx, m, e, e1, e2);
            }
        },
        _ => {},
    }
    crate::ty::lemma_same_kind(tcx, r1, r2);
}

/// What any `TypeModifier`'s `modify` gives for an array, slice or
/// reference is what it gives for the element, put back in the same
/// array, slice or reference: the one is rewritten exactly when the other
/// is, and to the array, slice or reference of the element's rewrite `e2`.
pub proof fn lemma_modify_distributes<M: TypeModifier>(md: &M, tcx: &TyCtxt, t: Ty, r: Ty, e2: Ty)
    requires
        tcx.wf(),
        tcx.has(t),
    ensures
        tcx.kind(t) matches TyKind::Array(e, _) ==> (modifiable(tcx, |a: AdtId| md.replacement(a), t)
            <==> modifiable(tcx, |a: AdtId| md.replacement(a), e)),
        tcx.kind(t) matches TyKind::Slice(e) ==> (modifiable(tcx, |a: AdtId| md.replacement(a), t)
            <==> modifiable(tcx, |a: AdtId| md.replacement(a), e)),
        tcx.kind(t) matches TyKind::Ref(_, e, _) ==> (modifiable(tcx, |a: AdtId| md.replacement(a), t)
            <==> modifiable(tcx, |a: AdtId| md.replacement(a), e)),
        tcx.kind(t) matches TyKind::Array(e, n) ==> (modified(tcx, |a: AdtId| md.replacement(a), t, r)
            && modified(tcx, |a: AdtId| md.replacement(a), e, e2) ==> tcx.kind(r) == TyKind::Array(e2, n)),
        tcx.kind(t) matches TyKind::Slice(e) ==> (modified(tcx, |a: AdtId| md.replacement(a), t, r)
            && modified(tcx, |a: AdtId| md.replacement(a), e, e2) ==> tcx.kind(r) == TyKind::Slice(e2)),
        tcx.kind(t) matches TyKind::Ref(g, e, mu) ==> (modified(tcx, |a: AdtId| md.replacement(a), t, r)
            && modified(tcx, |a: AdtId| md.replacement(a), e, e2) ==> tcx.kind(r) == TyKind::Ref(g, e2, mu)),
{
    let m = |a: AdtId| md.replacement(a);
    assert(kind_refs_below(tcx.kinds@[t.id as int], t.id as nat, tcx.lists@));
    if modified(tcx, m, t, r) {
        match tcx.kind(t) {
            TyKind::Array(e, _) => {
                if let TyKind::Array(e1, _) = tcx.kind(r) {
                    if modified(tcx, m, e, e2) {
                        lemma_modified_unique(tcx, m, e, e1, e2);
                    }
                }
            },
            TyKind::Slice(e) => {
                if let TyKind::Slice(e1) = tcx.kind(r) {
                    if modified(tcx, m, e, e2) {
                        lemma_modified_unique(tcx, m, e, e1, e2);
                    }
                }
            },
            TyKind::Ref(_, e, _) => {
                if let TyKind::Ref(_, e1, _) = tcx.kind(r) {
                    if modified(tcx, m, e, e2) {
                        lemma_modified_unique(tcx, m, e, e1, e2);
                    }
                }
            },
            _ => {},
        }
    }
}

/// Rewrites types by replacing ADTs in them. `modify` goes down through
/// arrays, slices and references to an ADT, has `modify_adt` rewrite it,
/// and puts the arrays, slices and references back around the result; any
/// other type is not rewritten.
pub trait TypeModifier: Sized {
    /// The ADT this modifier puts in place of ADT `adt`, if it replaces it.
    spec fn replacement(&self, adt: AdtId) -> Option<AdtId>;

    /// ADT `adt` with substitutions `substs`, rewritten: `Ok` with the
    /// replacement ADT and the same substitutions where there is one, else
    /// `Err`.
    fn modify_adt(&mut self, tcx: &mut TyCtxt, adt: AdtId, substs: TyList) -> (r: Result<Ty, ()>)
        requires
            old(tcx).wf(),
            old(tcx).has_list(substs),
        ensures
            final(tcx).wf(),
            final(tcx).extends(old(tcx)),
            *final(self) == *old(self),
            r is Ok <==> old(self).replacement(adt) is Some,
            r matches Ok(t) ==> final(tcx).has(t) && final(tcx).kind(t) == TyKind::Adt(
                old(self).replacement(adt)->0,
                substs,
            ),
    ;

    /// Type `t` rewritten: `Ok` exactly when it can be, as `modifiable`
    /// says, and then as `modified` says. An impl may replace this walk
    /// with its own that keeps the same contract.
    fn modify(&mut self, tcx: &mut TyCtxt, t: Ty) -> (r: Result<Ty, ()>)
        requires
            old(tcx).wf(),
            old(tcx).has(t),
        ensures
            final(tcx).wf(),
            final(tcx).extends(old(tcx)),
            *final(self) == *old(self),
            r is Ok <==> modifiable(old(tcx), |a: AdtId| old(self).replacement(a), t),
            r matches Ok(t2) ==> modified(final(tcx), |a: AdtId| old(self).replacement(a), t, t2),
    {
        let ghost tcx0 = *tcx;
        let ghost s0 = *self;
        let ghost m = |a: AdtId| s0.replacement(a);
        // Go down through arrays, slices and references to the type inside.
        let mut chain: Vec<Ty> = Vec::new();
        chain.push(t);
        let mut cur = t;
        let mut next = shell_element(tcx, cur);
        while next.is_some()
            invariant
                tcx.wf(),
                *tcx == tcx0,
                *self == s0,
                tcx.has(cur),
                next == spec_shell_element(tcx, cur),
                chain@.len() >= 1,
                chain@[0] == t,
                chain@.last() == cur,
                forall|k: int| 0 <= k < chain@.len() ==> tcx.has(#[trigger] chain@[k]),
                forall|k: int|
                    0 <= k < chain@.len() - 1 ==> spec_shell_element(tcx, #[trigger] chain@[k]) == Some(chain@[k + 1]),
                modifiable(tcx, m, t) == modifiable(tcx, m, cur),
            decreases cur.id,
        {
            let e = next.unwrap();
            proof {
                assert(kind_refs_below(tcx.kinds@[cur.id as int], cur.id as nat, tcx.lists@));
            }
            let ghost before = chain@;
            chain.push(e);
            proof {
                assert forall|k: int| 0 <= k < chain@.len() - 1 implies spec_shell_element(
                    tcx,
                    #[trigger] chain@[k],
                ) == Some(chain@[k + 1]) by {
                    if k < before.len() - 1 {
                        assert(chain@[k] == before[k] && chain@[k + 1] == before[k + 1]);
                    }
                }
            }
            cur = e;
            next = shell_element(tcx, cur);
        }
        // Rewrite the ADT found there.
        let mut r = match tcx.kind_of(cur) {
            TyKind::Adt(a, substs) => {
                proof {
                    assert(kind_refs_below(tcx.kinds@[cur.id as int], cur.id as nat, tcx.lists@));
                }
                match self.modify_adt(tcx, a, substs) {
                    Ok(ra) => ra,
                    Err(()) => {
                        return Err(());
                    },
                }
            },
            _ => {
                return Err(());
            },
        };
        proof {
            crate::ty::lemma_extends_keeps(&tcx0, tcx, cur);
        }
        // Put the arrays, slices and references back around it.
        let mut k = chain.len() - 1;
        while k > 0
            invariant
                tcx0.wf(),
                tcx.wf(),
                tcx.extends(&tcx0),
                *self == s0,
                0 <= k < chain@.len(),
                chain@[0] == t,
                forall|j: int| 0 <= j < chain@.len() ==> tcx0.has(#[trigger] chain@[j]),
                forall|j: int|
                    0 <= j < chain@.len() - 1 ==> spec_shell_element(&tcx0, #[trigger] chain@[j]) == Some(chain@[j + 1]),
                modified(tcx, m, chain@[k as int], r),
            decreases k,
        {
            k = k - 1;
            let c = chain[k];
            let ghost tcx1 = *tcx;
            proof {
                crate::ty::lemma_extends_keeps(&tcx0, tcx, c);
                assert(kind_refs_below(tcx0.kinds@[c.id as int], c.id as nat, tcx0.lists@));
                assert(spec_shell_element(&tcx0, chain@[k as int]) == Some(chain@[k + 1]));
            }
            let r2 = match tcx.kind_of(c) {
                TyKind::Array(_, n) => tcx.mk_array(r, n),
                TyKind::Slice(_) => tcx.mk_slice(r),
                TyKind::Ref(g, _, mu) => tcx.mk_ref(g, r, mu),
                _ => r,
            };
            proof {
                lemma_modified_stable(&tcx1, tcx, m, chain@[k + 1], r);
                crate::ty::lemma_extends_keeps(&tcx0, tcx, c);
            }
            r = r2;
        }
        Ok(r)
    }
}

/// The element of an array, slice or reference.
pub open spec fn spec_shell_element(tcx: &TyCtxt, t: Ty) -> Option<Ty> {
    match tcx.kind(t) {
        TyKind::Array(e, _) => Some(e),
        TyKind::Slice(e) => Some(e),
        TyKind::Ref(_, e, _) => Some(e),
        _ => None,
    }
}

fn shell_element(tcx: &TyCtxt, t: Ty) -> (r: Option<Ty>)
    requires
        tcx.has(t),
    ensures
        r == spec_shell_element(tcx, t),
{
    match tcx.kind_of(t) {
        TyKind::Array(e, _) => Some(e),
        TyKind::Slice(e) => Some(e),
        TyKind::Ref(_, e, _) => Some(e),
        _ => None,
    }
}

/// A rewrite stays one as the context grows.
pub proof fn lemma_modified_stable(tcx1: &TyCtxt, tcx2: &TyCtxt, m: spec_fn(AdtId) -> Option<AdtId>, t: Ty, r: Ty)
    requires
        tcx1.wf(),
        tcx2.extends(tcx1),
        modified(tcx1, m, t, r),
    ensures
        modified(tcx2, m, t, r),
    decreases t.id,
{
    assert(tcx2.kinds@[t.id as int] == tcx1.kinds@[t.id as int]);
    assert(tcx2.kinds@[r.id as int] == tcx1.kinds@[r.id as int]);
    match tcx1.kind(t) {
        TyKind::Array(e, _) => {
            if let TyKind::Array(e2, _) = tcx1.kind(r) {
                lemma_modified_stable(tcx1, tcx2, m, e, e2);
            }
        },
        TyKind::Slice(e) => {
            if let TyKind::Slice(e2) = tcx1.kind(r) {
                lemma_modified_stable(tcx1, tcx2, m, e, e2);
            }
        },
        TyKind::Ref(_, e, _) => {
            if let TyKind::Ref(_, e2, _) = tcx1.kind(r) {
                lemma_modified_stable(tcx1, tcx2, m, e, e2);
            }
        },
        _ => {},
    }
}

/// Rewrites types by replacing ADT `old` by ADT `new`.
#[derive(Clone, Copy, Debug)]
pub struct SplitTypeModifier {
    pub old: AdtId,
    pub new: AdtId,
}

impl SplitTypeModifier {
    /// A modifier that replaces `old` by `new`.
    pub fn new(old: AdtId, new: AdtId) -> (r: SplitTypeModifier)
        ensures
            r.old == old,
            r.new == new,
    {
        SplitTypeModifier { old, new }
    }
}

impl TypeModifier for SplitTypeModifier {
    open spec fn replacement(&self, adt: AdtId) -> Option<AdtId> {
        if adt == self.old {
            Some(self.new)
        } else {
            None
        }
    }

    fn modify_adt(&mut self, tcx: &mut TyCtxt, adt: AdtId, substs: crate::ty::TyList) -> (r: Result<Ty, ()>) {
        if adt == self.old {
            Ok(tcx.mk_adt(self.new, substs))
        } else {
            Err(())
        }
    }
}

/// For the split modifier, a type can be rewritten exactly when it can be
/// split.
pub proof fn lemma_split_modifiable(tcx: &TyCtxt, m: SplitTypeModifier, t: Ty)
    ensures
        modifiable(tcx, |a: AdtId| m.replacement(a), t) == splits(tcx, m.old, t),
    decreases t.id,
{
    if tcx.has(t) {
        match tcx.kind(t) {
            TyKind::Array(e, _) => if e.id < t.id {
                lemma_split_modifiable(tcx, m, e);
            },
            TyKind::Slice(e) => if e.id < t.id {
                lemma_split_modifiable(tcx, m, e);
            },
            TyKind::Ref(_, e, _) => if e.id < t.id {
                lemma_split_modifiable(tcx, m, e);
            },
            _ => {},
        }
    }
}

/// For the split modifier, a rewrite is the split of the type.
pub proof fn lemma_split_modified(tcx: &TyCtxt, m: SplitTypeModifier, t: Ty, r: Ty)
    ensures
        modified(tcx, |a: AdtId| m.replacement(a), t, r) == split_as(tcx, m.old, m.new, t, r),
    decreases t.id,
{
    if tcx.has(t) && tcx.has(r) {
        match tcx.kind(t) {
            TyKind::Array(e, _) => if let TyKind::Array(e2, _) = tcx.kind(r) {
                if e.id < t.id {
                    lemma_split_modified(tcx, m, e, e2);
                }
            },
            TyKind::Slice(e) => if let TyKind::Slice(e2) = tcx.kind(r) {
                if e.id < t.id {
                    lemma_split_modified(tcx, m, e, e2);
                }
            },
            TyKind::Ref(_, e, _) => if let TyKind::Ref(_, e2, _) = tcx.kind(r) {
                if e.id < t.id {
                    lemma_split_modified(tcx, m, e, e2);
                }
            },
            _ => {},
        }
    }
}

/// Splitting and merging back: replacing `old` by `new` in `t` and then
/// `new` by `old` in the result gives `t` again.
pub proof fn lemma_split_round_trip(tcx: &TyCtxt, old: AdtId, new: AdtId, t: Ty, r: Ty)
    requires
        tcx.wf(),
        split_as(tcx, old, new, t, r),
    ensures
        split_as(tcx, new, old, r, t),
        splits(tcx, new, r),
    decreases t.id,
{
    assert(crate::ty::kind_refs_below(tcx.kinds@[r.id as int], r.id as nat, tcx.lists@));
    match tcx.kind(t) {
        TyKind::Array(e, _) => {
            if let TyKind::Array(e2, _) = tcx.kind(r) {
                lemma_split_round_trip(tcx, old, new, e, e2);
            }
        },
        TyKind::Slice(e) => {
            if let TyKind::Slice(e2) = tcx.kind(r) {
                lemma_split_round_trip(tcx, old, new, e, e2);
            }
        },
        TyKind::Ref(_, e, _) => {
            if let TyKind::Ref(_, e2, _) = tcx.kind(r) {
                lemma_split_round_trip(tcx, old, new, e, e2);
            }
        },
        _ => {},
    }
}

/// The split type is determined: two rewrites of the same type are the
/// same type.
pub proof fn lemma_split_unique(tcx: &TyCtxt, old: AdtId, new: AdtId, t: Ty, r1: Ty, r2: Ty)
    requires
        tcx.wf(),
        split_as(tcx, old, new, t, r1),
        split_as(tcx, old, new, t, r2),
    ensures
        r1 == r2,
    decreases t.id,
{
    match tcx.kind(t) {
        TyKind::Array(e, _) => {
            if let (TyKind::Array(a, _), TyKind::Array(b, _)) = (tcx.kind(r1), tcx.kind(r2)) {
                lemma_split_unique(tcx, old, new, e, a, b);
            }
        },
        TyKind::Slice(e) => {
            if let (TyKind::Slice(a), TyKind::Slice(b)) = (tcx.kind(r1), tcx.kind(r2)) {
                lemma_split_unique(tcx, old, new, e, a, b);
            }
        },
        TyKind::Ref(_, e, _) => {
            if let (TyKind::Ref(_, a, _), TyKind::Ref(_, b, _)) = (tcx.kind(r1), tcx.kind(r2)) {
                lemma_split_unique(tcx, old, new, e, a, b);
            }
        },
        _ => {},
    }
    assert(tcx.kinds@[r1.id as int] == tcx.kinds@[r2.id as int]);
}

/// `r` is `t` walked with `f`: every ADT `a` in it is replaced by an ADT
/// that a call of `f` on `a` can return, with its substitutions walked too;
/// arrays, slices, pointers, references, tuples and the other kinds that
/// hold types are walked type by type, keeping everything else of them;
/// every other type stays.
pub open spec fn walked<F: Fn(AdtId) -> AdtId>(tcx: &TyCtxt, f: F, t: Ty, r: Ty) -> bool
    decreases t.id, 1nat, 0nat,
{
    if !tcx.has(t) || !tcx.has(r) {
        false
    } else {
        match tcx.kind(t) {
            TyKind::Adt(a, l) => match tcx.kind(r) {
                TyKind::Adt(b, l2) => call_ensures(f, (a,), b) && tcx.has_list(l2) && walked_list(
                    tcx,
                    f,
                    tcx.list(l),
                    tcx.list(l2),
                    t.id,
                ),
                _ => false,
            },
            TyKind::Array(e, n) => e.id < t.id && match tcx.kind(r) {
                TyKind::Array(e2, n2) => n2 == n && walked(tcx, f, e, e2),
                _ => false,
            },
            TyKind::Slice(e) => e.id < t.id && match tcx.kind(r) {
                TyKind::Slice(e2) => walked(tcx, f, e, e2),
                _ => false,
            },
            TyKind::RawPtr(e, m) => e.id < t.id && match tcx.kind(r) {
                TyKind::RawPtr(e2, m2) => m2 == m && walked(tcx, f, e, e2),
                _ => false,
            },
            TyKind::Ref(reg, e, m) => e.id < t.id && match tcx.kind(r) {
                TyKind::Ref(reg2, e2, m2) => reg2 == reg && m2 == m && walked(tcx, f, e, e2),
                _ => false,
            },
            TyKind::Tuple(l, d) => match tcx.kind(r) {
                TyKind::Tuple(l2, d2) => d2 == d && tcx.has_list(l2) && walked_list(
                    tcx,
                    f,
                    tcx.list(l),
                    tcx.list(l2),
                    t.id,
                ),
                _ => false,
            },
            TyKind::Other(o, d, l) => match tcx.kind(r) {
                TyKind::Other(o2, d2, l2) => o2 == o && d2 == d && tcx.has_list(l2) && walked_list(
                    tcx,
                    f,
                    tcx.list(l),
                    tcx.list(l2),
                    t.id,
                ),
                _ => false,
            },
            _ => r == t,
        }
    }
}

/// `ys` are `xs` walked with `f`, element by element (each below `bound`).
pub open spec fn walked_list<F: Fn(AdtId) -> AdtId>(tcx: &TyCtxt, f: F, xs: Seq<Ty>, ys: Seq<Ty>, bound: usize) -> bool
    decreases bound, 0nat, xs.len(),
{
    if xs.len() != ys.len() {
        false
    } else if xs.len() == 0 {
        true
    } else {
        walked_list(tcx, f, xs.drop_last(), ys.drop_last(), bound) && xs.last().id < bound && walked(
            tcx,
            f,
            xs.last(),
            ys.last(),
        )
    }
}

/// A walk stays one as the context grows.
pub proof fn lemma_walked_stable<F: Fn(AdtId) -> AdtId>(tcx1: &TyCtxt, tcx2: &TyCtxt, f: F, t: Ty, r: Ty)
    requires
        tcx1.wf(),
        tcx2.extends(tcx1),
        walked(tcx1, f, t, r),
    ensures
        walked(tcx2, f, t, r),
    decreases t.id, 1nat, 0nat,
{
    assert(tcx2.kinds@[t.id as int] == tcx1.kinds@[t.id as int]);
    assert(tcx2.kinds@[r.id as int] == tcx1.kinds@[r.id as int]);
    assert(crate::ty::kind_refs_below(tcx1.kinds@[t.id as int], t.id as nat, tcx1.lists@));
    match tcx1.kind(t) {
        TyKind::Adt(_, l) => {
            assert(tcx2.lists@[l.id as int]@ == tcx1.lists@[l.id as int]@);
            if let TyKind::Adt(_, l2) = tcx1.kind(r) {
                assert(tcx2.lists@[l2.id as int]@ == tcx1.lists@[l2.id as int]@);
                lemma_walked_list_stable(tcx1, tcx2, f, tcx1.list(l), tcx1.list(l2), t.id);
            }
        },
        TyKind::Array(e, _) => {
            if let TyKind::Array(e2, _) = tcx1.kind(r) {
                lemma_walked_stable(tcx1, tcx2, f, e, e2);
            }
        },
        TyKind::Slice(e) => {
            if let TyKind::Slice(e2) = tcx1.kind(r) {
                lemma_walked_stable(tcx1, tcx2, f, e, e2);
            }
        },
        TyKind::RawPtr(e, _) => {
            if let TyKind::RawPtr(e2, _) = tcx1.kind(r) {
                lemma_walked_stable(tcx1, tcx2, f, e, e2);
            }
        },
        TyKind::Ref(_, e, _) => {
            if let TyKind::Ref(_, e2, _) = tcx1.kind(r) {
                lemma_walked_stable(tcx1, tcx2, f, e, e2);
            }
        },
        TyKind::Tuple(l, _) => {
            assert(tcx2.lists@[l.id as int]@ == tcx1.lists@[l.id as int]@);
            if let TyKind::Tuple(l2, _) = tcx1.kind(r) {
                assert(tcx2.lists@[l2.id as int]@ == tcx1.lists@[l2.id as int]@);
                lemma_walked_list_stable(tcx1, tcx2, f, tcx1.list(l), tcx1.list(l2), t.id);
            }
        },
        TyKind::Other(_, _, l) => {
            assert(tcx2.lists@[l.id as int]@ == tcx1.lists@[l.id as int]@);
            if let TyKind::Other(_, _, l2) = tcx1.kind(r) {
                assert(tcx2.lists@[l2.id as int]@ == tcx1.lists@[l2.id as int]@);
                lemma_walked_list_stable(tcx1, tcx2, f, tcx1.list(l), tcx1.list(l2), t.id);
            }
        },
        _ => {},
    }
}

pub proof fn lemma_walked_list_stable<F: Fn(AdtId) -> AdtId>(
    tcx1: &TyCtxt,
    tcx2: &TyCtxt,
    f: F,
    xs: Seq<Ty>,
    ys: Seq<Ty>,
    bound: usize,
)
    requires
        tcx1.wf(),
        tcx2.extends(tcx1),
        walked_list(tcx1, f, xs, ys, bound),
    ensures
        walked_list(tcx2, f, xs, ys, bound),
    decreases bound, 0nat, xs.len(),
{
    if xs.len() > 0 {
        lemma_walked_list_stable(tcx1, tcx2, f, xs.drop_last(), ys.drop_last(), bound);
        lemma_walked_stable(tcx1, tcx2, f, xs.last(), ys.last());
    }
}

/// Walking with a function that hands every ADT back unchanged leaves every
/// type as it was.
pub proof fn lemma_walk_identity<F: Fn(AdtId) -> AdtId>(tcx: &TyCtxt, f: F, t: Ty, r: Ty)
    requires
        tcx.wf(),
        forall|a: AdtId, b: AdtId| call_ensures(f, (a,), b) ==> b == a,
        walked(tcx, f, t, r),
    ensures
        r == t,
    decreases t.id, 1nat, 0nat,
{
    assert(crate::ty::kind_refs_below(tcx.kinds@[t.id as int], t.id as nat, tcx.lists@));
    match tcx.kind(t) {
        TyKind::Adt(_, l) => {
            if let TyKind::Adt(_, l2) = tcx.kind(r) {
                lemma_walk_list_identity(tcx, f, tcx.list(l), tcx.list(l2), t.id);
                assert(tcx.lists@[l.id as int]@ == tcx.lists@[l2.id as int]@);
                assert(l == l2);
            }
        },
        TyKind::Array(e, _) => {
            if let TyKind::Array(e2, _) = tcx.kind(r) {
                lemma_walk_identity(tcx, f, e, e2);
            }
        },
        TyKind::Slice(e) => {
            if let TyKind::Slice(e2) = tcx.kind(r) {
                lemma_walk_identity(tcx, f, e, e2);
            }
        },
        TyKind::RawPtr(e, _) => {
            if let TyKind::RawPtr(e2, _) = tcx.kind(r) {
                lemma_walk_identity(tcx, f, e, e2);
            }
        },
        TyKind::Ref(_, e, _) => {
            if let TyKind::Ref(_, e2, _) = tcx.kind(r) {
                lemma_walk_identity(tcx, f, e, e2);
            }
        },
        TyKind::Tuple(l, _) => {
            if let TyKind::Tuple(l2, _) = tcx.kind(r) {
                lemma_walk_list_identity(tcx, f, tcx.list(l), tcx.list(l2), t.id);
                assert(tcx.lists@[l.id as int]@ == tcx.lists@[l2.id as int]@);
                assert(l == l2);
            }
        },
        TyKind::Other(_, _, l) => {
            if let TyKind::Other(_, _, l2) = tcx.kind(r) {
                lemma_walk_list_identity(tcx, f, tcx.list(l), tcx.list(l2), t.id);
                assert(tcx.lists@[l.id as int]@ == tcx.lists@[l2.id as int]@);
                assert(l == l2);
            }
        },
        _ => {},
    }
    assert(tcx.kinds@[t.id as int] == tcx.kinds@[r.id as int]);
}

/// Walking a list with a function that hands every ADT back unchanged
/// leaves the list as it was.
pub proof fn lemma_walk_list_identity<F: Fn(AdtId) -> AdtId>(
    tcx: &TyCtxt,
    f: F,
    xs: Seq<Ty>,
    ys: Seq<Ty>,
    bound: usize,
)
    requires
        tcx.wf(),
        forall|a: AdtId, b: AdtId| call_ensures(f, (a,), b) ==> b == a,
        walked_list(tcx, f, xs, ys, bound),
    ensures
        ys == xs,
    decreases bound, 0nat, xs.len(),
{
    if xs.len() > 0 {
        lemma_walk_list_identity(tcx, f, xs.drop_last(), ys.drop_last(), bound);
        lemma_walk_identity(tcx, f, xs.last(), ys.last());
        assert(ys =~= ys.drop_last().push(ys.last()));
        assert(xs =~= xs.drop_last().push(xs.last()));
    } else {
        assert(ys =~= xs);
    }
}

/// A list walks to another exactly when they are as long and each element
/// walks to the other's element.
proof fn lemma_walked_list_pointwise<F: Fn(AdtId) -> AdtId>(
    tcx: &TyCtxt,
    f: F,
    xs: Seq<Ty>,
    ys: Seq<Ty>,
    bound: usize,
)
    requires
        forall|i: int| 0 <= i < xs.len() ==> (#[trigger] xs[i]).id < bound,
    ensures
        walked_list(tcx, f, xs, ys, bound) <==> (xs.len() == ys.len() && forall|i: int|
            0 <= i < xs.len() ==> walked(tcx, f, #[trigger] xs[i], ys[i])),
    decreases xs.len(),
{
    if xs.len() == ys.len() && xs.len() > 0 {
        let n = xs.len() - 1;
        lemma_walked_list_pointwise(tcx, f, xs.drop_last(), ys.drop_last(), bound);
        assert(xs[n] == xs.last());
        if forall|i: int| 0 <= i < xs.len() ==> walked(tcx, f, #[trigger] xs[i], ys[i]) {
            assert forall|i: int| 0 <= i < xs.drop_last().len() implies walked(
                tcx,
                f,
                #[trigger] xs.drop_last()[i],
                ys.drop_last()[i],
            ) by {
                assert(xs.drop_last()[i] == xs[i] && ys.drop_last()[i] == ys[i]);
            }
        }
        if walked_list(tcx, f, xs, ys, bound) {
            assert forall|i: int| 0 <= i < xs.len() implies walked(tcx, f, #[trigger] xs[i], ys[i]) by {
                if i < n {
                    assert(xs.drop_last()[i] == xs[i] && ys.drop_last()[i] == ys[i]);
                }
            }
        }
    }
}

/// Walking a compound type is walking its parts: an array, slice, raw
/// pointer or reference walks to one of the same length, region and
/// mutability exactly when its element walks to that one's element, and
/// a tuple, or another kind that holds types, walks to one of the same
/// kind exactly when the types it holds walk to the other's.
pub proof fn lemma_walk_compound<F: Fn(AdtId) -> AdtId>(tcx: &TyCtxt, f: F, t: Ty, r: Ty)
    requires
        tcx.wf(),
        tcx.has(t),
        tcx.has(r),
    ensures
        (tcx.kind(t), tcx.kind(r)) matches (TyKind::Array(e, n), TyKind::Array(e2, n2)) ==> (walked(
            tcx,
            f,
            t,
            r,
        ) <==> (n2 == n && walked(tcx, f, e, e2))),
        (tcx.kind(t), tcx.kind(r)) matches (TyKind::Slice(e), TyKind::Slice(e2)) ==> (walked(tcx, f, t, r)
            <==> walked(tcx, f, e, e2)),
        (tcx.kind(t), tcx.kind(r)) matches (TyKind::RawPtr(e, m), TyKind::RawPtr(e2, m2)) ==> (walked(
            tcx,
            f,
            t,
            r,
        ) <==> (m2 == m && walked(tcx, f, e, e2))),
        (tcx.kind(t), tcx.kind(r)) matches (TyKind::Ref(g, e, m), TyKind::Ref(g2, e2, m2)) ==> (walked(
            tcx,
            f,
            t,
            r,
        ) <==> (g2 == g && m2 == m && walked(tcx, f, e, e2))),
        (tcx.kind(t), tcx.kind(r)) matches (TyKind::Tuple(l, d), TyKind::Tuple(l2, d2)) ==> (walked(
            tcx,
            f,
            t,
            r,
        ) <==> (d2 == d && tcx.list(l).len() == tcx.list(l2).len() && forall|i: int|
            0 <= i < tcx.list(l).len() ==> walked(tcx, f, #[trigger] tcx.list(l)[i], tcx.list(l2)[i]))),
        (tcx.kind(t), tcx.kind(r)) matches (TyKind::Other(o, d, l), TyKind::Other(o2, d2, l2)) ==> (walked(
            tcx,
            f,
            t,
            r,
        ) <==> (o2 == o && d2 == d && tcx.list(l).len() == tcx.list(l2).len() && forall|i: int|
            0 <= i < tcx.list(l).len() ==> walked(tcx, f, #[trigger] tcx.list(l)[i], tcx.list(l2)[i]))),
{
    assert(kind_refs_below(tcx.kinds@[t.id as int], t.id as nat, tcx.lists@));
    assert(kind_refs_below(tcx.kinds@[r.id as int], r.id as nat, tcx.lists@));
    if let (TyKind::Tuple(l, _), TyKind::Tuple(l2, _)) = (tcx.kind(t), tcx.kind(r)) {
        lemma_walked_list_pointwise(tcx, f, tcx.list(l), tcx.list(l2), t.id);
    }
    if let (TyKind::Other(_, _, l), TyKind::Other(_, _, l2)) = (tcx.kind(t), tcx.kind(r)) {
        lemma_walked_list_pointwise(tcx, f, tcx.list(l), tcx.list(l2), t.id);
    }
}

/// Folds types, replacing each ADT in them by the one `st_func` gives for
/// it.
pub struct StructWalker<F> {
    pub st_func: F,
}

impl<F: Fn(AdtId) -> AdtId> StructWalker<F> {
    pub fn new(st_func: F) -> (r: StructWalker<F>)
        ensures
            r.st_func == st_func,
    {
        StructWalker { st_func }
    }

    /// Type `t` walked, as `walked` says.
    pub fn fold_ty(&self, tcx: &mut TyCtxt, t: Ty) -> (r: Ty)
        requires
            old(tcx).wf(),
            old(tcx).has(t),
            forall|a: AdtId| call_requires(self.st_func, (a,)),
        ensures
            final(tcx).wf(),
            final(tcx).extends(old(tcx)),
            walked(final(tcx), self.st_func, t, r),
        decreases t.id, 1nat, 0nat,
    {
        let ghost tcx0 = *tcx;
        let k = tcx.kind_of(t);
        proof {
            assert(crate::ty::kind_refs_below(tcx.kinds@[t.id as int], t.id as nat, tcx.lists@));
        }
        match k {
            TyKind::Adt(a, l) => {
                let elems = crate::ty::copy_types(tcx.list_of(l));
                proof {
                    assert(tcx.has_all(tcx.lists@[l.id as int]@));
                }
                let b = (self.st_func)(a);
                let folded = self.fold_list(tcx, &elems, t.id);
                let ghost tcx1 = *tcx;
                let l2 = tcx.intern_type_list(&folded);
                let r = tcx.mk_adt(b, l2);
                proof {
                    lemma_walked_list_stable(&tcx1, tcx, self.st_func, elems@, folded@, t.id);
                    assert(tcx.kinds@[t.id as int] == tcx0.kinds@[t.id as int]);
                    assert(tcx.lists@[l.id as int]@ == tcx0.lists@[l.id as int]@);
                }
                r
            },
            TyKind::Array(e, n) => {
                let e2 = self.fold_ty(tcx, e);
                let ghost tcx1 = *tcx;
                let r = tcx.mk_array(e2, n);
                proof {
                    lemma_walked_stable(&tcx1, tcx, self.st_func, e, e2);
                }
                r
            },
            TyKind::Slice(e) => {
                let e2 = self.fold_ty(tcx, e);
                let ghost tcx1 = *tcx;
                let r = tcx.mk_slice(e2);
                proof {
                    lemma_walked_stable(&tcx1, tcx, self.st_func, e, e2);
                }
                r
            },
            TyKind::RawPtr(e, m) => {
                let e2 = self.fold_ty(tcx, e);
                let ghost tcx1 = *tcx;
                let r = tcx.mk_ty(TyKind::RawPtr(e2, m));
                proof {
                    lemma_walked_stable(&tcx1, tcx, self.st_func, e, e2);
                }
                r
            },
            TyKind::Ref(reg, e, m) => {
                let e2 = self.fold_ty(tcx, e);
                let ghost tcx1 = *tcx;
                let r = tcx.mk_ref(reg, e2, m);
                proof {
                    lemma_walked_stable(&tcx1, tcx, self.st_func, e, e2);
                }
                r
            },
            TyKind::Tuple(l, d) => {
                let elems = crate::ty::copy_types(tcx.list_of(l));
                proof {
                    assert(tcx.has_all(tcx.lists@[l.id as int]@));
                }
                let folded = self.fold_list(tcx, &elems, t.id);
                let ghost tcx1 = *tcx;
                let l2 = tcx.intern_type_list(&folded);
                let r = tcx.mk_ty(TyKind::Tuple(l2, d));
                proof {
                    lemma_walked_list_stable(&tcx1, tcx, self.st_func, elems@, folded@, t.id);
                    assert(tcx.kinds@[t.id as int] == tcx0.kinds@[t.id as int]);
                    assert(tcx.lists@[l.id as int]@ == tcx0.lists@[l.id as int]@);
                }
                r
            },
            TyKind::Other(o, d, l) => {
                let elems = crate::ty::copy_types(tcx.list_of(l));
                proof {
                    assert(tcx.has_all(tcx.lists@[l.id as int]@));
                }
                let folded = self.fold_list(tcx, &elems, t.id);
                let ghost tcx1 = *tcx;
                let l2 = tcx.intern_type_list(&folded);
                let r = tcx.mk_ty(TyKind::Other(o, d, l2));
                proof {
                    lemma_walked_list_stable(&tcx1, tcx, self.st_func, elems@, folded@, t.id);
                    assert(tcx.kinds@[t.id as int] == tcx0.kinds@[t.id as int]);
                    assert(tcx.lists@[l.id as int]@ == tcx0.lists@[l.id as int]@);
                }
                r
            },
            _ => t,
        }
    }

    fn fold_list(&self, tcx: &mut TyCtxt, xs: &Vec<Ty>, bound: usize) -> (r: Vec<Ty>)
        requires
            old(tcx).wf(),
            forall|a: AdtId| call_requires(self.st_func, (a,)),
            forall|i: int| 0 <= i < xs@.len() ==> (#[trigger] xs@[i]).id < bound && old(tcx).has(xs@[i]),
        ensures
            final(tcx).wf(),
            final(tcx).extends(old(tcx)),
            walked_list(final(tcx), self.st_func, xs@, r@, bound),
            final(tcx).has_all(r@),
        decreases bound, 0nat, xs@.len(),
    {
        let ghost tcx0 = *tcx;
        let mut r: Vec<Ty> = Vec::new();
        for i in 0..xs.len()
            invariant
                tcx0 == *old(tcx),
                tcx0.wf(),
                tcx.wf(),
                tcx.extends(&tcx0),
                forall|a: AdtId| call_requires(self.st_func, (a,)),
                forall|j: int| 0 <= j < xs@.len() ==> (#[trigger] xs@[j]).id < bound && tcx0.has(xs@[j]),
                walked_list(tcx, self.st_func, xs@.take(i as int), r@, bound),
                tcx.has_all(r@),
        {
            let ghost tcx1 = *tcx;
            proof {
                crate::ty::lemma_extends_keeps(&tcx0, tcx, xs@[i as int]);
            }
            let y = self.fold_ty(tcx, xs[i]);
            proof {
                lemma_walked_list_stable(&tcx1, tcx, self.st_func, xs@.take(i as int), r@, bound);
            }
            let ghost r_before = r@;
            r.push(y);
            proof {
                assert(xs@.take(i + 1).drop_last() =~= xs@.take(i as int));
                assert(r@.drop_last() =~= r_before);
                assert(xs@.take(i + 1).last() == xs@[i as int]);
                assert forall|j: int| 0 <= j < r@.len() implies tcx.has(#[trigger] r@[j]) by {
                    if j < r_before.len() {
                        assert(r@[j] == r_before[j]);
                        assert(tcx1.has(r_before[j]));
                    }
                }
            }
        }
        proof {
            assert(xs@.take(xs@.len() as int) =~= xs@);
        }
        r
    }
}

/// The ADTs a split struct's types are rewritten between: the struct, its
/// tuple of children, the tuple of references to the children, and the
/// tuple of vectors of children; with the ADTs whose printed path names a
/// `Vec`.
pub struct AdtContainer {
    pub orig_adt: AdtId,
    pub tup_adt: AdtId,
    pub rtup_adt: AdtId,
    pub vtup_adt: AdtId,
    pub vec_adts: Vec<AdtId>,
}

/// What an ADT type with ADT `a` and substitutions `elems` is rewritten
/// to, before its substitutions are: the struct becomes the tuple of its
/// children; a `Vec` of an ADT becomes the tuple of vectors, with that
/// ADT's substitutions; any other ADT stays.
pub open spec fn replacer_head(tcx: &TyCtxt, c: &AdtContainer, a: AdtId, elems: Seq<Ty>) -> (AdtId, Seq<Ty>) {
    if a == c.orig_adt {
        (c.tup_adt, elems)
    } else if c.vec_adts@.contains(a) && elems.len() > 0 && tcx.has(elems[0]) && tcx.kind(elems[0]) is Adt {
        match tcx.kind(elems[0]) {
            TyKind::Adt(_, l2) => (c.vtup_adt, tcx.list(l2)),
            _ => (a, elems),
        }
    } else {
        (a, elems)
    }
}

/// The type replacer can fold `t` without reaching a `Vec` with no type
/// argument, whose first type argument it would look up: a `Vec` ADT other
/// than the split struct with no substitutions occurs nowhere it folds.
pub open spec fn replaceable(tcx: &TyCtxt, c: &AdtContainer, t: Ty) -> bool
    decreases t.id, 1nat, 0nat,
{
    if !tcx.has(t) {
        false
    } else {
        match tcx.kind(t) {
            TyKind::Adt(a, l) => !(a != c.orig_adt && c.vec_adts@.contains(a) && tcx.list(l).len() == 0)
                && replaceable_list(tcx, c, replacer_head(tcx, c, a, tcx.list(l)).1, t.id),
            TyKind::Array(e, _) => e.id < t.id && replaceable(tcx, c, e),
            TyKind::Slice(e) => e.id < t.id && replaceable(tcx, c, e),
            TyKind::RawPtr(e, _) => e.id < t.id && replaceable(tcx, c, e),
            TyKind::Ref(_, e, _) => e.id < t.id && replaceable(tcx, c, e),
            TyKind::Tuple(l, _) => replaceable_list(tcx, c, tcx.list(l), t.id),
            TyKind::Other(_, _, l) => replaceable_list(tcx, c, tcx.list(l), t.id),
            _ => true,
        }
    }
}

/// Each of `xs` (each below `bound`) can be folded.
pub open spec fn replaceable_list(tcx: &TyCtxt, c: &AdtContainer, xs: Seq<Ty>, bound: usize) -> bool
    decreases bound, 0nat, xs.len(),
{
    if xs.len() == 0 {
        true
    } else {
        replaceable_list(tcx, c, xs.drop_last(), bound) && xs.last().id < bound && replaceable(tcx, c, xs.last())
    }
}

/// A type stays foldable as the context grows.
pub proof fn lemma_replaceable_stable(tcx1: &TyCtxt, tcx2: &TyCtxt, c: &AdtContainer, t: Ty)
    requires
        tcx1.wf(),
        tcx2.extends(tcx1),
        replaceable(tcx1, c, t),
    ensures
        replaceable(tcx2, c, t),
    decreases t.id, 1nat, 0nat,
{
    assert(tcx2.kinds@[t.id as int] == tcx1.kinds@[t.id as int]);
    assert(kind_refs_below(tcx1.kinds@[t.id as int], t.id as nat, tcx1.lists@));
    match tcx1.kind(t) {
        TyKind::Adt(a, l) => {
            assert(tcx2.lists@[l.id as int]@ == tcx1.lists@[l.id as int]@);
            let elems = tcx1.list(l);
            if elems.len() > 0 && tcx1.has(elems[0]) {
                assert(tcx2.kinds@[elems[0].id as int] == tcx1.kinds@[elems[0].id as int]);
                if let TyKind::Adt(_, l3) = tcx1.kind(elems[0]) {
                    assert(tcx2.lists@[l3.id as int]@ == tcx1.lists@[l3.id as int]@);
                }
            }
            assert(replacer_head(tcx2, c, a, tcx2.list(l)) == replacer_head(tcx1, c, a, elems));
            lemma_replaceable_list_stable(tcx1, tcx2, c, replacer_head(tcx1, c, a, elems).1, t.id);
        },
        TyKind::Array(e, _) => lemma_replaceable_stable(tcx1, tcx2, c, e),
        TyKind::Slice(e) => lemma_replaceable_stable(tcx1, tcx2, c, e),
        TyKind::RawPtr(e, _) => lemma_replaceable_stable(tcx1, tcx2, c, e),
        TyKind::Ref(_, e, _) => lemma_replaceable_stable(tcx1, tcx2, c, e),
        TyKind::Tuple(l, _) => {
            assert(tcx2.lists@[l.id as int]@ == tcx1.lists@[l.id as int]@);
            lemma_replaceable_list_stable(tcx1, tcx2, c, tcx1.list(l), t.id);
        },
        TyKind::Other(_, _, l) => {
            assert(tcx2.lists@[l.id as int]@ == tcx1.lists@[l.id as int]@);
            lemma_replaceable_list_stable(tcx1, tcx2, c, tcx1.list(l), t.id);
        },
        _ => {},
    }
}

proof fn lemma_replaceable_list_stable(tcx1: &TyCtxt, tcx2: &TyCtxt, c: &AdtContainer, xs: Seq<Ty>, bound: usize)
    requires
        tcx1.wf(),
        tcx2.extends(tcx1),
        replaceable_list(tcx1, c, xs, bound),
    ensures
        replaceable_list(tcx2, c, xs, bound),
    decreases bound, 0nat, xs.len(),
{
    if xs.len() > 0 {
        lemma_replaceable_list_stable(tcx1, tcx2, c, xs.drop_last(), bound);
        lemma_replaceable_stable(tcx1, tcx2, c, xs.last());
    }
}

/// A list can be folded exactly when each of its types can.
proof fn lemma_replaceable_list_pointwise(tcx: &TyCtxt, c: &AdtContainer, xs: Seq<Ty>, bound: usize)
    requires
        forall|i: int| 0 <= i < xs.len() ==> (#[trigger] xs[i]).id < bound,
    ensures
        replaceable_list(tcx, c, xs, bound) <==> forall|i: int| 0 <= i < xs.len() ==> replaceable(tcx, c, #[trigger] xs[i]),
    decreases xs.len(),
{
    if xs.len() > 0 {
        let n = xs.len() - 1;
        lemma_replaceable_list_pointwise(tcx, c, xs.drop_last(), bound);
        assert(xs[n] == xs.last());
        if forall|i: int| 0 <= i < xs.len() ==> replaceable(tcx, c, #[trigger] xs[i]) {
            assert forall|i: int| 0 <= i < xs.drop_last().len() implies replaceable(tcx, c, #[trigger] xs.drop_last()[i]) by {
                assert(xs.drop_last()[i] == xs[i]);
            }
        }
        if replaceable_list(tcx, c, xs, bound) {
            assert forall|i: int| 0 <= i < xs.len() implies replaceable(tcx, c, #[trigger] xs[i]) by {
                if i < n {
                    assert(xs.drop_last()[i] == xs[i]);
                }
            }
        }
    }
}

/// `r` is `t` folded by the type replacer: every ADT type is rewritten
/// as `replacer_head` says and its substitutions folded; arrays, slices,
/// pointers, references, tuples and the other kinds that hold types are
/// folded type by type, keeping everything else of them; every other type
/// stays.
pub open spec fn replaced(tcx: &TyCtxt, c: &AdtContainer, t: Ty, r: Ty) -> bool
    decreases t.id, 1nat, 0nat,
{
    if !tcx.has(t) || !tcx.has(r) {
        false
    } else {
        match tcx.kind(t) {
            TyKind::Adt(a, l) => {
                let h = replacer_head(tcx, c, a, tcx.list(l));
                match tcx.kind(r) {
                    TyKind::Adt(b, l2) => b == h.0 && tcx.has_list(l2) && replaced_list(tcx, c, h.1, tcx.list(l2), t.id),
                    _ => false,
                }
            },
            TyKind::Array(e, n) => e.id < t.id && match tcx.kind(r) {
                TyKind::Array(e2, n2) => n2 == n && replaced(tcx, c, e, e2),
                _ => false,
            },
            TyKind::Slice(e) => e.id < t.id && match tcx.kind(r) {
                TyKind::Slice(e2) => replaced(tcx, c, e, e2),
                _ => false,
            },
            TyKind::RawPtr(e, m) => e.id < t.id && match tcx.kind(r) {
                TyKind::RawPtr(e2, m2) => m2 == m && replaced(tcx, c, e, e2),
                _ => false,
            },
            TyKind::Ref(reg, e, m) => e.id < t.id && match tcx.kind(r) {
                TyKind::Ref(reg2, e2, m2) => reg2 == reg && m2 == m && replaced(tcx, c, e, e2),
                _ => false,
            },
            TyKind::Tuple(l, d) => match tcx.kind(r) {
                TyKind::Tuple(l2, d2) => d2 == d && tcx.has_list(l2) && replaced_list(
                    tcx,
                    c,
                    tcx.list(l),
                    tcx.list(l2),
                    t.id,
                ),
                _ => false,
            },
            TyKind::Other(o, d, l) => match tcx.kind(r) {
                TyKind::Other(o2, d2, l2) => o2 == o && d2 == d && tcx.has_list(l2) && replaced_list(
                    tcx,
                    c,
                    tcx.list(l),
                    tcx.list(l2),
                    t.id,
                ),
                _ => false,
            },
            _ => r == t,
        }
    }
}

/// `ys` are `xs` folded, element by element (each below `bound`).
pub open spec fn replaced_list(tcx: &TyCtxt, c: &AdtContainer, xs: Seq<Ty>, ys: Seq<Ty>, bound: usize) -> bool
    decreases bound, 0nat, xs.len(),
{
    if xs.len() != ys.len() {
        false
    } else if xs.len() == 0 {
        true
    } else {
        replaced_list(tcx, c, xs.drop_last(), ys.drop_last(), bound) && xs.last().id < bound && replaced(
            tcx,
            c,
            xs.last(),
            ys.last(),
        )
    }
}

/// Folding stays true as the context grows.
pub proof fn lemma_replaced_stable(tcx1: &TyCtxt, tcx2: &TyCtxt, c: &AdtContainer, t: Ty, r: Ty)
    requires
        tcx1.wf(),
        tcx2.extends(tcx1),
        replaced(tcx1, c, t, r),
    ensures
        replaced(tcx2, c, t, r),
    decreases t.id, 1nat, 0nat,
{
    assert(tcx2.kinds@[t.id as int] == tcx1.kinds@[t.id as int]);
    assert(tcx2.kinds@[r.id as int] == tcx1.kinds@[r.id as int]);
    assert(crate::ty::kind_refs_below(tcx1.kinds@[t.id as int], t.id as nat, tcx1.lists@));
    match tcx1.kind(t) {
        TyKind::Adt(a, l) => {
            assert(tcx2.lists@[l.id as int]@ == tcx1.lists@[l.id as int]@);
            let elems = tcx1.list(l);
            if elems.len() > 0 && tcx1.has(elems[0]) {
                assert(tcx2.kinds@[elems[0].id as int] == tcx1.kinds@[elems[0].id as int]);
                if let TyKind::Adt(_, l3) = tcx1.kind(elems[0]) {
                    assert(tcx2.lists@[l3.id as int]@ == tcx1.lists@[l3.id as int]@);
                }
            }
            assert(replacer_head(tcx2, c, a, tcx2.list(l)) == replacer_head(tcx1, c, a, elems));
            if let TyKind::Adt(_, l2) = tcx1.kind(r) {
                assert(tcx2.lists@[l2.id as int]@ == tcx1.lists@[l2.id as int]@);
                let h = replacer_head(tcx1, c, a, elems);
                lemma_replaced_list_stable(tcx1, tcx2, c, h.1, tcx1.list(l2), t.id);
            }
        },
        TyKind::Array(e, _) => {
            if let TyKind::Array(e2, _) = tcx1.kind(r) {
                lemma_replaced_stable(tcx1, tcx2, c, e, e2);
            }
        },
        TyKind::Slice(e) => {
            if let TyKind::Slice(e2) = tcx1.kind(r) {
                lemma_replaced_stable(tcx1, tcx2, c, e, e2);
            }
        },
        TyKind::RawPtr(e, _) => {
            if let TyKind::RawPtr(e2, _) = tcx1.kind(r) {
                lemma_replaced_stable(tcx1, tcx2, c, e, e2);
            }
        },
        TyKind::Ref(_, e, _) => {
            if let TyKind::Ref(_, e2, _) = tcx1.kind(r) {
                lemma_replaced_stable(tcx1, tcx2, c, e, e2);
            }
        },
        TyKind::Tuple(l, _) => {
            assert(tcx2.lists@[l.id as int]@ == tcx1.lists@[l.id as int]@);
            if let TyKind::Tuple(l2, _) = tcx1.kind(r) {
                assert(tcx2.lists@[l2.id as int]@ == tcx1.lists@[l2.id as int]@);
                lemma_replaced_list_stable(tcx1, tcx2, c, tcx1.list(l), tcx1.list(l2), t.id);
            }
        },
        TyKind::Other(_, _, l) => {
            assert(tcx2.lists@[l.id as int]@ == tcx1.lists@[l.id as int]@);
            if let TyKind::Other(_, _, l2) = tcx1.kind(r) {
                assert(tcx2.lists@[l2.id as int]@ == tcx1.lists@[l2.id as int]@);
                lemma_replaced_list_stable(tcx1, tcx2, c, tcx1.list(l), tcx1.list(l2), t.id);
            }
        },
        _ => {},
    }
}

pub proof fn lemma_replaced_list_stable(
    tcx1: &TyCtxt,
    tcx2: &TyCtxt,
    c: &AdtContainer,
    xs: Seq<Ty>,
    ys: Seq<Ty>,
    bound: usize,
)
    requires
        tcx1.wf(),
        tcx2.extends(tcx1),
        replaced_list(tcx1, c, xs, ys, bound),
    ensures
        replaced_list(tcx2, c, xs, ys, bound),
    decreases bound, 0nat, xs.len(),
{
    if xs.len() > 0 {
        lemma_replaced_list_stable(tcx1, tcx2, c, xs.drop_last(), ys.drop_last(), bound);
        lemma_replaced_stable(tcx1, tcx2, c, xs.last(), ys.last());
    }
}

/// A list folds to another exactly when they are as long and each element
/// folds to the other's element.
proof fn lemma_replaced_list_pointwise(tcx: &TyCtxt, c: &AdtContainer, xs: Seq<Ty>, ys: Seq<Ty>, bound: usize)
    requires
        forall|i: int| 0 <= i < xs.len() ==> (#[trigger] xs[i]).id < bound,
    ensures
        replaced_list(tcx, c, xs, ys, bound) <==> (xs.len() == ys.len() && forall|i: int|
            0 <= i < xs.len() ==> replaced(tcx, c, #[trigger] xs[i], ys[i])),
    decreases xs.len(),
{
    if xs.len() == ys.len() && xs.len() > 0 {
        let n = xs.len() - 1;
        lemma_replaced_list_pointwise(tcx, c, xs.drop_last(), ys.drop_last(), bound);
        assert(xs[n] == xs.last());
        if forall|i: int| 0 <= i < xs.len() ==> replaced(tcx, c, #[trigger] xs[i], ys[i]) {
            assert forall|i: int| 0 <= i < xs.drop_last().len() implies replaced(
                tcx,
                c,
                #[trigger] xs.drop_last()[i],
                ys.drop_last()[i],
            ) by {
                assert(xs.drop_last()[i] == xs[i] && ys.drop_last()[i] == ys[i]);
            }
        }
        if replaced_list(tcx, c, xs, ys, bound) {
            assert forall|i: int| 0 <= i < xs.len() implies replaced(tcx, c, #[trigger] xs[i], ys[i]) by {
                if i < n {
                    assert(xs.drop_last()[i] == xs[i] && ys.drop_last()[i] == ys[i]);
                }
            }
        }
    }
}

/// Folding a compound type is folding its parts: an array, slice, raw
/// pointer or reference folds to one of the same length, region and
/// mutability exactly when its element folds to that one's element, and
/// a tuple, or another kind that holds types, folds to one of the same
/// kind exactly when the types it holds fold to the other's.
pub proof fn lemma_replace_compound(tcx: &TyCtxt, c: &AdtContainer, t: Ty, r: Ty)
    requires
        tcx.wf(),
        tcx.has(t),
        tcx.has(r),
    ensures
        (tcx.kind(t), tcx.kind(r)) matches (TyKind::Array(e, n), TyKind::Array(e2, n2)) ==> (replaced(
            tcx,
            c,
            t,
            r,
        ) <==> (n2 == n && replaced(tcx, c, e, e2))),
        (tcx.kind(t), tcx.kind(r)) matches (TyKind::Slice(e), TyKind::Slice(e2)) ==> (replaced(tcx, c, t, r)
            <==> replaced(tcx, c, e, e2)),
        (tcx.kind(t), tcx.kind(r)) matches (TyKind::RawPtr(e, m), TyKind::RawPtr(e2, m2)) ==> (replaced(
            tcx,
            c,
            t,
            r,
        ) <==> (m2 == m && replaced(tcx, c, e, e2))),
        (tcx.kind(t), tcx.kind(r)) matches (TyKind::Ref(g, e, m), TyKind::Ref(g2, e2, m2)) ==> (replaced(
            tcx,
            c,
            t,
            r,
        ) <==> (g2 == g && m2 == m && replaced(tcx, c, e, e2))),
        (tcx.kind(t), tcx.kind(r)) matches (TyKind::Tuple(l, d), TyKind::Tuple(l2, d2)) ==> (replaced(
            tcx,
            c,
            t,
            r,
        ) <==> (d2 == d && tcx.list(l).len() == tcx.list(l2).len() && forall|i: int|
            0 <= i < tcx.list(l).len() ==> replaced(tcx, c, #[trigger] tcx.list(l)[i], tcx.list(l2)[i]))),
        (tcx.kind(t), tcx.kind(r)) matches (TyKind::Other(o, d, l), TyKind::Other(o2, d2, l2)) ==> (replaced(
            tcx,
            c,
            t,
            r,
        ) <==> (o2 == o && d2 == d && tcx.list(l).len() == tcx.list(l2).len() && forall|i: int|
            0 <= i < tcx.list(l).len() ==> replaced(tcx, c, #[trigger] tcx.list(l)[i], tcx.list(l2)[i]))),
{
    assert(kind_refs_below(tcx.kinds@[t.id as int], t.id as nat, tcx.lists@));
    assert(kind_refs_below(tcx.kinds@[r.id as int], r.id as nat, tcx.lists@));
    if let (TyKind::Tuple(l, _), TyKind::Tuple(l2, _)) = (tcx.kind(t), tcx.kind(r)) {
        lemma_replaced_list_pointwise(tcx, c, tcx.list(l), tcx.list(l2), t.id);
    }
    if let (TyKind::Other(_, _, l), TyKind::Other(_, _, l2)) = (tcx.kind(t), tcx.kind(r)) {
        lemma_replaced_list_pointwise(tcx, c, tcx.list(l), tcx.list(l2), t.id);
    }
}

/// Two lists that one list folds to are the same.
proof fn lemma_replaced_list_unique(
    tcx: &TyCtxt,
    c: &AdtContainer,
    xs: Seq<Ty>,
    ys1: Seq<Ty>,
    ys2: Seq<Ty>,
    bound: usize,
)
    requires
        tcx.wf(),
        replaced_list(tcx, c, xs, ys1, bound),
        replaced_list(tcx, c, xs, ys2, bound),
    ensures
        ys1 == ys2,
    decreases bound, 0nat, xs.len(),
{
    if xs.len() > 0 {
        lemma_replaced_list_unique(tcx, c, xs.drop_last(), ys1.drop_last(), ys2.drop_last(), bound);
        lemma_replaced_unique(tcx, c, xs.last(), ys1.last(), ys2.last());
        assert(ys1 =~= ys1.drop_last().push(ys1.last()));
        assert(ys2 =~= ys2.drop_last().push(ys2.last()));
    } else {
        assert(ys1 =~= ys2);
    }
}

/// Folding gives one type: two types that `t` folds to are the same.
pub proof fn lemma_replaced_unique(tcx: &TyCtxt, c: &AdtContainer, t: Ty, r1: Ty, r2: Ty)
    requires
        tcx.wf(),
        replaced(tcx, c, t, r1),
        replaced(tcx, c, t, r2),
    ensures
        r1 == r2,
    decreases t.id, 1nat, 0nat,
{
    assert(kind_refs_below(tcx.kinds@[t.id as int], t.id as nat, tcx.lists@));
    match tcx.kind(t) {
        TyKind::Adt(a, l) => {
            let h = replacer_head(tcx, c, a, tcx.list(l));
            if let (TyKind::Adt(_, l1), TyKind::Adt(_, l2)) = (tcx.kind(r1), tcx.kind(r2)) {
                lemma_replaced_list_unique(tcx, c, h.1, tcx.list(l1), tcx.list(l2), t.id);
                crate::ty::lemma_same_list(tcx, l1, l2);
            }
        },
        TyKind::Array(e, _) => {
            if let (TyKind::Array(e1, _), TyKind::Array(e2, _)) = (tcx.kind(r1), tcx.kind(r2)) {
                lemma_replaced_unique(tcx, c, e, e1, e2);
            }
        },
        TyKind::Slice(e) => {
            if let (TyKind::Slice(e1), TyKind::Slice(e2)) = (tcx.kind(r1), tcx.kind(r2)) {
                lemma_replaced_unique(tcx, c, e, e1, e2);
            }
        },
        TyKind::RawPtr(e, _) => {
            if let (TyKind::RawPtr(e1, _), TyKind::RawPtr(e2, _)) = (tcx.kind(r1), tcx.kind(r2)) {
                lemma_replaced_unique(tcx, c, e, e1, e2);
            }
        },
        TyKind::Ref(_, e, _) => {
            if let (TyKind::Ref(_, e1, _), TyKind::Ref(_, e2, _)) = (tcx.kind(r1), tcx.kind(r2)) {
                lemma_replaced_unique(tcx, c, e, e1, e2);
            }
        },
        TyKind::Tuple(l, _) => {
            if let (TyKind::Tuple(l1, _), TyKind::Tuple(l2, _)) = (tcx.kind(r1), tcx.kind(r2)) {
                lemma_replaced_list_unique(tcx, c, tcx.list(l), tcx.list(l1), tcx.list(l2), t.id);
                crate::ty::lemma_same_list(tcx, l1, l2);
            }
        },
        TyKind::Other(_, _, l) => {
            if let (TyKind::Other(_, _, l1), TyKind::Other(_, _, l2)) = (tcx.kind(r1), tcx.kind(r2)) {
                lemma_replaced_list_unique(tcx, c, tcx.list(l), tcx.list(l1), tcx.list(l2), t.id);
                crate::ty::lemma_same_list(tcx, l1, l2);
            }
        },
        _ => {},
    }
    if tcx.kind(r1) == tcx.kind(r2) {
        crate::ty::lemma_same_kind(tcx, r1, r2);
    }
}

/// Folding distributes over compound types: where `t` folds to `r`, an
/// array, slice, raw pointer or reference of `e` folds to the same one of
/// what `e` folds to on its own (`e2`), and a tuple, or another kind that
/// holds types, folds to the same one of what its types fold to on their
/// own (`rs`).
pub proof fn lemma_fold_distributes(tcx: &TyCtxt, c: &AdtContainer, t: Ty, r: Ty, e2: Ty, rs: Seq<Ty>)
    requires
        tcx.wf(),
        replaced(tcx, c, t, r),
    ensures
        tcx.kind(t) matches TyKind::Array(e, n) ==> (replaced(tcx, c, e, e2) ==> tcx.kind(r) == TyKind::Array(e2, n)),
        tcx.kind(t) matches TyKind::Slice(e) ==> (replaced(tcx, c, e, e2) ==> tcx.kind(r) == TyKind::Slice(e2)),
        tcx.kind(t) matches TyKind::RawPtr(e, m) ==> (replaced(tcx, c, e, e2) ==> tcx.kind(r) == TyKind::RawPtr(e2, m)),
        tcx.kind(t) matches TyKind::Ref(g, e, m) ==> (replaced(tcx, c, e, e2) ==> tcx.kind(r) == TyKind::Ref(g, e2, m)),
        tcx.kind(t) matches TyKind::Tuple(l, d) ==> (rs.len() == tcx.list(l).len() && (forall|i: int|
            0 <= i < rs.len() ==> replaced(tcx, c, #[trigger] tcx.list(l)[i], rs[i])) ==> (tcx.kind(r) matches TyKind::Tuple(l2, d2)
            && d2 == d && tcx.list(l2) == rs)),
        tcx.kind(t) matches TyKind::Other(o, d, l) ==> (rs.len() == tcx.list(l).len() && (forall|i: int|
            0 <= i < rs.len() ==> replaced(tcx, c, #[trigger] tcx.list(l)[i], rs[i])) ==> (tcx.kind(r) matches TyKind::Other(o2, d2, l2)
            && o2 == o && d2 == d && tcx.list(l2) == rs)),
{
    assert(kind_refs_below(tcx.kinds@[t.id as int], t.id as nat, tcx.lists@));
    match tcx.kind(t) {
        TyKind::Array(e, _) => {
            if let TyKind::Array(e1, _) = tcx.kind(r) {
                if replaced(tcx, c, e, e2) {
                    lemma_replaced_unique(tcx, c, e, e1, e2);
                }
            }
        },
        TyKind::Slice(e) => {
            if let TyKind::Slice(e1) = tcx.kind(r) {
                if replaced(tcx, c, e, e2) {
                    lemma_replaced_unique(tcx, c, e, e1, e2);
                }
            }
        },
        TyKind::RawPtr(e, _) => {
            if let TyKind::RawPtr(e1, _) = tcx.kind(r) {
                if replaced(tcx, c, e, e2) {
                    lemma_replaced_unique(tcx, c, e, e1, e2);
                }
            }
        },
        TyKind::Ref(_, e, _) => {
            if let TyKind::Ref(_, e1, _) = tcx.kind(r) {
                if replaced(tcx, c, e, e2) {
                    lemma_replaced_unique(tcx, c, e, e1, e2);
                }
            }
        },
        TyKind::Tuple(l, _) => {
            if let TyKind::Tuple(l2, _) = tcx.kind(r) {
                lemma_replaced_list_pointwise(tcx, c, tcx.list(l), tcx.list(l2), t.id);
                lemma_replaced_list_pointwise(tcx, c, tcx.list(l), rs, t.id);
                if rs.len() == tcx.list(l).len() && (forall|i: int|
                    0 <= i < rs.len() ==> replaced(tcx, c, #[trigger] tcx.list(l)[i], rs[i])) {
                    lemma_replaced_list_unique(tcx, c, tcx.list(l), tcx.list(l2), rs, t.id);
                }
            }
        },
        TyKind::Other(_, _, l) => {
            if let TyKind::Other(_, _, l2) = tcx.kind(r) {
                lemma_replaced_list_pointwise(tcx, c, tcx.list(l), tcx.list(l2), t.id);
                lemma_replaced_list_pointwise(tcx, c, tcx.list(l), rs, t.id);
                if rs.len() == tcx.list(l).len() && (forall|i: int|
                    0 <= i < rs.len() ==> replaced(tcx, c, #[trigger] tcx.list(l)[i], rs[i])) {
                    lemma_replaced_list_unique(tcx, c, tcx.list(l), tcx.list(l2), rs, t.id);
                }
            }
        },
        _ => {},
    }
}

/// Folds types, rewriting the ADTs of a split struct.
pub struct TypeReplacer {
    pub adt_container: AdtContainer,
}

impl TypeReplacer {
    pub fn new(adt_container: AdtContainer) -> (r: TypeReplacer)
        ensures
            r.adt_container == adt_container,
    {
        TypeReplacer { adt_container }
    }

    /// Type `t` folded, as `replaced` says.
    pub fn fold_ty(&self, tcx: &mut TyCtxt, t: Ty) -> (r: Ty)
        requires
            old(tcx).wf(),
            replaceable(old(tcx), &self.adt_container, t),
        ensures
            final(tcx).wf(),
            final(tcx).extends(old(tcx)),
            replaced(final(tcx), &self.adt_container, t, r),
        decreases t.id, 1nat, 0nat,
    {
        let ghost tcx0 = *tcx;
        let k = tcx.kind_of(t);
        proof {
            assert(crate::ty::kind_refs_below(tcx.kinds@[t.id as int], t.id as nat, tcx.lists@));
        }
        match k {
            TyKind::Adt(a, l) => {
                let elems = crate::ty::copy_types(tcx.list_of(l));
                let (head, to_fold) = self.head(tcx, a, &elems);
                proof {
                    assert(tcx.has_all(tcx.lists@[l.id as int]@));
                    assert forall|i: int| 0 <= i < to_fold@.len() implies (#[trigger] to_fold@[i]).id < t.id
                        && tcx.has(to_fold@[i]) by {
                        if !(head == a && to_fold@ == elems@) && a != self.adt_container.orig_adt {
                            let e0 = elems@[0];
                            assert(crate::ty::kind_refs_below(tcx.kinds@[e0.id as int], e0.id as nat, tcx.lists@));
                            if let TyKind::Adt(_, l2) = tcx.kind(e0) {
                                assert(tcx.has_all(tcx.lists@[l2.id as int]@));
                            }
                        }
                    }
                }
                let folded = self.fold_list(tcx, &to_fold, t.id);
                let ghost tcx1 = *tcx;
                let l2 = tcx.intern_type_list(&folded);
                let r = tcx.mk_adt(head, l2);
                proof {
                    lemma_replaced_list_stable(&tcx1, tcx, &self.adt_container, to_fold@, folded@, t.id);
                    self.lemma_head_stable(&tcx0, tcx, a, elems@);
                }
                r
            },
            TyKind::Array(e, n) => {
                let e2 = self.fold_ty(tcx, e);
                let ghost tcx1 = *tcx;
                let r = tcx.mk_array(e2, n);
                proof {
                    lemma_replaced_stable(&tcx1, tcx, &self.adt_container, e, e2);
                }
                r
            },
            TyKind::Slice(e) => {
                let e2 = self.fold_ty(tcx, e);
                let ghost tcx1 = *tcx;
                let r = tcx.mk_slice(e2);
                proof {
                    lemma_replaced_stable(&tcx1, tcx, &self.adt_container, e, e2);
                }
                r
            },
            TyKind::RawPtr(e, m) => {
                let e2 = self.fold_ty(tcx, e);
                let ghost tcx1 = *tcx;
                let r = tcx.mk_ty(TyKind::RawPtr(e2, m));
                proof {
                    lemma_replaced_stable(&tcx1, tcx, &self.adt_container, e, e2);
                }
                r
            },
            TyKind::Ref(reg, e, m) => {
                let e2 = self.fold_ty(tcx, e);
                let ghost tcx1 = *tcx;
                let r = tcx.mk_ref(reg, e2, m);
                proof {
                    lemma_replaced_stable(&tcx1, tcx, &self.adt_container, e, e2);
                }
                r
            },
            TyKind::Tuple(l, d) => {
                let elems = crate::ty::copy_types(tcx.list_of(l));
                proof {
                    assert(tcx.has_all(tcx.lists@[l.id as int]@));
                }
                let folded = self.fold_list(tcx, &elems, t.id);
                let ghost tcx1 = *tcx;
                let l2 = tcx.intern_type_list(&folded);
                let r = tcx.mk_ty(TyKind::Tuple(l2, d));
                proof {
                    lemma_replaced_list_stable(&tcx1, tcx, &self.adt_container, elems@, folded@, t.id);
                    assert(tcx.kinds@[t.id as int] == tcx0.kinds@[t.id as int]);
                    assert(tcx.lists@[l.id as int]@ == tcx0.lists@[l.id as int]@);
                }
                r
            },
            TyKind::Other(o, d, l) => {
                let elems = crate::ty::copy_types(tcx.list_of(l));
                proof {
                    assert(tcx.has_all(tcx.lists@[l.id as int]@));
                }
                let folded = self.fold_list(tcx, &elems, t.id);
                let ghost tcx1 = *tcx;
                let l2 = tcx.intern_type_list(&folded);
                let r = tcx.mk_ty(TyKind::Other(o, d, l2));
                proof {
                    lemma_replaced_list_stable(&tcx1, tcx, &self.adt_container, elems@, folded@, t.id);
                    assert(tcx.kinds@[t.id as int] == tcx0.kinds@[t.id as int]);
                    assert(tcx.lists@[l.id as int]@ == tcx0.lists@[l.id as int]@);
                }
                r
            },
            _ => t,
        }
    }

    proof fn lemma_head_stable(&self, tcx1: &TyCtxt, tcx2: &TyCtxt, a: AdtId, elems: Seq<Ty>)
        requires
            tcx1.wf(),
            tcx2.extends(tcx1),
            tcx1.has_all(elems),
        ensures
            replacer_head(tcx2, &self.adt_container, a, elems) == replacer_head(tcx1, &self.adt_container, a, elems),
    {
        if elems.len() > 0 {
            assert(tcx1.has(elems[0]));
            assert(tcx2.kinds@[elems[0].id as int] == tcx1.kinds@[elems[0].id as int]);
            if let TyKind::Adt(_, l2) = tcx1.kind(elems[0]) {
                assert(crate::ty::kind_refs_below(tcx1.kinds@[elems[0].id as int], elems[0].id as nat, tcx1.lists@));
                assert(tcx2.lists@[l2.id as int]@ == tcx1.lists@[l2.id as int]@);
            }
        }
    }

    fn head(&self, tcx: &TyCtxt, a: AdtId, elems: &Vec<Ty>) -> (r: (AdtId, Vec<Ty>))
        requires
            tcx.wf(),
            tcx.has_all(elems@),
        ensures
            (r.0, r.1@) == replacer_head(tcx, &self.adt_container, a, elems@),
    {
        if a == self.adt_container.orig_adt {
            (self.adt_container.tup_adt, crate::ty::copy_types(elems))
        } else if contains_adt(&self.adt_container.vec_adts, a) && elems.len() > 0 {
            match tcx.kind_of(elems[0]) {
                TyKind::Adt(_, l2) => {
                    proof {
                        assert(crate::ty::kind_refs_below(tcx.kinds@[elems@[0].id as int], elems@[0].id as nat, tcx.lists@));
                    }
                    (self.adt_container.vtup_adt, crate::ty::copy_types(tcx.list_of(l2)))
                },
                _ => (a, crate::ty::copy_types(elems)),
            }
        } else {
            (a, crate::ty::copy_types(elems))
        }
    }

    fn fold_list(&self, tcx: &mut TyCtxt, xs: &Vec<Ty>, bound: usize) -> (r: Vec<Ty>)
        requires
            old(tcx).wf(),
            forall|i: int| 0 <= i < xs@.len() ==> (#[trigger] xs@[i]).id < bound && old(tcx).has(xs@[i]),
            replaceable_list(old(tcx), &self.adt_container, xs@, bound),
        ensures
            final(tcx).wf(),
            final(tcx).extends(old(tcx)),
            replaced_list(final(tcx), &self.adt_container, xs@, r@, bound),
            final(tcx).has_all(r@),
        decreases bound, 0nat, xs@.len(),
    {
        let ghost tcx0 = *tcx;
        proof {
            lemma_replaceable_list_pointwise(tcx, &self.adt_container, xs@, bound);
        }
        let mut r: Vec<Ty> = Vec::new();
        for i in 0..xs.len()
            invariant
                tcx0 == *old(tcx),
                tcx0.wf(),
                tcx.wf(),
                tcx.extends(&tcx0),
                forall|j: int| 0 <= j < xs@.len() ==> (#[trigger] xs@[j]).id < bound && tcx0.has(xs@[j]),
                forall|j: int| 0 <= j < xs@.len() ==> replaceable(&tcx0, &self.adt_container, #[trigger] xs@[j]),
                replaced_list(tcx, &self.adt_container, xs@.take(i as int), r@, bound),
                tcx.has_all(r@),
        {
            let ghost tcx1 = *tcx;
            proof {
                crate::ty::lemma_extends_keeps(&tcx0, tcx, xs@[i as int]);
                lemma_replaceable_stable(&tcx0, tcx, &self.adt_container, xs@[i as int]);
            }
            let y = self.fold_ty(tcx, xs[i]);
            proof {
                lemma_replaced_list_stable(&tcx1, tcx, &self.adt_container, xs@.take(i as int), r@, bound);
            }
            let ghost r_before = r@;
            r.push(y);
            proof {
                assert(xs@.take(i + 1).drop_last() =~= xs@.take(i as int));
                assert(r@.drop_last() =~= r_before);
                assert(xs@.take(i + 1).last() == xs@[i as int]);
                assert forall|j: int| 0 <= j < r@.len() implies tcx.has(#[trigger] r@[j]) by {
                    if j < r_before.len() {
                        assert(r@[j] == r_before[j]);
                        assert(tcx1.has(r_before[j]));
                    }
                }
            }
        }
        proof {
            assert(xs@.take(xs@.len() as int) =~= xs@);
        }
        r
    }
}

fn contains_adt(v: &Vec<AdtId>, a: AdtId) -> (r: bool)
    ensures
        r == v@.contains(a),
{
    for i in 0..v.len()
        invariant
            forall|j: int| 0 <= j < i ==> v@[j] != a,
    {
        if v[i] == a {
            return true;
        }
    }
    false
}

} // verus!

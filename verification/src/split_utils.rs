//! Shared steps of the argument and signature splitters: ordering a
//! local's children by the definition of their types, their types, and
//! the assignments that move each child out of a tuple.
use vstd::prelude::*;

use crate::mir::{Local, LocalDecl, Lvalue, LvalueProjection, ProjectionElem};
use crate::ty::{AdtId, Ty, TyCtxt, TyKind};

verus! {

/// The definition a child's type is ordered by: its ADT, or the crate root
/// (`0`) for a type that is no ADT.
pub open spec fn adt_key(tcx: &TyCtxt, t: Ty) -> AdtId {
    match tcx.kind(t) {
        TyKind::Adt(a, _) => a,
        _ => 0,
    }
}

/// Where an element with key `k` goes in `s`: after every element whose
/// key is at most `k`, counted from the back.
pub open spec fn insert_pos(tcx: &TyCtxt, s: Seq<(Ty, Local)>, k: AdtId) -> int
    decreases s.len(),
{
    if s.len() == 0 {
        0
    } else if adt_key(tcx, s.last().0) <= k {
        s.len() as int
    } else {
        insert_pos(tcx, s.drop_last(), k)
    }
}

/// `s` sorted by the key of its types, keeping the order of equal keys.
pub open spec fn sort_by_adt(tcx: &TyCtxt, s: Seq<(Ty, Local)>) -> Seq<(Ty, Local)>
    decreases s.len(),
{
    if s.len() == 0 {
        s
    } else {
        let t = sort_by_adt(tcx, s.drop_last());
        t.insert(insert_pos(tcx, t, adt_key(tcx, s.last().0)), s.last())
    }
}

/// `s` is ordered by the keys of its types.
pub open spec fn sorted_by_adt(tcx: &TyCtxt, s: Seq<(Ty, Local)>) -> bool {
    forall|i: int, j: int| 0 <= i <= j < s.len() ==> adt_key(tcx, #[trigger] s[i].0) <= adt_key(tcx, #[trigger] s[j].0)
}

proof fn lemma_insert_pos(tcx: &TyCtxt, s: Seq<(Ty, Local)>, k: AdtId)
    requires
        sorted_by_adt(tcx, s),
    ensures
        0 <= insert_pos(tcx, s, k) <= s.len(),
        forall|i: int| 0 <= i < insert_pos(tcx, s, k) ==> adt_key(tcx, #[trigger] s[i].0) <= k,
        forall|i: int| insert_pos(tcx, s, k) <= i < s.len() ==> adt_key(tcx, #[trigger] s[i].0) > k,
    decreases s.len(),
{
    if s.len() > 0 {
        let d = s.drop_last();
        assert(sorted_by_adt(tcx, d)) by {
            assert forall|i: int, j: int| 0 <= i <= j < d.len() implies adt_key(tcx, #[trigger] d[i].0)
                <= adt_key(tcx, #[trigger] d[j].0) by {
                assert(d[i] == s[i] && d[j] == s[j]);
            }
        }
        lemma_insert_pos(tcx, d, k);
        if adt_key(tcx, s.last().0) <= k {
            assert forall|i: int| 0 <= i < s.len() implies adt_key(tcx, #[trigger] s[i].0) <= k by {
                assert(adt_key(tcx, s[i].0) <= adt_key(tcx, s[s.len() - 1].0));
            }
        } else {
            assert forall|i: int| 0 <= i < insert_pos(tcx, s, k) implies adt_key(tcx, #[trigger] s[i].0)
                <= k by {
                assert(d[i] == s[i]);
            }
            assert forall|i: int| insert_pos(tcx, s, k) <= i < s.len() implies adt_key(
                tcx,
                #[trigger] s[i].0,
            ) > k by {
                if i < s.len() - 1 {
                    assert(d[i] == s[i]);
                }
            }
        }
    }
}

/// The order the splitters give a local's children: sorted by the
/// definitions of their types, equal keys in the order they came in, and
/// the same pairs as before.
pub proof fn lemma_sort_by_adt(tcx: &TyCtxt, s: Seq<(Ty, Local)>)
    ensures
        sorted_by_adt(tcx, sort_by_adt(tcx, s)),
        sort_by_adt(tcx, s).to_multiset() == s.to_multiset(),
    decreases s.len(),
{
    broadcast use vstd::seq_lib::group_seq_properties;
    broadcast use vstd::multiset::group_multiset_axioms;

    if s.len() > 0 {
        let t = sort_by_adt(tcx, s.drop_last());
        lemma_sort_by_adt(tcx, s.drop_last());
        let x = s.last();
        let k = adt_key(tcx, x.0);
        lemma_insert_pos(tcx, t, k);
        let p = insert_pos(tcx, t, k);
        let r = t.insert(p, x);
        assert forall|i: int, j: int| 0 <= i <= j < r.len() implies adt_key(tcx, #[trigger] r[i].0)
            <= adt_key(tcx, #[trigger] r[j].0) by {
            if i < p {
                assert(r[i] == t[i]);
            } else if i > p {
                assert(r[i] == t[i - 1]);
            }
            if j < p {
                assert(r[j] == t[j]);
            } else if j > p {
                assert(r[j] == t[j - 1]);
            }
        }
        assert(s =~= s.drop_last().push(x));
        vstd::seq_lib::to_multiset_insert(t, p, x);
        vstd::seq_lib::to_multiset_build(s.drop_last(), x);
    }
}

/// Sorting keeps the pairs: every pair of the sorted sequence is one of
/// the unsorted sequence's, and there are as many.
pub proof fn lemma_sorted_member(tcx: &TyCtxt, s: Seq<(Ty, Local)>)
    ensures
        sort_by_adt(tcx, s).len() == s.len(),
        forall|i: int| 0 <= i < s.len() ==> s.contains(#[trigger] sort_by_adt(tcx, s)[i]),
{
    broadcast use vstd::seq_lib::to_multiset_contains;
    broadcast use vstd::seq_lib::to_multiset_len;

    lemma_sort_by_adt(tcx, s);
    let t = sort_by_adt(tcx, s);
    assert(t.len() == t.to_multiset().len());
    assert(s.len() == s.to_multiset().len());
    assert forall|i: int| 0 <= i < s.len() implies s.contains(#[trigger] sort_by_adt(tcx, s)[i]) by {
        assert(t.contains(t[i]));
        assert(t.to_multiset().count(t[i]) > 0);
    }
}

/// No two pairs of `s` with types of the same definition differ: the
/// definition of its type tells a child apart.
pub open spec fn keys_determine(tcx: &TyCtxt, s: Seq<(Ty, Local)>) -> bool {
    forall|i: int, j: int|
        0 <= i < s.len() && 0 <= j < s.len() && adt_key(tcx, #[trigger] s[i].0) == adt_key(tcx, #[trigger] s[j].0)
            ==> s[i] == s[j]
}

/// Two sequences ordered by key, with the same pairs, where the key tells
/// a pair apart, are the same sequence.
proof fn lemma_sorted_unique(tcx: &TyCtxt, t1: Seq<(Ty, Local)>, t2: Seq<(Ty, Local)>)
    requires
        sorted_by_adt(tcx, t1),
        sorted_by_adt(tcx, t2),
        t1.to_multiset() == t2.to_multiset(),
        keys_determine(tcx, t1),
    ensures
        t1 == t2,
    decreases t1.len(),
{
    broadcast use vstd::seq_lib::to_multiset_contains;
    broadcast use vstd::seq_lib::to_multiset_len;
    broadcast use vstd::seq_lib::to_multiset_build;
    broadcast use vstd::multiset::group_multiset_axioms;

    assert(t1.len() == t1.to_multiset().len());
    assert(t2.len() == t2.to_multiset().len());
    if t1.len() == 0 {
        assert(t1 =~= t2);
    } else {
        let n = t1.len() as int;
        let x1 = t1.last();
        let x2 = t2.last();
        assert(t2.contains(x2)) by {
            assert(t2[n - 1] == x2);
        }
        assert(t2.to_multiset().count(x2) > 0);
        assert(t1.contains(x2));
        let i = choose|i: int| 0 <= i < t1.len() && t1[i] == x2;
        assert(adt_key(tcx, t1[i].0) <= adt_key(tcx, t1[n - 1].0));
        assert(t1.contains(x1)) by {
            assert(t1[n - 1] == x1);
        }
        assert(t1.to_multiset().count(x1) > 0);
        assert(t2.contains(x1));
        let j = choose|j: int| 0 <= j < t2.len() && t2[j] == x1;
        assert(adt_key(tcx, t2[j].0) <= adt_key(tcx, t2[n - 1].0));
        assert(x1 == x2);
        let d1 = t1.drop_last();
        let d2 = t2.drop_last();
        assert(t1 =~= d1.push(x1));
        assert(t2 =~= d2.push(x1));
        assert(d1.to_multiset() =~= d2.to_multiset()) by {
            assert forall|y: (Ty, Local)| d1.to_multiset().count(y) == d2.to_multiset().count(y) by {
                assert(d1.push(x1).to_multiset().count(y) == d2.push(x1).to_multiset().count(y));
            }
        }
        assert(sorted_by_adt(tcx, d1));
        assert(sorted_by_adt(tcx, d2)) by {
            assert forall|a: int, b: int| 0 <= a <= b < d2.len() implies adt_key(tcx, #[trigger] d2[a].0)
                <= adt_key(tcx, #[trigger] d2[b].0) by {
                assert(d2[a] == t2[a] && d2[b] == t2[b]);
            }
        }
        assert(keys_determine(tcx, d1)) by {
            assert forall|a: int, b: int|
                0 <= a < d1.len() && 0 <= b < d1.len() && adt_key(tcx, #[trigger] d1[a].0) == adt_key(
                    tcx,
                    #[trigger] d1[b].0,
                ) implies d1[a] == d1[b] by {
                assert(d1[a] == t1[a] && d1[b] == t1[b]);
            }
        }
        lemma_sorted_unique(tcx, d1, d2);
    }
}

/// The order the splitters give a local's children depends only on which
/// children it has, not on the order in which they are listed, where the
/// definition of a child's type tells it apart from the other children.
pub proof fn lemma_sort_order_irrelevant(tcx: &TyCtxt, s1: Seq<(Ty, Local)>, s2: Seq<(Ty, Local)>)
    requires
        s1.to_multiset() == s2.to_multiset(),
        keys_determine(tcx, s1),
    ensures
        sort_by_adt(tcx, s1) == sort_by_adt(tcx, s2),
{
    broadcast use vstd::seq_lib::to_multiset_contains;

    lemma_sort_by_adt(tcx, s1);
    lemma_sort_by_adt(tcx, s2);
    lemma_sorted_member(tcx, s1);
    let t1 = sort_by_adt(tcx, s1);
    assert(keys_determine(tcx, t1)) by {
        assert forall|a: int, b: int|
            0 <= a < t1.len() && 0 <= b < t1.len() && adt_key(tcx, #[trigger] t1[a].0) == adt_key(
                tcx,
                #[trigger] t1[b].0,
            ) implies t1[a] == t1[b] by {
            assert(s1.contains(t1[a]));
            assert(s1.contains(t1[b]));
            let ia = choose|i: int| 0 <= i < s1.len() && s1[i] == t1[a];
            let ib = choose|i: int| 0 <= i < s1.len() && s1[i] == t1[b];
            assert(adt_key(tcx, s1[ia].0) == adt_key(tcx, s1[ib].0));
        }
    }
    lemma_sorted_unique(tcx, t1, sort_by_adt(tcx, s2));
}

/// The children's locals, ordered as `sort_by_adt` orders the pairs.
pub fn get_local_map(tcx: &TyCtxt, local_map: &Vec<(Ty, Local)>) -> (r: Vec<Local>)
    requires
        tcx.wf(),
        forall|i: int| 0 <= i < local_map@.len() ==> tcx.has(#[trigger] local_map@[i].0),
        forall|i: int|
            0 <= i < local_map@.len() ==> tcx.kind(#[trigger] local_map@[i].0) is Adt,
    ensures
        r@ == sort_by_adt(tcx, local_map@).map_values(|p: (Ty, Local)| p.1),
{
    let sorted = sorted_children(tcx, local_map);
    let mut r: Vec<Local> = Vec::new();
    for i in 0..sorted.len()
        invariant
            r@ == sorted@.take(i as int).map_values(|p: (Ty, Local)| p.1),
    {
        r.push(sorted[i].1);
        proof {
            assert(sorted@.take(i + 1) =~= sorted@.take(i as int).push(sorted@[i as int]));
            assert(r@ =~= sorted@.take(i + 1).map_values(|p: (Ty, Local)| p.1));
        }
    }
    proof {
        assert(sorted@.take(sorted@.len() as int) =~= sorted@);
    }
    r
}

/// The pairs sorted by `sort_by_adt`.
pub fn sorted_children(tcx: &TyCtxt, local_map: &Vec<(Ty, Local)>) -> (r: Vec<(Ty, Local)>)
    requires
        tcx.wf(),
        forall|i: int| 0 <= i < local_map@.len() ==> tcx.has(#[trigger] local_map@[i].0),
    ensures
        r@ == sort_by_adt(tcx, local_map@),
{
    let mut r: Vec<(Ty, Local)> = Vec::new();
    for i in 0..local_map.len()
        invariant
            tcx.wf(),
            forall|k: int| 0 <= k < local_map@.len() ==> tcx.has(#[trigger] local_map@[k].0),
            r@ == sort_by_adt(tcx, local_map@.take(i as int)),
            forall|k: int| 0 <= k < r@.len() ==> tcx.has(#[trigger] r@[k].0),
    {
        let x = local_map[i];
        let k = key_of(tcx, x.0);
        let mut p = r.len();
        proof {
            assert(r@.take(p as int) =~= r@);
        }
        while p > 0 && key_of(tcx, r[p - 1].0) > k
            invariant
                tcx.wf(),
                p <= r@.len(),
                forall|k2: int| 0 <= k2 < r@.len() ==> tcx.has(#[trigger] r@[k2].0),
                insert_pos(tcx, r@, k) == insert_pos(tcx, r@.take(p as int), k),
                k == adt_key(tcx, x.0),
            decreases p,
        {
            proof {
                assert(r@.take(p as int).drop_last() =~= r@.take(p - 1));
            }
            p = p - 1;
        }
        proof {
            if p > 0 {
                assert(r@.take(p as int).last() == r@[p - 1]);
            }
            assert(insert_pos(tcx, r@.take(p as int), k) == p);
            let t = local_map@.take(i + 1);
            assert(t.drop_last() =~= local_map@.take(i as int));
        }
        r.insert(p, x);
    }
    proof {
        assert(local_map@.take(local_map@.len() as int) =~= local_map@);
    }
    r
}

fn key_of(tcx: &TyCtxt, t: Ty) -> (r: AdtId)
    requires
        tcx.has(t),
    ensures
        r == adt_key(tcx, t),
{
    match tcx.kind_of(t) {
        TyKind::Adt(a, _) => a,
        _ => 0,
    }
}

/// The declared types of locals `local_vec`, in order, interned as a list.
pub fn get_type_list(tcx: &mut TyCtxt, local_decls: &Vec<LocalDecl>, local_vec: &Vec<Local>) -> (r:
    Vec<Ty>)
    requires
        old(tcx).wf(),
        forall|i: int| 0 <= i < local_vec@.len() ==> #[trigger] local_vec@[i] < local_decls@.len(),
        forall|i: int| 0 <= i < local_decls@.len() ==> old(tcx).has(#[trigger] local_decls@[i].ty),
    ensures
        final(tcx).wf(),
        final(tcx).extends(old(tcx)),
        r@.len() == local_vec@.len(),
        forall|i: int| 0 <= i < local_vec@.len() ==> #[trigger] r@[i] == local_decls@[local_vec@[i] as int].ty,
{
    let mut ty_vec: Vec<Ty> = Vec::new();
    for i in 0..local_vec.len()
        invariant
            ty_vec@.len() == i,
            forall|k: int| 0 <= k < local_vec@.len() ==> #[trigger] local_vec@[k] < local_decls@.len(),
            forall|k: int| 0 <= k < i ==> #[trigger] ty_vec@[k] == local_decls@[local_vec@[k] as int].ty,
    {
        ty_vec.push(local_decls[local_vec[i]].ty);
    }
    let l = tcx.intern_type_list(&ty_vec);
    crate::ty::copy_types(tcx.list_of(l))
}

/// For each child local `l_i` of `local`, the pair of `l_i` and field `i`
/// of `local`, of type `new_type_list[i]`.
/// The assignments that move each of `local_vec` out of tuple `local`:
/// the `i`-th local gets field `i`, of type `new_type_list[i]`.
pub fn get_assignments_for_local(local: Local, new_type_list: &Vec<Ty>, local_vec: &Vec<Local>) -> (r:
    Vec<(Lvalue, Lvalue)>)
    requires
        local_vec@.len() <= new_type_list@.len(),
    ensures
        r@.len() == local_vec@.len(),
        forall|i: int|
            0 <= i < local_vec@.len() ==> #[trigger] r@[i] == (
                Lvalue::Local(local_vec@[i]),
                Lvalue::Projection(
                    Box::new(
                        LvalueProjection {
                            base: Lvalue::Local(local),
                            elem: ProjectionElem::Field(i as usize, new_type_list@[i]),
                        },
                    ),
                ),
            ),
{
    let mut assigns: Vec<(Lvalue, Lvalue)> = Vec::new();
    for i in 0..local_vec.len()
        invariant
            assigns@.len() == i,
            local_vec@.len() <= new_type_list@.len(),
            forall|k: int|
                0 <= k < i ==> #[trigger] assigns@[k] == (
                    Lvalue::Local(local_vec@[k]),
                    Lvalue::Projection(
                        Box::new(
                            LvalueProjection {
                                base: Lvalue::Local(local),
                                elem: ProjectionElem::Field(k as usize, new_type_list@[k]),
                            },
                        ),
                    ),
                ),
    {
        let tuple_projection = Lvalue::Local(local).field(i, new_type_list[i]);
        let lhs = Lvalue::Local(local_vec[i]);
        assigns.push((lhs, tuple_projection));
    }
    assigns
}

/// The types of the children of `local`, ordered by their ADTs, and the
/// assignments that move each child out of the matching field of `local`.
pub fn get_split_structures(
    tcx: &mut TyCtxt,
    local: Local,
    local_decls: &Vec<LocalDecl>,
    local_map: &Vec<(Ty, Local)>,
) -> (r: (Vec<Ty>, Vec<(Lvalue, Lvalue)>))
    requires
        old(tcx).wf(),
        forall|i: int| 0 <= i < local_map@.len() ==> old(tcx).has(#[trigger] local_map@[i].0),
        forall|i: int|
            0 <= i < local_map@.len() ==> old(tcx).kind(#[trigger] local_map@[i].0) is Adt,
        forall|i: int| 0 <= i < local_map@.len() ==> #[trigger] local_map@[i].1 < local_decls@.len(),
        forall|i: int| 0 <= i < local_decls@.len() ==> old(tcx).has(#[trigger] local_decls@[i].ty),
    ensures
        final(tcx).wf(),
        final(tcx).extends(old(tcx)),
        ({
            let locals = sort_by_adt(old(tcx), local_map@).map_values(|p: (Ty, Local)| p.1);
            &&& r.0@.len() == locals.len()
            &&& r.1@.len() == locals.len()
            &&& forall|i: int|
                0 <= i < locals.len() ==> #[trigger] r.0@[i] == local_decls@[locals[i] as int].ty
            &&& forall|i: int|
                0 <= i < locals.len() ==> #[trigger] r.1@[i] == (
                    Lvalue::Local(locals[i]),
                    Lvalue::Projection(
                        Box::new(
                            LvalueProjection {
                                base: Lvalue::Local(local),
                                elem: ProjectionElem::Field(i as usize, r.0@[i]),
                            },
                        ),
                    ),
                )
        }),
{
    let local_vec = get_local_map(tcx, local_map);
    proof {
        lemma_sort_by_adt(tcx, local_map@);
        let s = sort_by_adt(tcx, local_map@);
        assert forall|i: int| 0 <= i < local_vec@.len() implies #[trigger] local_vec@[i]
            < local_decls@.len() by {
            broadcast use vstd::seq_lib::to_multiset_contains;

            assert(local_vec@[i] == s[i].1);
            assert(s.contains(s[i]));
            assert(s.to_multiset().count(s[i]) > 0);
            assert(local_map@.to_multiset().count(s[i]) > 0);
            assert(local_map@.contains(s[i]));
        }
    }
    let tys = get_type_list(tcx, local_decls, &local_vec);
    let vals = get_assignments_for_local(local, &tys, &local_vec);
    (tys, vals)
}

} // verus!

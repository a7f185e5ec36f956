use mir_utils::expand::ExtenderMirPass;
use mir_utils::mir::{
    BasicBlockData, LocalDecl, Location, Lvalue, Mir, SourceInfo, Statement, StatementKind,
    Terminator, TerminatorKind,
};
use mir_utils::split_utils::{get_local_map, sorted_children};
use mir_utils::ty::{OtherKind, Ty, TyCtxt, TyKind};
use mir_utils::walkmut::{AdtContainer, SplitTypeModifier, StructWalker, TypeModifier, TypeReplacer};

fn base(tcx: &mut TyCtxt) -> (Ty, Ty) {
    let empty = tcx.intern_type_list(&Vec::new());
    let s = tcx.mk_adt(10, empty);
    let us = tcx.mk_ty(TyKind::Uint(0));
    (s, us)
}

#[test]
fn interning_gives_one_type_per_kind() {
    let mut tcx = TyCtxt::new();
    let (s, us) = base(&mut tcx);
    let a1 = tcx.mk_array(s, 4);
    let a2 = tcx.mk_array(s, 4);
    let a3 = tcx.mk_array(s, 5);
    assert!(a1 == a2);
    assert!(a1 != a3);
    let l1 = tcx.intern_type_list(&vec![s, us]);
    let l2 = tcx.intern_type_list(&vec![s, us]);
    assert!(l1 == l2);
    let t = tcx.intern_tup(&vec![s, us], false);
    match tcx.kind_of(t) {
        TyKind::Tuple(l, false) => assert!(l == l1),
        _ => panic!("not a tuple"),
    }
}

#[test]
fn walk_lists_a_type_and_its_parts() {
    let mut tcx = TyCtxt::new();
    let (s, _) = base(&mut tcx);
    let a = tcx.mk_array(s, 2);
    let r = tcx.mk_ref(1, a, false);
    let w = tcx.walk(r);
    assert_eq!(w.len(), 3);
    assert!(w[0] == r && w[1] == a && w[2] == s);
}

#[test]
fn split_modifier_replaces_the_struct_under_references() {
    let mut tcx = TyCtxt::new();
    let (s, us) = base(&mut tcx);
    let sl = tcx.mk_slice(s);
    let r = tcx.mk_ref(3, sl, true);
    let mut m = SplitTypeModifier::new(10, 11);
    let out = m.modify(&mut tcx, r).unwrap();
    match tcx.kind_of(out) {
        TyKind::Ref(3, inner, true) => match tcx.kind_of(inner) {
            TyKind::Slice(e) => match tcx.kind_of(e) {
                TyKind::Adt(11, _) => {},
                _ => panic!("element not replaced"),
            },
            _ => panic!("not a slice"),
        },
        _ => panic!("not a reference"),
    }
    assert!(m.modify(&mut tcx, us).is_err());
    let empty = tcx.intern_type_list(&Vec::new());
    let other = tcx.mk_adt(20, empty);
    assert!(m.modify(&mut tcx, other).is_err());
    let tup = tcx.intern_tup(&vec![s], false);
    assert!(m.modify(&mut tcx, tup).is_err());
}

#[test]
fn split_and_merge_back_gives_the_type_again() {
    let mut tcx = TyCtxt::new();
    let (s, _) = base(&mut tcx);
    let a = tcx.mk_array(s, 8);
    let mut there = SplitTypeModifier::new(10, 11);
    let mut back = SplitTypeModifier::new(11, 10);
    let split = there.modify(&mut tcx, a).unwrap();
    assert!(split != a);
    let merged = back.modify(&mut tcx, split).unwrap();
    assert!(merged == a);
}

#[test]
fn type_replacer_rewrites_struct_and_vectors() {
    let mut tcx = TyCtxt::new();
    let (s, us) = base(&mut tcx);
    let c = AdtContainer { orig_adt: 10, tup_adt: 30, rtup_adt: 31, vtup_adt: 32, vec_adts: vec![40] };
    let rep = TypeReplacer::new(c);
    let t = rep.fold_ty(&mut tcx, s);
    match tcx.kind_of(t) {
        TyKind::Adt(30, _) => {},
        _ => panic!("struct not replaced"),
    }
    let inner = tcx.intern_type_list(&vec![us]);
    let s_gen = tcx.mk_adt(10, inner);
    let sl = tcx.intern_type_list(&vec![s_gen]);
    let v = tcx.mk_adt(40, sl);
    let tv = rep.fold_ty(&mut tcx, v);
    match tcx.kind_of(tv) {
        TyKind::Adt(32, l) => {
            let tys = tcx.list_of(l);
            assert_eq!(tys.len(), 1);
            assert!(tys[0] == us);
        },
        _ => panic!("vector not replaced"),
    }
    assert!(rep.fold_ty(&mut tcx, us) == us);
}

#[test]
fn struct_walker_maps_every_adt() {
    let mut tcx = TyCtxt::new();
    let (s, us) = base(&mut tcx);
    let tup = tcx.intern_tup(&vec![s, us], false);
    let r = tcx.mk_ref(0, tup, false);
    let walker = StructWalker::new(|a: u64| if a == 10 { 11 } else { a });
    let out = walker.fold_ty(&mut tcx, r);
    match tcx.kind_of(out) {
        TyKind::Ref(0, inner, false) => match tcx.kind_of(inner) {
            TyKind::Tuple(l, false) => {
                let tys = tcx.list_of(l).clone();
                assert_eq!(tys.len(), 2);
                assert!(tys[1] == us);
                match tcx.kind_of(tys[0]) {
                    TyKind::Adt(11, _) => {},
                    _ => panic!("adt not mapped"),
                }
            },
            _ => panic!("not a tuple"),
        },
        _ => panic!("not a reference"),
    }
    let same = StructWalker::new(|a: u64| a);
    assert!(same.fold_ty(&mut tcx, r) == r);
}

#[test]
fn walking_a_compound_type_walks_its_parts() {
    let mut tcx = TyCtxt::new();
    let (s, us) = base(&mut tcx);
    let arr = tcx.mk_array(s, 4);
    let tup = tcx.intern_tup(&vec![arr, us], false);
    let walker = StructWalker::new(|a: u64| if a == 10 { 11 } else { a });
    let whole = walker.fold_ty(&mut tcx, tup);
    let part = walker.fold_ty(&mut tcx, arr);
    let elem = walker.fold_ty(&mut tcx, s);
    assert!(tcx.mk_array(elem, 4) == part);
    assert!(tcx.intern_tup(&vec![part, us], false) == whole);
}

#[test]
fn folding_goes_into_function_items_and_closures() {
    let mut tcx = TyCtxt::new();
    let (s, us) = base(&mut tcx);
    let substs = tcx.intern_type_list(&vec![s, us]);
    let fn_item = tcx.mk_ty(TyKind::Other(OtherKind::FnDef, 7, substs));
    let walker = StructWalker::new(|a: u64| if a == 10 { 11 } else { a });
    let walked = walker.fold_ty(&mut tcx, fn_item);
    match tcx.kind_of(walked) {
        TyKind::Other(OtherKind::FnDef, 7, l) => {
            let tys = tcx.list_of(l).clone();
            assert_eq!(tys.len(), 2);
            assert!(tys[1] == us);
            match tcx.kind_of(tys[0]) {
                TyKind::Adt(11, _) => {},
                _ => panic!("substitution not walked"),
            }
        },
        _ => panic!("not the same function item"),
    }
    let closure = tcx.mk_ty(TyKind::Other(OtherKind::Closure, 8, substs));
    let c = AdtContainer { orig_adt: 10, tup_adt: 30, rtup_adt: 31, vtup_adt: 32, vec_adts: vec![40] };
    let rep = TypeReplacer::new(c);
    let replaced = rep.fold_ty(&mut tcx, closure);
    match tcx.kind_of(replaced) {
        TyKind::Other(OtherKind::Closure, 8, l) => match tcx.kind_of(tcx.list_of(l)[0]) {
            TyKind::Adt(30, _) => {},
            _ => panic!("substitution not folded"),
        },
        _ => panic!("not the same closure"),
    }
}

#[test]
fn modifying_an_array_is_modifying_its_element() {
    let mut tcx = TyCtxt::new();
    let (s, us) = base(&mut tcx);
    let r = tcx.mk_ref(3, s, true);
    let arr = tcx.mk_array(r, 5);
    let mut m = SplitTypeModifier::new(10, 11);
    let whole = m.modify(&mut tcx, arr).unwrap();
    let part = m.modify(&mut tcx, r).unwrap();
    assert!(tcx.mk_array(part, 5) == whole);
    let plain = tcx.mk_array(us, 5);
    assert!(m.modify(&mut tcx, plain).is_err());
    assert!(m.modify(&mut tcx, us).is_err());
}

#[test]
fn folding_a_tuple_is_folding_its_elements() {
    let mut tcx = TyCtxt::new();
    let (s, us) = base(&mut tcx);
    let sl = tcx.mk_slice(s);
    let tup = tcx.intern_tup(&vec![sl, us, s], true);
    let c = AdtContainer { orig_adt: 10, tup_adt: 30, rtup_adt: 31, vtup_adt: 32, vec_adts: vec![40] };
    let rep = TypeReplacer::new(c);
    let whole = rep.fold_ty(&mut tcx, tup);
    let parts = vec![rep.fold_ty(&mut tcx, sl), rep.fold_ty(&mut tcx, us), rep.fold_ty(&mut tcx, s)];
    assert!(tcx.intern_tup(&parts, true) == whole);
    let elem = rep.fold_ty(&mut tcx, s);
    assert!(tcx.mk_slice(elem) == parts[0]);
}

#[test]
fn children_listed_in_any_order_come_out_alike() {
    let mut tcx = TyCtxt::new();
    let empty = tcx.intern_type_list(&Vec::new());
    let a = tcx.mk_adt(30, empty);
    let b = tcx.mk_adt(20, empty);
    let c = tcx.mk_adt(25, empty);
    let one = vec![(a, 5), (b, 6), (c, 7)];
    let other = vec![(c, 7), (a, 5), (b, 6)];
    assert_eq!(get_local_map(&tcx, &one), vec![6, 7, 5]);
    assert_eq!(get_local_map(&tcx, &one), get_local_map(&tcx, &other));
}

fn info() -> SourceInfo {
    SourceInfo { span: 0, scope: 0 }
}

fn live(l: usize) -> Statement {
    Statement { source_info: info(), kind: StatementKind::StorageLive(Lvalue::Local(l)) }
}

fn live_local(s: &Statement) -> Option<usize> {
    match &s.kind {
        StatementKind::StorageLive(Lvalue::Local(l)) => Some(*l),
        _ => None,
    }
}

#[test]
fn extender_replaces_each_statement_by_its_extension() {
    let mut tcx = TyCtxt::new();
    let (_, us) = base(&mut tcx);
    let mut mir = Mir {
        basic_blocks: vec![
            BasicBlockData {
                statements: vec![live(1), live(2)],
                terminator: Some(Terminator { source_info: info(), kind: TerminatorKind::Return }),
                is_cleanup: false,
            },
            BasicBlockData { statements: vec![live(3)], terminator: None, is_cleanup: true },
        ],
        local_decls: vec![LocalDecl { ty: us }; 4],
        arg_count: 0,
        return_ty: us,
    };
    let pass = ExtenderMirPass::new(|b: usize, s: Statement, loc: Location| {
        let l = live_local(&s).unwrap();
        assert_eq!(loc.block, b);
        vec![s, live(100 * (b + 1) + 10 * loc.statement_index + l)]
    });
    pass.visit_mir(&mut mir);
    let b0: Vec<Option<usize>> = mir.basic_blocks[0].statements.iter().map(live_local).collect();
    assert_eq!(b0, vec![Some(1), Some(101), Some(2), Some(112)]);
    let b1: Vec<Option<usize>> = mir.basic_blocks[1].statements.iter().map(live_local).collect();
    assert_eq!(b1, vec![Some(3), Some(203)]);
    assert!(mir.basic_blocks[1].is_cleanup);
    assert!(mir.basic_blocks[1].terminator.is_none());
}

#[test]
fn extender_that_drops_everything_empties_the_block() {
    let mut data = BasicBlockData { statements: vec![live(1), live(2)], terminator: None, is_cleanup: false };
    let pass = ExtenderMirPass::new(|_: usize, _: Statement, _: Location| Vec::new());
    pass.visit_basic_block_data(0, &mut data);
    assert!(data.statements.is_empty());
}

#[test]
fn modify_adt_replaces_only_the_old_adt() {
    let mut tcx = TyCtxt::new();
    let (_, us) = base(&mut tcx);
    let substs = tcx.intern_type_list(&vec![us]);
    let mut m = SplitTypeModifier::new(10, 11);
    let t = m.modify_adt(&mut tcx, 10, substs).unwrap();
    match tcx.kind_of(t) {
        TyKind::Adt(11, l) => assert!(l == substs),
        _ => panic!("not replaced"),
    }
    assert!(m.modify_adt(&mut tcx, 12, substs).is_err());
}

#[test]
fn children_are_ordered_by_their_adts_and_ties_keep_their_order() {
    let mut tcx = TyCtxt::new();
    let empty = tcx.intern_type_list(&Vec::new());
    let a = tcx.mk_adt(30, empty);
    let b = tcx.mk_adt(20, empty);
    let us = tcx.mk_ty(TyKind::Uint(0));
    let with_us = tcx.intern_type_list(&vec![us]);
    let c = tcx.mk_adt(20, with_us);
    let pairs = vec![(a, 5), (b, 6), (c, 7)];
    assert_eq!(get_local_map(&tcx, &pairs), vec![6, 7, 5]);
    let sorted = sorted_children(&tcx, &pairs);
    assert!(sorted[0] == (b, 6) && sorted[1] == (c, 7) && sorted[2] == (a, 5));
}

#[test]
fn extender_that_gives_each_statement_back_changes_nothing() {
    let mut data = BasicBlockData { statements: vec![live(1), live(2), live(3)], terminator: None, is_cleanup: false };
    let pass = ExtenderMirPass::new(|_: usize, s: Statement, _: Location| vec![s]);
    pass.visit_basic_block_data(4, &mut data);
    let ls: Vec<Option<usize>> = data.statements.iter().map(live_local).collect();
    assert_eq!(ls, vec![Some(1), Some(2), Some(3)]);
}

#[test]
fn well_formedness_is_checked() {
    let mut tcx = TyCtxt::new();
    let (s, us) = base(&mut tcx);
    let _ = tcx.mk_array(s, 3);
    let _ = tcx.intern_tup(&vec![s, us], false);
    assert!(tcx.is_wf());
    let mut twice = TyCtxt { kinds: tcx.kinds.clone(), lists: tcx.lists.clone() };
    twice.kinds.push(TyKind::Uint(0));
    assert!(!twice.is_wf());
    let mut forward = TyCtxt { kinds: tcx.kinds.clone(), lists: tcx.lists.clone() };
    forward.kinds.push(TyKind::Slice(Ty { id: forward.kinds.len() + 1 }));
    assert!(!forward.is_wf());
    let mut bad_list = TyCtxt { kinds: tcx.kinds.clone(), lists: tcx.lists.clone() };
    bad_list.lists.push(vec![Ty { id: 99 }]);
    assert!(!bad_list.is_wf());
}

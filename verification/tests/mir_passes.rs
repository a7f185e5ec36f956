use mir_utils::factor_function_call::factor_mir;
use mir_utils::hir::{Hir, HirItem};
use mir_utils::local_map::LocalMap;
use mir_utils::lvalue_splitter::StructLvalueSplitter;
use mir_utils::mir::{
    AggregateKind, BasicBlockData, Constant, LocalDecl, Lvalue, LvalueProjection, Mir, Operand,
    ProjectionElem, Rvalue, SourceInfo, Statement, StatementKind, Terminator, TerminatorKind,
};
use mir_utils::split_arg::ArgumentSplitter;
use mir_utils::split_function_call::split_function_call;
use mir_utils::split_function_def::SignatureSplitter;
use mir_utils::split_struct::{make_decl_map, make_split_ty_map, AffinityGroup, SplitRegistry, SplitStruct};
use mir_utils::struct_base_replacer::StructFieldReplacer;
use mir_utils::structure_splitting::{SplitError, StructureSplitting};
use mir_utils::ty::{Ty, TyCtxt, TyKind};

struct World {
    tcx: TyCtxt,
    s: Ty,
    s1: Ty,
    s2: Ty,
    us: Ty,
    hir: Hir,
    reg: SplitRegistry,
}

fn world() -> World {
    let mut tcx = TyCtxt::new();
    let empty = tcx.intern_type_list(&Vec::new());
    let s = tcx.mk_adt(10, empty);
    let s1 = tcx.mk_adt(11, empty);
    let s2 = tcx.mk_adt(12, empty);
    let us = tcx.mk_ty(TyKind::Uint(0));
    let hir = Hir {
        items: vec![
            HirItem { name: "S".to_string(), node: 10, def: 10, ty: s },
            HirItem { name: "S1".to_string(), node: 11, def: 11, ty: s1 },
            HirItem { name: "S2".to_string(), node: 12, def: 12, ty: s2 },
        ],
    };
    let mut reg = SplitRegistry::new();
    let (split, _) = SplitStruct::process_declarations(
        "S".to_string(),
        vec![
            AffinityGroup { affinity: 1, fields: vec![0, 2] },
            AffinityGroup { affinity: 2, fields: vec![1] },
        ],
    );
    reg.register(split);
    World { tcx, s, s1, s2, us, hir, reg }
}

fn info() -> SourceInfo {
    SourceInfo { span: 0, scope: 0 }
}

fn field(base: Lvalue, f: usize, ty: Ty) -> Lvalue {
    Lvalue::Projection(Box::new(LvalueProjection { base, elem: ProjectionElem::Field(f, ty) }))
}

fn assign(lhs: Lvalue, rhs: Rvalue) -> Statement {
    Statement { source_info: info(), kind: StatementKind::Assign(lhs, rhs) }
}

fn ret() -> Option<Terminator> {
    Some(Terminator { source_info: info(), kind: TerminatorKind::Return })
}

/// fn f(_1: S) -> usize { _2 = (_1.0); return }
fn mir_with_field_read(w: &World) -> Mir {
    Mir {
        basic_blocks: vec![BasicBlockData {
            statements: vec![assign(
                Lvalue::Local(2),
                Rvalue::Use(Operand::Consume(field(Lvalue::Local(1), 0, w.us))),
            )],
            terminator: ret(),
            is_cleanup: false,
        }],
        local_decls: vec![LocalDecl { ty: w.us }, LocalDecl { ty: w.s }, LocalDecl { ty: w.us }],
        arg_count: 1,
        return_ty: w.us,
    }
}

fn as_local(lv: &Lvalue) -> Option<usize> {
    match lv {
        Lvalue::Local(l) => Some(*l),
        _ => None,
    }
}

fn field_of(lv: &Lvalue) -> Option<(usize, usize, Ty)> {
    match lv {
        Lvalue::Projection(p) => match (&p.base, &p.elem) {
            (Lvalue::Local(l), ProjectionElem::Field(f, t)) => Some((*l, *f, *t)),
            _ => None,
        },
        _ => None,
    }
}

#[test]
fn split_ty_map_finds_children_and_types() {
    let w = world();
    let (node_map, split_map) = make_split_ty_map(&w.hir, &w.reg);
    assert_eq!(node_map.get(10), Some(&vec![11, 12]));
    assert_eq!(node_map.get(11), None);
    assert_eq!(split_map.get(w.s), Some(0));
    assert_eq!(split_map.get(w.s1), None);
}

#[test]
fn decl_map_adds_a_local_per_child() {
    let mut w = world();
    let (node_map, _) = make_split_ty_map(&w.hir, &w.reg);
    let mut mir = mir_with_field_read(&w);
    let lm = make_decl_map(&mut w.tcx, &mut mir, &node_map, &w.hir);
    assert_eq!(mir.local_decls.len(), 5);
    assert!(mir.local_decls[3].ty == w.s1);
    assert!(mir.local_decls[4].ty == w.s2);
    let cs = lm.get(1).unwrap();
    assert_eq!(cs.len(), 2);
    assert!(cs[0] == (w.s1, 3));
    assert!(cs[1] == (w.s2, 4));
    assert!(lm.get(0).is_none());
    assert!(lm.get(2).is_none());
}

#[test]
fn decl_map_splits_references_and_arrays() {
    let mut w = world();
    let (node_map, _) = make_split_ty_map(&w.hir, &w.reg);
    let arr = w.tcx.mk_array(w.s, 4);
    let r = w.tcx.mk_ref(7, arr, true);
    let mut mir = mir_with_field_read(&w);
    mir.local_decls.push(LocalDecl { ty: r });
    let lm = make_decl_map(&mut w.tcx, &mut mir, &node_map, &w.hir);
    // locals 4, 5 for _1; locals 6, 7 for _3 = &mut [S; 4]
    assert_eq!(mir.local_decls.len(), 8);
    let cs = lm.get(3).unwrap();
    assert_eq!(cs.len(), 2);
    assert_eq!(cs[0].1, 6);
    assert_eq!(cs[1].1, 7);
    match w.tcx.kind_of(mir.local_decls[6].ty) {
        TyKind::Ref(7, inner, true) => match w.tcx.kind_of(inner) {
            TyKind::Array(e, 4) => assert!(e == w.s1),
            _ => panic!("not an array"),
        },
        _ => panic!("not a reference"),
    }
}

fn decl_map_of(w: &mut World, mir: &mut Mir) -> LocalMap {
    let (node_map, _) = make_split_ty_map(&w.hir, &w.reg);
    make_decl_map(&mut w.tcx, mir, &node_map, &w.hir)
}

#[test]
fn field_reads_go_to_the_child() {
    let mut w = world();
    let mut mir = mir_with_field_read(&w);
    let lm = decl_map_of(&mut w, &mut mir);
    let mut copy = mir_with_field_read(&w);
    copy.local_decls.push(LocalDecl { ty: w.s1 });
    copy.local_decls.push(LocalDecl { ty: w.s2 });
    let (_, split_map) = make_split_ty_map(&w.hir, &w.reg);
    let replacer = StructFieldReplacer::new(&copy, &split_map, &w.reg, &w.hir, &lm);
    replacer.visit_mir(&w.tcx, &mut mir);
    match &mir.basic_blocks[0].statements[0].kind {
        StatementKind::Assign(lhs, Rvalue::Use(Operand::Consume(rhs))) => {
            assert_eq!(as_local(lhs), Some(2));
            let (l, f, t) = field_of(rhs).unwrap();
            assert_eq!(l, 3);
            assert_eq!(f, 0);
            assert!(t == w.us);
        },
        _ => panic!("statement changed shape"),
    }
}

#[test]
fn arguments_become_tuples_of_children() {
    let mut w = world();
    let mut mir = mir_with_field_read(&w);
    let lm = decl_map_of(&mut w, &mut mir);
    ArgumentSplitter::new(&lm).visit_mir(&mut w.tcx, &mut mir);
    match w.tcx.kind_of(mir.local_decls[1].ty) {
        TyKind::Tuple(l, false) => {
            let tys = w.tcx.list_of(l);
            assert_eq!(tys.len(), 2);
            assert!(tys[0] == w.s1 && tys[1] == w.s2);
        },
        _ => panic!("argument is not a tuple"),
    }
    let stmts = &mir.basic_blocks[0].statements;
    assert_eq!(stmts.len(), 3);
    for (i, child) in [3usize, 4].iter().enumerate() {
        match &stmts[i].kind {
            StatementKind::Assign(lhs, Rvalue::Use(Operand::Consume(rhs))) => {
                assert_eq!(as_local(lhs), Some(*child));
                let (l, f, _) = field_of(rhs).unwrap();
                assert_eq!((l, f), (1, i));
            },
            _ => panic!("not an unpacking statement"),
        }
    }
}

#[test]
fn returned_struct_is_packed_before_return() {
    let mut w = world();
    let mut mir = Mir {
        basic_blocks: vec![BasicBlockData { statements: vec![], terminator: ret(), is_cleanup: false }],
        local_decls: vec![LocalDecl { ty: w.s }],
        arg_count: 0,
        return_ty: w.s,
    };
    let lm = decl_map_of(&mut w, &mut mir);
    SignatureSplitter::new(&lm).visit_mir(&mut w.tcx, &mut mir);
    assert!(mir.return_ty == mir.local_decls[0].ty);
    let stmts = &mir.basic_blocks[0].statements;
    assert_eq!(stmts.len(), 2);
    match &stmts[1].kind {
        StatementKind::Assign(lhs, Rvalue::Use(Operand::Consume(rhs))) => {
            let (l, f, t) = field_of(lhs).unwrap();
            assert_eq!((l, f), (0, 1));
            assert!(t == w.s2);
            assert_eq!(as_local(rhs), Some(2));
        },
        _ => panic!("not a packing statement"),
    }
}

#[test]
fn splitters_agree_when_the_return_value_is_not_split() {
    let mut w = world();
    let mut by_args = mir_with_field_read(&w);
    let lm = decl_map_of(&mut w, &mut by_args);
    let mut by_signature = mir_with_field_read(&w);
    by_signature.local_decls.push(LocalDecl { ty: w.s1 });
    by_signature.local_decls.push(LocalDecl { ty: w.s2 });
    ArgumentSplitter::new(&lm).visit_mir(&mut w.tcx, &mut by_args);
    SignatureSplitter::new(&lm).visit_mir(&mut w.tcx, &mut by_signature);
    assert_eq!(format!("{:?}", by_args), format!("{:?}", by_signature));
}

#[test]
fn splitting_a_signature_twice_gives_the_same_function() {
    let mut w = world();
    let mut first = mir_with_field_read(&w);
    let lm = decl_map_of(&mut w, &mut first);
    let mut second = mir_with_field_read(&w);
    second.local_decls.push(LocalDecl { ty: w.s1 });
    second.local_decls.push(LocalDecl { ty: w.s2 });
    SignatureSplitter::new(&lm).visit_mir(&mut w.tcx, &mut first);
    SignatureSplitter::new(&lm).visit_mir(&mut w.tcx, &mut second);
    assert_eq!(format!("{:?}", first), format!("{:?}", second));
}

fn call_block(args: Vec<Operand>, destination: Option<(Lvalue, usize)>) -> BasicBlockData {
    BasicBlockData {
        statements: vec![],
        terminator: Some(Terminator {
            source_info: info(),
            kind: TerminatorKind::Call {
                func: Operand::Constant(Constant { ty: Ty { id: 0 }, value: 99 }),
                args,
                destination,
                cleanup: None,
            },
        }),
        is_cleanup: false,
    }
}

#[test]
fn call_arguments_are_gathered_into_a_tuple() {
    let mut w = world();
    let mut mir = mir_with_field_read(&w);
    let lm = decl_map_of(&mut w, &mut mir);
    mir.basic_blocks.push(call_block(vec![Operand::Consume(Lvalue::Local(1)), Operand::Consume(Lvalue::Local(2))], None));
    split_function_call(&mut w.tcx, &mut mir, &lm);
    assert_eq!(mir.local_decls.len(), 6);
    let stmts = &mir.basic_blocks[1].statements;
    assert_eq!(stmts.len(), 2);
    match &stmts[1].kind {
        StatementKind::Assign(Lvalue::Projection(p), Rvalue::Use(Operand::Consume(rhs))) => {
            assert_eq!(as_local(&p.base), Some(5));
            match &p.elem {
                ProjectionElem::Index(Operand::Constant(c)) => assert_eq!(c.value, 1),
                _ => panic!("not an index"),
            }
            assert_eq!(as_local(rhs), Some(4));
        },
        _ => panic!("not a gathering statement"),
    }
    assert_eq!(mir.basic_blocks[0].statements.len(), 1);
}

#[test]
fn projections_are_factored_out_of_calls() {
    let w = world();
    let mut mir = mir_with_field_read(&w);
    mir.basic_blocks.push(call_block(
        vec![Operand::Consume(field(Lvalue::Local(1), 0, w.us)), Operand::Consume(Lvalue::Local(2))],
        Some((field(Lvalue::Local(1), 1, w.us), 0)),
    ));
    factor_mir(&w.tcx, &mut mir);
    assert_eq!(mir.local_decls.len(), 5);
    assert!(mir.local_decls[3].ty == w.us);
    assert_eq!(mir.basic_blocks.len(), 3);
    assert_eq!(mir.basic_blocks[1].statements.len(), 1);
    match &mir.basic_blocks[1].terminator {
        Some(Terminator { kind: TerminatorKind::Call { args, destination, .. }, .. }) => {
            match &args[0] {
                Operand::Consume(lv) => assert_eq!(as_local(lv), Some(3)),
                _ => panic!("argument not factored"),
            }
            match destination {
                Some((lv, b)) => {
                    assert_eq!(as_local(lv), Some(4));
                    assert_eq!(*b, 2);
                },
                None => panic!("destination lost"),
            }
        },
        _ => panic!("call lost"),
    }
    match &mir.basic_blocks[2].terminator {
        Some(Terminator { kind: TerminatorKind::Goto { target }, .. }) => assert_eq!(*target, 0),
        _ => panic!("new block does not go to the target"),
    }
}

#[test]
fn assignments_to_split_locals_get_one_statement_per_child() {
    let mut w = world();
    let mut mir = mir_with_field_read(&w);
    let lm = decl_map_of(&mut w, &mut mir);
    let mut copy = mir_with_field_read(&w);
    copy.local_decls.push(LocalDecl { ty: w.s1 });
    copy.local_decls.push(LocalDecl { ty: w.s2 });
    mir.basic_blocks[0].statements.push(assign(
        Lvalue::Local(1),
        Rvalue::Aggregate(AggregateKind::Array(w.s), vec![Operand::Consume(Lvalue::Local(1))]),
    ));
    let splitter = StructLvalueSplitter::new(&copy, &lm);
    splitter.visit_mir(&w.tcx, &mut mir);
    let stmts = &mir.basic_blocks[0].statements;
    assert_eq!(stmts.len(), 3);
    for (k, child, ty) in [(1usize, 3usize, w.s1), (2, 4, w.s2)] {
        match &stmts[k].kind {
            StatementKind::Assign(lhs, Rvalue::Aggregate(AggregateKind::Array(t), ops)) => {
                assert_eq!(as_local(lhs), Some(child));
                assert!(*t == ty);
                match &ops[0] {
                    Operand::Consume(lv) => assert_eq!(as_local(lv), Some(child)),
                    _ => panic!("operand changed"),
                }
            },
            _ => panic!("not a split assignment"),
        }
    }
}

#[test]
fn the_whole_pass_splits_an_argument() {
    let mut w = world();
    let mut mir = mir_with_field_read(&w);
    let r = StructureSplitting.run_pass(&mut w.tcx, &w.reg, &w.hir, &mut mir);
    assert_eq!(r, Ok(()));
    assert_eq!(mir.local_decls.len(), 5);
    assert!(mir.local_decls[3].ty == w.s1);
    assert!(mir.local_decls[4].ty == w.s2);
    match w.tcx.kind_of(mir.local_decls[1].ty) {
        TyKind::Tuple(l, false) => {
            let tys = w.tcx.list_of(l);
            assert!(tys.len() == 2 && tys[0] == w.s1 && tys[1] == w.s2);
        },
        _ => panic!("argument not split"),
    }
    let stmts = &mir.basic_blocks[0].statements;
    assert_eq!(stmts.len(), 3);
    let expect = [(3, 3, 0), (4, 4, 0), (2, 3, 0)];
    for (s, (lhs, base, f)) in stmts.iter().zip(expect.iter()) {
        match &s.kind {
            StatementKind::Assign(l, Rvalue::Use(Operand::Consume(rhs))) => {
                assert_eq!(as_local(l), Some(*lhs));
                let (b, fi, _) = field_of(rhs).unwrap();
                assert_eq!((b, fi), (*base, *f));
            },
            _ => panic!("unexpected statement"),
        }
    }
}

#[test]
fn the_whole_pass_refuses_an_unknown_field() {
    let mut w = world();
    let mut mir = mir_with_field_read(&w);
    mir.basic_blocks[0].statements[0] = assign(
        Lvalue::Local(2),
        Rvalue::Use(Operand::Consume(field(Lvalue::Local(1), 5, w.us))),
    );
    let r = StructureSplitting.run_pass(&mut w.tcx, &w.reg, &w.hir, &mut mir);
    assert_eq!(r, Err(SplitError::FieldAccess));
}

fn constant_assignment_mir(w: &World, local_tys: Vec<Ty>, stmt: Statement) -> Mir {
    let mut local_decls = vec![LocalDecl { ty: w.us }];
    for t in local_tys {
        local_decls.push(LocalDecl { ty: t });
    }
    Mir {
        basic_blocks: vec![BasicBlockData { statements: vec![stmt], terminator: ret(), is_cleanup: false }],
        local_decls,
        arg_count: 0,
        return_ty: w.us,
    }
}

fn zero(w: &World) -> Rvalue {
    Rvalue::Use(Operand::Constant(Constant { ty: w.us, value: 0 }))
}

fn assigned_locals(mir: &Mir) -> Vec<Option<usize>> {
    mir.basic_blocks[0]
        .statements
        .iter()
        .map(|s| match &s.kind {
            StatementKind::Assign(l, _) => as_local(l),
            _ => None,
        })
        .collect()
}

#[test]
fn an_assignment_to_a_local_with_one_child_gives_one_statement() {
    let mut w = world();
    let mut reg = SplitRegistry::new();
    let (split, _) = SplitStruct::process_declarations(
        "S".to_string(),
        vec![AffinityGroup { affinity: 1, fields: vec![0, 1, 2] }],
    );
    reg.register(split);
    let mut mir = constant_assignment_mir(&w, vec![w.s], assign(Lvalue::Local(1), zero(&w)));
    let r = StructureSplitting.run_pass(&mut w.tcx, &reg, &w.hir, &mut mir);
    assert_eq!(r, Ok(()));
    assert_eq!(assigned_locals(&mir), vec![Some(2)]);
}

#[test]
fn an_assignment_to_a_local_with_three_children_gives_three_statements() {
    let mut w = world();
    let empty = w.tcx.intern_type_list(&Vec::new());
    let s3 = w.tcx.mk_adt(14, empty);
    w.hir.items.push(HirItem { name: "S3".to_string(), node: 14, def: 14, ty: s3 });
    let mut reg = SplitRegistry::new();
    let (split, _) = SplitStruct::process_declarations(
        "S".to_string(),
        vec![
            AffinityGroup { affinity: 1, fields: vec![0] },
            AffinityGroup { affinity: 2, fields: vec![1] },
            AffinityGroup { affinity: 3, fields: vec![2] },
        ],
    );
    reg.register(split);
    let mut mir = constant_assignment_mir(&w, vec![w.s], assign(Lvalue::Local(1), zero(&w)));
    let r = StructureSplitting.run_pass(&mut w.tcx, &reg, &w.hir, &mut mir);
    assert_eq!(r, Ok(()));
    assert_eq!(mir.local_decls.len(), 5);
    assert!(mir.local_decls[4].ty == s3);
    assert_eq!(assigned_locals(&mir), vec![Some(2), Some(3), Some(4)]);
}

#[test]
fn the_whole_pass_refuses_a_local_with_too_few_children() {
    let mut w = world();
    let empty = w.tcx.intern_type_list(&Vec::new());
    let r_ty = w.tcx.mk_adt(20, empty);
    let r1_ty = w.tcx.mk_adt(21, empty);
    w.hir.items.push(HirItem { name: "R".to_string(), node: 20, def: 20, ty: r_ty });
    w.hir.items.push(HirItem { name: "R1".to_string(), node: 21, def: 21, ty: r1_ty });
    let (split, _) = SplitStruct::process_declarations(
        "R".to_string(),
        vec![AffinityGroup { affinity: 1, fields: vec![0] }],
    );
    w.reg.register(split);
    let stmt = assign(Lvalue::Local(1), Rvalue::Use(Operand::Consume(Lvalue::Local(2))));
    let mut mir = constant_assignment_mir(&w, vec![w.s, r_ty], stmt);
    let r = StructureSplitting.run_pass(&mut w.tcx, &w.reg, &w.hir, &mut mir);
    assert_eq!(r, Err(SplitError::Assignment));
}

#[test]
fn an_item_of_another_type_with_the_child_name_is_passed_over() {
    let mut w = world();
    w.hir.items.insert(0, HirItem { name: "S1".to_string(), node: 13, def: 13, ty: w.us });
    let mut mir = mir_with_field_read(&w);
    let r = StructureSplitting.run_pass(&mut w.tcx, &w.reg, &w.hir, &mut mir);
    assert_eq!(r, Ok(()));
    match &mir.basic_blocks[0].statements[2].kind {
        StatementKind::Assign(l, Rvalue::Use(Operand::Consume(rhs))) => {
            assert_eq!(as_local(l), Some(2));
            let (b, f, _) = field_of(rhs).unwrap();
            assert_eq!((b, f), (3, 0));
        },
        _ => panic!("unexpected statement"),
    }
}

#[test]
fn a_second_child_item_with_the_same_name_is_refused() {
    let mut w = world();
    w.hir.items.push(HirItem { name: "S1".to_string(), node: 13, def: 13, ty: w.s1 });
    let mut mir = mir_with_field_read(&w);
    let r = StructureSplitting.run_pass(&mut w.tcx, &w.reg, &w.hir, &mut mir);
    assert_eq!(r, Err(SplitError::FieldAccess));
}

#[test]
fn a_child_may_be_an_argument_that_keeps_its_type() {
    let mut w = world();
    let mut mir = Mir {
        basic_blocks: vec![BasicBlockData { statements: Vec::new(), terminator: ret(), is_cleanup: false }],
        local_decls: vec![LocalDecl { ty: w.us }, LocalDecl { ty: w.s }, LocalDecl { ty: w.s1 }],
        arg_count: 2,
        return_ty: w.us,
    };
    let mut lm = LocalMap::new();
    lm.insert(1, w.s1, 2);
    ArgumentSplitter::new(&lm).visit_mir(&mut w.tcx, &mut mir);
    assert!(mir.local_decls[2].ty == w.s1);
    match w.tcx.kind_of(mir.local_decls[1].ty) {
        TyKind::Tuple(l, false) => {
            let tys = w.tcx.list_of(l);
            assert!(tys.len() == 1 && tys[0] == w.s1);
        },
        _ => panic!("argument not split"),
    }
    let stmts = &mir.basic_blocks[0].statements;
    assert_eq!(stmts.len(), 1);
    match &stmts[0].kind {
        StatementKind::Assign(l, Rvalue::Use(Operand::Consume(rhs))) => {
            assert_eq!(as_local(l), Some(2));
            let (b, f, t) = field_of(rhs).unwrap();
            assert_eq!((b, f), (1, 0));
            assert!(t == w.s1);
        },
        _ => panic!("unexpected statement"),
    }
}

#[test]
fn a_child_that_is_an_earlier_split_argument_is_read_as_its_tuple() {
    let mut w = world();
    let mut mir = Mir {
        basic_blocks: vec![BasicBlockData { statements: Vec::new(), terminator: ret(), is_cleanup: false }],
        local_decls: vec![LocalDecl { ty: w.us }, LocalDecl { ty: w.s }, LocalDecl { ty: w.s }, LocalDecl { ty: w.s1 }],
        arg_count: 2,
        return_ty: w.us,
    };
    let mut lm = LocalMap::new();
    lm.insert(1, w.s1, 3);
    lm.insert(2, w.s, 1);
    ArgumentSplitter::new(&lm).visit_mir(&mut w.tcx, &mut mir);
    let t1 = mir.local_decls[1].ty;
    match w.tcx.kind_of(t1) {
        TyKind::Tuple(l, false) => assert!(w.tcx.list_of(l).len() == 1 && w.tcx.list_of(l)[0] == w.s1),
        _ => panic!("first argument not split"),
    }
    match w.tcx.kind_of(mir.local_decls[2].ty) {
        TyKind::Tuple(l, false) => assert!(w.tcx.list_of(l).len() == 1 && w.tcx.list_of(l)[0] == t1),
        _ => panic!("second argument not split"),
    }
    let stmts = &mir.basic_blocks[0].statements;
    assert_eq!(stmts.len(), 2);
    let expect = [(1usize, 2usize, t1), (3, 1, w.s1)];
    for (s, (lhs, base, ty)) in stmts.iter().zip(expect.iter()) {
        match &s.kind {
            StatementKind::Assign(l, Rvalue::Use(Operand::Consume(rhs))) => {
                assert_eq!(as_local(l), Some(*lhs));
                let (b, f, t) = field_of(rhs).unwrap();
                assert_eq!((b, f), (*base, 0));
                assert!(t == *ty);
            },
            _ => panic!("unexpected statement"),
        }
    }
}

#[test]
fn keys_that_are_not_arguments_are_not_read() {
    let mut w = world();
    let mut mir = mir_with_field_read(&w);
    let mut lm = LocalMap::new();
    lm.insert(2, w.s1, 99);
    lm.insert(0, w.s1, 77);
    ArgumentSplitter::new(&lm).visit_mir(&mut w.tcx, &mut mir);
    assert_eq!(mir.local_decls.len(), 3);
    assert!(mir.local_decls[1].ty == w.s && mir.local_decls[2].ty == w.us);
    assert_eq!(mir.basic_blocks[0].statements.len(), 1);
}

#[test]
fn nodes_are_found_from_definitions() {
    let mut w = world();
    for item in w.hir.items.iter_mut() {
        item.node += 100;
    }
    let (node_map, _) = make_split_ty_map(&w.hir, &w.reg);
    assert_eq!(node_map.get(110), Some(&vec![111, 112]));
    let mut mir = mir_with_field_read(&w);
    let lm = make_decl_map(&mut w.tcx, &mut mir, &node_map, &w.hir);
    assert_eq!(mir.local_decls.len(), 5);
    assert!(lm.get(1).unwrap()[0] == (w.s1, 3));
    assert!(mir.local_decls[4].ty == w.s2);
}

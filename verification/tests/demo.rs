use mir_utils::demo::{no_pass, simple_test_s, simple_test_t, yes_pass, S1, S2, STUP, SVTUP};
use mir_utils::tuple_arg::{Test1, Test2, TestR};

#[test]
fn test_function_name() {
    assert_eq!(simple_test_s(), simple_test_t())
}

#[test]
fn it_works() {}

#[test]
fn simple_tests_sum_to_twice_n_squared() {
    assert_eq!(simple_test_s(), 20_000_000_000);
    assert_eq!(simple_test_t(), 20_000_000_000);
}

#[test]
fn bench_rounds_give_the_same_sum() {
    assert_eq!(yes_pass(), no_pass());
}

#[test]
fn push_then_index_gives_back_the_children() {
    let mut sv = SVTUP(Vec::new(), Vec::new());
    sv.push_tup(STUP(S1 { a: 1, c: 3 }, S2 { b: 2 }));
    sv.push_tup(STUP(S1 { a: 4, c: 6 }, S2 { b: 5 }));
    let r = sv.index_move(1);
    assert_eq!(r.0.a, 4);
    assert_eq!(r.0.c, 6);
    assert_eq!(r.1.b, 5);
}

#[test]
fn from_iter_keeps_order() {
    let items = vec![
        STUP(S1 { a: 1, c: 1 }, S2 { b: 10 }),
        STUP(S1 { a: 2, c: 2 }, S2 { b: 20 }),
        STUP(S1 { a: 3, c: 3 }, S2 { b: 30 }),
    ];
    let sv = SVTUP::from_iter(items);
    assert_eq!(sv.0.len(), 3);
    assert_eq!(sv.1.len(), 3);
    assert_eq!(sv.0[2].a, 3);
    assert_eq!(sv.1[0].b, 10);
    assert_eq!(sv.1[1].b, 20);
}

#[test]
fn tuple_ref_as_ref_is_itself() {
    let a = Test1 { a: 1, c: 3 };
    let b = Test2 { b: 2 };
    let r = TestR(&a, &b);
    let r2: &TestR = r.as_ref();
    assert_eq!(r2.0.a, 1);
    assert_eq!(r2.1.b, 2);
    mir_utils::tuple_arg::test();
}

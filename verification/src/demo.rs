//! The benchmark program that the splitting pass is measured on: a struct
//! `S` whose fields fall into two affinity groups, its split form
//! (`S1`, `S2`, kept side by side in `SVTUP`), and a twin struct `T` that is
//! left whole.
use vstd::prelude::*;

verus! {

/// Number of elements the benchmark loops run over.
pub const N_ELEMS: usize = 100000;

/// The struct that carries the affinity groups `a = 1, b = 2, c = 1`.
#[derive(Clone, Copy, Debug)]
pub struct S {
    pub a: usize,
    pub b: usize,
    pub c: usize,
}

/// The child of `S` for affinity group 1.
#[derive(Clone, Copy, Debug)]
pub struct S1 {
    pub a: usize,
    pub c: usize,
}

/// The child of `S` for affinity group 2.
#[derive(Clone, Copy, Debug)]
pub struct S2 {
    pub b: usize,
}

/// The same struct as `S`, without affinity groups.
#[derive(Clone, Copy, Debug)]
pub struct T {
    pub a: usize,
    pub b: usize,
    pub c: usize,
}

/// A vector of whole `S` values.
pub struct VecTypeContainer(pub Vec<S>);

/// One value of `S`, as its two children.
pub struct STUP(pub S1, pub S2);

/// References to the two children of one value of `S`.
pub struct SRTUP<'a>(pub &'a S1, pub &'a S2);

/// A vector of `S` values kept as one vector per child.
pub struct SVTUP(pub Vec<S1>, pub Vec<S2>);

impl SVTUP {
    /// Appends the two children of one value.
    pub fn push_tup(&mut self, tup: STUP)
        ensures
            final(self).0@ == old(self).0@.push(tup.0),
            final(self).1@ == old(self).1@.push(tup.1),
    {
        let STUP(s1, s2) = tup;
        self.0.push(s1);
        self.1.push(s2);
    }

    /// The children of the value at index `i`.
    pub fn index_move(&mut self, i: usize) -> (r: SRTUP)
        requires
            i < old(self).0.len(),
            i < old(self).1.len(),
        ensures
            *r.0 == old(self).0@[i as int],
            *r.1 == old(self).1@[i as int],
            *final(self) == *old(self),
    {
        SRTUP(&self.0[i], &self.1[i])
    }

    /// Collects values given as pairs of children, in order.
    pub fn from_iter(items: Vec<STUP>) -> (r: SVTUP)
        ensures
            r.0@.len() == items@.len(),
            r.1@.len() == items@.len(),
            forall|k: int| 0 <= k < items@.len() ==> r.0@[k] == (#[trigger] items@[k]).0,
            forall|k: int| 0 <= k < items@.len() ==> r.1@[k] == (#[trigger] items@[k]).1,
    {
        let mut sv = SVTUP(Vec::new(), Vec::new());
        let n = items.len();
        for i in 0..n
            invariant
                n == items@.len(),
                sv.0@.len() == i,
                sv.1@.len() == i,
                forall|k: int| 0 <= k < i ==> sv.0@[k] == (#[trigger] items@[k]).0,
                forall|k: int| 0 <= k < i ==> sv.1@[k] == (#[trigger] items@[k]).1,
        {
            let t = &items[i];
            sv.push_tup(STUP(t.0, t.1));
        }
        sv
    }
}

/// What a read gives back of a write: after the children of a value are
/// pushed, indexing at the old length gives them back, and the values
/// before stay.
pub proof fn lemma_push_then_index(v0: Seq<S1>, v1: Seq<S2>, tup: STUP)
    ensures
        v0.push(tup.0)[v0.len() as int] == tup.0,
        v1.push(tup.1)[v1.len() as int] == tup.1,
        forall|i: int| 0 <= i < v0.len() ==> #[trigger] v0.push(tup.0)[i] == v0[i],
        forall|i: int| 0 <= i < v1.len() ==> #[trigger] v1.push(tup.1)[i] == v1[i],
{
}

/// What the benchmark loops add up over `n` elements: element `i` ends with
/// `a == 2 * i`, `b == 2 * (i + 1)` and `c == 0`.
pub open spec fn bench_sum(n: nat) -> nat
    decreases n,
{
    if n == 0 {
        0
    } else {
        bench_sum((n - 1) as nat) + 4 * ((n - 1) as nat) + 2
    }
}

/// The sum in closed form.
pub proof fn lemma_bench_sum(n: nat)
    ensures
        bench_sum(n) == 2 * n * n,
    decreases n,
{
    if n > 0 {
        let m = (n - 1) as nat;
        lemma_bench_sum(m);
        assert(bench_sum(n) == bench_sum(m) + 4 * m + 2);
        assert(2 * m * m + 4 * m + 2 == 2 * n * n) by (nonlinear_arith)
            requires
                m + 1 == n,
        ;
    } else {
        assert(2 * n * n == 0) by (nonlinear_arith)
            requires
                n == 0,
        ;
    }
}

/// The value both benchmark functions return.
pub open spec fn bench_result() -> nat {
    bench_sum(N_ELEMS as nat)
}

/// Runs the benchmark loops over `S`, the struct that the pass splits.
pub fn simple_test_s() -> (sum: usize)
    requires
        bench_result() <= usize::MAX,
    ensures
        sum == bench_result(),
        sum == 20_000_000_000,
{
    let mut test: Vec<S> = Vec::new();
    test.push(S { a: 0, b: 0, c: 0 });
    let mut y: Vec<S> = Vec::new();
    for i in 0..N_ELEMS
        invariant
            y@.len() == i,
            forall|j: int| 0 <= j < i ==> #[trigger] y@[j] == (S { a: 0, b: 0, c: 0 }),
    {
        y.push(S { a: 0, b: 0, c: 0 });
    }
    let mut sum: usize = 0;
    for i in 0..N_ELEMS
        invariant
            y@.len() == N_ELEMS,
            forall|j: int| 0 <= j < i ==> #[trigger] y@[j] == (S { a: j as usize, b: (j + 1) as usize, c: 0 }),
            forall|j: int| i <= j < N_ELEMS ==> #[trigger] y@[j] == (S { a: 0, b: 0, c: 0 }),
    {
        let mut e = y[i];
        e.a = i;
        e.b = i + 1;
        y.set(i, e);
    }
    for i in 0..N_ELEMS
        invariant
            y@.len() == N_ELEMS,
            forall|j: int| 0 <= j < i ==> #[trigger] y@[j] == (S { a: (2 * j) as usize, b: (j + 1) as usize, c: 0 }),
            forall|j: int| i <= j < N_ELEMS ==> #[trigger] y@[j] == (S { a: j as usize, b: (j + 1) as usize, c: 0 }),
    {
        let mut e = y[i];
        e.a += e.a;
        e.c += e.c;
        y.set(i, e);
    }
    for i in 0..N_ELEMS
        invariant
            y@.len() == N_ELEMS,
            forall|j: int| 0 <= j < i ==> #[trigger] y@[j] == (S { a: (2 * j) as usize, b: (2 * j + 2) as usize, c: 0 }),
            forall|j: int| i <= j < N_ELEMS ==> #[trigger] y@[j] == (S { a: (2 * j) as usize, b: (j + 1) as usize, c: 0 }),
    {
        let mut e = y[i];
        e.b += e.b;
        y.set(i, e);
    }
    proof {
        lemma_bench_sum(N_ELEMS as nat);
    }
    for i in 0..N_ELEMS
        invariant
            y@.len() == N_ELEMS,
            bench_result() <= usize::MAX,
            bench_result() == 2 * N_ELEMS * N_ELEMS,
            forall|j: int| 0 <= j < N_ELEMS ==> #[trigger] y@[j] == (S { a: (2 * j) as usize, b: (2 * j + 2) as usize, c: 0 }),
            sum == bench_sum(i as nat),
    {
        proof {
            lemma_bench_sum(i as nat);
            lemma_bench_sum((i + 1) as nat);
            assert(2 * (i + 1) * (i + 1) <= 2 * N_ELEMS * N_ELEMS) by (nonlinear_arith)
                requires i + 1 <= N_ELEMS;
        }
        let e = y[i];
        sum += e.a;
        sum += e.b;
        sum += e.c;
    }
    sum
}

/// Runs the benchmark loops over `T`, the twin struct that is left whole.
pub fn simple_test_t() -> (sum: usize)
    requires
        bench_result() <= usize::MAX,
    ensures
        sum == bench_result(),
        sum == 20_000_000_000,
{
    let mut test: Vec<T> = Vec::new();
    test.push(T { a: 0, b: 0, c: 0 });
    let mut y: Vec<T> = Vec::new();
    for i in 0..N_ELEMS
        invariant
            y@.len() == i,
            forall|j: int| 0 <= j < i ==> #[trigger] y@[j] == (T { a: 0, b: 0, c: 0 }),
    {
        y.push(T { a: 0, b: 0, c: 0 });
    }
    for i in 0..N_ELEMS
        invariant
            y@.len() == N_ELEMS,
            forall|j: int| 0 <= j < i ==> #[trigger] y@[j] == (T { a: j as usize, b: (j + 1) as usize, c: 0 }),
            forall|j: int| i <= j < N_ELEMS ==> #[trigger] y@[j] == (T { a: 0, b: 0, c: 0 }),
    {
        let mut e = y[i];
        e.a = i;
        e.b = i + 1;
        y.set(i, e);
    }
    for i in 0..N_ELEMS
        invariant
            y@.len() == N_ELEMS,
            forall|j: int| 0 <= j < i ==> #[trigger] y@[j] == (T { a: (2 * j) as usize, b: (j + 1) as usize, c: 0 }),
            forall|j: int| i <= j < N_ELEMS ==> #[trigger] y@[j] == (T { a: j as usize, b: (j + 1) as usize, c: 0 }),
    {
        let mut e = y[i];
        e.a += e.a;
        e.c += e.c;
        y.set(i, e);
    }
    for i in 0..N_ELEMS
        invariant
            y@.len() == N_ELEMS,
            forall|j: int| 0 <= j < i ==> #[trigger] y@[j] == (T { a: (2 * j) as usize, b: (2 * j + 2) as usize, c: 0 }),
            forall|j: int| i <= j < N_ELEMS ==> #[trigger] y@[j] == (T { a: (2 * j) as usize, b: (j + 1) as usize, c: 0 }),
    {
        let mut e = y[i];
        e.b += e.b;
        y.set(i, e);
    }
    proof {
        lemma_bench_sum(N_ELEMS as nat);
    }
    let mut sum: usize = 0;
    for i in 0..N_ELEMS
        invariant
            y@.len() == N_ELEMS,
            bench_result() <= usize::MAX,
            bench_result() == 2 * N_ELEMS * N_ELEMS,
            forall|j: int| 0 <= j < N_ELEMS ==> #[trigger] y@[j] == (T { a: (2 * j) as usize, b: (2 * j + 2) as usize, c: 0 }),
            sum == bench_sum(i as nat),
    {
        proof {
            lemma_bench_sum(i as nat);
            lemma_bench_sum((i + 1) as nat);
            assert(2 * (i + 1) * (i + 1) <= 2 * N_ELEMS * N_ELEMS) by (nonlinear_arith)
                requires i + 1 <= N_ELEMS;
        }
        let e = y[i];
        sum += e.a;
        sum += e.b;
        sum += e.c;
    }
    sum
}

/// One round of the benchmark with the pass: the work that the bench
/// harness times and repeats.
pub fn yes_pass() -> (sum: usize)
    requires
        bench_result() <= usize::MAX,
    ensures
        sum == bench_result(),
{
    simple_test_s()
}

/// One round of the benchmark without the pass.
pub fn no_pass() -> (sum: usize)
    requires
        bench_result() <= usize::MAX,
    ensures
        sum == bench_result(),
{
    simple_test_t()
}

/// The benchmark's sum is 20 000 000 000. Both benchmark functions return
/// `bench_result()` (their `ensures`), so each returns this value.
pub proof fn lemma_bench_result_value()
    ensures
        bench_result() == 20_000_000_000,
{
    lemma_bench_sum(N_ELEMS as nat);
}

} // verus!

//! A struct, its split form as a tuple of children, and the form that
//! borrows both children; used to try how tuples of children pass as
//! arguments.
use vstd::prelude::*;

verus! {

/// A struct with three fields.
#[derive(Clone, Copy, Debug)]
pub struct Test {
    pub a: u64,
    pub b: u64,
    pub c: u64,
}

/// The first child of `Test`: fields `a` and `c`.
pub struct Test1 {
    pub a: u64,
    pub c: u64,
}

/// The second child of `Test`: field `b`.
pub struct Test2 {
    pub b: u64,
}

/// A value of `Test` as its two children.
pub struct TestT(pub Test1, pub Test2);

/// References to the two children of one value of `Test`.
pub struct TestR<'a>(pub &'a Test1, pub &'a Test2);

impl<'a> AsRef<TestR<'a>> for TestR<'a> {
    fn as_ref(&self) -> (r: &TestR<'a>)
        ensures
            *r == *self,
    {
        return self;
    }
}

impl<'a> AsMut<TestR<'a>> for TestR<'a> {
    fn as_mut(&mut self) -> (r: &mut TestR<'a>)
        ensures
            *r == *old(self),
            *final(self) == *final(r),
    {
        return self;
    }
}

/// A function that takes and returns nothing; the subject of the split
/// argument experiments.
pub fn test() {
}

} // verus!

use vstd::prelude::*;

verus! {

/// The binary-operation capability an element type must supply.
///
/// The library tests whether a finite carrier set, together with this
/// operation, satisfies the group axioms; the contract itself assumes no
/// algebraic property of the operation beyond determinism.  Implementations
/// also decide structural equality of elements, which the checks use to
/// compare computed products with set members.
pub trait Operator<T> {
    /// Mathematical meaning of the operation; all contracts of the
    /// library are stated in terms of it.
    spec fn spec_operate(&self, operand: &T) -> T;

    /// Apply the operation, producing a new element.
    fn operate(&self, operand: &T) -> (r: T)
        ensures
            r == self.spec_operate(operand),
    ;

    /// Decide structural equality of two elements.
    fn equals(x: &T, y: &T) -> (r: bool)
        ensures
            r == (x == y),
    ;
}

/// A sample element type: a wrapped number combined modulo 12.
#[derive(PartialEq, Eq, Hash, Debug)]
pub struct TestStruct<T> {
    pub x: T,
}

impl Operator<TestStruct<u32>> for TestStruct<u32> {
    open spec fn spec_operate(&self, operand: &TestStruct<u32>) -> TestStruct<u32> {
        TestStruct { x: ((self.x + operand.x) % 12) as u32 }
    }

    /// Addition modulo 12.
    fn operate(&self, operand: &TestStruct<u32>) -> (r: TestStruct<u32>) {
        let sum: u64 = self.x as u64 + operand.x as u64;
        let m: u32 = (sum % 12) as u32;
        TestStruct { x: m }
    }

    fn equals(x: &TestStruct<u32>, y: &TestStruct<u32>) -> (r: bool) {
        x.x == y.x
    }
}

/// The remainder with the sign of the dividend, as Rust's `%` computes
/// it on signed numbers.
pub open spec fn signed_rem_12(d: int) -> int {
    if d >= 0 {
        d % 12
    } else {
        -((-d) % 12)
    }
}

impl Operator<TestStruct<i32>> for TestStruct<i32> {
    open spec fn spec_operate(&self, operand: &TestStruct<i32>) -> TestStruct<i32> {
        TestStruct { x: signed_rem_12(self.x as int - operand.x as int) as i32 }
    }

    /// Subtraction modulo 12, not wrapped to a non-negative remainder.
    fn operate(&self, operand: &TestStruct<i32>) -> (r: TestStruct<i32>) {
        let d: i64 = self.x as i64 - operand.x as i64;
        let m: i64 = if d >= 0 {
            d % 12
        } else {
            -((-d) % 12)
        };
        TestStruct { x: m as i32 }
    }

    fn equals(x: &TestStruct<i32>, y: &TestStruct<i32>) -> (r: bool) {
        x.x == y.x
    }
}

impl Operator<TestStruct<u8>> for TestStruct<u8> {
    open spec fn spec_operate(&self, operand: &TestStruct<u8>) -> TestStruct<u8> {
        TestStruct { x: ((operand.x as int - self.x as int) % 12) as u8 }
    }

    /// Reversed subtraction modulo 12, wrapped to a non-negative
    /// remainder.  On the numbers below 12 this operation is closed, has
    /// the identity 0 and makes every element its own inverse, yet it is
    /// neither associative nor commutative.
    fn operate(&self, operand: &TestStruct<u8>) -> (r: TestStruct<u8>) {
        let d: i32 = operand.x as i32 - self.x as i32;
        let m: i32 = if d >= 0 {
            d % 12
        } else {
            let t: i32 = (-d) % 12;
            if t == 0 {
                0
            } else {
                12 - t
            }
        };
        proof {
            assert(m == (operand.x as int - self.x as int) % 12) by (nonlinear_arith)
                requires
                    d == operand.x as int - self.x as int,
                    m == if d >= 0 {
                        d as int % 12
                    } else {
                        if (-d) as int % 12 == 0 {
                            0int
                        } else {
                            12 - (-d) as int % 12
                        }
                    },
            ;
        }
        TestStruct { x: m as u8 }
    }

    fn equals(x: &TestStruct<u8>, y: &TestStruct<u8>) -> (r: bool) {
        x.x == y.x
    }
}

} // verus!

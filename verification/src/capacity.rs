//! The number a `typenum` unsigned type stands for, so that contracts can say how many bytes an
//! `ArrayString<SIZE>` holds.

use vstd::prelude::*;
use typenum::{UInt, UTerm, B0, B1};

verus! {

#[verifier::external_type_specification]
#[verifier::external_body]
pub struct ExUTerm(UTerm);

#[verifier::external_type_specification]
#[verifier::external_body]
#[verifier::reject_recursive_types(U)]
#[verifier::reject_recursive_types(B)]
pub struct ExUInt<U, B>(UInt<U, B>);

#[verifier::external_type_specification]
#[verifier::external_body]
pub struct ExB0(B0);

#[verifier::external_type_specification]
#[verifier::external_body]
pub struct ExB1(B1);

/// The number a `typenum` type stands for: a bit is 0 or 1, and `UInt<U, B>` is `U` followed
/// by the bit `B`, that is `2 * U + B`.
pub trait TypeNum {
    spec fn value() -> nat;
}

impl TypeNum for UTerm {
    open spec fn value() -> nat {
        0
    }
}

impl TypeNum for B0 {
    open spec fn value() -> nat {
        0
    }
}

impl TypeNum for B1 {
    open spec fn value() -> nat {
        1
    }
}

impl<U: TypeNum, B: TypeNum> TypeNum for UInt<U, B> {
    open spec fn value() -> nat {
        2 * U::value() + B::value()
    }
}

/// How many bytes a string whose size type is `S` holds: the number `S` stands for, as a `u8`.
pub open spec fn capacity_of<S: TypeNum>() -> nat {
    S::value() % 256
}

} // verus!

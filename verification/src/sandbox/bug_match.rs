//! A wrapper of C-string bytes, compared with a constant.
use vstd::prelude::*;
use crate::rfx::propertyset::bytes_eq;
use crate::text::{clone_keyword, keyword_bytes};

verus! {

/// The bytes of a C string, terminator included.
#[derive(PartialEq, Eq)]
pub struct MyStruct<'a>(pub &'a [u8]);

/// The bytes of the constant: `ConstantString` and its terminator.
pub open spec fn constant_bytes() -> Seq<u8> {
    keyword_bytes("ConstantString"@).push(0u8)
}

impl<'a> MyStruct<'a> {
    /// Whether the wrapped bytes are those of the constant.
    pub fn is_constant(&self) -> (r: bool)
        ensures
            r == (self.0@ == constant_bytes()),
    {
        let mut c = clone_keyword("ConstantString");
        c.push(0u8);
        bytes_eq(self.0, c.as_slice())
    }
}

} // verus!

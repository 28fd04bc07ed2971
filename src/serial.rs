//! Encoding of plain values as column bytes.
use vstd::prelude::*;
use vstd::bytes::{spec_u32_to_le_bytes, u32_to_le_bytes};
use vstd::string::StringSliceAdditionalSpecFns;
use crate::engine::append_bytes;

verus! {

/// A value that can be stored as the bytes of a column.
pub trait Serializable {
    /// The bytes that encode the value.
    spec fn encoding(&self) -> Seq<u8>;

    fn serialized(&self) -> (r: Vec<u8>)
        ensures
            r@ == self.encoding(),
    ;
}

impl Serializable for u32 {
    /// Four bytes, little-endian.
    open spec fn encoding(&self) -> Seq<u8> {
        spec_u32_to_le_bytes(*self)
    }

    fn serialized(&self) -> (r: Vec<u8>) {
        u32_to_le_bytes(*self)
    }
}

impl<'a> Serializable for &'a str {
    /// The UTF-8 bytes of the text.
    open spec fn encoding(&self) -> Seq<u8> {
        (*self).spec_bytes()
    }

    fn serialized(&self) -> (r: Vec<u8>) {
        let mut v: Vec<u8> = Vec::new();
        append_bytes(&mut v, self.as_bytes());
        v
    }
}

impl Serializable for Vec<u8> {
    /// The bytes themselves.
    open spec fn encoding(&self) -> Seq<u8> {
        self@
    }

    fn serialized(&self) -> (r: Vec<u8>) {
        let mut v: Vec<u8> = Vec::new();
        append_bytes(&mut v, self.as_slice());
        v
    }
}

impl<const N: usize> Serializable for [u8; N] {
    /// The bytes themselves.
    open spec fn encoding(&self) -> Seq<u8> {
        self@
    }

    fn serialized(&self) -> (r: Vec<u8>) {
        let mut v: Vec<u8> = Vec::new();
        append_bytes(&mut v, self.as_slice());
        v
    }
}

} // verus!

use vstd::prelude::*;
use vstd::string::StringSliceAdditionalSpecFns;

verus! {

/// A value that can be read as a sequence of bytes.
pub trait AsBytes: Copy {
    /// The bytes that `as_bytes` hands out.
    spec fn bytes_view(&self) -> Seq<u8>;

    fn as_bytes(&self) -> (r: &[u8])
        ensures
            r@ == self.bytes_view(),
    ;
}

impl<'a> AsBytes for &'a str {
    open spec fn bytes_view(&self) -> Seq<u8> {
        (**self).spec_bytes()
    }

    fn as_bytes(&self) -> (r: &[u8]) {
        (**self).as_bytes()
    }
}

impl<'a> AsBytes for &'a [u8] {
    open spec fn bytes_view(&self) -> Seq<u8> {
        (**self)@
    }

    fn as_bytes(&self) -> (r: &[u8]) {
        *self
    }
}

/// Byte order of a serialised integer.
#[derive(Clone, Copy, Debug, PartialEq, Eq, Structural)]
pub enum Endian {
    Big,
    Little,
}

} // verus!

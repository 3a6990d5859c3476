use crate::buffer::{bytes_mut_freeze, bytes_mut_put_bytes, bytes_mut_split, bytes_mut_view, bytes_view};
use vstd::prelude::*;

verus! {

/// The modules that register a channel with the manager.
#[derive(Debug, PartialEq, Eq, Hash, Clone, Copy)]
pub enum ModuleId {
    Tun,
}

/// Running a function on the value of an `Option`, if there is one.
pub trait OptionHelper<T>: Sized {
    /// The value that `then_call` hands to its function, if there is one.
    spec fn held(&self) -> Option<T>;

    /// Calls `func` with the value, if there is one; `func` need only accept
    /// that value.
    fn then_call<F: FnOnce(T)>(self, func: F)
        requires
            self.held() matches Some(x) ==> func.requires((x,)),
        ensures
            self.held() matches Some(x) ==> func.ensures((x,), ()),
    ;
}

impl<T> OptionHelper<T> for Option<T> {
    open spec fn held(&self) -> Option<T> {
        *self
    }

    fn then_call<F: FnOnce(T)>(self, func: F) {
        if let Some(x) = self {
            func(x);
        }
    }
}

/// Number of bytes reserved in front of a packet for the tunnel header
/// (a 4-byte sequence number and a 2-byte length).
pub const HEADER_LEN: usize = 6;

/// A packet buffer whose first `HEADER_LEN` bytes are reserved for the tunnel header.
#[derive(Debug, Clone, PartialEq)]
pub struct HeaderAllocatedPayload<T>(pub T);

impl HeaderAllocatedPayload<bytes::BytesMut> {
    /// Reserves the header in front of whatever `value` holds: `HEADER_LEN`
    /// zero bytes are appended, and data read into the buffer follows them.
    pub fn from(value: bytes::BytesMut) -> (payload: Self)
        requires
            bytes_mut_view(value).len() + HEADER_LEN <= isize::MAX,
        ensures
            bytes_mut_view(payload.0) == bytes_mut_view(value) + Seq::new(
                HEADER_LEN as nat,
                |i: int| 0u8,
            ),
    {
        let mut value = value;
        bytes_mut_put_bytes(&mut value, 0, HEADER_LEN);
        HeaderAllocatedPayload(value)
    }

    /// Hands out everything the buffer holds as an immutable payload, and the
    /// emptied buffer for reuse.
    pub fn into(self) -> (parts: (HeaderAllocatedPayload<bytes::Bytes>, bytes::BytesMut))
        ensures
            bytes_view(parts.0.0) == bytes_mut_view(self.0),
            bytes_mut_view(parts.1) == Seq::<u8>::empty(),
    {
        let mut rest = self.0;
        let data = bytes_mut_split(&mut rest);
        (HeaderAllocatedPayload(bytes_mut_freeze(data)), rest)
    }
}

} // verus!

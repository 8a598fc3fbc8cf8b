//! The unit of work that travels from upstream to a consumer.
use vstd::prelude::*;
use crate::buffers::{bytes_view, bytes_as_slice};

verus! {

/// One framed line and, for AIS multipart fragments, the key that keeps
/// the fragments of one message on the same consumer.
#[derive(Clone, Debug)]
pub struct Message {
    pub data: bytes::Bytes,
    pub affinity_key: Option<String>,
}

impl Message {
    /// The number of bytes the message carries.
    pub open spec fn size(&self) -> nat {
        bytes_view(self.data).len()
    }

    /// The affinity key, as a character sequence.
    pub open spec fn key_view(&self) -> Option<Seq<char>> {
        match self.affinity_key {
            Some(k) => Some(k@),
            None => None,
        }
    }

    /// The number of bytes the message carries.
    pub fn data_len(&self) -> (n: usize)
        ensures
            n == self.size(),
    {
        bytes_as_slice(&self.data).len()
    }
}

} // verus!

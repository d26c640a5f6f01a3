//! Shared, immutable byte buffers.

use std::sync::Arc;
use vstd::prelude::*;

verus! {

/// A range of immutable bytes in shared storage: cloning and slicing copy no bytes.
#[derive(Debug)]
pub struct ByteBuffer {
    data: Arc<Vec<u8>>,
    start: usize,
    end: usize,
}

impl View for ByteBuffer {
    type V = Seq<u8>;

    closed spec fn view(&self) -> Seq<u8> {
        self.data@.subrange(self.start as int, self.end as int)
    }
}

impl ByteBuffer {
    #[verifier::type_invariant]
    spec fn in_storage(self) -> bool {
        self.start <= self.end <= self.data@.len()
    }

    /// A buffer that owns `bytes`.
    pub fn new(bytes: Vec<u8>) -> (buffer: Self)
        ensures
            buffer@ == bytes@,
    {
        let end: usize = bytes.len();
        let buffer = ByteBuffer { data: Arc::new(bytes), start: 0, end };
        assert(buffer@ =~= bytes@);
        buffer
    }

    /// A buffer with a copy of `bytes`.
    pub fn copy_from(bytes: &[u8]) -> (buffer: Self)
        ensures
            buffer@ == bytes@,
    {
        ByteBuffer::new(vstd::slice::slice_to_vec(bytes))
    }

    /// The number of bytes.
    pub fn len(&self) -> (len: usize)
        ensures
            len == self@.len(),
    {
        proof {
            use_type_invariant(self);
        }
        self.end - self.start
    }

    /// The bytes.
    pub fn as_slice(&self) -> (bytes: &[u8])
        ensures
            bytes@ == self@,
    {
        proof {
            use_type_invariant(self);
        }
        &self.data.as_slice()[self.start..self.end]
    }

    /// The part `start..end` of the buffer, in the same storage.
    pub fn slice(&self, start: usize, end: usize) -> (part: Self)
        requires
            start <= end <= self@.len(),
        ensures
            part@ == self@.subrange(start as int, end as int),
    {
        proof {
            use_type_invariant(self);
        }
        let part = ByteBuffer {
            data: self.data.clone(),
            start: self.start + start,
            end: self.start + end,
        };
        assert(part@ =~= self@.subrange(start as int, end as int));
        part
    }
}

impl Clone for ByteBuffer {
    fn clone(&self) -> (copy: Self)
        ensures
            copy@ == self@,
    {
        self.slice(0, self.len())
    }
}

/// The bytes of each of a row of buffers.
pub open spec fn buffer_bytes(buffers: Seq<ByteBuffer>) -> Seq<Seq<u8>> {
    buffers.map_values(|b: ByteBuffer| b@)
}

/// A row of buffers over the same storage.
pub fn clone_buffers(buffers: &Vec<ByteBuffer>) -> (copies: Vec<ByteBuffer>)
    ensures
        buffer_bytes(copies@) == buffer_bytes(buffers@),
{
    let mut copies: Vec<ByteBuffer> = Vec::new();
    let mut i: usize = 0;
    while i < buffers.len()
        invariant
            i <= buffers@.len(),
            copies@.len() == i,
            forall|k: int| 0 <= k < i ==> (#[trigger] copies@[k])@ == buffers@[k]@,
        decreases buffers@.len() - i,
    {
        copies.push(buffers[i].clone());
        i += 1;
    }
    assert(buffer_bytes(copies@) =~= buffer_bytes(buffers@));
    copies
}

/// Whether two slices hold the same bytes.
pub fn same_bytes(a: &[u8], b: &[u8]) -> (same: bool)
    ensures
        same == (a@ == b@),
{
    if a.len() != b.len() {
        return false;
    }
    let mut i: usize = 0;
    while i < a.len()
        invariant
            i <= a@.len() == b@.len(),
            forall|k: int| 0 <= k < i ==> a@[k] == b@[k],
        decreases a@.len() - i,
    {
        if a[i] != b[i] {
            return false;
        }
        i += 1;
    }
    assert(a@ =~= b@);
    true
}

/// The bytes of buffers, one row of bytes for each buffer.
pub proof fn law_buffer_bytes(buffers: Seq<ByteBuffer>, i: int)
    requires
        0 <= i < buffers.len(),
    ensures
        buffer_bytes(buffers).len() == buffers.len(),
        buffer_bytes(buffers)[i] == buffers[i]@,
{
}

} // verus!

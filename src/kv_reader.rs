use vstd::prelude::*;

verus! {

/// Most bytes asked for in one read of a stored value.
pub const MAX_QUERY_SIZE: u64 = 256 * 1024;

/// What the reader of a stored value does next.
#[derive(Debug, Clone, Copy, PartialEq, Eq)]
pub enum ReadStep {
    /// Read at most `max_length` bytes from byte `start` of the value.
    Fetch { start: u64, max_length: u64 },
    /// The whole value has been received.
    Complete,
    /// The value is not stored.
    NotFound,
}

/// Reassembles a stored value from the pieces of successive paginated reads.
pub struct ValueReader {
    /// The bytes received so far.
    pub raw: Vec<u8>,
}

impl ValueReader {
    /// A reader that has received nothing.
    pub fn new() -> (r: ValueReader)
        ensures
            r.raw@ == Seq::<u8>::empty(),
    {
        ValueReader { raw: Vec::new() }
    }

    /// The first read: from the start of the value.
    pub fn first_step(&self) -> (r: ReadStep)
        ensures
            r == (ReadStep::Fetch { start: self.raw@.len() as u64, max_length: MAX_QUERY_SIZE }),
    {
        ReadStep::Fetch { start: self.raw.len() as u64, max_length: MAX_QUERY_SIZE }
    }

    /// Takes the answer to the last read: `None` when the value is not
    /// stored, else the bytes read and the value's total size.
    pub fn on_reply(&mut self, reply: Option<(Vec<u8>, u64)>) -> (r: ReadStep)
        ensures
            reply.is_none() ==> r == ReadStep::NotFound && final(self).raw@ == old(self).raw@,
            reply.is_some() ==> {
                let (data, size) = reply.unwrap();
                &&& final(self).raw@ == old(self).raw@ + data@
                &&& r == if final(self).raw@.len() as u64 == size {
                    ReadStep::Complete
                } else {
                    ReadStep::Fetch { start: final(self).raw@.len() as u64, max_length: MAX_QUERY_SIZE }
                }
            },
    {
        match reply {
            None => ReadStep::NotFound,
            Some((data, size)) => {
                let mut data = data;
                self.raw.append(&mut data);
                if self.raw.len() as u64 == size {
                    ReadStep::Complete
                } else {
                    ReadStep::Fetch { start: self.raw.len() as u64, max_length: MAX_QUERY_SIZE }
                }
            },
        }
    }

    /// The bytes received.
    pub fn into_bytes(self) -> (r: Vec<u8>)
        ensures
            r@ == self.raw@,
    {
        self.raw
    }
}

} // verus!

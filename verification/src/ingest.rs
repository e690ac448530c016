//! Streaming ingest: drains a byte stream, chunk by chunk, into a buffer,
//! teeing every byte into a caller-supplied relay buffer, and settles the
//! entry's size — the declared length when one was given, else the summed
//! length of the consumed chunks.
//!
//! The caller feeds chunks as they arrive and commits the buffer to the
//! cache only once the stream is fully drained; dropping the buffer on a
//! mid-stream failure rolls the whole attempt back, so a store is
//! all-or-nothing.

use vstd::prelude::*;

verus! {

/// An in-progress drain of one response body.
pub struct IngestBuffer {
    /// The bytes consumed so far.
    pub data: Vec<u8>,
    /// The length the caller declared, 0 when unknown.
    pub declared: u64,
    /// The summed length of the consumed chunks, tracked only while the
    /// declared length is 0.
    pub computed: u64,
}

impl IngestBuffer {
    /// Starts a drain against a declared content length (0 = unknown).
    pub fn new(declared_len: u64) -> (r: IngestBuffer)
        ensures
            r.data@ == Seq::<u8>::empty(),
            r.declared == declared_len,
            r.computed == 0,
    {
        IngestBuffer { data: Vec::new(), declared: declared_len, computed: 0 }
    }

    /// Consumes one chunk: appends its bytes to the buffer and to the
    /// relay buffer alike, and, while the length is being computed, adds
    /// the chunk's length to the running total.
    pub fn push_chunk(&mut self, chunk: &Vec<u8>, relay: &mut Vec<u8>)
        requires
            old(self).declared == 0 ==> old(self).computed + chunk@.len() <= u64::MAX,
        ensures
            final(self).data@ == old(self).data@ + chunk@,
            final(relay)@ == old(relay)@ + chunk@,
            final(self).declared == old(self).declared,
            final(self).computed == if old(self).declared == 0 {
                old(self).computed + chunk@.len()
            } else {
                old(self).computed as int
            },
    {
        let n = chunk.len();
        let mut i: usize = 0;
        while i < n
            invariant
                i <= n,
                n == chunk@.len(),
                self.data@ == old(self).data@ + chunk@.subrange(0, i as int),
                relay@ == old(relay)@ + chunk@.subrange(0, i as int),
                self.declared == old(self).declared,
                self.computed == old(self).computed,
            decreases n - i,
        {
            let b = chunk[i];
            self.data.push(b);
            relay.push(b);
            proof {
                assert(self.data@ =~= old(self).data@ + chunk@.subrange(0, i + 1));
                assert(relay@ =~= old(relay)@ + chunk@.subrange(0, i + 1));
            }
            i = i + 1;
        }
        proof {
            assert(chunk@.subrange(0, n as int) =~= chunk@);
        }
        if self.declared == 0 {
            self.computed = self.computed + (n as u64);
        }
    }

    /// The size the entry will be recorded under: the declared length when
    /// one was given, else the computed one.
    pub open spec fn spec_size(self) -> u64 {
        if self.declared == 0 {
            self.computed
        } else {
            self.declared
        }
    }

    /// The size the entry will be recorded under.
    pub fn size(&self) -> (r: u64)
        ensures
            r == self.spec_size(),
    {
        if self.declared == 0 {
            self.computed
        } else {
            self.declared
        }
    }

    /// Gives up the drained bytes for committing to the cache.
    pub fn into_data(self) -> (r: Vec<u8>)
        ensures
            r@ == self.data@,
    {
        self.data
    }
}

} // verus!

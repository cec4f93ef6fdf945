//! Decisions of the serial worker: received bytes are batched and handed to the terminal when
//! the batch is large or old enough.
use vstd::prelude::*;

verus! {

/// A batch of at least this many bytes is handed over at once.
pub const BATCH_FLUSH_BYTES: usize = 2048;

/// A non-empty batch is handed over once this long (in nanoseconds) has passed since the last
/// hand-over.
pub const BATCH_MAX_AGE_NANOS: u64 = 20_000_000;

/// Received bytes not yet handed to the terminal.
pub struct RxBatch {
    pub pending: Vec<u8>,
}

impl RxBatch {
    /// An empty batch.
    pub fn new() -> (b: RxBatch)
        ensures
            b.pending@.len() == 0,
    {
        RxBatch { pending: Vec::new() }
    }

    /// Adds bytes just read from the port.
    pub fn push(&mut self, data: &[u8])
        ensures
            final(self).pending@ == old(self).pending@ + data@,
    {
        let mut i: usize = 0;
        while i < data.len()
            invariant
                0 <= i <= data@.len(),
                self.pending@ == old(self).pending@ + data@.take(i as int),
            decreases data@.len() - i,
        {
            self.pending.push(data[i]);
            assert(data@.take(i + 1) =~= data@.take(i as int).push(data@[i as int]));
            i = i + 1;
        }
        assert(data@.take(i as int) =~= data@);
    }

    /// Hands over the batch when it holds bytes and is either large or old (`since_flush`
    /// nanoseconds since the last hand-over reach the age limit); otherwise keeps it.
    pub fn take_if_due(&mut self, since_flush: u64) -> (r: Option<Vec<u8>>)
        ensures
            if old(self).pending@.len() > 0 && (old(self).pending@.len() >= BATCH_FLUSH_BYTES
                || since_flush >= BATCH_MAX_AGE_NANOS) {
                &&& r matches Some(v) && v@ == old(self).pending@
                &&& final(self).pending@.len() == 0
            } else {
                &&& r is None
                &&& final(self).pending@ == old(self).pending@
            },
    {
        if self.pending.len() > 0 && (self.pending.len() >= BATCH_FLUSH_BYTES || since_flush
            >= BATCH_MAX_AGE_NANOS) {
            let mut chunk: Vec<u8> = Vec::new();
            std::mem::swap(&mut chunk, &mut self.pending);
            Some(chunk)
        } else {
            None
        }
    }

    /// What is left to hand over when the worker stops.
    pub fn finish(self) -> (r: Option<Vec<u8>>)
        ensures
            self.pending@.len() > 0 ==> (r matches Some(v) && v@ == self.pending@),
            self.pending@.len() == 0 ==> r is None,
    {
        if self.pending.len() > 0 {
            Some(self.pending)
        } else {
            None
        }
    }
}

} // verus!

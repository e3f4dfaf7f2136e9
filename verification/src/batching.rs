//! Batching of received messages between the worker and the GUI: messages
//! are buffered and handed over as one batch, at the latest once the batch
//! is full; any other event first flushes the messages buffered before it.

use vstd::prelude::*;

use crate::types::{ZenohEvent, ZenohMessage};

verus! {

/// A batch is handed over once it holds this many messages.
pub const BATCH_FLUSH_SIZE: usize = 50;

/// Messages received and not yet handed over.
pub struct MessageBatcher {
    pub pending: Vec<ZenohMessage>,
}

impl MessageBatcher {
    /// A batcher holding nothing.
    pub fn new() -> (res: MessageBatcher)
        ensures
            res.pending@.len() == 0,
    {
        MessageBatcher { pending: Vec::new() }
    }

    /// Buffers a message; returns whether the batch is full and is to be
    /// handed over now.
    pub fn push(&mut self, message: ZenohMessage) -> (full: bool)
        ensures
            final(self).pending@ == old(self).pending@.push(message),
            full == (final(self).pending@.len() >= BATCH_FLUSH_SIZE),
    {
        self.pending.push(message);
        self.pending.len() >= BATCH_FLUSH_SIZE
    }

    /// The buffered messages as one batch event, in arrival order, or
    /// nothing when none is buffered; the batcher is empty afterwards.
    pub fn flush(&mut self) -> (res: Option<ZenohEvent>)
        ensures
            final(self).pending@.len() == 0,
            old(self).pending@.len() == 0 ==> res is None,
            old(self).pending@.len() > 0 ==> (res matches Some(ZenohEvent::MessageBatch(batch)) && batch@
                == old(self).pending@),
    {
        if self.pending.len() == 0 {
            return None;
        }
        let mut batch: Vec<ZenohMessage> = Vec::new();
        std::mem::swap(&mut batch, &mut self.pending);
        Some(ZenohEvent::MessageBatch(batch))
    }

    /// Routes an event from the worker, returning what is handed over now,
    /// in order: a message is buffered, and the batch is handed over once
    /// full; any other event is handed over right after the messages
    /// buffered before it (as one batch).
    pub fn route(&mut self, event: ZenohEvent) -> (out: Vec<ZenohEvent>)
        ensures
            match event {
                ZenohEvent::MessageReceived(m) => {
                    let p = old(self).pending@.push(m);
                    if p.len() >= BATCH_FLUSH_SIZE {
                        &&& final(self).pending@.len() == 0
                        &&& out@.len() == 1
                        &&& out@[0] matches ZenohEvent::MessageBatch(b) && b@ == p
                    } else {
                        &&& final(self).pending@ == p
                        &&& out@.len() == 0
                    }
                },
                _ => {
                    &&& final(self).pending@.len() == 0
                    &&& old(self).pending@.len() == 0 ==> out@ == seq![event]
                    &&& old(self).pending@.len() > 0 ==> out@.len() == 2 && (out@[0] matches ZenohEvent::MessageBatch(
                        b,
                    ) && b@ == old(self).pending@) && out@[1] == event
                },
            },
    {
        let mut out: Vec<ZenohEvent> = Vec::new();
        match event {
            ZenohEvent::MessageReceived(m) => {
                if self.push(m) {
                    if let Some(batch) = self.flush() {
                        out.push(batch);
                    }
                }
            },
            other => {
                if let Some(batch) = self.flush() {
                    out.push(batch);
                }
                out.push(other);
            },
        }
        out
    }
}

} // verus!

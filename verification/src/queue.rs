use vstd::prelude::*;

use crate::message::{EventModel, IpcMessage};

verus! {

/// The event multiplexer: one bounded FIFO shared by every client session
/// (the producers) and the single consumer bridge. Capacity is fixed at
/// construction and small; a full queue refuses the event and hands it
/// back, so a producing session suspends instead of dropping anything.
pub struct EventQueue {
    items: Vec<IpcMessage>,
    capacity: usize,
}

impl EventQueue {
    /// The queued events, oldest first.
    pub closed spec fn contents(&self) -> Seq<EventModel> {
        self.items@.map_values(|m: IpcMessage| m@)
    }

    /// The fixed capacity the queue was created with.
    pub closed spec fn cap(&self) -> nat {
        self.capacity as nat
    }

    /// The queue never holds more events than its capacity.
    pub open spec fn wf(&self) -> bool {
        self.cap() >= 1 && self.contents().len() <= self.cap()
    }

    /// An empty queue of the given capacity.
    pub fn new(capacity: usize) -> (q: EventQueue)
        requires
            capacity >= 1,
        ensures
            q.wf(),
            q.cap() == capacity,
            q.contents() == Seq::<EventModel>::empty(),
    {
        let q = EventQueue { items: Vec::new(), capacity };
        proof {
            assert(q.contents() =~= Seq::<EventModel>::empty());
        }
        q
    }

    /// How many events are waiting for the consumer.
    pub fn len(&self) -> (n: usize)
        ensures
            n == self.contents().len(),
    {
        self.items.len()
    }

    /// Whether an enqueue would have to wait right now.
    pub fn is_full(&self) -> (b: bool)
        requires
            self.wf(),
        ensures
            b == (self.contents().len() == self.cap()),
    {
        self.items.len() == self.capacity
    }

    /// Append one event, or hand it back untouched when the queue is at
    /// capacity. Nothing is ever dropped: a `Some` result means the queue
    /// is unchanged and the producer must suspend and retry after the
    /// consumer has drained at least one slot.
    pub fn try_enqueue(&mut self, event: IpcMessage) -> (r: Option<IpcMessage>)
        requires
            old(self).wf(),
        ensures
            final(self).wf(),
            final(self).cap() == old(self).cap(),
            match r {
                Option::None => {
                    &&& old(self).contents().len() < old(self).cap()
                    &&& final(self).contents() == old(self).contents().push(event@)
                },
                Option::Some(back) => {
                    &&& old(self).contents().len() == old(self).cap()
                    &&& *final(self) == *old(self)
                    &&& back == event
                },
            },
    {
        if self.items.len() == self.capacity {
            Some(event)
        } else {
            let ghost before = self.items@;
            self.items.push(event);
            proof {
                assert(self.contents() =~= before.map_values(|m: IpcMessage| m@).push(event@));
            }
            None
        }
    }

    /// Remove and return the oldest event; `None` exactly when the queue
    /// is empty. The single consumer bridge is the only caller, which is
    /// what serializes delivery to the host callback.
    pub fn dequeue(&mut self) -> (r: Option<IpcMessage>)
        requires
            old(self).wf(),
        ensures
            final(self).wf(),
            final(self).cap() == old(self).cap(),
            match r {
                Option::None => {
                    &&& old(self).contents().len() == 0
                    &&& *final(self) == *old(self)
                },
                Option::Some(m) => {
                    &&& old(self).contents().len() >= 1
                    &&& m@ == old(self).contents()[0]
                    &&& final(self).contents() == old(self).contents().skip(1)
                },
            },
    {
        if self.items.len() == 0 {
            None
        } else {
            let ghost before = self.items@;
            let m = self.items.remove(0);
            proof {
                assert(self.contents() =~= before.map_values(|m: IpcMessage| m@).skip(1));
            }
            Some(m)
        }
    }
}

} // verus!

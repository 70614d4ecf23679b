use vstd::prelude::*;

verus! {

/// Sends events into a queue.
pub trait EventSender<Event> {
    /// Queues `event` behind everything already queued.
    fn send(&mut self, event: Event);
}

/// Drains queued events.
pub trait EventReceiver<Event> {
    /// Takes every queued event, oldest first.
    fn read(&mut self) -> Vec<Event>;
}

/// An in-process event queue for one event type: systems push events in
/// during a frame, and a consumer later drains them in arrival order. One
/// queue serves one event type; an application routing several event types
/// keeps a queue per type.
pub struct EventSystem<E> {
    /// The queued events, oldest first.
    pub events: Vec<E>,
}

impl<E> EventSystem<E> {
    /// The queued events, oldest first.
    pub open spec fn queued(self) -> Seq<E> {
        self.events@
    }

    /// Creates an empty queue.
    pub fn new() -> (s: Self)
        ensures
            s.queued() == Seq::<E>::empty(),
    {
        let s = EventSystem { events: Vec::new() };
        proof {
            assert(s.queued() =~= Seq::empty());
        }
        s
    }

    /// Queues `event` behind everything already queued.
    pub fn send(&mut self, event: E)
        ensures
            final(self).queued() == old(self).queued().push(event),
    {
        self.events.push(event);
    }

    /// Takes every queued event, oldest first; the queue is empty after.
    pub fn read(&mut self) -> (r: Vec<E>)
        ensures
            r@ == old(self).queued(),
            final(self).queued() == Seq::<E>::empty(),
    {
        let mut taken: Vec<E> = Vec::new();
        core::mem::swap(&mut self.events, &mut taken);
        proof {
            assert(self.queued() =~= Seq::empty());
        }
        taken
    }
}

impl<E> Default for EventSystem<E> {
    /// Creates an empty queue.
    fn default() -> (s: Self)
        ensures
            s.queued() == Seq::<E>::empty(),
    {
        EventSystem::new()
    }
}

impl<E> EventSender<E> for EventSystem<E> {
    fn send(&mut self, event: E) {
        self.events.push(event);
    }
}

impl<E> EventReceiver<E> for EventSystem<E> {
    fn read(&mut self) -> Vec<E> {
        let mut taken: Vec<E> = Vec::new();
        core::mem::swap(&mut self.events, &mut taken);
        taken
    }
}

} // verus!

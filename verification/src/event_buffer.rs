//! Bounded first-in first-out buffers of update events, one per connected
//! screen. An event is held as the text that is sent to the screen.
//! The queue itself is crossbeam's `ArrayQueue`.

use vstd::prelude::*;
use crossbeam::queue::ArrayQueue;

verus! {

/// crossbeam's bounded queue, known to Verus as an opaque type.
#[verifier::external_type_specification]
#[verifier::external_body]
#[verifier::reject_recursive_types(T)]
pub struct ExArrayQueue<T>(ArrayQueue<T>);

/// The texts of the events that a queue holds, oldest first.
pub uninterp spec fn queued_events(q: ArrayQueue<String>) -> Seq<Seq<char>>;

/// The capacity that a queue was made with.
pub uninterp spec fn queue_capacity(q: ArrayQueue<String>) -> nat;

/// Calls `ArrayQueue::new`, which makes an empty queue of capacity `cap`.
/// The source panics where `cap` is 0 or so large that `cap + 1` has no
/// next power of two in the index type; `requires` keeps `cap` far below.
#[verifier::external_body]
fn new_queue(cap: usize) -> (q: ArrayQueue<String>)
    requires
        0 < cap <= 65536,
    ensures
        queued_events(q) == Seq::<Seq<char>>::empty(),
        queue_capacity(q) == cap,
{
    ArrayQueue::new(cap)
}

/// Calls `ArrayQueue::push` on a queue that no one else holds. The source
/// writes the value at the tail when the queue holds fewer than `capacity`
/// values, and hands the value back in `Err` when the queue is full, with
/// the queue left as it was. It does not panic: it only reads and swaps
/// atomics and writes into a slot that the buffer already holds.
#[verifier::external_body]
fn queue_push(q: &mut ArrayQueue<String>, v: String) -> (r: Result<(), String>)
    ensures
        queue_capacity(*final(q)) == queue_capacity(*old(q)),
        queued_events(*old(q)).len() < queue_capacity(*old(q)) ==> {
            &&& r is Ok
            &&& queued_events(*final(q)) == queued_events(*old(q)).push(v@)
        },
        queued_events(*old(q)).len() >= queue_capacity(*old(q)) ==> {
            &&& r matches Err(x) && x == v
            &&& queued_events(*final(q)) == queued_events(*old(q))
        },
    no_unwind
{
    q.push(v)
}

/// Calls `ArrayQueue::pop` on a queue that no one else holds. The source
/// takes the value at the head, or gives `None` when the queue is empty.
/// It does not panic: it only reads and swaps atomics and reads a slot.
#[verifier::external_body]
fn queue_pop(q: &mut ArrayQueue<String>) -> (r: Option<String>)
    ensures
        queue_capacity(*final(q)) == queue_capacity(*old(q)),
        queued_events(*old(q)).len() == 0 ==> {
            &&& r is None
            &&& queued_events(*final(q)) == queued_events(*old(q))
        },
        queued_events(*old(q)).len() > 0 ==> {
            &&& r matches Some(x) && x@ == queued_events(*old(q))[0]
            &&& queued_events(*final(q)) == queued_events(*old(q)).drop_first()
        },
    no_unwind
{
    q.pop()
}

/// The capacity of every event buffer.
pub const EVENT_BUFFER_CAPACITY: usize = 16;

/// What a push does to a buffer's contents: the event joins the end when
/// there is room, else the buffer is unchanged and the push fails.
pub open spec fn pushed(q: Seq<Seq<char>>, cap: nat, e: Seq<char>) -> (Seq<Seq<char>>, bool) {
    if q.len() < cap {
        (q.push(e), true)
    } else {
        (q, false)
    }
}

/// What a pop does to a buffer's contents: the oldest event leaves.
pub open spec fn popped(q: Seq<Seq<char>>) -> (Seq<Seq<char>>, Option<Seq<char>>) {
    if q.len() == 0 {
        (q, None)
    } else {
        (q.drop_first(), Some(q[0]))
    }
}

/// A bounded buffer of update events.
pub struct EventBuffer {
    queue: ArrayQueue<String>,
}

impl View for EventBuffer {
    type V = Seq<Seq<char>>;

    /// The events held, oldest first.
    closed spec fn view(&self) -> Seq<Seq<char>> {
        queued_events(self.queue)
    }
}

impl EventBuffer {
    /// Every buffer holds at most 16 events.
    #[verifier::type_invariant]
    spec fn capacity_is_fixed(self) -> bool {
        queue_capacity(self.queue) == EVENT_BUFFER_CAPACITY
    }

    /// How many events the buffer can hold.
    pub closed spec fn capacity(&self) -> nat {
        queue_capacity(self.queue)
    }

    /// An empty buffer of capacity 16.
    pub fn new() -> (b: EventBuffer)
        ensures
            b@ == Seq::<Seq<char>>::empty(),
            b.capacity() == EVENT_BUFFER_CAPACITY,
    {
        EventBuffer { queue: new_queue(EVENT_BUFFER_CAPACITY) }
    }

    /// An empty buffer. The capacity asked for is not used: every buffer
    /// holds 16 events.
    pub fn with_capacity(_cap: usize) -> (b: EventBuffer)
        ensures
            b@ == Seq::<Seq<char>>::empty(),
            b.capacity() == EVENT_BUFFER_CAPACITY,
    {
        EventBuffer { queue: new_queue(EVENT_BUFFER_CAPACITY) }
    }

    /// Adds an event at the end; a full buffer hands the event back.
    pub fn push(&mut self, event: String) -> (r: Result<(), String>)
        ensures
            old(self).capacity() == EVENT_BUFFER_CAPACITY,
            final(self).capacity() == EVENT_BUFFER_CAPACITY,
            final(self)@ == pushed(old(self)@, EVENT_BUFFER_CAPACITY as nat, event@).0,
            (r is Ok) == pushed(old(self)@, EVENT_BUFFER_CAPACITY as nat, event@).1,
            r matches Err(x) ==> x == event,
    {
        proof {
            use_type_invariant(&*self);
        }
        queue_push(&mut self.queue, event)
    }

    /// Takes the oldest event, if there is one.
    pub fn pop(&mut self) -> (r: Option<String>)
        ensures
            old(self).capacity() == EVENT_BUFFER_CAPACITY,
            final(self).capacity() == EVENT_BUFFER_CAPACITY,
            final(self)@ == popped(old(self)@).0,
            match r {
                Some(x) => popped(old(self)@).1 == Some(x@),
                None => popped(old(self)@).1 is None,
            },
    {
        proof {
            use_type_invariant(&*self);
        }
        queue_pop(&mut self.queue)
    }
}

impl Default for EventBuffer {
    /// An empty buffer of capacity 16.
    fn default() -> (b: EventBuffer)
        ensures
            b@ == Seq::<Seq<char>>::empty(),
            b.capacity() == EVENT_BUFFER_CAPACITY,
    {
        EventBuffer::new()
    }
}

} // verus!

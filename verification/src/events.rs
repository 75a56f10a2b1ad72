//! Waking those who wait for a task to be done.
use event_listener::{Event, EventListener};
use vstd::prelude::*;

verus! {

/// `event_listener::Event`, of which nothing inside is seen.
#[verifier::external_type_specification]
#[verifier::external_body]
pub struct ExEvent(event_listener::Event);

/// `event_listener::EventListener`, of which nothing inside is seen.
#[verifier::external_type_specification]
#[verifier::external_body]
pub struct ExEventListener(event_listener::EventListener);

/// To how many listeners each notification of the event was sent, from the first
/// notification on.
pub uninterp spec fn notifications(event: &event_listener::Event) -> Seq<usize>;

/// `event_listener::Event::new` makes an event without listeners, of which no notification
/// was sent.
pub assume_specification[ event_listener::Event::new ]() -> (res: event_listener::Event)
    ensures
        notifications(&res) == Seq::<usize>::empty(),
;

/// What `event_listener::EventListener::listens_to` returns: whether the listener was
/// registered with the event. A listener belongs to one event as long as it lives.
pub uninterp spec fn listens_to(
    listener: event_listener::EventListener,
    event: event_listener::Event,
) -> bool;

/// `event_listener::Event::listen` registers a listener with the event, which the next
/// notification of the event wakes. It is claimed that the listener listens to the event.
/// Which listeners are waiting when a notification comes is not part of any value, so
/// nothing is claimed of when it wakes.
pub assume_specification[ event_listener::Event::listen ](event: &event_listener::Event) -> (res:
    event_listener::EventListener)
    ensures
        listens_to(res, *event),
;

/// `event_listener::Event::notify` sends a notification, which wakes at least `n` of the
/// listeners that wait at that moment, or all of them where there are fewer. It is claimed
/// that one notification more is sent, and that listeners stay with their event. Which
/// listeners wait is not part of any value, so nothing is claimed of who wakes.
#[verifier::external_body]
fn notify(event: &mut Event, n: usize)
    ensures
        notifications(final(event)) == notifications(old(event)).push(n),
        forall|listener: EventListener| #[trigger]
            listens_to(listener, *final(event)) == listens_to(listener, *old(event)),
{
    event.notify(n);
}

/// The event of a task being done.
pub struct DoneEvent {
    event: Event,
}

impl DoneEvent {
    /// To how many listeners each notification was sent, from the first notification on.
    pub closed spec fn sent(self) -> Seq<usize> {
        notifications(&self.event)
    }

    /// Whether the listener is one for notifications of this event.
    pub closed spec fn wakes(self, listener: EventListener) -> bool {
        listens_to(listener, self.event)
    }

    pub fn new() -> (res: DoneEvent)
        ensures
            res.sent() == Seq::<usize>::empty(),
    {
        DoneEvent { event: Event::new() }
    }

    /// What was sent is what the event has sent, and a listener is woken that listens to it.
    proof fn law_event_is_the_one_that_is_kept(self, listener: EventListener)
        ensures
            self.sent() == notifications(&self.event),
            self.wakes(listener) <==> listens_to(listener, self.event),
    {
    }

    /// Notifies `n` listeners.
    pub fn notify(&mut self, n: usize)
        ensures
            final(self).sent() == old(self).sent().push(n),
            forall|listener: EventListener| #[trigger]
                final(self).wakes(listener) == old(self).wakes(listener),
    {
        notify(&mut self.event, n);
    }

    /// A listener for the next notification.
    pub fn listen(&self) -> (res: EventListener)
        ensures
            self.wakes(res),
    {
        self.event.listen()
    }
}

} // verus!

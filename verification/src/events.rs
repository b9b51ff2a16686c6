//! Events: plain messages routed to entities.  A message is a tagged
//! payload; what the tags mean belongs to the embedding application.

use vstd::prelude::*;

use crate::entity::Entity;

verus! {

/// The message tag that asks the event loop for a repaint.
pub const REDRAW_MESSAGE: u64 = 0;

/// A message: a caller-chosen tag plus an opaque payload word.
#[derive(Clone, Copy, PartialEq, Eq, Structural, Debug)]
pub struct Message {
    /// What kind of message this is.
    pub kind: u64,
    /// Message payload, meaningful to the sender and receiver only.
    pub value: u64,
}

impl Message {
    /// The repaint request message.
    pub fn redraw() -> (m: Message)
        ensures
            m.kind == REDRAW_MESSAGE,
            m.value == 0,
    {
        Message { kind: REDRAW_MESSAGE, value: 0 }
    }
}

/// How an event travels once delivered.
#[derive(Clone, Copy, PartialEq, Eq, Structural, Debug)]
pub enum Propagation {
    /// Up the tree from the target.
    Up,
    /// To the target only.
    Direct,
}

/// One queued event.
#[derive(Clone, Copy, PartialEq, Eq, Structural, Debug)]
pub struct Event {
    /// The message carried.
    pub message: Message,
    /// The entity the event is addressed to.
    pub target: Entity,
    /// The entity the event was sent from.
    pub origin: Entity,
    /// How the event travels.
    pub propagation: Propagation,
    /// Whether delivery should be traced for diagnostics.
    pub trace: bool,
}

impl Event {
    /// A fresh event carrying `message`, addressed to the root until routed.
    pub fn new(message: Message) -> (e: Event)
        ensures
            e.message == message,
            e.target == Entity::spec_root(),
            e.origin == Entity::spec_root(),
            e.propagation == Propagation::Up,
            !e.trace,
    {
        Event {
            message,
            target: Entity::root(),
            origin: Entity::root(),
            propagation: Propagation::Up,
            trace: false,
        }
    }

    /// Address the event to `target`.
    pub fn target(self, target: Entity) -> (e: Event)
        ensures
            e == (Event { target, ..self }),
    {
        Event { target, ..self }
    }

    /// Record where the event came from.
    pub fn origin(self, origin: Entity) -> (e: Event)
        ensures
            e == (Event { origin, ..self }),
    {
        Event { origin, ..self }
    }

    /// Choose how the event travels.
    pub fn propagate(self, propagation: Propagation) -> (e: Event)
        ensures
            e == (Event { propagation, ..self }),
    {
        Event { propagation, ..self }
    }

    /// Mark the event for delivery tracing.
    pub fn trace(self) -> (e: Event)
        ensures
            e == (Event { trace: true, ..self }),
    {
        Event { trace: true, ..self }
    }
}

/// A sink that can inject events into a running event loop from another
/// thread.  The embedding event loop implements this; nothing is assumed of
/// an implementation beyond its signature.
pub trait EventProxy {
    /// Send one event into the loop; `Err` means the loop is gone.
    fn send(&self, event: Event) -> Result<(), ()>;
}

/// Why a proxy emit failed.
#[derive(Clone, Copy, PartialEq, Eq, Structural, Debug)]
pub enum ProxyEmitError {
    /// The running context has no event proxy.
    Unsupported,
    /// The event loop the proxy pointed at has closed.
    EventLoopClosed,
}

impl ProxyEmitError {
    /// A human-readable description of the failure.
    pub fn message(&self) -> (r: &'static str)
        ensures
            (self is Unsupported) ==> r@ == "the current runtime does not support proxying events"@,
            (self is EventLoopClosed) ==> r@
                == "sending an event to an event loop which has been closed"@,
    {
        match self {
            ProxyEmitError::Unsupported => "the current runtime does not support proxying events",
            ProxyEmitError::EventLoopClosed => "sending an event to an event loop which has been closed",
        }
    }
}

/// A snapshot of the context handed to spawned threads: it can do nothing
/// but address events back into the event loop through the proxy.
pub struct ContextProxy<P: EventProxy> {
    /// The entity that was current when the thread was spawned.
    pub current: Entity,
    /// The event-loop proxy, when the runtime provides one.
    pub event_proxy: Option<P>,
}

impl<P: EventProxy> ContextProxy<P> {
    /// Emit a message from this thread, targeted at the snapshot's current
    /// entity.  Fails with `Unsupported` exactly when there is no proxy, and
    /// with `EventLoopClosed` when the proxy rejects the event.
    pub fn emit(&mut self, message: Message) -> (r: Result<(), ProxyEmitError>)
        ensures
            *final(self) == *old(self),
            r == Err::<(), ProxyEmitError>(ProxyEmitError::Unsupported) <==> old(
                self,
            ).event_proxy is None,
            r is Err ==> r == Err::<(), ProxyEmitError>(ProxyEmitError::Unsupported) || r == Err::<
                (),
                ProxyEmitError,
            >(ProxyEmitError::EventLoopClosed),
    {
        match &self.event_proxy {
            Some(proxy) => {
                let event = Event::new(message).target(self.current).origin(
                    self.current,
                ).propagate(Propagation::Up);
                match proxy.send(event) {
                    Ok(_) => Ok(()),
                    Err(_) => Err(ProxyEmitError::EventLoopClosed),
                }
            },
            None => Err(ProxyEmitError::Unsupported),
        }
    }

    /// Emit a message from this thread at a chosen target entity.
    pub fn emit_to(&mut self, target: Entity, message: Message) -> (r: Result<(), ProxyEmitError>)
        ensures
            *final(self) == *old(self),
            r == Err::<(), ProxyEmitError>(ProxyEmitError::Unsupported) <==> old(
                self,
            ).event_proxy is None,
            r is Err ==> r == Err::<(), ProxyEmitError>(ProxyEmitError::Unsupported) || r == Err::<
                (),
                ProxyEmitError,
            >(ProxyEmitError::EventLoopClosed),
    {
        match &self.event_proxy {
            Some(proxy) => {
                let event = Event::new(message).target(target).origin(self.current).propagate(
                    Propagation::Direct,
                );
                match proxy.send(event) {
                    Ok(_) => Ok(()),
                    Err(_) => Err(ProxyEmitError::EventLoopClosed),
                }
            },
            None => Err(ProxyEmitError::Unsupported),
        }
    }

    /// Ask the event loop for a repaint.
    pub fn redraw(&mut self) -> (r: Result<(), ProxyEmitError>)
        ensures
            *final(self) == *old(self),
            r == Err::<(), ProxyEmitError>(ProxyEmitError::Unsupported) <==> old(
                self,
            ).event_proxy is None,
            r is Err ==> r == Err::<(), ProxyEmitError>(ProxyEmitError::Unsupported) || r == Err::<
                (),
                ProxyEmitError,
            >(ProxyEmitError::EventLoopClosed),
    {
        self.emit(Message::redraw())
    }
}

} // verus!

//! Driving one send over a socket that may not be writable yet.
use vstd::prelude::*;

verus! {

/// What has happened to a send.
#[derive(Debug)]
pub enum TransmitEvent<E> {
    /// The socket took the send.
    Sent,
    /// The socket would block.
    WouldBlock,
    /// The send failed for another reason.
    Failed(E),
    /// The socket became writable.
    Writable,
    /// Waiting for the socket to become writable failed.
    WaitFailed(E),
}

/// What to do about a send next.
#[derive(Debug)]
pub enum TransmitAction<E> {
    /// Try the send.
    TrySend,
    /// Wait for the socket to become writable.
    AwaitWritable,
    /// The send is over, with this result.
    Finish(Result<(), E>),
}

/// What follows an event: a send that would block is tried again once the socket
/// is writable; any other outcome is final.
pub open spec fn action_after<E>(event: TransmitEvent<E>) -> TransmitAction<E> {
    match event {
        TransmitEvent::Sent => TransmitAction::Finish(Ok(())),
        TransmitEvent::WouldBlock => TransmitAction::AwaitWritable,
        TransmitEvent::Failed(e) => TransmitAction::Finish(Err(e)),
        TransmitEvent::Writable => TransmitAction::TrySend,
        TransmitEvent::WaitFailed(e) => TransmitAction::Finish(Err(e)),
    }
}

/// Decides what to do about a send after an event. The first action of a send is
/// to try it.
pub fn transmit_step<E>(event: TransmitEvent<E>) -> (action: TransmitAction<E>)
    ensures
        action == action_after(event),
{
    match event {
        TransmitEvent::Sent => TransmitAction::Finish(Ok(())),
        TransmitEvent::WouldBlock => TransmitAction::AwaitWritable,
        TransmitEvent::Failed(e) => TransmitAction::Finish(Err(e)),
        TransmitEvent::Writable => TransmitAction::TrySend,
        TransmitEvent::WaitFailed(e) => TransmitAction::Finish(Err(e)),
    }
}

/// A send is waited for exactly where it would block and tried again exactly where
/// the socket became writable; it ends well exactly where the socket took it, and
/// ends with the very error that the attempt or the wait failed with.
pub proof fn outcomes_are_passed_on<E>(event: TransmitEvent<E>)
    ensures
        action_after(event) is AwaitWritable <==> event is WouldBlock,
        action_after(event) is TrySend <==> event is Writable,
        action_after(event) is Finish && action_after(event)->Finish_0 is Ok <==> event is Sent,
        event matches TransmitEvent::Failed(e) ==> action_after(event)
            == TransmitAction::<E>::Finish(Err(e)),
        event matches TransmitEvent::WaitFailed(e) ==> action_after(event)
            == TransmitAction::<E>::Finish(Err(e)),
{
}

/// Whether an event can answer an action: attempts are answered by what became
/// of the attempt, waits by what became of the wait, and nothing follows the end.
pub open spec fn answers<E>(action: TransmitAction<E>, event: TransmitEvent<E>) -> bool {
    match action {
        TransmitAction::TrySend => event is Sent || event is WouldBlock || event is Failed,
        TransmitAction::AwaitWritable => event is Writable || event is WaitFailed,
        TransmitAction::Finish(_) => false,
    }
}

/// The action that is pending once the first `n` of a series of events have
/// happened.
pub open spec fn pending_after<E>(events: Seq<TransmitEvent<E>>, n: int) -> TransmitAction<E> {
    if n == 0 {
        TransmitAction::TrySend
    } else {
        action_after(events[n - 1])
    }
}

/// Whether the `i`th of a series of events answers the action that was pending
/// before it.
pub open spec fn follows<E>(events: Seq<TransmitEvent<E>>, i: int) -> bool {
    answers(pending_after(events, i), events[i])
}

/// Whether a series of events can be the course of a send: each answers the
/// action that was pending before it.
pub open spec fn is_course<E>(events: Seq<TransmitEvent<E>>) -> bool {
    forall|i: int| 0 <= i < events.len() ==> #[trigger] follows(events, i)
}

/// A send is over only with its last event, and its result is that event's: `Ok`
/// exactly where the socket took the send, an error only where the attempt or
/// the wait failed. Before that it would block and become writable in turn, and
/// blocking is never what a send ends with.
pub proof fn send_ends_with_its_last_event<E>(events: Seq<TransmitEvent<E>>, i: int)
    requires
        is_course(events),
        0 <= i < events.len(),
    ensures
        i < events.len() - 1 ==> events[i] == if i % 2 == 0 {
            TransmitEvent::<E>::WouldBlock
        } else {
            TransmitEvent::<E>::Writable
        },
        i == events.len() - 1 ==> {
            let end = pending_after(events, i + 1);
            &&& end == TransmitAction::<E>::Finish(Ok(())) <==> events[i] is Sent
            &&& end is Finish && end->Finish_0 is Err <==> events[i] is Failed
                || events[i] is WaitFailed
            &&& end is Finish <==> !(events[i] is WouldBlock || events[i] is Writable)
        },
    decreases i,
{
    assert(follows(events, i));
    if i > 0 {
        send_ends_with_its_last_event(events, i - 1);
    }
    if i < events.len() - 1 {
        assert(follows(events, i + 1));
    }
}

} // verus!

//! What the packet handler of a video stream knows of its client, and what it does about its start,
//! packets, messages and reset requests.
use vstd::prelude::*;

verus! {

/// The message by which a client tells where it is listening: "PING".
pub open spec fn ping() -> Seq<u8> {
    seq![0x50u8, 0x49u8, 0x4eu8, 0x47u8]
}

/// Something that the packet handler waited for. `A` is the type of addresses.
#[derive(Debug)]
pub enum PacketEvent<'a, A> {
    /// The stream was triggered.
    Started,
    /// The session is shutting down.
    Shutdown,
    /// A batch of packets is ready to be sent.
    Batch,
    /// No more batches will come.
    BatchesClosed,
    /// A message arrived on the socket.
    Message { message: &'a [u8], from: A },
    /// Receiving from the socket failed.
    ReceiveFailed,
}

/// What the packet handler does about an event.
#[derive(Debug)]
pub enum PacketAction<A> {
    /// Leave the event alone until the stream is triggered.
    AwaitStart,
    /// Stop handling packets.
    Stop,
    /// Send the batch to this address.
    SendBatch { to: A },
    /// Discard the batch: nobody has said where to send it.
    DropBatch,
    /// Go on: there is nothing to do.
    Continue,
    /// Reset the stream: start its frame numbers over and force a key frame.
    ResetStream,
    /// Discard the message: it is unknown.
    RejectMessage,
}

/// What the packet handler knows of its client.
#[derive(Debug)]
pub struct StreamControl<A> {
    /// Whether the stream was triggered. Until then nothing is handled.
    pub started: bool,
    /// Where the client is listening, once it has said so.
    pub client: Option<A>,
    /// Whether a stream reset is armed, to be fired once the resuming client has
    /// said where it is listening.
    pub resume_pending: bool,
}

/// Something that changes what the packet handler knows or makes it act.
pub enum ControlInput<A> {
    /// A client resumed the session.
    ResetRequested,
    /// The stream was triggered.
    Started,
    /// The session is shutting down.
    Shutdown,
    /// A batch of packets is ready to be sent.
    Batch,
    /// No more batches will come.
    BatchesClosed,
    /// A message arrived on the socket.
    Message { message: Seq<u8>, from: A },
    /// Receiving from the socket failed.
    ReceiveFailed,
}

impl<'a, A> View for PacketEvent<'a, A> {
    type V = ControlInput<A>;

    open spec fn view(&self) -> ControlInput<A> {
        match *self {
            PacketEvent::Started => ControlInput::Started,
            PacketEvent::Shutdown => ControlInput::Shutdown,
            PacketEvent::Batch => ControlInput::Batch,
            PacketEvent::BatchesClosed => ControlInput::BatchesClosed,
            PacketEvent::Message { message, from } => ControlInput::Message {
                message: message@,
                from,
            },
            PacketEvent::ReceiveFailed => ControlInput::ReceiveFailed,
        }
    }
}

impl<A> ControlInput<A> {
    /// Whether the input is a message by which the client tells its address.
    pub open spec fn is_ping(self) -> bool {
        self matches ControlInput::Message { message, .. } && message == ping()
    }
}

impl<A> StreamControl<A> {
    /// What is known after an input: the trigger starts the stream, a ping to a
    /// started stream tells the client's address and uses up an armed reset, a
    /// reset request arms one, nothing else matters.
    pub open spec fn after(self, input: ControlInput<A>) -> Self {
        match input {
            ControlInput::ResetRequested => StreamControl { resume_pending: true, ..self },
            ControlInput::Started => StreamControl { started: true, ..self },
            ControlInput::Message { message, from } => if self.started && message == ping() {
                StreamControl { client: Some(from), resume_pending: false, ..self }
            } else {
                self
            },
            _ => self,
        }
    }

    /// What is done about an input. Until the stream is started, nothing is.
    pub open spec fn action_on(self, input: ControlInput<A>) -> PacketAction<A> {
        match input {
            ControlInput::ResetRequested => PacketAction::Continue,
            ControlInput::Started => PacketAction::Continue,
            _ => if self.started {
                self.action_once_started(input)
            } else {
                PacketAction::AwaitStart
            },
        }
    }

    /// What a started stream does about an input.
    pub open spec fn action_once_started(self, input: ControlInput<A>) -> PacketAction<A> {
        match input {
            ControlInput::ResetRequested => PacketAction::Continue,
            ControlInput::Started => PacketAction::Continue,
            ControlInput::Shutdown => PacketAction::Stop,
            ControlInput::Batch => match self.client {
                Some(to) => PacketAction::SendBatch { to },
                None => PacketAction::DropBatch,
            },
            ControlInput::BatchesClosed => PacketAction::Stop,
            ControlInput::Message { message, .. } => if message != ping() {
                PacketAction::RejectMessage
            } else if self.resume_pending {
                PacketAction::ResetStream
            } else {
                PacketAction::Continue
            },
            ControlInput::ReceiveFailed => PacketAction::Stop,
        }
    }

    /// What is known after a series of inputs.
    pub open spec fn after_all(self, inputs: Seq<ControlInput<A>>) -> Self
        decreases inputs.len(),
    {
        if inputs.len() == 0 {
            self
        } else {
            self.after_all(inputs.drop_last()).after(inputs.last())
        }
    }

    /// How often a series of inputs makes the stream reset.
    pub open spec fn resets(self, inputs: Seq<ControlInput<A>>) -> nat
        decreases inputs.len(),
    {
        if inputs.len() == 0 {
            0
        } else {
            let before = self.after_all(inputs.drop_last());
            self.resets(inputs.drop_last()) + if before.action_on(inputs.last()) is ResetStream {
                1nat
            } else {
                0nat
            }
        }
    }

    /// A stream that waits to be triggered and whose client has not said anything
    /// yet.
    pub fn new() -> (control: Self)
        ensures
            !control.started,
            control.client is None,
            !control.resume_pending,
    {
        StreamControl { started: false, client: None, resume_pending: false }
    }

    /// Whether the stream still waits to be triggered.
    pub fn awaits_start(&self) -> (res: bool)
        ensures
            res == !self.started,
    {
        !self.started
    }

    /// Arms a stream reset for a resuming client.
    ///
    /// The pipeline keeps counting frames for the lifetime of the session, but a
    /// fresh client session expects frame numbers to start over; without a reset
    /// it takes the jump for massive frame loss. The reset is not fired at once:
    /// the address known here is the previous connection's, and the key frame
    /// that a reset forces would be spent on it. It is fired by the first ping
    /// that tells where the client is listening now.
    pub fn request_reset(&mut self)
        ensures
            *final(self) == old(self).after(ControlInput::ResetRequested),
            final(self).resume_pending,
            final(self).client == old(self).client,
            final(self).started == old(self).started,
    {
        self.resume_pending = true;
    }
}

/// Whether a message is a ping.
pub fn is_ping(message: &[u8]) -> (res: bool)
    ensures
        res == (message@ == ping()),
{
    let res: bool = message.len() == 4 && message[0] == 0x50 && message[1] == 0x49 && message[2]
        == 0x4e && message[3] == 0x47;
    assert(res ==> message@ =~= ping());
    res
}

impl<A: Copy> StreamControl<A> {
    /// Takes an event in and decides what to do about it.
    pub fn handle(&mut self, event: PacketEvent<'_, A>) -> (action: PacketAction<A>)
        ensures
            *final(self) == old(self).after(event@),
            action == old(self).action_on(event@),
    {
        if !self.started {
            return match event {
                PacketEvent::Started => {
                    self.started = true;
                    PacketAction::Continue
                },
                _ => PacketAction::AwaitStart,
            };
        }
        match event {
            PacketEvent::Started => PacketAction::Continue,
            PacketEvent::Shutdown => PacketAction::Stop,
            PacketEvent::Batch => match self.client {
                Some(to) => PacketAction::SendBatch { to },
                None => PacketAction::DropBatch,
            },
            PacketEvent::BatchesClosed => PacketAction::Stop,
            PacketEvent::Message { message, from } => {
                if is_ping(message) {
                    self.client = Some(from);
                    let armed: bool = self.resume_pending;
                    self.resume_pending = false;
                    if armed {
                        PacketAction::ResetStream
                    } else {
                        PacketAction::Continue
                    }
                } else {
                    PacketAction::RejectMessage
                }
            },
            PacketEvent::ReceiveFailed => PacketAction::Stop,
        }
    }
}

/// Whether any of a series of inputs is a ping.
pub open spec fn has_ping<A>(inputs: Seq<ControlInput<A>>) -> bool {
    exists|i: int| 0 <= i < inputs.len() && (#[trigger] inputs[i]).is_ping()
}

/// Whether the trigger is among a series of inputs.
pub open spec fn has_start<A>(inputs: Seq<ControlInput<A>>) -> bool {
    exists|i: int| 0 <= i < inputs.len() && (#[trigger] inputs[i]) is Started
}

/// How many of a series of inputs are pings.
pub open spec fn pings<A>(inputs: Seq<ControlInput<A>>) -> nat
    decreases inputs.len(),
{
    if inputs.len() == 0 {
        0
    } else {
        pings(inputs.drop_last()) + if inputs.last().is_ping() {
            1nat
        } else {
            0nat
        }
    }
}

/// How many of a series of inputs are reset requests.
pub open spec fn requests<A>(inputs: Seq<ControlInput<A>>) -> nat
    decreases inputs.len(),
{
    if inputs.len() == 0 {
        0
    } else {
        requests(inputs.drop_last()) + if inputs.last() is ResetRequested {
            1nat
        } else {
            0nat
        }
    }
}

/// Until a stream is triggered, nothing is handled: no event but the trigger is
/// answered or taken in, nobody is sent to, the stream does not reset, and a reset
/// is armed exactly where one was before or was requested since.
pub proof fn nothing_is_handled_before_the_start<A>(
    start: StreamControl<A>,
    inputs: Seq<ControlInput<A>>,
    next: ControlInput<A>,
)
    requires
        !start.started,
        !has_start(inputs),
        !(next is Started),
        !(next is ResetRequested),
    ensures
        ({
            let control = start.after_all(inputs);
            &&& control.action_on(next) is AwaitStart
            &&& control.after(next) == control
            &&& !control.started
            &&& control.client == start.client
            &&& start.resets(inputs) == 0
            &&& control.resume_pending == (start.resume_pending || requests(inputs) > 0)
        }),
    decreases inputs.len(),
{
    if inputs.len() > 0 {
        assert(!(inputs.last() is Started));
        assert forall|i: int| 0 <= i < inputs.drop_last().len() implies !(
        (#[trigger] inputs.drop_last()[i]) is Started) by {
            assert(!(inputs[i] is Started));
        }
        nothing_is_handled_before_the_start(start, inputs.drop_last(), next);
    }
}

/// A stream that was triggered stays so.
pub proof fn start_is_for_good<A>(start: StreamControl<A>, inputs: Seq<ControlInput<A>>)
    ensures
        start.after_all(inputs).started == (start.started || has_start(inputs)),
    decreases inputs.len(),
{
    if inputs.len() > 0 {
        let earlier = inputs.drop_last();
        start_is_for_good(start, earlier);
        if has_start(earlier) {
            let i = choose|i: int| 0 <= i < earlier.len() && (#[trigger] earlier[i]) is Started;
            assert(inputs[i] is Started);
        }
        if has_start(inputs) && !(inputs.last() is Started) {
            let i = choose|i: int| 0 <= i < inputs.len() && (#[trigger] inputs[i]) is Started;
            assert(earlier[i] is Started);
        }
    }
}

/// Packets go where the latest ping to the started stream came from, whatever
/// happened since.
pub proof fn packets_follow_the_latest_ping<A>(
    start: StreamControl<A>,
    before: Seq<ControlInput<A>>,
    message: Seq<u8>,
    from: A,
    since: Seq<ControlInput<A>>,
)
    requires
        start.after_all(before).started,
        message == ping(),
        !has_ping(since),
    ensures
        start.after_all(before.push(ControlInput::Message { message, from }) + since).action_on(
            ControlInput::Batch,
        ) == (PacketAction::SendBatch { to: from }),
    decreases since.len(),
{
    let pinged = before.push(ControlInput::Message { message, from });
    if since.len() == 0 {
        assert(pinged + since =~= pinged);
        assert(pinged.drop_last() =~= before);
    } else {
        assert((pinged + since).drop_last() =~= pinged + since.drop_last());
        assert(!since.last().is_ping());
        assert forall|i: int| 0 <= i < since.drop_last().len() implies !(
        #[trigger] since.drop_last()[i]).is_ping() by {
            assert(!since[i].is_ping());
        }
        packets_follow_the_latest_ping(start, before, message, from, since.drop_last());
    }
}

/// Until a new stream is pinged for the first time, packets are dropped once it is
/// started and left alone before.
pub proof fn packets_wait_for_the_first_ping<A>(
    start: StreamControl<A>,
    inputs: Seq<ControlInput<A>>,
)
    requires
        start.client is None,
        !has_ping(inputs),
    ensures
        ({
            let control = start.after_all(inputs);
            if control.started {
                control.action_on(ControlInput::Batch) is DropBatch
            } else {
                control.action_on(ControlInput::Batch) is AwaitStart
            }
        }),
{
    lemma_without_ping(start, inputs);
}

proof fn lemma_without_ping<A>(start: StreamControl<A>, inputs: Seq<ControlInput<A>>)
    requires
        !has_ping(inputs),
    ensures
        start.after_all(inputs).client == start.client,
        start.resume_pending ==> start.after_all(inputs).resume_pending,
        start.resets(inputs) == 0,
    decreases inputs.len(),
{
    if inputs.len() > 0 {
        assert(!inputs.last().is_ping());
        assert forall|i: int| 0 <= i < inputs.drop_last().len() implies !(
        #[trigger] inputs.drop_last()[i]).is_ping() by {
            assert(!inputs[i].is_ping());
        }
        lemma_without_ping(start, inputs.drop_last());
    }
}

/// A reset that was requested, before or after the start, waits for the next ping
/// to the started stream: until then the stream does
/// not reset, however often it was requested; that ping resets the stream, once,
/// and from then on packets go where it came from.
pub proof fn reset_waits_for_the_next_ping<A>(
    start: StreamControl<A>,
    between: Seq<ControlInput<A>>,
    message: Seq<u8>,
    from: A,
)
    requires
        start.after(ControlInput::ResetRequested).after_all(between).started,
        message == ping(),
        !has_ping(between),
    ensures
        ({
            let requested = start.after(ControlInput::ResetRequested);
            let pinged = ControlInput::Message { message, from };
            let waiting = requested.after_all(between);
            &&& requested.resets(between) == 0
            &&& waiting.action_on(pinged) is ResetStream
            &&& waiting.after(pinged).action_on(ControlInput::Batch) == (PacketAction::SendBatch {
                to: from,
            })
            &&& waiting.after(pinged).action_on(pinged) is Continue
        }),
{
    lemma_without_ping(start.after(ControlInput::ResetRequested), between);
}

/// The stream never resets more often than it was requested to; an armed reset
/// counts as requested.
pub proof fn resets_were_requested<A>(start: StreamControl<A>, inputs: Seq<ControlInput<A>>)
    ensures
        start.resets(inputs) <= requests(inputs) + if start.resume_pending {
            1nat
        } else {
            0nat
        },
{
    lemma_resets_and_armed(start, inputs);
}

/// Without a request, and with none armed, no ping resets the stream.
pub proof fn unrequested_pings_reset_nothing<A>(
    start: StreamControl<A>,
    inputs: Seq<ControlInput<A>>,
    next: ControlInput<A>,
)
    requires
        !start.resume_pending,
        requests(inputs) == 0,
    ensures
        start.resets(inputs) == 0,
        !start.after_all(inputs).resume_pending,
        !(start.after_all(inputs).action_on(next) is ResetStream),
{
    lemma_resets_and_armed(start, inputs);
}

/// The stream never resets more often than it is pinged.
pub proof fn resets_never_outnumber_pings<A>(start: StreamControl<A>, inputs: Seq<ControlInput<A>>)
    ensures
        start.resets(inputs) <= pings(inputs),
    decreases inputs.len(),
{
    if inputs.len() > 0 {
        resets_never_outnumber_pings(start, inputs.drop_last());
    }
}

proof fn lemma_resets_and_armed<A>(start: StreamControl<A>, inputs: Seq<ControlInput<A>>)
    ensures
        start.resets(inputs) + if start.after_all(inputs).resume_pending {
            1nat
        } else {
            0nat
        } <= requests(inputs) + if start.resume_pending {
            1nat
        } else {
            0nat
        },
    decreases inputs.len(),
{
    if inputs.len() > 0 {
        lemma_resets_and_armed(start, inputs.drop_last());
    }
}

/// The bytes of the ping, and of no other message, are the letters of its name.
pub proof fn ping_is_spelled_out(message: Seq<u8>)
    ensures
        message == ping() <==> message.len() == 4 && message[0] == 0x50 && message[1] == 0x49
            && message[2] == 0x4e && message[3] == 0x47,
{
    if message.len() == 4 && message[0] == 0x50 && message[1] == 0x49 && message[2] == 0x4e
        && message[3] == 0x47 {
        assert(message =~= ping());
    }
}

/// An event is taken in for what it is: a message with all its bytes and its sender.
pub proof fn events_are_taken_in_whole<A>(event: PacketEvent<'_, A>)
    ensures
        event is Started <==> event@ is Started,
        event is Shutdown <==> event@ is Shutdown,
        event is Batch <==> event@ is Batch,
        event is BatchesClosed <==> event@ is BatchesClosed,
        event is ReceiveFailed <==> event@ is ReceiveFailed,
        event is Message <==> event@ is Message,
        !(event@ is ResetRequested),
        event is Message ==> event@->Message_message == event->Message_message@
            && event@->Message_from == event->Message_from,
{
}

/// A started stream stops on the end of the session, on the end of its batches and
/// when receiving fails, whatever it knows of its client; nothing else stops a
/// stream.
pub proof fn started_stream_stops<A>(control: StreamControl<A>, input: ControlInput<A>)
    ensures
        control.started && (input is Shutdown || input is BatchesClosed || input is ReceiveFailed)
            <==> control.action_on(input) is Stop,
{
}

/// A batch is the one thing that is sent or dropped: a started stream sends it to the
/// client where it knows one, to nobody else, and drops it where it does not.
pub proof fn batches_go_to_the_known_client<A>(control: StreamControl<A>, input: ControlInput<A>)
    ensures
        control.action_on(input) is SendBatch <==> control.started && input is Batch
            && control.client is Some,
        control.action_on(input) is SendBatch ==> Some(control.action_on(input)->SendBatch_to)
            == control.client,
        control.action_on(input) is DropBatch <==> control.started && input is Batch
            && control.client is None,
{
}

/// A stream resets exactly where it is started, a reset is armed and the client pings;
/// it rejects exactly the messages that are no ping, once it is started; and it goes
/// on, with nothing to do, after the trigger, a reset request and any other ping. An
/// event that comes before the start, other than these two, is left alone.
pub proof fn messages_are_answered<A>(control: StreamControl<A>, input: ControlInput<A>)
    ensures
        ({
            let is_ping = input is Message && input->Message_message == ping();
            let action = control.action_on(input);
            &&& action is ResetStream <==> control.started && is_ping && control.resume_pending
            &&& action is RejectMessage <==> control.started && input is Message && !is_ping
            &&& action is Continue <==> input is Started || input is ResetRequested || (
            control.started && is_ping && !control.resume_pending)
            &&& action is AwaitStart <==> !control.started && !(input is Started)
                && !(input is ResetRequested)
        }),
{
}

/// What a stream knows changes in three ways alone: the trigger starts it, a ping to
/// the started stream tells where the client is and disarms a reset, and a reset
/// request arms one. Each leaves the rest as it was.
pub proof fn knowledge_changes_in_three_ways<A>(control: StreamControl<A>, input: ControlInput<A>)
    ensures
        ({
            let learns = control.started && input is Message && input->Message_message == ping();
            let after = control.after(input);
            &&& after.started == (control.started || input is Started)
            &&& after.client == if learns {
                Some(input->Message_from)
            } else {
                control.client
            }
            &&& after.resume_pending == (input is ResetRequested || (control.resume_pending
                && !learns))
        }),
{
}

/// A message that is not a ping changes nothing; a started stream rejects it.
pub proof fn unknown_messages_are_rejected<A>(
    control: StreamControl<A>,
    message: Seq<u8>,
    from: A,
)
    requires
        message != ping(),
    ensures
        control.after(ControlInput::Message { message, from }) == control,
        control.started ==> control.action_on(
            ControlInput::Message { message, from },
        ) is RejectMessage,
{
}

} // verus!

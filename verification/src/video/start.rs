//! Starting a video stream.
use super::config::{VideoStreamConfig, VideoStreamContext};
use super::pacer::{at_least_one, Pacer, MIN_GAP_NANOS};
use vstd::prelude::*;

verus! {

/// Type-of-service byte of video packets where QoS markings are applied.
pub const VIDEO_TOS: u32 = 160;

/// Requests for a key frame that wait at once.
pub const IDR_BACKLOG: usize = 1;

/// Stream resets that wait at once.
pub const RESET_BACKLOG: usize = 1;

/// Frames' packets that wait to be sent at once.
pub const PACKET_BACKLOG: usize = 128;

/// What has happened while a stream starts.
#[derive(Debug)]
pub enum StartEvent {
    /// The stream is to be started.
    Requested,
    /// The socket's send state is in place; it takes this many segments per send.
    SocketReady { max_gso_segments: usize },
    /// The socket's send state could not be initialized.
    SocketFailed,
    /// The pipeline was created.
    PipelineCreated,
    /// The pipeline could not be created.
    PipelineFailed,
}

/// What to do next to start a stream.
#[derive(Debug)]
pub enum StartAction {
    /// Mark the socket with this type of service, if any, ignoring failure, and
    /// initialize its send state.
    PrepareSocket { tos: Option<u32> },
    /// Spawn the packet handler with this pacer, then create the pipeline.
    Launch { pacer: Pacer },
    /// Hand out the stream's handle.
    Succeed,
    /// Give up.
    Fail,
}

/// What follows an event while the stream of `config` starts for `context`.
pub open spec fn action_after(
    config: VideoStreamConfig,
    context: VideoStreamContext,
    event: StartEvent,
) -> StartAction {
    match event {
        StartEvent::Requested => StartAction::PrepareSocket {
            tos: if context.qos {
                Some(VIDEO_TOS)
            } else {
                None
            },
        },
        StartEvent::SocketReady { max_gso_segments } => StartAction::Launch {
            pacer: Pacer {
                rate: config.pacing_rate_factor.paced_rate(context.bitrate as nat) as u64,
                min_gap_nanos: MIN_GAP_NANOS,
                max_gso_segments: at_least_one(max_gso_segments as nat) as usize,
            },
        },
        StartEvent::PipelineCreated => StartAction::Succeed,
        StartEvent::SocketFailed => StartAction::Fail,
        StartEvent::PipelineFailed => StartAction::Fail,
    }
}

/// Decides what to do next to start the stream of `config` for `context`.
pub fn start_step(
    config: &VideoStreamConfig,
    context: &VideoStreamContext,
    event: StartEvent,
) -> (action: StartAction)
    ensures
        action == action_after(*config, *context, event),
{
    match event {
        StartEvent::Requested => StartAction::PrepareSocket {
            tos: if context.qos {
                Some(VIDEO_TOS)
            } else {
                None
            },
        },
        StartEvent::SocketReady { max_gso_segments } => StartAction::Launch {
            pacer: Pacer::new(config.pacing_rate_factor, context.bitrate, max_gso_segments),
        },
        StartEvent::PipelineCreated => StartAction::Succeed,
        StartEvent::SocketFailed => StartAction::Fail,
        StartEvent::PipelineFailed => StartAction::Fail,
    }
}

/// A stream whose send state came up is launched with the pacer of its own factor,
/// bitrate and segment cap, at least one segment and a gap of a millisecond, whatever
/// else was configured and negotiated. Nothing else launches a stream.
pub proof fn launch_takes_factor_bitrate_and_cap(
    config: VideoStreamConfig,
    context: VideoStreamContext,
    event: StartEvent,
)
    ensures
        action_after(config, context, event) is Launch <==> event is SocketReady,
        event is SocketReady ==> {
            let pacer = action_after(config, context, event)->Launch_pacer;
            let cap = event->SocketReady_max_gso_segments;
            &&& pacer.rate == config.pacing_rate_factor.paced_rate(context.bitrate as nat)
            &&& pacer.min_gap_nanos == 1_000_000
            &&& pacer.max_gso_segments >= 1
            &&& cap >= 1 ==> pacer.max_gso_segments == cap
            &&& cap == 0 ==> pacer.max_gso_segments == 1
        },
{
}

/// Streams of one factor and one bitrate are launched alike, whatever else is
/// configured and negotiated for them.
pub proof fn launch_depends_on_nothing_else(
    config: VideoStreamConfig,
    context: VideoStreamContext,
    other_config: VideoStreamConfig,
    other_context: VideoStreamContext,
    event: StartEvent,
)
    requires
        event is SocketReady,
        config.pacing_rate_factor == other_config.pacing_rate_factor,
        context.bitrate == other_context.bitrate,
    ensures
        action_after(config, context, event) == action_after(other_config, other_context, event),
{
}

/// A start begins with the socket, which is marked with type of service 160 exactly
/// where QoS was negotiated, and ends with the pipeline or the first failure.
pub proof fn socket_is_marked_for_qos(
    config: VideoStreamConfig,
    context: VideoStreamContext,
    event: StartEvent,
)
    ensures
        action_after(config, context, event) is PrepareSocket <==> event is Requested,
        event is Requested ==> {
            let tos = action_after(config, context, event)->PrepareSocket_tos;
            &&& tos is Some <==> context.qos
            &&& tos is Some ==> tos->0 == 160
        },
        action_after(config, context, event) is Succeed <==> event is PipelineCreated,
        action_after(config, context, event) is Fail <==> event is SocketFailed
            || event is PipelineFailed,
{
}

/// One request for a key frame and one stream reset wait at a time, and the packets
/// of at most 128 frames.
pub proof fn backlogs_are_short()
    ensures
        IDR_BACKLOG == 1,
        RESET_BACKLOG == 1,
        PACKET_BACKLOG == 128,
{
}

/// Whether an event can answer an action: preparing the socket is answered by what
/// became of its send state, launching by what became of the pipeline, and nothing
/// follows the end.
pub open spec fn answers(action: StartAction, event: StartEvent) -> bool {
    match action {
        StartAction::PrepareSocket { .. } => event is SocketReady || event is SocketFailed,
        StartAction::Launch { .. } => event is PipelineCreated || event is PipelineFailed,
        StartAction::Succeed => false,
        StartAction::Fail => false,
    }
}

/// Whether the `i`th of a series of events follows from what was before it: a start
/// begins with its request, and each later event answers the action before it.
pub open spec fn follows(
    config: VideoStreamConfig,
    context: VideoStreamContext,
    events: Seq<StartEvent>,
    i: int,
) -> bool {
    if i == 0 {
        events[i] is Requested
    } else {
        answers(action_after(config, context, events[i - 1]), events[i])
    }
}

/// Whether a series of events can be the course of a start.
pub open spec fn is_course(
    config: VideoStreamConfig,
    context: VideoStreamContext,
    events: Seq<StartEvent>,
) -> bool {
    forall|i: int| 0 <= i < events.len() ==> #[trigger] follows(config, context, events, i)
}

/// Whether the socket's send state came up in the course of a start.
pub open spec fn socket_came_up(events: Seq<StartEvent>) -> bool {
    exists|i: int| 0 <= i < events.len() && (#[trigger] events[i]) is SocketReady
}

/// Whether the pipeline came up in the course of a start.
pub open spec fn pipeline_came_up(events: Seq<StartEvent>) -> bool {
    exists|i: int| 0 <= i < events.len() && (#[trigger] events[i]) is PipelineCreated
}

/// Whether something failed in the course of a start.
pub open spec fn something_failed(events: Seq<StartEvent>) -> bool {
    exists|i: int|
        0 <= i < events.len() && ((#[trigger] events[i]) is SocketFailed
            || events[i] is PipelineFailed)
}

/// How often the stream is launched in the course of a start.
pub open spec fn launches(
    config: VideoStreamConfig,
    context: VideoStreamContext,
    events: Seq<StartEvent>,
) -> nat
    decreases events.len(),
{
    if events.len() == 0 {
        0
    } else {
        launches(config, context, events.drop_last()) + if action_after(
            config,
            context,
            events.last(),
        ) is Launch {
            1nat
        } else {
            0nat
        }
    }
}

/// A start takes at most three events. It succeeds exactly where both the socket's
/// send state and the pipeline came up, and fails exactly where one of them did
/// not. The stream is launched once where the send state came up, and never where
/// it did not: nothing is launched after a socket failure.
pub proof fn start_succeeds_with_socket_and_pipeline(
    config: VideoStreamConfig,
    context: VideoStreamContext,
    events: Seq<StartEvent>,
)
    requires
        is_course(config, context, events),
        events.len() > 0,
    ensures
        events.len() <= 3,
        action_after(config, context, events.last()) is Succeed <==> socket_came_up(events)
            && pipeline_came_up(events),
        action_after(config, context, events.last()) is Fail <==> something_failed(events),
        launches(config, context, events) == if socket_came_up(events) {
            1nat
        } else {
            0nat
        },
        forall|i: int, j: int|
            0 <= i < events.len() && 0 <= j < events.len() && (#[trigger] events[i]) is SocketFailed
                ==> !(action_after(config, context, #[trigger] events[j]) is Launch),
{
    reveal_with_fuel(launches, 4);
    assert(follows(config, context, events, 0));
    if events.len() > 1 {
        assert(follows(config, context, events, 1));
    }
    if events.len() > 2 {
        assert(follows(config, context, events, 2));
    }
    if events.len() > 3 {
        assert(follows(config, context, events, 3));
    }
}

} // verus!

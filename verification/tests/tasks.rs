use moonshine_core::video::config::{VideoStreamConfig, VideoStreamContext};
use moonshine_core::video::rate::RateFactor;
use moonshine_core::video::start::{start_step, StartAction, StartEvent};
use moonshine_core::video::transmit::{transmit_step, TransmitAction, TransmitEvent};

#[test]
fn blocked_send_is_retried_once_writable() {
    let blocked: TransmitEvent<u8> = TransmitEvent::WouldBlock;
    assert!(matches!(transmit_step(blocked), TransmitAction::AwaitWritable));
    let writable: TransmitEvent<u8> = TransmitEvent::Writable;
    assert!(matches!(transmit_step(writable), TransmitAction::TrySend));
    let sent: TransmitEvent<u8> = TransmitEvent::Sent;
    assert!(matches!(transmit_step(sent), TransmitAction::Finish(Ok(()))));
}

#[test]
fn failures_end_a_send() {
    assert!(matches!(transmit_step(TransmitEvent::Failed(5u8)), TransmitAction::Finish(Err(5))));
    assert!(matches!(transmit_step(TransmitEvent::WaitFailed(6u8)), TransmitAction::Finish(Err(6))));
}

#[test]
fn qos_marks_the_socket() {
    let config = VideoStreamConfig::default();
    let mut context = VideoStreamContext::default();
    let action = start_step(&config, &context, StartEvent::Requested);
    assert!(matches!(action, StartAction::PrepareSocket { tos: None }));
    context.qos = true;
    let action = start_step(&config, &context, StartEvent::Requested);
    assert!(matches!(action, StartAction::PrepareSocket { tos: Some(160) }));
}

#[test]
fn stream_is_launched_with_its_pacer() {
    let config = VideoStreamConfig {
        pacing_rate_factor: RateFactor { bits: 2.0f32.to_bits() },
        ..VideoStreamConfig::default()
    };
    let context = VideoStreamContext { bitrate: 80_000, ..VideoStreamContext::default() };
    match start_step(&config, &context, StartEvent::SocketReady { max_gso_segments: 64 }) {
        StartAction::Launch { pacer } => {
            assert_eq!(pacer.rate, 20_000);
            assert_eq!(pacer.max_gso_segments, 64);
        }
        other => panic!("{:?}", other),
    }
}

#[test]
fn start_ends_with_the_pipeline() {
    let config = VideoStreamConfig::default();
    let context = VideoStreamContext::default();
    let step = |event| start_step(&config, &context, event);
    assert!(matches!(step(StartEvent::PipelineCreated), StartAction::Succeed));
    assert!(matches!(step(StartEvent::PipelineFailed), StartAction::Fail));
    assert!(matches!(step(StartEvent::SocketFailed), StartAction::Fail));
}

#[test]
fn start_succeeds_with_socket_and_pipeline() {
    let config = VideoStreamConfig::default();
    let context = VideoStreamContext::default();
    for (socket, pipeline) in [(true, true), (true, false), (false, true), (false, false)] {
        let mut launches = 0;
        let mut event = StartEvent::Requested;
        let succeeded = loop {
            event = match start_step(&config, &context, event) {
                StartAction::PrepareSocket { .. } if socket => StartEvent::SocketReady { max_gso_segments: 1 },
                StartAction::PrepareSocket { .. } => StartEvent::SocketFailed,
                StartAction::Launch { .. } => {
                    launches += 1;
                    if pipeline { StartEvent::PipelineCreated } else { StartEvent::PipelineFailed }
                }
                StartAction::Succeed => break true,
                StartAction::Fail => break false,
            };
        };
        assert_eq!(succeeded, socket && pipeline);
        assert_eq!(launches, if socket { 1 } else { 0 });
    }
}

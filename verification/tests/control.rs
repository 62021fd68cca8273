use moonshine_core::video::control::{is_ping, PacketAction, PacketEvent, StreamControl};

fn ping(from: u16) -> PacketEvent<'static, u16> {
    PacketEvent::Message { message: b"PING", from }
}

fn started() -> StreamControl<u16> {
    let mut control: StreamControl<u16> = StreamControl::new();
    assert!(matches!(control.handle(PacketEvent::Started), PacketAction::Continue));
    control
}

#[test]
fn nothing_is_handled_before_the_start() {
    let mut control: StreamControl<u16> = StreamControl::new();
    assert!(control.awaits_start());
    assert!(matches!(control.handle(PacketEvent::Batch), PacketAction::AwaitStart));
    assert!(matches!(control.handle(ping(1)), PacketAction::AwaitStart));
    assert!(matches!(control.handle(PacketEvent::BatchesClosed), PacketAction::AwaitStart));
    assert!(matches!(control.handle(PacketEvent::Shutdown), PacketAction::AwaitStart));
    assert!(matches!(control.handle(PacketEvent::ReceiveFailed), PacketAction::AwaitStart));
    let stray = PacketEvent::Message { message: b"HELLO", from: 3 };
    assert!(matches!(control.handle(stray), PacketAction::AwaitStart));
    assert!(control.awaits_start());

    assert!(matches!(control.handle(PacketEvent::Started), PacketAction::Continue));
    assert!(!control.awaits_start());
    // The ping before the start was not heard.
    assert!(matches!(control.handle(PacketEvent::Batch), PacketAction::DropBatch));
    assert!(matches!(control.handle(ping(2)), PacketAction::Continue));
    assert!(matches!(control.handle(PacketEvent::Started), PacketAction::Continue));
    assert!(matches!(control.handle(PacketEvent::Batch), PacketAction::SendBatch { to: 2 }));
}

#[test]
fn reset_requested_before_the_start_waits_for_a_ping() {
    let mut control: StreamControl<u16> = StreamControl::new();
    control.request_reset();
    assert!(matches!(control.handle(ping(1)), PacketAction::AwaitStart));
    control.handle(PacketEvent::Started);
    assert!(matches!(control.handle(ping(1)), PacketAction::ResetStream));
    assert!(matches!(control.handle(ping(1)), PacketAction::Continue));
}

#[test]
fn only_ping_is_a_ping() {
    assert!(is_ping(b"PING"));
    assert!(!is_ping(b""));
    assert!(!is_ping(b"PIN"));
    assert!(!is_ping(b"PINGS"));
    assert!(!is_ping(b"ping"));
}

#[test]
fn packets_are_dropped_until_the_first_ping() {
    let mut control = started();
    assert!(matches!(control.handle(PacketEvent::Batch), PacketAction::DropBatch));
    control.request_reset();
    assert!(matches!(control.handle(PacketEvent::Batch), PacketAction::DropBatch));
    control.handle(ping(7));
    assert!(matches!(control.handle(PacketEvent::Batch), PacketAction::SendBatch { to: 7 }));
}

#[test]
fn packets_follow_the_latest_ping() {
    let mut control = started();
    assert!(matches!(control.handle(ping(1)), PacketAction::Continue));
    assert!(matches!(control.handle(ping(2)), PacketAction::Continue));
    let stray = PacketEvent::Message { message: b"HELLO", from: 3 };
    assert!(matches!(control.handle(stray), PacketAction::RejectMessage));
    control.request_reset();
    assert!(matches!(control.handle(PacketEvent::Batch), PacketAction::SendBatch { to: 2 }));
}

#[test]
fn reset_waits_for_the_next_ping() {
    let mut control = started();
    control.handle(ping(1));
    control.request_reset();
    control.request_reset();
    assert!(matches!(control.handle(PacketEvent::Batch), PacketAction::SendBatch { to: 1 }));
    let stray = PacketEvent::Message { message: b"PONG", from: 9 };
    assert!(matches!(control.handle(stray), PacketAction::RejectMessage));
    assert!(matches!(control.handle(ping(2)), PacketAction::ResetStream));
    assert!(matches!(control.handle(PacketEvent::Batch), PacketAction::SendBatch { to: 2 }));
    assert!(matches!(control.handle(ping(2)), PacketAction::Continue));
}

#[test]
fn resets_happen_only_on_request() {
    let mut control = started();
    let mut resets = 0;
    for round in 0..10u16 {
        if round % 3 == 0 {
            control.request_reset();
        }
        if let PacketAction::ResetStream = control.handle(ping(round)) {
            resets += 1;
        }
    }
    assert_eq!(resets, 4);
}

#[test]
fn handling_stops() {
    let mut control = started();
    assert!(matches!(control.handle(PacketEvent::Shutdown), PacketAction::Stop));
    assert!(matches!(control.handle(PacketEvent::BatchesClosed), PacketAction::Stop));
    assert!(matches!(control.handle(PacketEvent::ReceiveFailed), PacketAction::Stop));
}

#[test]
fn resets_never_outnumber_pings() {
    let mut control = started();
    let mut resets = 0;
    for round in 0..4u16 {
        for _ in 0..5 {
            control.request_reset();
        }
        if let PacketAction::ResetStream = control.handle(ping(round)) {
            resets += 1;
        }
    }
    assert_eq!(resets, 4);
}

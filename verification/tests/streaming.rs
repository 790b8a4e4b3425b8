use csecmd::stream::{poll_decision, stream, PollDecision, PollEvent, ReadEvent};

fn ev(eof: bool, out: ReadEvent, err: ReadEvent) -> PollEvent {
    PollEvent { eof, out, err }
}

#[test]
fn stream_preserves_order_within_each_stream() {
    // Deterministic interleaved output, with would-block gaps in between.
    let events = vec![
        ev(false, ReadEvent::Data(b"out1".to_vec()), ReadEvent::NoData),
        ev(false, ReadEvent::NoData, ReadEvent::Data(b"err1".to_vec())),
        ev(false, ReadEvent::NoData, ReadEvent::NoData),
        ev(false, ReadEvent::Data(b"out2".to_vec()), ReadEvent::Data(b"err2".to_vec())),
        ev(false, ReadEvent::NoData, ReadEvent::NoData),
        ev(false, ReadEvent::Data(b"out3".to_vec()), ReadEvent::NoData),
        ev(true, ReadEvent::NoData, ReadEvent::NoData),
    ];
    let r = stream(&events);
    // All stdout bytes in exact order, nothing dropped or duplicated
    // across would-block retries; same for stderr.
    assert_eq!(r.stdout, b"out1out2out3".to_vec());
    assert_eq!(r.stderr, b"err1err2".to_vec());
    assert!(r.streamed);
    assert!(r.finished);
    assert!(r.ok);
}

#[test]
fn stream_idle_until_eof_streams_nothing() {
    let events = vec![
        ev(false, ReadEvent::NoData, ReadEvent::NoData),
        ev(false, ReadEvent::NoData, ReadEvent::NoData),
        ev(true, ReadEvent::NoData, ReadEvent::NoData),
    ];
    let r = stream(&events);
    assert_eq!(r.stdout, Vec::<u8>::new());
    assert_eq!(r.stderr, Vec::<u8>::new());
    assert!(!r.streamed);
    assert!(r.finished);
    assert!(r.ok);
}

#[test]
fn stream_stops_at_eof_and_ignores_later_events() {
    let events = vec![
        ev(false, ReadEvent::Data(b"before".to_vec()), ReadEvent::NoData),
        ev(true, ReadEvent::NoData, ReadEvent::NoData),
        ev(false, ReadEvent::Data(b"after".to_vec()), ReadEvent::NoData),
    ];
    let r = stream(&events);
    assert_eq!(r.stdout, b"before".to_vec());
    assert!(r.finished);
}

#[test]
fn stream_stdout_read_failure_is_fatal() {
    let events = vec![
        ev(false, ReadEvent::Data(b"a".to_vec()), ReadEvent::NoData),
        ev(false, ReadEvent::Failed, ReadEvent::Data(b"never".to_vec())),
        ev(false, ReadEvent::Data(b"never".to_vec()), ReadEvent::NoData),
    ];
    let r = stream(&events);
    assert_eq!(r.stdout, b"a".to_vec());
    assert_eq!(r.stderr, Vec::<u8>::new());
    assert!(!r.ok);
    assert!(!r.finished);
}

#[test]
fn stream_stderr_read_failure_keeps_that_iterations_stdout() {
    let events = vec![
        ev(false, ReadEvent::Data(b"kept".to_vec()), ReadEvent::Failed),
    ];
    let r = stream(&events);
    assert_eq!(r.stdout, b"kept".to_vec());
    assert_eq!(r.stderr, Vec::<u8>::new());
    assert!(!r.ok);
}

#[test]
fn poll_decision_cases() {
    assert_eq!(
        poll_decision(&ev(true, ReadEvent::Data(b"x".to_vec()), ReadEvent::NoData)),
        PollDecision::Finish
    );
    assert_eq!(
        poll_decision(&ev(false, ReadEvent::Failed, ReadEvent::NoData)),
        PollDecision::FatalOut
    );
    assert_eq!(
        poll_decision(&ev(false, ReadEvent::NoData, ReadEvent::Failed)),
        PollDecision::FatalErr
    );
    assert_eq!(
        poll_decision(&ev(false, ReadEvent::Data(b"x".to_vec()), ReadEvent::NoData)),
        PollDecision::Forward
    );
    assert_eq!(
        poll_decision(&ev(false, ReadEvent::NoData, ReadEvent::Data(b"y".to_vec()))),
        PollDecision::Forward
    );
    // A would-block iteration asks for a short sleep, not termination.
    assert_eq!(
        poll_decision(&ev(false, ReadEvent::NoData, ReadEvent::NoData)),
        PollDecision::Rest
    );
}

use chattest::{encode, Code, DecodeError, FrameBuffer, PollEvent, Polled, ReadOutcome};

fn s(x: &str) -> String {
    x.to_string()
}

fn stream() -> Vec<u8> {
    let mut bytes = Vec::new();
    bytes.extend(encode(&Code::Name(s("dave"))).unwrap());
    bytes.extend(encode(&Code::MessageTo(s("first"))).unwrap());
    bytes.push(9);
    bytes.extend(encode(&Code::MessageFrom(s("eve"), s("second"))).unwrap());
    bytes.extend(encode(&Code::Welcome(s("room"), s("root"))).unwrap());
    bytes.extend(encode(&Code::MessageTo(s(""))).unwrap());
    bytes.push(2);
    bytes
}

fn expected() -> Vec<PollEvent> {
    vec![
        PollEvent::Message(Code::Name(s("dave"))),
        PollEvent::Message(Code::MessageTo(s("first"))),
        PollEvent::Rejected(DecodeError::UnsupportedCode(9)),
        PollEvent::Message(Code::MessageFrom(s("eve"), s("second"))),
        PollEvent::Message(Code::Welcome(s("room"), s("root"))),
        PollEvent::Message(Code::MessageTo(s(""))),
        PollEvent::Message(Code::AlreadyHere),
    ]
}

#[test]
fn bytewise_and_whole_feeding_agree() {
    let bytes = stream();
    let mut whole = FrameBuffer::new();
    let all = whole.feed(&bytes);
    let mut single = FrameBuffer::new();
    let mut one_by_one = Vec::new();
    for b in &bytes {
        one_by_one.extend(single.feed(&[*b]));
    }
    assert_eq!(all, expected());
    assert_eq!(one_by_one, expected());
}

#[test]
fn chunked_feeding_agrees() {
    let bytes = stream();
    for size in 1..bytes.len() + 1 {
        let mut fb = FrameBuffer::new();
        let mut got = Vec::new();
        for chunk in bytes.chunks(size) {
            got.extend(fb.feed(chunk));
        }
        assert_eq!(got, expected());
    }
}

#[test]
fn wanted_follows_the_frame() {
    let mut fb = FrameBuffer::new();
    assert_eq!(fb.wanted(), 1);
    assert_eq!(fb.push(3), None);
    assert_eq!(fb.wanted(), 4);
    assert!(fb.feed(&[0, 0, 0]).is_empty());
    assert_eq!(fb.wanted(), 1);
    assert_eq!(fb.push(2), None);
    assert_eq!(fb.wanted(), 2);
    assert_eq!(fb.push(b'o'), None);
    assert_eq!(fb.push(b'k'), Some(PollEvent::Message(Code::MessageTo(s("ok")))));
    assert_eq!(fb.wanted(), 1);
}

#[test]
fn already_here_completes_with_its_code_byte() {
    let mut fb = FrameBuffer::new();
    assert_eq!(fb.push(2), Some(PollEvent::Message(Code::AlreadyHere)));
    assert_eq!(fb.wanted(), 1);
}

#[test]
fn unknown_code_is_dropped_and_reading_goes_on() {
    let mut fb = FrameBuffer::new();
    assert_eq!(fb.push(77), Some(PollEvent::Rejected(DecodeError::UnsupportedCode(77))));
    assert_eq!(fb.feed(&encode(&Code::Name(s("x"))).unwrap()), vec![PollEvent::Message(Code::Name(s("x")))]);
}

#[test]
fn framing_error_is_reported_by_the_poller() {
    let mut fb = FrameBuffer::new();
    assert_eq!(fb.feed(&[4, 0, 0, 0, 3]), vec![PollEvent::Rejected(DecodeError::Framing)]);
    assert_eq!(fb.wanted(), 1);
}

#[test]
fn poll_would_block_keeps_state() {
    let mut fb = FrameBuffer::new();
    assert_eq!(fb.poll(ReadOutcome::Bytes(vec![1])), Polled::Nothing);
    assert_eq!(fb.poll(ReadOutcome::WouldBlock), Polled::Nothing);
    assert_eq!(fb.wanted(), 4);
    assert_eq!(fb.poll(ReadOutcome::Failed), Polled::Failed);
    assert_eq!(fb.wanted(), 4);
    assert_eq!(fb.poll(ReadOutcome::Bytes(vec![0, 0, 0, 1])), Polled::Nothing);
    assert_eq!(
        fb.poll(ReadOutcome::Bytes(vec![b'q'])),
        Polled::Decided(PollEvent::Message(Code::Name(s("q"))))
    );
    assert_eq!(fb.poll(ReadOutcome::Disconnected), Polled::Disconnected);
}

#[test]
fn poll_reads_of_wanted_size_give_the_same_messages() {
    let bytes = stream();
    let mut fb = FrameBuffer::new();
    let mut at = 0;
    let mut got = Vec::new();
    while at < bytes.len() {
        let take = fb.wanted().min(bytes.len() - at);
        if let Polled::Decided(e) = fb.poll(ReadOutcome::Bytes(bytes[at..at + take].to_vec())) {
            got.push(e);
        }
        at += take;
    }
    assert_eq!(got, expected());
}

#[test]
fn pair_frame_name_length_is_checked_at_its_ninth_byte() {
    let mut fb = FrameBuffer::new();
    assert_eq!(fb.poll(ReadOutcome::Bytes(vec![4])), Polled::Nothing);
    assert_eq!(fb.wanted(), 4);
    assert_eq!(fb.poll(ReadOutcome::Bytes(vec![0, 0, 0, 20])), Polled::Nothing);
    assert_eq!(fb.wanted(), 4);
    assert_eq!(
        fb.poll(ReadOutcome::Bytes(vec![0, 0, 0, 20])),
        Polled::Decided(PollEvent::Rejected(DecodeError::Framing))
    );
    assert_eq!(fb.wanted(), 1);

    assert!(fb.feed(&[5, 0, 0, 0, 20, 0, 0, 0, 3]).is_empty());
    assert_eq!(fb.wanted(), 16);
}

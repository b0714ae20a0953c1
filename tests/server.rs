use serenity_ipc::buffer::AnonymousBuffer;
use serenity_ipc::clipboard::{
    decode_response, encode_request, magic, Request, Response, REQUEST_GET_CLIPBOARD_DATA,
    REQUEST_SET_CLIPBOARD_DATA, RESPONSE_GET_CLIPBOARD_DATA,
};
use serenity_ipc::codec::Message;
use serenity_ipc::dictionary::Dictionary;
use serenity_ipc::frame::{encode_frame, IpcError, UnixSocketStream};
use serenity_ipc::magic::{compute_magic, hash};
use serenity_ipc::schema::{method_ids, MethodIds};
use serenity_ipc::server::{serve_next, GlobalSharedState, Step};

fn frame_of(words: &[u32], body: &[u8]) -> Vec<u8> {
    let mut payload = Vec::new();
    for w in words {
        payload.extend_from_slice(&w.to_le_bytes());
    }
    payload.extend_from_slice(body);
    encode_frame(&payload).unwrap()
}

fn step_name(s: &Step) -> String {
    match s {
        Step::Reply(_, _) => String::from("reply"),
        Step::Handled => String::from("handled"),
        Step::Wait => String::from("wait"),
        Step::Close(e) => format!("close {:?}", e),
    }
}

#[test]
fn magic_of_clipboard_server_is_pinned() {
    assert_eq!(compute_magic("ClipboardServer"), 0x4f3a_28db);
    assert_eq!(magic(), 0x4f3a_28db);
    assert_eq!(compute_magic("X"), 1252398387);
}

#[test]
fn magic_of_empty_name_is_zero() {
    assert_eq!(compute_magic(""), 0);
    assert_eq!(hash(&[]), 0);
}

#[test]
fn method_ids_follow_declaration_order() {
    let ids = method_ids(&[true, false, true]);
    assert!(ids == vec![
        MethodIds { request: 1, response: Some(2) },
        MethodIds { request: 3, response: None },
        MethodIds { request: 4, response: Some(5) },
    ]);
    assert_eq!(REQUEST_GET_CLIPBOARD_DATA, 1);
    assert_eq!(RESPONSE_GET_CLIPBOARD_DATA, 2);
    assert_eq!(REQUEST_SET_CLIPBOARD_DATA, 3);
}

#[test]
fn pipe_marker_takes_one_id() {
    let ids = method_ids(&[false, true]);
    assert!(ids[0] == MethodIds { request: 1, response: None });
    assert!(ids[1] == MethodIds { request: 2, response: Some(3) });
    assert_eq!(ids.len(), 2);
}

#[test]
fn frame_prefix_is_payload_length() {
    let f = frame_of(&[0x4f3a_28db, 1], &[]);
    assert_eq!(f, vec![8, 0, 0, 0, 0xdb, 0x28, 0x3a, 0x4f, 1, 0, 0, 0]);
    let (bytes, fds) = encode_request(&Request::GetClipboardData(Message {})).unwrap();
    assert_eq!(bytes, f);
    assert!(fds.fds.is_empty());
}

#[test]
fn set_then_get_clipboard() {
    let mut state = GlobalSharedState::new();
    let buffer = AnonymousBuffer::from_fd(40, 64).unwrap();
    let set = Request::SetClipboardData((buffer, String::from("text/plain"), Dictionary::Data(Vec::new())));
    let (bytes, fds) = encode_request(&set).unwrap();
    assert_eq!(fds.fds, vec![40]);
    let mut a = UnixSocketStream::new(3);
    a.push_bytes(&bytes);
    a.push_fds(fds.fds.clone());
    assert_eq!(step_name(&serve_next(&mut a, &mut state)), "handled");
    assert!(a.is_drained());

    let (bytes, _) = encode_request(&Request::GetClipboardData(Message {})).unwrap();
    let mut b = UnixSocketStream::new(4);
    b.push_bytes(&bytes);
    let (reply, reply_fds) = match serve_next(&mut b, &mut state) {
        Step::Reply(r, f) => (r, f),
        other => panic!("expected a reply, got {}", step_name(&other)),
    };
    assert_eq!(reply_fds.fds, vec![40]);

    let mut client = UnixSocketStream::new(5);
    client.push_bytes(&reply);
    client.push_fds(reply_fds.fds.clone());
    let mut payload = client.next_frame().ok().unwrap();
    let Response::GetClipboardData((data, mime_type, metadata)) =
        decode_response(&mut payload, client.fds()).ok().unwrap();
    assert_eq!(data.size(), 64);
    assert_eq!(data.fd(), 40);
    assert_eq!(mime_type, "text/plain");
    match metadata {
        Dictionary::Data(entries) => assert!(entries.is_empty()),
    }
}

#[test]
fn get_before_any_set_returns_empty_buffer() {
    let mut state = GlobalSharedState::new();
    let mut s = UnixSocketStream::new(3);
    s.push_bytes(&frame_of(&[magic(), REQUEST_GET_CLIPBOARD_DATA], &[]));
    match serve_next(&mut s, &mut state) {
        Step::Reply(bytes, fds) => {
            assert!(fds.fds.is_empty());
            let mut expected_body = vec![0u8, 10, 0, 0, 0];
            expected_body.extend_from_slice(b"text/plain");
            expected_body.extend_from_slice(&[0; 8]);
            assert_eq!(bytes, frame_of(&[magic(), RESPONSE_GET_CLIPBOARD_DATA], &expected_body));
        }
        other => panic!("expected a reply, got {}", step_name(&other)),
    }
}

#[test]
fn bad_magic_closes_the_connection() {
    let mut state = GlobalSharedState::new();
    let mut s = UnixSocketStream::new(3);
    s.push_bytes(&frame_of(&[compute_magic("ClipboardServer") ^ 1, REQUEST_GET_CLIPBOARD_DATA], &[]));
    assert_eq!(step_name(&serve_next(&mut s, &mut state)), format!("close {:?}", IpcError::BadMagic));
}

#[test]
fn unknown_method_id_closes_the_connection() {
    let mut state = GlobalSharedState::new();
    let mut s = UnixSocketStream::new(3);
    s.push_bytes(&frame_of(&[magic(), 0xDEAD_BEEF], &[]));
    assert_eq!(
        step_name(&serve_next(&mut s, &mut state)),
        format!("close {:?}", IpcError::UnknownMethodId)
    );
}

#[test]
fn partial_frame_waits_then_completes() {
    let mut state = GlobalSharedState::new();
    let frame = frame_of(&[magic(), REQUEST_GET_CLIPBOARD_DATA], &[]);
    let mut s = UnixSocketStream::new(3);
    s.push_bytes(&frame[..3]);
    assert_eq!(step_name(&serve_next(&mut s, &mut state)), "wait");
    assert!(!s.is_drained());
    s.push_bytes(&frame[3..]);
    assert_eq!(step_name(&serve_next(&mut s, &mut state)), "reply");
    assert!(s.is_drained());
}

#[test]
fn every_truncation_waits() {
    let mut state = GlobalSharedState::new();
    let frame = frame_of(&[magic(), REQUEST_SET_CLIPBOARD_DATA], &[0, 0, 0, 0, 0, 0, 0, 0, 0, 0, 0, 0, 0]);
    for cut in 0..frame.len() {
        let mut s = UnixSocketStream::new(3);
        s.push_bytes(&frame[..cut]);
        assert_eq!(step_name(&serve_next(&mut s, &mut state)), "wait");
    }
}

#[test]
fn missing_descriptor_closes_the_connection() {
    let mut state = GlobalSharedState::new();
    let mut body = vec![1u8, 16, 0, 0, 0];
    body.extend_from_slice(&[0, 0, 0, 0]);
    body.extend_from_slice(&[0; 8]);
    let mut s = UnixSocketStream::new(3);
    s.push_bytes(&frame_of(&[magic(), REQUEST_SET_CLIPBOARD_DATA], &body));
    assert_eq!(
        step_name(&serve_next(&mut s, &mut state)),
        format!("close {:?}", IpcError::DecodeFailure)
    );
}

#[test]
fn short_payload_is_a_decode_failure() {
    let mut state = GlobalSharedState::new();
    let mut s = UnixSocketStream::new(3);
    s.push_bytes(&encode_frame(&vec![1, 2]).unwrap());
    assert_eq!(
        step_name(&serve_next(&mut s, &mut state)),
        format!("close {:?}", IpcError::DecodeFailure)
    );
}

#[test]
fn end_of_stream_in_a_frame_is_an_error() {
    let mut s = UnixSocketStream::new(3);
    assert!(s.end_of_stream().is_ok());
    s.push_bytes(&[1, 0]);
    assert!(s.end_of_stream() == Err(IpcError::StreamEnded));
    assert!(s.next_frame().is_err());
}

#[test]
fn two_frames_are_taken_one_at_a_time() {
    let mut s = UnixSocketStream::with_buffer(3, [1u8, 0, 0, 0, 7, 0, 0, 0, 0].into_iter().collect());
    assert_eq!(s.next_frame().ok().unwrap(), vec![7u8].into_iter().collect::<std::collections::VecDeque<u8>>());
    assert_eq!(s.next_frame().ok().unwrap().len(), 0);
    assert!(s.is_drained());
    assert_eq!(s.fd(), 3);
}

#[test]
fn stream_decodes_values_with_their_descriptors() {
    let mut s = UnixSocketStream::new(3);
    s.push_bytes(&[1, 9, 0, 0, 0]);
    s.push_fds(vec![21]);
    let b: AnonymousBuffer = s.decode_stream().unwrap();
    assert_eq!((b.fd(), b.size()), (21, 9));
    assert!(s.is_drained());
    assert!(s.fds().take().is_none());
}

#[test]
fn last_set_wins() {
    let mut state = GlobalSharedState::new();
    let first = Request::SetClipboardData((
        AnonymousBuffer::from_fd(10, 8).unwrap(),
        String::from("text/plain"),
        Dictionary::Data(Vec::new()),
    ));
    let second = Request::SetClipboardData((
        AnonymousBuffer::from_fd(11, 16).unwrap(),
        String::from("image/png"),
        Dictionary::Data(vec![(String::from("w"), String::from("2"))]),
    ));
    assert!(state.handle(first).is_none());
    assert!(state.handle(second).is_none());
    let Response::GetClipboardData((data, mime_type, metadata)) =
        state.handle(Request::GetClipboardData(Message {})).unwrap();
    assert_eq!((data.fd(), data.size()), (11, 16));
    assert_eq!(mime_type, "image/png");
    match metadata {
        Dictionary::Data(entries) => {
            assert_eq!(entries, vec![(String::from("w"), String::from("2"))])
        }
    }
}

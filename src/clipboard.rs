//! The clipboard endpoint:
//!
//! ```text
//! endpoint ClipboardServer {
//!     get_clipboard_data() => (AnonymousBuffer data, String mime_type, Dictionary metadata)
//!     set_clipboard_data(AnonymousBuffer data, String mime_type, Dictionary metadata) =|
//! }
//! ```
//!
//! Its messages, their frames in both directions, and the state the server keeps.
use crate::buffer::AnonymousBuffer;
use crate::codec::{Decoder, Encoder, FDsToSend, Message};
use crate::dictionary::{DictView, Dictionary};
use crate::frame::{frame_at, frame_bytes, lemma_frame_round_trip, payload_bytes, IpcError};
use crate::le::{le_bytes, le_value, lemma_le_round_trip, lemma_le_value_bound, lemma_pow256_4_8};
use crate::magic::{compute_magic, magic_of};
use crate::schema::method_ids_spec;
use std::collections::VecDeque;
use vstd::prelude::*;

verus! {

pub const REQUEST_GET_CLIPBOARD_DATA: u32 = 1;

pub const RESPONSE_GET_CLIPBOARD_DATA: u32 = 2;

pub const REQUEST_SET_CLIPBOARD_DATA: u32 = 3;

/// The ids above are those that allocation gives the two methods in order:
/// the first has a response, the second has none.
pub proof fn lemma_clipboard_ids()
    ensures
        method_ids_spec(seq![true, false]) == seq![
            (REQUEST_GET_CLIPBOARD_DATA as nat, Some(RESPONSE_GET_CLIPBOARD_DATA as nat)),
            (REQUEST_SET_CLIPBOARD_DATA as nat, None::<nat>),
        ],
{
    reveal_with_fuel(crate::schema::ids_from, 3);
    assert(seq![true, false].drop_first() =~= seq![false]);
    assert(seq![false].drop_first() =~= Seq::<bool>::empty());
    assert(method_ids_spec(seq![true, false]) =~= seq![
        (1nat, Some(2nat)),
        (3nat, None::<nat>),
    ]);
}

pub open spec fn endpoint_name() -> Seq<char> {
    "ClipboardServer"@
}

/// The endpoint's magic.
pub fn magic() -> (r: u32)
    ensures
        r == magic_of(endpoint_name()),
{
    compute_magic("ClipboardServer")
}

/// What the clipboard holds: the data, its MIME type, and free-form metadata.
pub type ClipboardData = (AnonymousBuffer, String, Dictionary);

pub type ClipboardDataView = (AnonymousBuffer, Seq<char>, DictView);

pub enum Request {
    GetClipboardData(Message),
    SetClipboardData(ClipboardData),
}

pub enum Response {
    GetClipboardData(ClipboardData),
}

/// Anything that travels on a clipboard connection.
pub enum ClipboardMessage {
    Request(Request),
    Response(Response),
}

pub ghost enum RequestView {
    GetClipboardData,
    SetClipboardData(ClipboardDataView),
}

impl DeepView for Request {
    type V = RequestView;

    open spec fn deep_view(&self) -> RequestView {
        match self {
            Request::GetClipboardData(_) => RequestView::GetClipboardData,
            Request::SetClipboardData(d) => RequestView::SetClipboardData(d.deep_view()),
        }
    }
}

impl DeepView for Response {
    type V = ClipboardDataView;

    open spec fn deep_view(&self) -> ClipboardDataView {
        match self {
            Response::GetClipboardData(d) => d.deep_view(),
        }
    }
}

pub open spec fn request_id(r: RequestView) -> u32 {
    match r {
        RequestView::GetClipboardData => REQUEST_GET_CLIPBOARD_DATA,
        RequestView::SetClipboardData(_) => REQUEST_SET_CLIPBOARD_DATA,
    }
}

/// The fields of a request, as bytes.
pub open spec fn request_body(r: RequestView) -> Seq<u8> {
    match r {
        RequestView::GetClipboardData => seq![],
        RequestView::SetClipboardData(d) => ClipboardData::wire_bytes(d),
    }
}

/// The descriptors that go with a request.
pub open spec fn request_fds(r: RequestView) -> Seq<i32> {
    match r {
        RequestView::GetClipboardData => seq![],
        RequestView::SetClipboardData(d) => ClipboardData::wire_fds(d),
    }
}

pub open spec fn request_payload(r: RequestView) -> Seq<u8> {
    payload_bytes(magic_of(endpoint_name()), request_id(r), request_body(r))
}

/// A request has a frame when its fields have a wire form and its payload's
/// length fits a `u32`.
pub open spec fn request_encodable(r: RequestView) -> bool {
    match r {
        RequestView::GetClipboardData => true,
        RequestView::SetClipboardData(d) => ClipboardData::encodable(d) && 8
            + ClipboardData::wire_bytes(d).len() <= u32::MAX,
    }
}

pub open spec fn response_payload(d: ClipboardDataView) -> Seq<u8> {
    payload_bytes(magic_of(endpoint_name()), RESPONSE_GET_CLIPBOARD_DATA, ClipboardData::wire_bytes(d))
}

pub open spec fn response_encodable(d: ClipboardDataView) -> bool {
    ClipboardData::encodable(d) && 8 + ClipboardData::wire_bytes(d).len() <= u32::MAX
}

/// What the server makes of a frame's payload and the descriptors that wait:
/// the request and how many descriptors it takes, or why the connection ends.
pub open spec fn parse_request(p: Seq<u8>, fds: Seq<i32>) -> Result<(RequestView, nat), IpcError> {
    if p.len() < 4 {
        Err(IpcError::DecodeFailure)
    } else if le_value(p.take(4)) != magic_of(endpoint_name()) as nat {
        Err(IpcError::BadMagic)
    } else if p.len() < 8 {
        Err(IpcError::DecodeFailure)
    } else {
        let id = le_value(p.subrange(4, 8));
        if id == REQUEST_GET_CLIPBOARD_DATA as nat {
            Ok((RequestView::GetClipboardData, 0))
        } else if id == REQUEST_SET_CLIPBOARD_DATA as nat {
            match ClipboardData::parse(p.skip(8), fds) {
                None => Err(IpcError::DecodeFailure),
                Some((d, _, k)) => Ok((RequestView::SetClipboardData(d), k)),
            }
        } else {
            Err(IpcError::UnknownMethodId)
        }
    }
}

/// What a client makes of a response frame's payload and the descriptors that wait.
pub open spec fn parse_response(p: Seq<u8>, fds: Seq<i32>) -> Result<(ClipboardDataView, nat), IpcError> {
    if p.len() < 4 {
        Err(IpcError::DecodeFailure)
    } else if le_value(p.take(4)) != magic_of(endpoint_name()) as nat {
        Err(IpcError::BadMagic)
    } else if p.len() < 8 {
        Err(IpcError::DecodeFailure)
    } else if le_value(p.subrange(4, 8)) != RESPONSE_GET_CLIPBOARD_DATA as nat {
        Err(IpcError::UnknownMethodId)
    } else {
        match ClipboardData::parse(p.skip(8), fds) {
            None => Err(IpcError::DecodeFailure),
            Some((d, _, k)) => Ok((d, k)),
        }
    }
}

/// Reads the magic and the method id at the front of `payload`, checking the magic.
fn decode_header(payload: &mut VecDeque<u8>) -> (r: Result<u32, IpcError>)
    ensures
        old(payload)@.len() < 4 ==> r == Err::<u32, IpcError>(IpcError::DecodeFailure),
        old(payload)@.len() >= 4 && le_value(old(payload)@.take(4)) != magic_of(endpoint_name()) as nat
            ==> r == Err::<u32, IpcError>(IpcError::BadMagic),
        old(payload)@.len() >= 4 && le_value(old(payload)@.take(4)) == magic_of(endpoint_name()) as nat
            && old(payload)@.len() < 8 ==> r == Err::<u32, IpcError>(IpcError::DecodeFailure),
        old(payload)@.len() >= 8 && le_value(old(payload)@.take(4)) == magic_of(endpoint_name()) as nat
            ==> r == Ok::<u32, IpcError>(le_value(old(payload)@.subrange(4, 8)) as u32) && final(payload)@ == old(payload)@.skip(8),
{
    let mut none = FDsToSend { fds: Vec::new() };
    let m = match u32::decode(payload, &mut none) {
        Some(m) => m,
        None => {
            return Err(IpcError::DecodeFailure);
        },
    };
    proof {
        lemma_le_value_bound(old(payload)@.take(4));
        lemma_pow256_4_8();
    }
    if m != magic() {
        return Err(IpcError::BadMagic);
    }
    let ghost mid = payload@;
    let id = match u32::decode(payload, &mut none) {
        Some(id) => id,
        None => {
            return Err(IpcError::DecodeFailure);
        },
    };
    proof {
        assert(mid.take(4) =~= old(payload)@.subrange(4, 8));
        assert(mid.skip(4) =~= old(payload)@.skip(8));
    }
    Ok(id)
}

/// The request at the front of a frame's payload; its descriptors are taken
/// from `fds`.
pub fn decode_request(payload: &mut VecDeque<u8>, fds: &mut FDsToSend) -> (r: Result<Request, IpcError>)
    ensures
        match parse_request(old(payload)@, old(fds).fds@) {
            Ok((v, k)) => r matches Ok(req) && req.deep_view() == v && final(fds).fds@ == old(fds).fds@.skip(k as int),
            Err(e) => r == Err::<Request, IpcError>(e),
        },
{
    let id = match decode_header(payload) {
        Ok(id) => id,
        Err(e) => {
            return Err(e);
        },
    };
    proof {
        lemma_le_value_bound(old(payload)@.subrange(4, 8));
        lemma_pow256_4_8();
    }
    if id == REQUEST_GET_CLIPBOARD_DATA {
        proof {
            assert(old(fds).fds@.skip(0) =~= old(fds).fds@);
        }
        Ok(Request::GetClipboardData(Message {}))
    } else if id == REQUEST_SET_CLIPBOARD_DATA {
        match ClipboardData::decode(payload, fds) {
            Some(d) => Ok(Request::SetClipboardData(d)),
            None => Err(IpcError::DecodeFailure),
        }
    } else {
        Err(IpcError::UnknownMethodId)
    }
}

/// The response at the front of a frame's payload; its descriptors are taken
/// from `fds`.
pub fn decode_response(payload: &mut VecDeque<u8>, fds: &mut FDsToSend) -> (r: Result<Response, IpcError>)
    ensures
        match parse_response(old(payload)@, old(fds).fds@) {
            Ok((v, k)) => r matches Ok(resp) && resp.deep_view() == v && final(fds).fds@ == old(fds).fds@.skip(k as int),
            Err(e) => r == Err::<Response, IpcError>(e),
        },
{
    let id = match decode_header(payload) {
        Ok(id) => id,
        Err(e) => {
            return Err(e);
        },
    };
    proof {
        lemma_le_value_bound(old(payload)@.subrange(4, 8));
        lemma_pow256_4_8();
    }
    if id != RESPONSE_GET_CLIPBOARD_DATA {
        return Err(IpcError::UnknownMethodId);
    }
    match ClipboardData::decode(payload, fds) {
        Some(d) => Ok(Response::GetClipboardData(d)),
        None => Err(IpcError::DecodeFailure),
    }
}

/// The frame of a message with the given method id and field bytes.
fn frame_message(method_id: u32, body: Vec<u8>) -> (r: Option<Vec<u8>>)
    ensures
        r is Some <==> 8 + body@.len() <= u32::MAX,
        r matches Some(f) ==> f@ == frame_bytes(payload_bytes(magic_of(endpoint_name()), method_id, body@)),
{
    let mut payload: Vec<u8> = Vec::new();
    crate::le::push_le(&mut payload, magic() as u64, 4);
    crate::le::push_le(&mut payload, method_id as u64, 4);
    let ghost b = body@;
    let mut body = body;
    payload.append(&mut body);
    proof {
        crate::le::lemma_le_bytes_len(magic_of(endpoint_name()) as nat, 4);
        crate::le::lemma_le_bytes_len(method_id as nat, 4);
        assert(payload@ =~= payload_bytes(magic_of(endpoint_name()), method_id, b));
    }
    crate::frame::encode_frame(&payload)
}

/// The frame of `request` and the descriptors that go with it; `None` when it
/// has no frame.
pub fn encode_request(request: &Request) -> (r: Option<(Vec<u8>, FDsToSend)>)
    ensures
        r is Some <==> request_encodable(request.deep_view()),
        r matches Some((b, f)) ==> b@ == frame_bytes(request_payload(request.deep_view())) && f.fds@
            == request_fds(request.deep_view()),
{
    match request {
        Request::GetClipboardData(_) => {
            let framed = frame_message(REQUEST_GET_CLIPBOARD_DATA, Vec::new());
            match framed {
                Some(b) => Some((b, FDsToSend { fds: Vec::new() })),
                None => None,
            }
        },
        Request::SetClipboardData(d) => {
            let (body, fds) = match ClipboardData::encode(d) {
                Some(x) => x,
                None => {
                    return None;
                },
            };
            match frame_message(REQUEST_SET_CLIPBOARD_DATA, body) {
                Some(b) => Some((b, fds)),
                None => None,
            }
        },
    }
}

/// The frame of `response` and the descriptors that go with it, in the order
/// of its fields; `None` when it has no frame.
pub fn encode_response(response: &Response) -> (r: Option<(Vec<u8>, FDsToSend)>)
    ensures
        r is Some <==> response_encodable(response.deep_view()),
        r matches Some((b, f)) ==> b@ == frame_bytes(response_payload(response.deep_view()))
            && f.fds@ == ClipboardData::wire_fds(response.deep_view()),
{
    match response {
        Response::GetClipboardData(d) => {
            let (body, fds) = match ClipboardData::encode(d) {
                Some(x) => x,
                None => {
                    return None;
                },
            };
            match frame_message(RESPONSE_GET_CLIPBOARD_DATA, body) {
                Some(b) => Some((b, fds)),
                None => None,
            }
        },
    }
}

proof fn lemma_header(m: u32, id: u32, body: Seq<u8>)
    ensures
        payload_bytes(m, id, body).len() == 8 + body.len(),
        le_value(payload_bytes(m, id, body).take(4)) == m as nat,
        le_value(payload_bytes(m, id, body).subrange(4, 8)) == id as nat,
        payload_bytes(m, id, body).skip(8) == body,
{
    lemma_pow256_4_8();
    lemma_le_round_trip(m as nat, 4);
    lemma_le_round_trip(id as nat, 4);
    let p = payload_bytes(m, id, body);
    assert(p.take(4) =~= le_bytes(m as nat, 4));
    assert(p.subrange(4, 8) =~= le_bytes(id as nat, 4));
    assert(p.skip(8) =~= body);
}

/// A request's frame, read back by the server with whatever follows it,
/// gives the same request and takes exactly its descriptors.
pub proof fn lemma_request_round_trip(req: RequestView, rest: Seq<u8>, fd_rest: Seq<i32>)
    requires
        request_encodable(req),
    ensures
        frame_at(frame_bytes(request_payload(req)) + rest) == Some(
            (request_payload(req), 4 + request_payload(req).len()),
        ),
        parse_request(request_payload(req), request_fds(req) + fd_rest) == Ok::<_, IpcError>(
            (req, request_fds(req).len()),
        ),
{
    lemma_header(magic_of(endpoint_name()), request_id(req), request_body(req));
    lemma_frame_round_trip(request_payload(req), rest);
    if let RequestView::SetClipboardData(d) = req {
        ClipboardData::lemma_round_trip(d, seq![], fd_rest);
        assert(ClipboardData::wire_bytes(d) + seq![] =~= ClipboardData::wire_bytes(d));
    }
}

/// A response's frame, read back by the client with whatever follows it,
/// gives the same data and takes exactly its descriptors.
pub proof fn lemma_response_round_trip(d: ClipboardDataView, rest: Seq<u8>, fd_rest: Seq<i32>)
    requires
        response_encodable(d),
    ensures
        frame_at(frame_bytes(response_payload(d)) + rest) == Some(
            (response_payload(d), 4 + response_payload(d).len()),
        ),
        parse_response(response_payload(d), ClipboardData::wire_fds(d) + fd_rest) == Ok::<_, IpcError>(
            (d, ClipboardData::wire_fds(d).len()),
        ),
{
    lemma_header(magic_of(endpoint_name()), RESPONSE_GET_CLIPBOARD_DATA, ClipboardData::wire_bytes(d));
    lemma_frame_round_trip(response_payload(d), rest);
    ClipboardData::lemma_round_trip(d, seq![], fd_rest);
    assert(ClipboardData::wire_bytes(d) + seq![] =~= ClipboardData::wire_bytes(d));
}

} // verus!

//! The clipboard server: the state that all connections share, and the step
//! that serves the next request waiting on one connection.
use crate::buffer::AnonymousBuffer;
use crate::clipboard::{
    decode_request, encode_response, parse_request, response_encodable, response_payload,
    ClipboardData, ClipboardDataView, Request, RequestView, Response,
};
use crate::codec::{Encoder, FDsToSend};
use crate::dictionary::Dictionary;
use crate::frame::{frame_at, frame_bytes, IpcError, StreamView, UnixSocketStream};
use vstd::prelude::*;

verus! {

/// The latest clipboard contents, shared by every connection.
pub struct GlobalSharedState {
    data: AnonymousBuffer,
    mime_type: String,
    metadata: Dictionary,
}

impl View for GlobalSharedState {
    type V = ClipboardDataView;

    closed spec fn view(&self) -> ClipboardDataView {
        (self.data, self.mime_type@, self.metadata.deep_view())
    }
}

/// What serving the next request on a connection came to.
pub enum Step {
    /// Write this frame, then send these descriptors, in order.
    Reply(Vec<u8>, FDsToSend),
    /// The request needed no response.
    Handled,
    /// No whole frame yet: read more.
    Wait,
    /// The connection must close.
    Close(IpcError),
}

/// What serving `request` does to the contents `s`: the new contents, and
/// the response's data if there is a response.
pub open spec fn handle_spec(s: ClipboardDataView, request: RequestView) -> (
    ClipboardDataView,
    Option<ClipboardDataView>,
) {
    match request {
        RequestView::GetClipboardData => (s, Some(s)),
        RequestView::SetClipboardData(d) => (d, None),
    }
}

/// Requests served one at a time: a get answers with exactly what the last
/// set stored, whatever came before it, and leaves it in place.
pub proof fn lemma_last_writer_wins(s: ClipboardDataView, a: ClipboardDataView, b: ClipboardDataView)
    ensures
        ({
            let after_a = handle_spec(s, RequestView::SetClipboardData(a)).0;
            let after_b = handle_spec(after_a, RequestView::SetClipboardData(b)).0;
            handle_spec(after_b, RequestView::GetClipboardData) == (b, Some(b))
        }),
{
}

impl GlobalSharedState {
    /// An empty buffer of type `text/plain`, without metadata.
    pub fn new() -> (r: GlobalSharedState)
        ensures
            r@.0.spec_fd() == -1,
            r@.1 == "text/plain"@,
            r@.2 == Seq::<(Seq<char>, Seq<char>)>::empty(),
    {
        let r = GlobalSharedState {
            data: AnonymousBuffer::new(),
            mime_type: String::from_str("text/plain"),
            metadata: Dictionary::Data(Vec::new()),
        };
        assert(r.metadata.deep_view() =~= Seq::<(Seq<char>, Seq<char>)>::empty());
        r
    }

    /// Answers `request`: a get returns the contents and changes nothing; a
    /// set replaces the contents and returns nothing.
    pub fn handle(&mut self, request: Request) -> (r: Option<Response>)
        ensures
            final(self)@ == handle_spec(old(self)@, request.deep_view()).0,
            match handle_spec(old(self)@, request.deep_view()).1 {
                Some(d) => r matches Some(resp) && resp.deep_view() == d,
                None => r is None,
            },
    {
        match request {
            Request::GetClipboardData(_) => {
                let data: ClipboardData = (
                    self.data,
                    self.mime_type.clone(),
                    self.metadata.duplicate(),
                );
                Some(Response::GetClipboardData(data))
            },
            Request::SetClipboardData((data, mime_type, metadata)) => {
                self.data = data;
                self.mime_type = mime_type;
                self.metadata = metadata;
                None
            },
        }
    }
}

/// Serves the next request waiting on `stream`: `Wait` while its frame is not
/// whole (nothing is taken); otherwise the frame and the request's
/// descriptors are taken, and a bad magic, an unknown method or an unreadable
/// field closes the connection. A get is answered with the frame of the
/// contents and their descriptors; a set replaces the contents.
pub fn serve_next(stream: &mut UnixSocketStream, state: &mut GlobalSharedState) -> (r: Step)
    ensures
        match frame_at(old(stream)@.bytes) {
            None => r is Wait && final(stream)@ == old(stream)@ && final(state)@ == old(state)@,
            Some((payload, n)) => match parse_request(payload, old(stream)@.fds) {
                Err(e) => r == Step::Close(e) && final(state)@ == old(state)@,
                Ok((req, k)) => {
                    &&& final(stream)@ == (StreamView {
                        bytes: old(stream)@.bytes.skip(n as int),
                        fds: old(stream)@.fds.skip(k as int),
                        ..old(stream)@
                    })
                    &&& match req {
                        RequestView::GetClipboardData => {
                            &&& final(state)@ == old(state)@
                            &&& response_encodable(old(state)@) ==> (r matches Step::Reply(b, f)
                                && b@ == frame_bytes(response_payload(old(state)@)) && f.fds@
                                == ClipboardData::wire_fds(old(state)@))
                            &&& !response_encodable(old(state)@) ==> r == Step::Close(
                                IpcError::IoError,
                            )
                        },
                        RequestView::SetClipboardData(d) => r is Handled && final(state)@ == d,
                    }
                },
            },
        },
{
    let mut payload = match stream.next_frame() {
        Ok(p) => p,
        Err(_) => {
            return Step::Wait;
        },
    };
    let request = match decode_request(&mut payload, stream.fds()) {
        Ok(req) => req,
        Err(e) => {
            return Step::Close(e);
        },
    };
    match state.handle(request) {
        Some(response) => match encode_response(&response) {
            Some((bytes, fds)) => Step::Reply(bytes, fds),
            None => Step::Close(IpcError::IoError),
        },
        None => Step::Handled,
    }
}

} // verus!

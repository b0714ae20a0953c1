//! Frames on the stream: a `u32` length, then that many bytes of payload
//! (magic, method id, fields). The stream keeps what has arrived and hands out
//! whole frames only.
use crate::codec::{Decoder, FDsToSend};
use crate::le::{le_bytes, le_value, lemma_le_round_trip, lemma_le_value_bound, lemma_pow256_4_8, push_le};
use std::collections::VecDeque;
use vstd::prelude::*;

verus! {

/// Why a connection cannot go on (or, for `IncompleteFrame`, must wait).
#[derive(Clone, Copy, PartialEq, Eq, Debug, Structural)]
pub enum IpcError {
    /// More bytes are needed before the next frame is whole.
    IncompleteFrame,
    /// The frame's magic is not the endpoint's.
    BadMagic,
    /// The method id is not one of the endpoint's.
    UnknownMethodId,
    /// A field could not be read: short input, bad UTF-8, missing descriptor,
    /// a buffer that cannot be mapped.
    DecodeFailure,
    /// The peer closed the stream in the middle of a frame.
    StreamEnded,
    /// A read, write or descriptor transfer failed.
    IoError,
}

/// The first frame at the front of `b`: its payload and the number of bytes
/// it takes (prefix included); `None` while it is not whole.
pub open spec fn frame_at(b: Seq<u8>) -> Option<(Seq<u8>, nat)> {
    if b.len() < 4 {
        None
    } else {
        let len = le_value(b.take(4));
        if b.len() < 4 + len {
            None
        } else {
            Some((b.subrange(4, 4 + len as int), 4 + len))
        }
    }
}

/// A frame: the payload's length as a `u32`, then the payload.
pub open spec fn frame_bytes(payload: Seq<u8>) -> Seq<u8> {
    le_bytes(payload.len(), 4) + payload
}

/// A payload: magic, method id, then the fields.
pub open spec fn payload_bytes(magic: u32, method_id: u32, body: Seq<u8>) -> Seq<u8> {
    le_bytes(magic as nat, 4) + le_bytes(method_id as nat, 4) + body
}

/// A frame read back gives its payload, whatever follows it; its length
/// prefix is the payload's length.
pub proof fn lemma_frame_round_trip(payload: Seq<u8>, rest: Seq<u8>)
    requires
        payload.len() <= u32::MAX,
    ensures
        le_value(frame_bytes(payload).take(4)) == payload.len(),
        frame_at(frame_bytes(payload) + rest) == Some((payload, 4 + payload.len())),
{
    lemma_pow256_4_8();
    lemma_le_round_trip(payload.len(), 4);
    let f = frame_bytes(payload);
    assert(f.take(4) =~= le_bytes(payload.len(), 4));
    assert((f + rest).take(4) =~= le_bytes(payload.len(), 4));
    assert((f + rest).subrange(4, 4 + payload.len() as int) =~= payload);
}

/// A frame cut short anywhere is not yet a frame: the reader waits for more.
pub proof fn lemma_truncated_frame_incomplete(payload: Seq<u8>, cut: nat)
    requires
        payload.len() <= u32::MAX,
        cut < frame_bytes(payload).len(),
    ensures
        frame_at(frame_bytes(payload).take(cut as int)) is None,
{
    lemma_pow256_4_8();
    lemma_le_round_trip(payload.len(), 4);
    let f = frame_bytes(payload);
    if cut >= 4 {
        assert(f.take(cut as int).take(4) =~= le_bytes(payload.len(), 4));
    }
}

/// The frame of `payload`; `None` when its length does not fit a `u32`.
pub fn encode_frame(payload: &Vec<u8>) -> (r: Option<Vec<u8>>)
    ensures
        r is Some <==> payload@.len() <= u32::MAX,
        r matches Some(f) ==> f@ == frame_bytes(payload@),
{
    if payload.len() > u32::MAX as usize {
        return None;
    }
    let mut out: Vec<u8> = Vec::new();
    push_le(&mut out, payload.len() as u64, 4);
    let mut i: usize = 0;
    while i < payload.len()
        invariant
            i <= payload@.len(),
            out@ == le_bytes(payload@.len(), 4) + payload@.take(i as int),
        decreases payload@.len() - i,
    {
        out.push(payload[i]);
        i = i + 1;
        assert(out@ =~= le_bytes(payload@.len(), 4) + payload@.take(i as int));
    }
    assert(payload@.take(i as int) =~= payload@);
    Some(out)
}

/// What a stream holds: its socket, the bytes not yet taken, the descriptors
/// not yet taken.
pub ghost struct StreamView {
    pub fd: i32,
    pub bytes: Seq<u8>,
    pub fds: Seq<i32>,
}

/// One end of a connection: the socket's descriptor, the bytes that have
/// arrived and not yet been taken, and the descriptors that arrived beside
/// them, oldest first.
pub struct UnixSocketStream {
    fd: i32,
    data: VecDeque<u8>,
    received_fds: FDsToSend,
}

impl View for UnixSocketStream {
    type V = StreamView;

    closed spec fn view(&self) -> StreamView {
        StreamView { fd: self.fd, bytes: self.data@, fds: self.received_fds.fds@ }
    }
}

impl UnixSocketStream {
    /// A stream on the socket `fd` with nothing received yet.
    pub fn new(fd: i32) -> (r: UnixSocketStream)
        ensures
            r@ == (StreamView { fd, bytes: seq![], fds: seq![] }),
    {
        UnixSocketStream {
            fd,
            data: VecDeque::new(),
            received_fds: FDsToSend { fds: Vec::new() },
        }
    }

    /// A stream on the socket `fd` whose pending bytes are `buffer`.
    pub fn with_buffer(fd: i32, buffer: VecDeque<u8>) -> (r: UnixSocketStream)
        ensures
            r@ == (StreamView { fd, bytes: buffer@, fds: seq![] }),
    {
        UnixSocketStream { fd, data: buffer, received_fds: FDsToSend { fds: Vec::new() } }
    }

    pub fn fd(&self) -> (r: i32)
        ensures
            r == self@.fd,
    {
        self.fd
    }

    /// The descriptors that wait to be taken.
    pub fn fds(&mut self) -> (r: &mut FDsToSend)
        ensures
            r.fds@ == old(self)@.fds,
            final(self)@ == (StreamView { fds: final(r).fds@, ..old(self)@ }),
    {
        &mut self.received_fds
    }

    /// Whether no bytes wait to be taken.
    pub fn is_drained(&self) -> (r: bool)
        ensures
            r == (self@.bytes.len() == 0),
    {
        self.data.len() == 0
    }

    /// Adds bytes read from the socket behind those already waiting.
    pub fn push_bytes(&mut self, bytes: &[u8])
        ensures
            final(self)@ == (StreamView { bytes: old(self)@.bytes + bytes@, ..old(self)@ }),
    {
        let mut i: usize = 0;
        while i < bytes.len()
            invariant
                i <= bytes@.len(),
                self.fd == old(self).fd,
                self.received_fds.fds@ == old(self).received_fds.fds@,
                self.data@ == old(self).data@ + bytes@.take(i as int),
            decreases bytes@.len() - i,
        {
            self.data.push_back(bytes[i]);
            i = i + 1;
            assert(self.data@ =~= old(self).data@ + bytes@.take(i as int));
        }
        assert(bytes@.take(i as int) =~= bytes@);
    }

    /// Adds descriptors received on the socket behind those already waiting.
    pub fn push_fds(&mut self, fds: Vec<i32>)
        ensures
            final(self)@ == (StreamView { fds: old(self)@.fds + fds@, ..old(self)@ }),
    {
        self.received_fds.receive_fds(fds);
    }

    /// Takes the next whole frame and returns its payload; `IncompleteFrame`,
    /// with nothing taken, while the frame is not whole.
    pub fn next_frame(&mut self) -> (r: Result<VecDeque<u8>, IpcError>)
        ensures
            match frame_at(old(self)@.bytes) {
                None => {
                    &&& r == Err::<VecDeque<u8>, IpcError>(IpcError::IncompleteFrame)
                    &&& final(self)@ == old(self)@
                },
                Some((payload, n)) => {
                    &&& r matches Ok(p) && p@ == payload
                    &&& final(self)@ == (StreamView {
                        bytes: old(self)@.bytes.skip(n as int),
                        ..old(self)@
                    })
                },
            },
    {
        let ghost b = self.data@;
        if self.data.len() < 4 {
            return Err(IpcError::IncompleteFrame);
        }
        let mut len: u64 = 0;
        let mut j: usize = 4;
        proof {
            assert(b.subrange(4, 4) =~= Seq::<u8>::empty());
            lemma_pow256_4_8();
        }
        while j > 0
            invariant
                j <= 4,
                b == self.data@,
                b.len() >= 4,
                len as nat == le_value(b.subrange(j as int, 4)),
                crate::le::pow256(8) == 0x1_0000_0000_0000_0000,
            decreases j,
        {
            let ghost tail = b.subrange(j as int, 4);
            let ghost ext = b.subrange(j - 1, 4);
            assert(ext.drop_first() =~= tail);
            proof {
                lemma_le_value_bound(ext);
                crate::le::lemma_pow256_mono(ext.len(), 8);
            }
            len = self.data[j - 1] as u64 + 256 * len;
            j = j - 1;
        }
        proof {
            assert(b.subrange(0, 4) =~= b.take(4));
            lemma_le_value_bound(b.take(4));
        }
        if ((self.data.len() - 4) as u64) < len {
            return Err(IpcError::IncompleteFrame);
        }
        let mut k: usize = 0;
        while k < 4
            invariant
                k <= 4,
                b.len() >= 4,
                self.fd == old(self).fd,
                self.received_fds.fds@ == old(self).received_fds.fds@,
                self.data@ == b.skip(k as int),
            decreases 4 - k,
        {
            self.data.pop_front();
            k = k + 1;
            assert(self.data@ =~= b.skip(k as int));
        }
        let mut payload: VecDeque<u8> = VecDeque::new();
        let mut m: u64 = 0;
        while m < len
            invariant
                m <= len,
                4 + len <= b.len(),
                self.fd == old(self).fd,
                self.received_fds.fds@ == old(self).received_fds.fds@,
                self.data@ == b.skip(4 + m as int),
                payload@ == b.subrange(4, 4 + m as int),
            decreases len - m,
        {
            let x = self.data.pop_front().unwrap();
            payload.push_back(x);
            m = m + 1;
            assert(self.data@ =~= b.skip(4 + m as int));
            assert(payload@ =~= b.subrange(4, 4 + m as int));
        }
        Ok(payload)
    }

    /// Reads one value from the bytes and descriptors waiting here.
    pub fn decode_stream<T: Decoder>(&mut self) -> (r: Option<T>)
        ensures
            match T::parse(old(self)@.bytes, old(self)@.fds) {
                Some((v, n, k)) => r matches Some(x) && x.deep_view() == v && final(self)@ == (StreamView {
                    bytes: old(self)@.bytes.skip(n as int),
                    fds: old(self)@.fds.skip(k as int),
                    ..old(self)@
                }),
                None => r is None,
            },
    {
        T::decode(&mut self.data, &mut self.received_fds)
    }

    /// The stream has ended: fine with no bytes waiting, `StreamEnded` in the
    /// middle of a frame.
    pub fn end_of_stream(&self) -> (r: Result<(), IpcError>)
        ensures
            r is Ok <==> self@.bytes.len() == 0,
            r is Err ==> r == Err::<(), IpcError>(IpcError::StreamEnded),
    {
        if self.data.len() == 0 {
            Ok(())
        } else {
            Err(IpcError::StreamEnded)
        }
    }
}

} // verus!

//! The anonymous buffer as a value: the descriptor of a kernel shared-memory
//! region and its size. Mapping the region is left to the holder of the
//! descriptor; this type is what travels on the wire and what the server keeps.
use crate::codec::{Decoder, Encoder, FDsToSend};
use crate::le::{le_bytes, le_value, lemma_le_round_trip, lemma_le_value_bound, lemma_pow256_4_8, pop_le, push_le};
use std::collections::VecDeque;
use vstd::prelude::*;

verus! {

/// A shared-memory region named by one descriptor. The empty buffer has
/// descriptor -1 and size 0; a valid one has a descriptor of at least 0 and a
/// size of at least 1.
#[derive(Clone, Copy)]
pub struct AnonymousBuffer {
    fd: i32,
    size: usize,
}

impl AnonymousBuffer {
    #[verifier::type_invariant]
    closed spec fn inv(&self) -> bool {
        self.wf()
    }

    pub closed spec fn spec_fd(&self) -> i32 {
        self.fd
    }

    pub closed spec fn spec_size(&self) -> usize {
        self.size
    }

    /// Either empty (descriptor -1, size 0) or valid (descriptor at least 0, size at least 1).
    pub open spec fn wf(&self) -> bool {
        (self.spec_fd() == -1 && self.spec_size() == 0) || (self.spec_fd() >= 0
            && self.spec_size() > 0)
    }

    pub open spec fn spec_is_valid(&self) -> bool {
        self.spec_fd() != -1
    }

    /// The empty buffer.
    pub fn new() -> (r: AnonymousBuffer)
        ensures
            r.spec_fd() == -1,
            r.spec_size() == 0,
    {
        AnonymousBuffer { fd: -1, size: 0 }
    }

    /// The buffer of the region behind `fd`, of `size` bytes; `None` unless
    /// `fd` is at least 0 and `size` at least 1.
    pub fn from_fd(fd: i32, size: usize) -> (r: Option<AnonymousBuffer>)
        ensures
            r is Some <==> fd >= 0 && size > 0,
            r matches Some(b) ==> b.spec_fd() == fd && b.spec_size() == size,
    {
        if fd >= 0 && size > 0 {
            Some(AnonymousBuffer { fd, size })
        } else {
            None
        }
    }

    pub fn is_valid(&self) -> (r: bool)
        ensures
            r == self.spec_is_valid(),
    {
        self.fd != -1
    }

    pub fn size(&self) -> (r: usize)
        ensures
            r == self.spec_size(),
            self.wf(),
    {
        proof {
            use_type_invariant(self);
        }
        self.size
    }

    pub fn fd(&self) -> (r: i32)
        ensures
            r == self.spec_fd(),
            self.wf(),
    {
        proof {
            use_type_invariant(self);
        }
        self.fd
    }
}

impl DeepView for AnonymousBuffer {
    type V = AnonymousBuffer;

    open spec fn deep_view(&self) -> AnonymousBuffer {
        *self
    }
}

/// The buffer that decoding a valid flag, `size` and `fd` gives.
pub closed spec fn received(fd: i32, size: usize) -> AnonymousBuffer {
    AnonymousBuffer { fd, size }
}

impl Encoder for AnonymousBuffer {
    /// Well formed, with a size that fits a `u32`.
    open spec fn encodable(v: AnonymousBuffer) -> bool {
        v.wf() && v.spec_size() <= u32::MAX
    }

    /// The validity flag; for a valid buffer, then its size as a `u32`.
    open spec fn wire_bytes(v: AnonymousBuffer) -> Seq<u8> {
        if v.spec_is_valid() {
            seq![1u8] + le_bytes(v.spec_size() as nat, 4)
        } else {
            seq![0u8]
        }
    }

    /// A valid buffer sends its descriptor; an empty one sends none.
    open spec fn wire_fds(v: AnonymousBuffer) -> Seq<i32> {
        if v.spec_is_valid() {
            seq![v.spec_fd()]
        } else {
            seq![]
        }
    }

    fn encode(data: &AnonymousBuffer) -> (r: Option<(Vec<u8>, FDsToSend)>) {
        proof {
            use_type_invariant(data);
        }
        if !data.is_valid() {
            return Some((vec![0u8], FDsToSend { fds: Vec::new() }));
        }
        if data.size > u32::MAX as usize {
            return None;
        }
        let mut bytes: Vec<u8> = vec![1u8];
        push_le(&mut bytes, data.size as u64, 4);
        Some((bytes, FDsToSend::from_fd(data.fd)))
    }
}

impl Decoder for AnonymousBuffer {
    /// A zero flag gives the empty buffer. Otherwise a `u32` size follows and
    /// one descriptor is taken; a negative descriptor or a zero size cannot be
    /// mapped, and decoding fails.
    open spec fn parse(bytes: Seq<u8>, fds: Seq<i32>) -> Option<(AnonymousBuffer, nat, nat)> {
        if bytes.len() < 1 {
            None
        } else if bytes[0] == 0 {
            Some((received(-1i32, 0usize), 1, 0))
        } else if bytes.len() < 5 || fds.len() < 1 {
            None
        } else {
            let size = le_value(bytes.subrange(1, 5));
            if fds[0] < 0 || size == 0 {
                None
            } else {
                Some((received(fds[0], size as usize), 5, 1))
            }
        }
    }

    proof fn lemma_parse_within(bytes: Seq<u8>, fds: Seq<i32>) {
    }

    proof fn lemma_round_trip(v: AnonymousBuffer, rest: Seq<u8>, fd_rest: Seq<i32>) {
        let all = Self::wire_bytes(v) + rest;
        if v.spec_is_valid() {
            lemma_pow256_4_8();
            lemma_le_round_trip(v.spec_size() as nat, 4);
            assert(all.subrange(1, 5) =~= le_bytes(v.spec_size() as nat, 4));
            assert(all[0] == 1u8);
        } else {
            assert(all[0] == 0u8);
        }
    }

    fn decode(it: &mut VecDeque<u8>, fds: &mut FDsToSend) -> (r: Option<AnonymousBuffer>) {
        let is_valid = match bool::decode(it, fds) {
            Some(b) => b,
            None => {
                return None;
            },
        };
        proof {
            assert(old(fds).fds@.skip(0) =~= old(fds).fds@);
        }
        if !is_valid {
            return Some(AnonymousBuffer::new());
        }
        let ghost after_flag = it@;
        let size = match pop_le(it, 4) {
            Some(x) => x,
            None => {
                return None;
            },
        };
        proof {
            assert(after_flag.take(4) =~= old(it)@.subrange(1, 5));
            assert(after_flag.skip(4) =~= old(it)@.skip(5));
            lemma_le_value_bound(after_flag.take(4));
            lemma_pow256_4_8();
        }
        let fd = match fds.take() {
            Some(fd) => fd,
            None => {
                return None;
            },
        };
        if fd < 0 || size == 0 {
            return None;
        }
        Some(AnonymousBuffer { fd, size: size as usize })
    }
}

/// An empty buffer goes on the wire as one byte and no descriptor; a valid
/// one as five bytes and exactly its own descriptor.
pub proof fn lemma_buffer_descriptors(v: AnonymousBuffer)
    requires
        AnonymousBuffer::encodable(v),
    ensures
        !v.spec_is_valid() ==> AnonymousBuffer::wire_fds(v) == Seq::<i32>::empty()
            && AnonymousBuffer::wire_bytes(v) == seq![0u8],
        v.spec_is_valid() ==> AnonymousBuffer::wire_fds(v) == seq![v.spec_fd()]
            && AnonymousBuffer::wire_bytes(v).len() == 5,
{
    lemma_pow256_4_8();
    lemma_le_round_trip(v.spec_size() as nat, 4);
}

} // verus!

//! The wire codec: every codable value becomes bytes plus a run of file
//! descriptors that travel beside them, and decodes back from the front of a
//! byte queue and an FD queue.
use crate::le::{
    le_bytes, lemma_le_bytes_len, le_value, lemma_le_round_trip, lemma_le_value_bound, lemma_pow256_4_8, pop_le, push_le,
};
use std::collections::VecDeque;
use vstd::prelude::*;
use vstd::utf8::{decode_utf8, encode_utf8, valid_utf8};

verus! {

/// A FIFO of file descriptors: those that go out with a frame, or those that
/// came in beside the bytes and wait to be taken by the decoder.
pub struct FDsToSend {
    pub fds: Vec<i32>,
}

impl FDsToSend {
    /// Takes the oldest descriptor, if any.
    pub fn take(&mut self) -> (r: Option<i32>)
        ensures
            old(self).fds@.len() == 0 ==> r is None && final(self).fds@ == old(self).fds@,
            old(self).fds@.len() > 0 ==> r == Some(old(self).fds@[0]) && final(self).fds@
                == old(self).fds@.drop_first(),
    {
        if self.fds.len() == 0 {
            None
        } else {
            Some(self.fds.remove(0))
        }
    }

    pub fn from_vec(fds: Vec<i32>) -> (r: FDsToSend)
        ensures
            r.fds@ == fds@,
    {
        FDsToSend { fds }
    }

    pub fn from_fd(fd: i32) -> (r: FDsToSend)
        ensures
            r.fds@ == seq![fd],
    {
        FDsToSend { fds: vec![fd] }
    }

    /// Queues descriptors that arrived on the socket, behind those already waiting.
    pub fn receive_fds(&mut self, received: Vec<i32>)
        ensures
            final(self).fds@ == old(self).fds@ + received@,
    {
        let mut received = received;
        self.fds.append(&mut received);
    }
}

/// The empty argument or result list of a method.
pub struct Message {}

/// A value with a wire form.
pub trait Encoder: DeepView + Sized {
    /// Whether `v` has a wire form (each length fits its count field).
    spec fn encodable(v: Self::V) -> bool;

    /// The bytes that stand for `v`.
    spec fn wire_bytes(v: Self::V) -> Seq<u8>;

    /// The descriptors that travel beside `v`, in field order.
    spec fn wire_fds(v: Self::V) -> Seq<i32>;

    /// The bytes and descriptors of `data`; `None` when it has no wire form.
    fn encode(data: &Self) -> (r: Option<(Vec<u8>, FDsToSend)>)
        ensures
            match r {
                Some((b, f)) => Self::encodable(data.deep_view()) && b@ == Self::wire_bytes(
                    data.deep_view(),
                ) && f.fds@ == Self::wire_fds(data.deep_view()),
                None => !Self::encodable(data.deep_view()),
            },
    ;

    /// The bytes of a value that sends no descriptors.
    fn encode_value(data: &Self) -> (r: Option<Vec<u8>>)
        requires
            Self::encodable(data.deep_view()) ==> Self::wire_fds(data.deep_view()).len() == 0,
        ensures
            match r {
                Some(b) => Self::encodable(data.deep_view()) && b@ == Self::wire_bytes(
                    data.deep_view(),
                ),
                None => !Self::encodable(data.deep_view()),
            },
    {
        match Self::encode(data) {
            Some((b, _)) => Some(b),
            None => None,
        }
    }
}

/// A value that can be read back from its wire form.
pub trait Decoder: Encoder {
    /// What decoding finds at the front of `bytes` and `fds`: the value, and how
    /// many bytes and descriptors it takes; `None` when decoding fails.
    spec fn parse(bytes: Seq<u8>, fds: Seq<i32>) -> Option<(Self::V, nat, nat)>;

    /// Decoding takes no more than is there.
    proof fn lemma_parse_within(bytes: Seq<u8>, fds: Seq<i32>)
        ensures
            Self::parse(bytes, fds) matches Some((_, n, k)) ==> n <= bytes.len() && k
                <= fds.len(),
    ;

    /// Decoding the wire form of `v`, whatever follows it, gives `v` back and
    /// takes exactly its bytes and descriptors.
    proof fn lemma_round_trip(v: Self::V, rest: Seq<u8>, fd_rest: Seq<i32>)
        requires
            Self::encodable(v),
        ensures
            Self::parse(Self::wire_bytes(v) + rest, Self::wire_fds(v) + fd_rest) == Some(
                (v, Self::wire_bytes(v).len(), Self::wire_fds(v).len()),
            ),
    ;

    /// Reads one value from the front of `it`, taking its descriptors from `fds`.
    fn decode(it: &mut VecDeque<u8>, fds: &mut FDsToSend) -> (r: Option<Self>)
        ensures
            match Self::parse(old(it)@, old(fds).fds@) {
                Some((v, n, k)) => r matches Some(x) && x.deep_view() == v && final(it)@ == old(it)@.skip(n as int) && final(fds).fds@ == old(fds).fds@.skip(k as int),
                None => r is None,
            },
    ;

    /// Reads one value that takes no descriptors from the front of `it`.
    fn decode_value(it: &mut VecDeque<u8>) -> (r: Option<Self>)
        ensures
            match Self::parse(old(it)@, seq![]) {
                Some((v, n, _)) => r matches Some(x) && x.deep_view() == v && final(it)@ == old(it)@.skip(n as int),
                None => r is None,
            },
    {
        let mut fds = FDsToSend { fds: Vec::new() };
        proof {
            assert(fds.fds@ =~= Seq::<i32>::empty());
        }
        Self::decode(it, &mut fds)
    }
}

impl Encoder for u32 {
    open spec fn encodable(v: u32) -> bool {
        true
    }

    open spec fn wire_bytes(v: u32) -> Seq<u8> {
        le_bytes(v as nat, 4)
    }

    open spec fn wire_fds(v: u32) -> Seq<i32> {
        seq![]
    }

    fn encode(data: &u32) -> (r: Option<(Vec<u8>, FDsToSend)>) {
        let mut bytes: Vec<u8> = Vec::new();
        push_le(&mut bytes, *data as u64, 4);
        assert(bytes@ =~= le_bytes(*data as nat, 4));
        Some((bytes, FDsToSend { fds: Vec::new() }))
    }
}

impl Decoder for u32 {
    open spec fn parse(bytes: Seq<u8>, fds: Seq<i32>) -> Option<(u32, nat, nat)> {
        if bytes.len() < 4 {
            None
        } else {
            Some((le_value(bytes.take(4)) as u32, 4, 0))
        }
    }

    proof fn lemma_parse_within(bytes: Seq<u8>, fds: Seq<i32>) {
    }

    proof fn lemma_round_trip(v: u32, rest: Seq<u8>, fd_rest: Seq<i32>) {
        lemma_pow256_4_8();
        lemma_le_round_trip(v as nat, 4);
        assert((le_bytes(v as nat, 4) + rest).take(4) =~= le_bytes(v as nat, 4));
    }

    fn decode(it: &mut VecDeque<u8>, fds: &mut FDsToSend) -> (r: Option<u32>) {
        match pop_le(it, 4) {
            Some(x) => {
                proof {
                    lemma_le_value_bound(old(it)@.take(4));
                    lemma_pow256_4_8();
                }
                Some(x as u32)
            },
            None => None,
        }
    }
}

impl Encoder for u64 {
    open spec fn encodable(v: u64) -> bool {
        true
    }

    open spec fn wire_bytes(v: u64) -> Seq<u8> {
        le_bytes(v as nat, 8)
    }

    open spec fn wire_fds(v: u64) -> Seq<i32> {
        seq![]
    }

    fn encode(data: &u64) -> (r: Option<(Vec<u8>, FDsToSend)>) {
        let mut bytes: Vec<u8> = Vec::new();
        push_le(&mut bytes, *data, 8);
        assert(bytes@ =~= le_bytes(*data as nat, 8));
        Some((bytes, FDsToSend { fds: Vec::new() }))
    }
}

impl Decoder for u64 {
    open spec fn parse(bytes: Seq<u8>, fds: Seq<i32>) -> Option<(u64, nat, nat)> {
        if bytes.len() < 8 {
            None
        } else {
            Some((le_value(bytes.take(8)) as u64, 8, 0))
        }
    }

    proof fn lemma_parse_within(bytes: Seq<u8>, fds: Seq<i32>) {
    }

    proof fn lemma_round_trip(v: u64, rest: Seq<u8>, fd_rest: Seq<i32>) {
        lemma_pow256_4_8();
        lemma_le_round_trip(v as nat, 8);
        assert((le_bytes(v as nat, 8) + rest).take(8) =~= le_bytes(v as nat, 8));
    }

    fn decode(it: &mut VecDeque<u8>, fds: &mut FDsToSend) -> (r: Option<u64>) {
        pop_le(it, 8)
    }
}

impl Encoder for bool {
    open spec fn encodable(v: bool) -> bool {
        true
    }

    open spec fn wire_bytes(v: bool) -> Seq<u8> {
        seq![if v { 1u8 } else { 0u8 }]
    }

    open spec fn wire_fds(v: bool) -> Seq<i32> {
        seq![]
    }

    fn encode(data: &bool) -> (r: Option<(Vec<u8>, FDsToSend)>) {
        let b: u8 = if *data { 1 } else { 0 };
        Some((vec![b], FDsToSend { fds: Vec::new() }))
    }
}

impl Decoder for bool {
    /// Any nonzero byte reads as `true`.
    open spec fn parse(bytes: Seq<u8>, fds: Seq<i32>) -> Option<(bool, nat, nat)> {
        if bytes.len() < 1 {
            None
        } else {
            Some((bytes[0] != 0, 1, 0))
        }
    }

    proof fn lemma_parse_within(bytes: Seq<u8>, fds: Seq<i32>) {
    }

    proof fn lemma_round_trip(v: bool, rest: Seq<u8>, fd_rest: Seq<i32>) {
    }

    fn decode(it: &mut VecDeque<u8>, fds: &mut FDsToSend) -> (r: Option<bool>) {
        if it.len() == 0 {
            assert(Self::parse(old(it)@, old(fds).fds@) is None);
            return None;
        }
        let b = it.pop_front().unwrap();
        proof {
            assert(it@ =~= old(it)@.skip(1));
            assert(old(fds).fds@.skip(0) =~= old(fds).fds@);
        }
        Some(b != 0)
    }
}

/// The string length that stands for the empty (absent) string.
pub const NULL_STRING_LENGTH: u32 = 0xFFFF_FFFF;

/// Relies on `String::from_utf8`: it accepts exactly the valid UTF-8 byte
/// sequences, and the string it returns holds the characters they encode.
#[verifier::external_body]
fn string_from_utf8(bytes: Vec<u8>) -> (r: Option<String>)
    ensures
        match r {
            Some(s) => valid_utf8(bytes@) && s@ == decode_utf8(bytes@),
            None => !valid_utf8(bytes@),
        },
{
    String::from_utf8(bytes).ok()
}

/// Removes the first `n` bytes of `it` and returns them.
fn pop_bytes(it: &mut VecDeque<u8>, n: usize) -> (r: Vec<u8>)
    requires
        n <= old(it)@.len(),
    ensures
        r@ == old(it)@.take(n as int),
        final(it)@ == old(it)@.skip(n as int),
{
    let mut taken: Vec<u8> = Vec::new();
    let mut i: usize = 0;
    while i < n
        invariant
            i <= n,
            n <= old(it)@.len(),
            taken@ == old(it)@.take(i as int),
            it@ == old(it)@.skip(i as int),
        decreases n - i,
    {
        let b = it.pop_front();
        assert(b == Some(old(it)@[i as int]));
        taken.push(b.unwrap());
        i = i + 1;
        assert(taken@ =~= old(it)@.take(i as int));
        assert(it@ =~= old(it)@.skip(i as int));
    }
    taken
}

/// Appends the bytes of `b` to `out`.
fn push_slice(out: &mut Vec<u8>, b: &[u8])
    ensures
        final(out)@ == old(out)@ + b@,
{
    let mut i: usize = 0;
    while i < b.len()
        invariant
            i <= b@.len(),
            out@ == old(out)@ + b@.take(i as int),
        decreases b@.len() - i,
    {
        out.push(b[i]);
        i = i + 1;
        assert(out@ =~= old(out)@ + b@.take(i as int));
    }
    assert(b@.take(b@.len() as int) =~= b@);
}

impl Encoder for String {
    /// The UTF-8 form must be shorter than the null length.
    open spec fn encodable(v: Seq<char>) -> bool {
        encode_utf8(v).len() < NULL_STRING_LENGTH
    }

    open spec fn wire_bytes(v: Seq<char>) -> Seq<u8> {
        le_bytes(encode_utf8(v).len(), 4) + encode_utf8(v)
    }

    open spec fn wire_fds(v: Seq<char>) -> Seq<i32> {
        seq![]
    }

    fn encode(data: &String) -> (r: Option<(Vec<u8>, FDsToSend)>) {
        let text: &str = data.as_str();
        let raw: &[u8] = text.as_bytes();
        let n = raw.len();
        if n >= NULL_STRING_LENGTH as usize {
            return None;
        }
        let mut bytes: Vec<u8> = Vec::new();
        push_le(&mut bytes, n as u64, 4);
        push_slice(&mut bytes, raw);
        proof {
            assert(bytes@ =~= le_bytes(n as nat, 4) + encode_utf8(data@));
        }
        Some((bytes, FDsToSend { fds: Vec::new() }))
    }
}

impl Decoder for String {
    /// A length of `NULL_STRING_LENGTH` reads as the empty string and is followed
    /// by nothing; any other length is followed by that many bytes of UTF-8.
    open spec fn parse(bytes: Seq<u8>, fds: Seq<i32>) -> Option<(Seq<char>, nat, nat)> {
        if bytes.len() < 4 {
            None
        } else {
            let len = le_value(bytes.take(4));
            if len == NULL_STRING_LENGTH {
                Some((seq![], 4, 0))
            } else if bytes.len() < 4 + len {
                None
            } else if !valid_utf8(bytes.subrange(4, 4 + len as int)) {
                None
            } else {
                Some((decode_utf8(bytes.subrange(4, 4 + len as int)), 4 + len, 0))
            }
        }
    }

    proof fn lemma_parse_within(bytes: Seq<u8>, fds: Seq<i32>) {
    }

    proof fn lemma_round_trip(v: Seq<char>, rest: Seq<u8>, fd_rest: Seq<i32>) {
        let body = encode_utf8(v);
        let len = body.len();
        lemma_pow256_4_8();
        lemma_le_round_trip(len, 4);
        let all = le_bytes(len, 4) + body + rest;
        assert(all.take(4) =~= le_bytes(len, 4));
        assert(all.subrange(4, 4 + len as int) =~= body);
        vstd::utf8::encode_utf8_valid_utf8(v);
        vstd::utf8::encode_utf8_decode_utf8(v);
        assert(Self::wire_bytes(v) + rest =~= all);
    }

    fn decode(it: &mut VecDeque<u8>, fds: &mut FDsToSend) -> (r: Option<String>) {
        let len = match pop_le(it, 4) {
            Some(x) => x,
            None => {
                return None;
            },
        };
        proof {
            lemma_le_value_bound(old(it)@.take(4));
            lemma_pow256_4_8();
        }
        if len == NULL_STRING_LENGTH as u64 {
            return Some(String::new());
        }
        if (it.len() as u64) < len {
            return None;
        }
        let raw = pop_bytes(it, len as usize);
        proof {
            assert(raw@ =~= old(it)@.subrange(4, 4 + len as int));
            assert(it@ =~= old(it)@.skip(4 + len as int));
        }
        string_from_utf8(raw)
    }
}

/// A file descriptor sent as a value: no bytes, one descriptor beside them.
pub struct File {
    pub fd: i32,
}

impl DeepView for File {
    type V = File;

    open spec fn deep_view(&self) -> File {
        File { fd: self.fd }
    }
}

impl Encoder for File {
    open spec fn encodable(v: File) -> bool {
        true
    }

    open spec fn wire_bytes(v: File) -> Seq<u8> {
        seq![]
    }

    open spec fn wire_fds(v: File) -> Seq<i32> {
        seq![v.fd]
    }

    fn encode(data: &File) -> (r: Option<(Vec<u8>, FDsToSend)>) {
        Some((Vec::new(), FDsToSend::from_fd(data.fd)))
    }
}

impl Decoder for File {
    open spec fn parse(bytes: Seq<u8>, fds: Seq<i32>) -> Option<(File, nat, nat)> {
        if fds.len() < 1 {
            None
        } else {
            Some((File { fd: fds[0] }, 0, 1))
        }
    }

    proof fn lemma_parse_within(bytes: Seq<u8>, fds: Seq<i32>) {
    }

    proof fn lemma_round_trip(v: File, rest: Seq<u8>, fd_rest: Seq<i32>) {
        assert(Self::wire_bytes(v) + rest =~= rest);
    }

    fn decode(it: &mut VecDeque<u8>, fds: &mut FDsToSend) -> (r: Option<File>) {
        proof {
            assert(old(it)@.skip(0) =~= old(it)@);
        }
        match fds.take() {
            Some(fd) => Some(File { fd }),
            None => None,
        }
    }
}

impl DeepView for Message {
    type V = ();

    open spec fn deep_view(&self) -> () {
        ()
    }
}

/// The empty argument list: no bytes and no descriptors.
impl Encoder for Message {
    open spec fn encodable(v: ()) -> bool {
        true
    }

    open spec fn wire_bytes(v: ()) -> Seq<u8> {
        seq![]
    }

    open spec fn wire_fds(v: ()) -> Seq<i32> {
        seq![]
    }

    fn encode(data: &Message) -> (r: Option<(Vec<u8>, FDsToSend)>) {
        Some((Vec::new(), FDsToSend { fds: Vec::new() }))
    }
}

impl Decoder for Message {
    open spec fn parse(bytes: Seq<u8>, fds: Seq<i32>) -> Option<((), nat, nat)> {
        Some(((), 0, 0))
    }

    proof fn lemma_parse_within(bytes: Seq<u8>, fds: Seq<i32>) {
    }

    proof fn lemma_round_trip(v: (), rest: Seq<u8>, fd_rest: Seq<i32>) {
    }

    fn decode(it: &mut VecDeque<u8>, fds: &mut FDsToSend) -> (r: Option<Message>) {
        proof {
            assert(old(it)@.skip(0) =~= old(it)@);
            assert(old(fds).fds@.skip(0) =~= old(fds).fds@);
        }
        Some(Message {})
    }
}

/// The bytes of each value in `vs`, one after the other.
pub open spec fn items_bytes<T: Encoder>(vs: Seq<T::V>) -> Seq<u8>
    decreases vs.len(),
{
    if vs.len() == 0 {
        seq![]
    } else {
        T::wire_bytes(vs[0]) + items_bytes::<T>(vs.drop_first())
    }
}

/// The descriptors of each value in `vs`, one after the other.
pub open spec fn items_fds<T: Encoder>(vs: Seq<T::V>) -> Seq<i32>
    decreases vs.len(),
{
    if vs.len() == 0 {
        seq![]
    } else {
        T::wire_fds(vs[0]) + items_fds::<T>(vs.drop_first())
    }
}

/// Decoding `count` values of `T` one after the other.
pub open spec fn parse_items<T: Decoder>(count: nat, bytes: Seq<u8>, fds: Seq<i32>) -> Option<
    (Seq<T::V>, nat, nat),
>
    decreases count,
{
    if count == 0 {
        Some((seq![], 0, 0))
    } else {
        match T::parse(bytes, fds) {
            None => None,
            Some((v, n, k)) => match parse_items::<T>(
                (count - 1) as nat,
                bytes.skip(n as int),
                fds.skip(k as int),
            ) {
                None => None,
                Some((vs, n2, k2)) => Some((seq![v] + vs, n + n2, k + k2)),
            },
        }
    }
}

proof fn lemma_items_push<T: Encoder>(vs: Seq<T::V>, v: T::V)
    ensures
        items_bytes::<T>(vs.push(v)) == items_bytes::<T>(vs) + T::wire_bytes(v),
        items_fds::<T>(vs.push(v)) == items_fds::<T>(vs) + T::wire_fds(v),
    decreases vs.len(),
{
    if vs.len() == 0 {
        let e = vs.push(v).drop_first();
        assert(e.len() == 0);
        assert(items_bytes::<T>(e) == Seq::<u8>::empty());
        assert(items_fds::<T>(e) == Seq::<i32>::empty());
        assert(vs.push(v)[0] == v);
        assert(items_bytes::<T>(vs) == Seq::<u8>::empty());
        assert(items_fds::<T>(vs) == Seq::<i32>::empty());
        assert(items_bytes::<T>(vs.push(v)) =~= T::wire_bytes(v));
        assert(items_fds::<T>(vs.push(v)) =~= T::wire_fds(v));
    } else {
        lemma_items_push::<T>(vs.drop_first(), v);
        assert(vs.push(v).drop_first() =~= vs.drop_first().push(v));
        assert(items_bytes::<T>(vs.push(v)) =~= items_bytes::<T>(vs) + T::wire_bytes(v));
        assert(items_fds::<T>(vs.push(v)) =~= items_fds::<T>(vs) + T::wire_fds(v));
    }
}

pub proof fn lemma_parse_items_within<T: Decoder>(count: nat, bytes: Seq<u8>, fds: Seq<i32>)
    ensures
        parse_items::<T>(count, bytes, fds) matches Some((vs, n, k)) ==> n <= bytes.len() && k
            <= fds.len() && vs.len() == count,
    decreases count,
{
    if count > 0 {
        T::lemma_parse_within(bytes, fds);
        if let Some((v, n, k)) = T::parse(bytes, fds) {
            lemma_parse_items_within::<T>((count - 1) as nat, bytes.skip(n as int), fds.skip(k as int));
        }
    }
}

pub proof fn lemma_items_round_trip<T: Decoder>(vs: Seq<T::V>, rest: Seq<u8>, fd_rest: Seq<i32>)
    requires
        forall|i: int| 0 <= i < vs.len() ==> T::encodable(#[trigger] vs[i]),
    ensures
        parse_items::<T>(vs.len(), items_bytes::<T>(vs) + rest, items_fds::<T>(vs) + fd_rest)
            == Some((vs, items_bytes::<T>(vs).len(), items_fds::<T>(vs).len())),
    decreases vs.len(),
{
    if vs.len() == 0 {
        assert(items_bytes::<T>(vs) + rest =~= rest);
        assert(vs =~= seq![]);
    } else {
        let tail = vs.drop_first();
        let tb = items_bytes::<T>(tail) + rest;
        let tf = items_fds::<T>(tail) + fd_rest;
        assert(T::encodable(vs[0]));
        T::lemma_round_trip(vs[0], tb, tf);
        assert(items_bytes::<T>(vs) + rest =~= T::wire_bytes(vs[0]) + tb);
        assert(items_fds::<T>(vs) + fd_rest =~= T::wire_fds(vs[0]) + tf);
        assert((T::wire_bytes(vs[0]) + tb).skip(T::wire_bytes(vs[0]).len() as int) =~= tb);
        assert((T::wire_fds(vs[0]) + tf).skip(T::wire_fds(vs[0]).len() as int) =~= tf);
        assert forall|i: int| 0 <= i < tail.len() implies T::encodable(#[trigger] tail[i]) by {
            assert(tail[i] == vs[i + 1]);
        }
        lemma_items_round_trip::<T>(tail, rest, fd_rest);
        assert(seq![vs[0]] + tail =~= vs);
    }
}

/// Encodes each element of `data` in turn, appending to `bytes` and `fds`.
pub(crate) fn encode_items<T: Encoder>(data: &Vec<T>, bytes: &mut Vec<u8>, fds: &mut FDsToSend) -> (ok: bool)
    ensures
        ok == (forall|i: int| 0 <= i < data@.len() ==> T::encodable(#[trigger] data.deep_view()[i])),
        ok ==> final(bytes)@ == old(bytes)@ + items_bytes::<T>(data.deep_view()) && final(fds).fds@
            == old(fds).fds@ + items_fds::<T>(data.deep_view()),
{
    let ghost dv = data.deep_view();
    let mut i: usize = 0;
    while i < data.len()
        invariant
            i <= data@.len(),
            dv == data.deep_view(),
            forall|j: int| 0 <= j < i ==> T::encodable(#[trigger] dv[j]),
            bytes@ == old(bytes)@ + items_bytes::<T>(dv.take(i as int)),
            fds.fds@ == old(fds).fds@ + items_fds::<T>(dv.take(i as int)),
        decreases data@.len() - i,
    {
        match T::encode(&data[i]) {
            Some((b, f)) => {
                let mut b = b;
                let mut f = f;
                proof {
                    lemma_items_push::<T>(dv.take(i as int), dv[i as int]);
                    assert(dv.take(i as int).push(dv[i as int]) =~= dv.take(i + 1));
                }
                bytes.append(&mut b);
                fds.fds.append(&mut f.fds);
                i = i + 1;
                assert(bytes@ =~= old(bytes)@ + items_bytes::<T>(dv.take(i as int)));
                assert(fds.fds@ =~= old(fds).fds@ + items_fds::<T>(dv.take(i as int)));
            },
            None => {
                assert(dv[i as int] == data@[i as int].deep_view());
                return false;
            },
        }
    }
    assert(dv.take(i as int) =~= dv);
    true
}

/// Decodes `count` values of `T` one after the other.
pub(crate) fn decode_items<T: Decoder>(count: u64, it: &mut VecDeque<u8>, fds: &mut FDsToSend) -> (r: Option<
    Vec<T>,
>)
    ensures
        match parse_items::<T>(count as nat, old(it)@, old(fds).fds@) {
            Some((vs, n, k)) => r matches Some(x) && x.deep_view() == vs && final(it)@ == old(it)@.skip(n as int) && final(fds).fds@ == old(fds).fds@.skip(k as int),
            None => r is None,
        },
{
    let ghost b0 = it@;
    let ghost f0 = fds.fds@;
    let ghost mut nb: nat = 0;
    let ghost mut nk: nat = 0;
    let mut result: Vec<T> = Vec::new();
    let mut i: u64 = 0;
    proof {
        assert(b0.skip(0) =~= b0);
        assert(f0.skip(0) =~= f0);
        assert(result.deep_view() =~= seq![]);
        lemma_parse_items_within::<T>(count as nat, b0, f0);
        if let Some((vs, n, k)) = parse_items::<T>(count as nat, b0, f0) {
            assert(seq![] + vs =~= vs);
        }
    }
    while i < count
        invariant
            i <= count,
            b0 == old(it)@,
            f0 == old(fds).fds@,
            nb <= b0.len(),
            nk <= f0.len(),
            it@ == b0.skip(nb as int),
            fds.fds@ == f0.skip(nk as int),
            result.deep_view().len() == i,
            match parse_items::<T>((count - i) as nat, it@, fds.fds@) {
                None => parse_items::<T>(count as nat, b0, f0) is None,
                Some((vs, n, k)) => parse_items::<T>(count as nat, b0, f0) == Some(
                    (result.deep_view() + vs, nb + n, nk + k),
                ),
            },
        decreases count - i,
    {
        let ghost cur_b = it@;
        let ghost cur_f = fds.fds@;
        proof {
            T::lemma_parse_within(cur_b, cur_f);
        }
        match T::decode(it, fds) {
            Some(x) => {
                let ghost (v, n, k) = T::parse(cur_b, cur_f).unwrap();
                let ghost before = result.deep_view();
                result.push(x);
                proof {
                    assert(result.deep_view() =~= before.push(v));
                    assert(b0.skip(nb as int).skip(n as int) =~= b0.skip((nb + n) as int));
                    assert(f0.skip(nk as int).skip(k as int) =~= f0.skip((nk + k) as int));
                    nb = nb + n;
                    nk = nk + k;
                    if let Some((vs, n2, k2)) = parse_items::<T>(
                        (count - i - 1) as nat,
                        it@,
                        fds.fds@,
                    ) {
                        assert(before + (seq![v] + vs) =~= before.push(v) + vs);
                    }
                }
                i = i + 1;
            },
            None => {
                return None;
            },
        }
    }
    proof {
        assert(result.deep_view() + seq![] =~= result.deep_view());
    }
    Some(result)
}

impl<T: Encoder> Encoder for Vec<T> {
    /// At most `u32::MAX` elements, each with a wire form.
    open spec fn encodable(v: Seq<T::V>) -> bool {
        v.len() <= u32::MAX && forall|i: int| 0 <= i < v.len() ==> T::encodable(#[trigger] v[i])
    }

    open spec fn wire_bytes(v: Seq<T::V>) -> Seq<u8> {
        le_bytes(v.len(), 4) + items_bytes::<T>(v)
    }

    open spec fn wire_fds(v: Seq<T::V>) -> Seq<i32> {
        items_fds::<T>(v)
    }

    fn encode(data: &Vec<T>) -> (r: Option<(Vec<u8>, FDsToSend)>) {
        if data.len() > u32::MAX as usize {
            return None;
        }
        let mut bytes: Vec<u8> = Vec::new();
        let mut fds = FDsToSend { fds: Vec::new() };
        push_le(&mut bytes, data.len() as u64, 4);
        if !encode_items(data, &mut bytes, &mut fds) {
            return None;
        }
        proof {
            assert(fds.fds@ =~= items_fds::<T>(data.deep_view()));
        }
        Some((bytes, fds))
    }
}

impl<T: Decoder> Decoder for Vec<T> {
    open spec fn parse(bytes: Seq<u8>, fds: Seq<i32>) -> Option<(Seq<T::V>, nat, nat)> {
        if bytes.len() < 4 {
            None
        } else {
            match parse_items::<T>(le_value(bytes.take(4)), bytes.skip(4), fds) {
                None => None,
                Some((vs, n, k)) => Some((vs, 4 + n, k)),
            }
        }
    }

    proof fn lemma_parse_within(bytes: Seq<u8>, fds: Seq<i32>) {
        if bytes.len() >= 4 {
            lemma_parse_items_within::<T>(le_value(bytes.take(4)), bytes.skip(4), fds);
        }
    }

    proof fn lemma_round_trip(v: Seq<T::V>, rest: Seq<u8>, fd_rest: Seq<i32>) {
        lemma_pow256_4_8();
        lemma_le_round_trip(v.len(), 4);
        let all = le_bytes(v.len(), 4) + items_bytes::<T>(v) + rest;
        assert(Self::wire_bytes(v) + rest =~= all);
        assert(all.take(4) =~= le_bytes(v.len(), 4));
        assert(all.skip(4) =~= items_bytes::<T>(v) + rest);
        lemma_items_round_trip::<T>(v, rest, fd_rest);
    }

    fn decode(it: &mut VecDeque<u8>, fds: &mut FDsToSend) -> (r: Option<Vec<T>>) {
        let count = match pop_le(it, 4) {
            Some(x) => x,
            None => {
                return None;
            },
        };
        proof {
            lemma_le_value_bound(old(it)@.take(4));
            lemma_pow256_4_8();
            lemma_parse_items_within::<T>(count as nat, old(it)@.skip(4), old(fds).fds@);
        }
        let r = decode_items::<T>(count, it, fds);
        proof {
            if let Some((vs, n, k)) = parse_items::<T>(count as nat, old(it)@.skip(4), old(fds).fds@) {
                assert(old(it)@.skip(4).skip(n as int) =~= old(it)@.skip(4 + n as int));
            }
        }
        r
    }
}

/// The empty string goes on the wire as a zero length and reads back empty;
/// the null length, with nothing after it, also reads as the empty string
/// and takes only its four bytes.
pub proof fn lemma_empty_string(rest: Seq<u8>)
    ensures
        String::wire_bytes(Seq::<char>::empty()) == le_bytes(0, 4),
        String::parse(String::wire_bytes(Seq::<char>::empty()) + rest, seq![]) == Some(
            (Seq::<char>::empty(), 4nat, 0nat),
        ),
        String::parse(le_bytes(NULL_STRING_LENGTH as nat, 4) + rest, seq![]) == Some(
            (Seq::<char>::empty(), 4nat, 0nat),
        ),
{
    let e = Seq::<char>::empty();
    assert(encode_utf8(e) =~= Seq::<u8>::empty());
    assert(String::wire_bytes(e) =~= le_bytes(0, 4));
    String::lemma_round_trip(e, rest, seq![]);
    lemma_pow256_4_8();
    lemma_le_round_trip(NULL_STRING_LENGTH as nat, 4);
    assert((le_bytes(NULL_STRING_LENGTH as nat, 4) + rest).take(4) =~= le_bytes(
        NULL_STRING_LENGTH as nat,
        4,
    ));
}

/// The files with descriptors `fds`, in order.
pub open spec fn files_of(fds: Seq<i32>) -> Seq<File> {
    fds.map_values(|fd: i32| File { fd })
}

proof fn lemma_files_fds(fds: Seq<i32>)
    ensures
        items_fds::<File>(files_of(fds)) == fds,
        items_bytes::<File>(files_of(fds)) == Seq::<u8>::empty(),
    decreases fds.len(),
{
    if fds.len() > 0 {
        assert(files_of(fds).drop_first() =~= files_of(fds.drop_first()));
        lemma_files_fds(fds.drop_first());
        assert(seq![fds[0]] + fds.drop_first() =~= fds);
    } else {
        assert(files_of(fds).len() == 0);
        assert(fds =~= Seq::<i32>::empty());
    }
}

/// Descriptors sent beside a list of files are taken in the order they came:
/// the `i`-th file decoded holds the `i`-th descriptor, and no more
/// descriptors than files are taken.
pub proof fn lemma_descriptors_in_order(fds: Seq<i32>, rest: Seq<u8>, fd_rest: Seq<i32>)
    requires
        fds.len() <= u32::MAX,
    ensures
        <Vec<File>>::wire_fds(files_of(fds)) == fds,
        <Vec<File>>::parse(<Vec<File>>::wire_bytes(files_of(fds)) + rest, fds + fd_rest) == Some(
            (files_of(fds), 4nat, fds.len()),
        ),
{
    lemma_files_fds(fds);
    let v = files_of(fds);
    assert forall|i: int| 0 <= i < v.len() implies File::encodable(#[trigger] v[i]) by {}
    <Vec<File>>::lemma_round_trip(v, rest, fd_rest);
    lemma_le_bytes_len(v.len(), 4);
}

} // verus!

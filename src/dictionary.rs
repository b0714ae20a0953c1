//! Maps on the wire: a count, then (key, value) pairs. The dictionary
//! (string to string) counts with a `u64`, a general map with a `u32`. Keys
//! are unique; where the wire repeats a key, the last value stands.
use crate::codec::{
    decode_items, encode_items, items_bytes, items_fds, lemma_items_round_trip,
    lemma_parse_items_within, parse_items, Decoder, Encoder, FDsToSend,
};
use crate::le::{le_bytes, le_value, lemma_le_round_trip, lemma_le_value_bound, lemma_pow256_4_8, pop_le, push_le};
use std::collections::VecDeque;
use vstd::prelude::*;

verus! {

/// No two entries of `d` share a key.
pub open spec fn keys_unique<K, V>(d: Seq<(K, V)>) -> bool {
    forall|i: int, j: int| 0 <= i < j < d.len() ==> #[trigger] d[i].0 != #[trigger] d[j].0
}

/// Whether `k` is a key of `d`.
pub open spec fn has_key<K, V>(d: Seq<(K, V)>, k: K) -> bool {
    exists|i: int| 0 <= i < d.len() && #[trigger] d[i].0 == k
}

/// `d` with `k` bound to `v`: an existing entry keeps its place and takes the
/// new value, a new key goes at the end.
pub open spec fn map_insert<K, V>(d: Seq<(K, V)>, k: K, v: V) -> Seq<(K, V)> {
    if has_key(d, k) {
        d.update(choose|i: int| 0 <= i < d.len() && #[trigger] d[i].0 == k, (k, v))
    } else {
        d.push((k, v))
    }
}

/// Inserting each pair of `pairs`, in order, into `acc`.
pub open spec fn insert_all<K, V>(acc: Seq<(K, V)>, pairs: Seq<(K, V)>) -> Seq<(K, V)>
    decreases pairs.len(),
{
    if pairs.len() == 0 {
        acc
    } else {
        insert_all(map_insert(acc, pairs[0].0, pairs[0].1), pairs.drop_first())
    }
}

proof fn lemma_insert_keeps_unique<K, V>(d: Seq<(K, V)>, k: K, v: V)
    requires
        keys_unique(d),
    ensures
        keys_unique(map_insert(d, k, v)),
{
    let r = map_insert(d, k, v);
    if has_key(d, k) {
        assert forall|i: int, j: int| 0 <= i < j < r.len() implies #[trigger] r[i].0
            != #[trigger] r[j].0 by {
            assert(r[i].0 == d[i].0);
            assert(r[j].0 == d[j].0);
        }
    } else {
        assert forall|i: int, j: int| 0 <= i < j < r.len() implies #[trigger] r[i].0
            != #[trigger] r[j].0 by {
            if j == d.len() {
                assert(d[i].0 == r[i].0);
            }
        }
    }
}

proof fn lemma_insert_all_distinct<K, V>(acc: Seq<(K, V)>, pairs: Seq<(K, V)>)
    requires
        keys_unique(acc + pairs),
    ensures
        insert_all(acc, pairs) == acc + pairs,
    decreases pairs.len(),
{
    if pairs.len() == 0 {
        assert(acc + pairs =~= acc);
    } else {
        let p = pairs[0];
        assert(!has_key(acc, p.0)) by {
            if has_key(acc, p.0) {
                let i = choose|i: int| 0 <= i < acc.len() && #[trigger] acc[i].0 == p.0;
                assert((acc + pairs)[i].0 == (acc + pairs)[acc.len() as int].0);
            }
        }
        let next = acc.push(p);
        assert(next + pairs.drop_first() =~= acc + pairs);
        lemma_insert_all_distinct(next, pairs.drop_first());
    }
}

/// A key type: one whose values can be told apart as their views are.
pub trait MapKey: Decoder {
    fn same_key(a: &Self, b: &Self) -> (r: bool)
        ensures
            r == (a.deep_view() == b.deep_view()),
    ;
}

impl MapKey for u32 {
    fn same_key(a: &u32, b: &u32) -> (r: bool) {
        *a == *b
    }
}

impl MapKey for u64 {
    fn same_key(a: &u64, b: &u64) -> (r: bool) {
        *a == *b
    }
}

impl MapKey for bool {
    fn same_key(a: &bool, b: &bool) -> (r: bool) {
        *a == *b
    }
}

impl MapKey for String {
    fn same_key(a: &String, b: &String) -> (r: bool) {
        let r = *a == *b;
        assert(a.deep_view() == a@ && b.deep_view() == b@);
        r
    }
}

/// Whether no two entries of `d` share a key.
fn entries_have_unique_keys<K: MapKey, V: DeepView>(d: &Vec<(K, V)>) -> (r: bool)
    ensures
        r == keys_unique(d.deep_view()),
{
    let ghost dv = d.deep_view();
    let mut j: usize = 0;
    while j < d.len()
        invariant
            j <= d@.len(),
            dv == d.deep_view(),
            forall|a: int, b: int| 0 <= a < b < j ==> #[trigger] dv[a].0 != #[trigger] dv[b].0,
        decreases d@.len() - j,
    {
        let mut i: usize = 0;
        while i < j
            invariant
                i <= j < d@.len(),
                dv == d.deep_view(),
                forall|a: int, b: int| 0 <= a < b < j ==> #[trigger] dv[a].0 != #[trigger] dv[b].0,
                forall|a: int| 0 <= a < i ==> #[trigger] dv[a].0 != dv[j as int].0,
            decreases j - i,
        {
            assert(dv[i as int].0 == d@[i as int].0.deep_view());
            assert(dv[j as int].0 == d@[j as int].0.deep_view());
            if K::same_key(&d[i].0, &d[j].0) {
                return false;
            }
            i = i + 1;
        }
        j = j + 1;
    }
    true
}

/// Binds `key` to `value` in `entries` (see `map_insert`).
fn insert_entry<K: MapKey, V: DeepView>(entries: &mut Vec<(K, V)>, key: K, value: V)
    requires
        keys_unique(old(entries).deep_view()),
    ensures
        final(entries).deep_view() == map_insert(
            old(entries).deep_view(),
            key.deep_view(),
            value.deep_view(),
        ),
        keys_unique(final(entries).deep_view()),
{
    let ghost dv = entries.deep_view();
    let ghost kv = (key.deep_view(), value.deep_view());
    proof {
        lemma_insert_keeps_unique(dv, kv.0, kv.1);
    }
    let mut i: usize = 0;
    while i < entries.len()
        invariant
            i <= entries@.len(),
            dv == entries.deep_view(),
            dv == old(entries).deep_view(),
            kv == (key.deep_view(), value.deep_view()),
            keys_unique(dv),
            forall|a: int| 0 <= a < i ==> #[trigger] dv[a].0 != kv.0,
        decreases entries@.len() - i,
    {
        assert(dv[i as int].0 == entries@[i as int].0.deep_view());
        if K::same_key(&entries[i].0, &key) {
            proof {
                assert(has_key(dv, kv.0));
                let c = choose|c: int| 0 <= c < dv.len() && #[trigger] dv[c].0 == kv.0;
                assert(c == i);
            }
            entries.set(i, (key, value));
            assert(entries.deep_view() =~= dv.update(i as int, kv));
            return;
        }
        i = i + 1;
    }
    entries.push((key, value));
    assert(entries.deep_view() =~= dv.push(kv));
}

/// The entries of `pairs` inserted in order into an empty map.
fn insert_pairs<K: MapKey, V: DeepView>(pairs: Vec<(K, V)>) -> (r: Vec<(K, V)>)
    ensures
        r.deep_view() == insert_all(Seq::<(K::V, V::V)>::empty(), pairs.deep_view()),
{
    let ghost pv = pairs.deep_view();
    let mut entries: Vec<(K, V)> = Vec::new();
    let mut pairs = pairs;
    proof {
        assert(entries.deep_view() =~= Seq::<(K::V, V::V)>::empty());
        assert(pv.skip(0) =~= pv);
    }
    let mut i: usize = 0;
    let total = pairs.len();
    while pairs.len() > 0
        invariant
            total == pv.len(),
            i + pairs@.len() == total,
            forall|m: int| 0 <= m < pairs@.len() ==> (#[trigger] pairs@[m]).deep_view() == pv[i + m],
            keys_unique(entries.deep_view()),
            insert_all(Seq::<(K::V, V::V)>::empty(), pv) == insert_all(entries.deep_view(), pv.skip(i as int)),
        decreases pairs@.len(),
    {
        let ghost before = pairs@;
        let (k, v) = pairs.remove(0);
        assert((k, v).deep_view() == pv[i as int]);
        assert forall|m: int| 0 <= m < pairs@.len() implies (#[trigger] pairs@[m]).deep_view()
            == pv[i + 1 + m] by {
            assert(pairs@[m] == before[m + 1]);
        }
        insert_entry(&mut entries, k, v);
        proof {
            assert(pv.skip(i as int).drop_first() =~= pv.skip(i + 1));
            assert(pv.skip(i as int)[0] == pv[i as int]);
        }
        i = i + 1;
    }
    proof {
        assert(pv.skip(i as int).len() == 0);
    }
    entries
}

/// The wire form of entries under a count of `width` bytes.
pub open spec fn entries_bytes<K: Encoder, V: Encoder>(d: Seq<(K::V, V::V)>, width: nat) -> Seq<u8> {
    le_bytes(d.len(), width) + items_bytes::<(K, V)>(d)
}

/// Entries with a wire form: unique keys, a count that fits `width` bytes,
/// and a wire form for each key and value.
pub open spec fn entries_encodable<K: Encoder, V: Encoder>(d: Seq<(K::V, V::V)>, width: nat) -> bool {
    &&& d.len() < crate::le::pow256(width)
    &&& keys_unique(d)
    &&& forall|i: int| 0 <= i < d.len() ==> <(K, V)>::encodable(#[trigger] d[i])
}

/// Decoding a count of `width` bytes, then that many pairs, inserted in order.
pub open spec fn parse_entries<K: Decoder, V: Decoder>(bytes: Seq<u8>, fds: Seq<i32>, width: nat) -> Option<
    (Seq<(K::V, V::V)>, nat, nat),
> {
    if bytes.len() < width {
        None
    } else {
        match parse_items::<(K, V)>(le_value(bytes.take(width as int)), bytes.skip(width as int), fds) {
            None => None,
            Some((pairs, n, k)) => Some((insert_all(Seq::empty(), pairs), width + n, k)),
        }
    }
}

proof fn lemma_parse_entries_within<K: Decoder, V: Decoder>(bytes: Seq<u8>, fds: Seq<i32>, width: nat)
    ensures
        parse_entries::<K, V>(bytes, fds, width) matches Some((_, n, k)) ==> n <= bytes.len() && k
            <= fds.len(),
{
    if bytes.len() >= width {
        lemma_parse_items_within::<(K, V)>(
            le_value(bytes.take(width as int)),
            bytes.skip(width as int),
            fds,
        );
    }
}

proof fn lemma_entries_round_trip<K: Decoder, V: Decoder>(
    d: Seq<(K::V, V::V)>,
    width: nat,
    rest: Seq<u8>,
    fd_rest: Seq<i32>,
)
    requires
        entries_encodable::<K, V>(d, width),
    ensures
        parse_entries::<K, V>(entries_bytes::<K, V>(d, width) + rest, items_fds::<(K, V)>(d) + fd_rest, width)
            == Some((d, entries_bytes::<K, V>(d, width).len(), items_fds::<(K, V)>(d).len())),
{
    lemma_le_round_trip(d.len(), width);
    let all = le_bytes(d.len(), width) + items_bytes::<(K, V)>(d) + rest;
    assert(entries_bytes::<K, V>(d, width) + rest =~= all);
    assert(all.take(width as int) =~= le_bytes(d.len(), width));
    assert(all.skip(width as int) =~= items_bytes::<(K, V)>(d) + rest);
    lemma_items_round_trip::<(K, V)>(d, rest, fd_rest);
    assert(Seq::<(K::V, V::V)>::empty() + d =~= d);
    lemma_insert_all_distinct(Seq::<(K::V, V::V)>::empty(), d);
}

/// The bytes and descriptors of `d` under a count of `width` bytes.
fn encode_entries<K: MapKey, V: Decoder>(d: &Vec<(K, V)>, width: usize) -> (r: Option<(Vec<u8>, FDsToSend)>)
    requires
        width == 4 || width == 8,
    ensures
        match r {
            Some((b, f)) => entries_encodable::<K, V>(d.deep_view(), width as nat) && b@
                == entries_bytes::<K, V>(d.deep_view(), width as nat) && f.fds@ == items_fds::<(K, V)>(
                d.deep_view(),
            ),
            None => !entries_encodable::<K, V>(d.deep_view(), width as nat),
        },
{
    proof {
        lemma_pow256_4_8();
    }
    if width == 4 && d.len() > u32::MAX as usize {
        return None;
    }
    if !entries_have_unique_keys(d) {
        return None;
    }
    let mut bytes: Vec<u8> = Vec::new();
    let mut fds = FDsToSend { fds: Vec::new() };
    push_le(&mut bytes, d.len() as u64, width);
    if !encode_items(d, &mut bytes, &mut fds) {
        return None;
    }
    proof {
        assert(fds.fds@ =~= items_fds::<(K, V)>(d.deep_view()));
    }
    Some((bytes, fds))
}

/// Reads a count of `width` bytes and that many pairs, inserted in order.
fn decode_entries<K: MapKey, V: Decoder>(it: &mut VecDeque<u8>, fds: &mut FDsToSend, width: usize) -> (r:
    Option<Vec<(K, V)>>)
    requires
        width == 4 || width == 8,
    ensures
        match parse_entries::<K, V>(old(it)@, old(fds).fds@, width as nat) {
            Some((v, n, k)) => r matches Some(x) && x.deep_view() == v && final(it)@ == old(it)@.skip(n as int)
                && final(fds).fds@ == old(fds).fds@.skip(k as int),
            None => r is None,
        },
{
    let count = match pop_le(it, width) {
        Some(x) => x,
        None => {
            return None;
        },
    };
    proof {
        lemma_parse_items_within::<(K, V)>(count as nat, old(it)@.skip(width as int), old(fds).fds@);
        lemma_le_value_bound(old(it)@.take(width as int));
        lemma_pow256_4_8();
    }
    let pairs = match decode_items::<(K, V)>(count, it, fds) {
        Some(p) => p,
        None => {
            return None;
        },
    };
    proof {
        let (_, n, k) = parse_items::<(K, V)>(
            count as nat,
            old(it)@.skip(width as int),
            old(fds).fds@,
        ).unwrap();
        assert(old(it)@.skip(width as int).skip(n as int) =~= old(it)@.skip(width + n as int));
    }
    Some(insert_pairs(pairs))
}

/// The entries of a dictionary, in order: (key, value).
pub type DictView = Seq<(Seq<char>, Seq<char>)>;

/// A string-to-string map whose wire count is a `u64`.
pub enum Dictionary {
    Data(Vec<(String, String)>),
}

impl DeepView for Dictionary {
    type V = DictView;

    open spec fn deep_view(&self) -> DictView {
        match self {
            Dictionary::Data(d) => d.deep_view(),
        }
    }
}

impl Dictionary {
    /// A dictionary with the same entries.
    pub fn duplicate(&self) -> (r: Dictionary)
        ensures
            r.deep_view() == self.deep_view(),
    {
        match self {
            Dictionary::Data(d) => {
                let mut out: Vec<(String, String)> = Vec::new();
                let mut i: usize = 0;
                while i < d.len()
                    invariant
                        i <= d@.len(),
                        out.deep_view() == d.deep_view().take(i as int),
                    decreases d@.len() - i,
                {
                    let entry = (d[i].0.clone(), d[i].1.clone());
                    assert(entry.deep_view() == d.deep_view()[i as int]);
                    let ghost before = out.deep_view();
                    out.push(entry);
                    assert(out.deep_view() =~= before.push(entry.deep_view()));
                    i = i + 1;
                    assert(out.deep_view() =~= d.deep_view().take(i as int));
                }
                assert(d.deep_view().take(i as int) =~= d.deep_view());
                Dictionary::Data(out)
            },
        }
    }
}

impl Encoder for Dictionary {
    /// Keys are unique, there are fewer than `2^64` of them, and each key and
    /// value has a wire form.
    open spec fn encodable(v: DictView) -> bool {
        entries_encodable::<String, String>(v, 8)
    }

    open spec fn wire_bytes(v: DictView) -> Seq<u8> {
        entries_bytes::<String, String>(v, 8)
    }

    open spec fn wire_fds(v: DictView) -> Seq<i32> {
        items_fds::<(String, String)>(v)
    }

    fn encode(data: &Dictionary) -> (r: Option<(Vec<u8>, FDsToSend)>) {
        match data {
            Dictionary::Data(d) => encode_entries(d, 8),
        }
    }
}

impl Decoder for Dictionary {
    /// A `u64` count of (key, value) pairs, inserted in order: where a key
    /// comes again, its last value stands.
    open spec fn parse(bytes: Seq<u8>, fds: Seq<i32>) -> Option<(DictView, nat, nat)> {
        parse_entries::<String, String>(bytes, fds, 8)
    }

    proof fn lemma_parse_within(bytes: Seq<u8>, fds: Seq<i32>) {
        lemma_parse_entries_within::<String, String>(bytes, fds, 8);
    }

    proof fn lemma_round_trip(v: DictView, rest: Seq<u8>, fd_rest: Seq<i32>) {
        lemma_entries_round_trip::<String, String>(v, 8, rest, fd_rest);
    }

    fn decode(it: &mut VecDeque<u8>, fds: &mut FDsToSend) -> (r: Option<Dictionary>) {
        match decode_entries::<String, String>(it, fds, 8) {
            Some(d) => Some(Dictionary::Data(d)),
            None => None,
        }
    }
}

/// A map from keys of one codable type to values of another, whose wire
/// count is a `u32`. Entries keep the order in which their keys came.
pub struct CodableMap<K, V> {
    pub entries: Vec<(K, V)>,
}

impl<K: DeepView, V: DeepView> DeepView for CodableMap<K, V> {
    type V = Seq<(K::V, V::V)>;

    open spec fn deep_view(&self) -> Seq<(K::V, V::V)> {
        self.entries.deep_view()
    }
}

impl<K: MapKey, V: Decoder> Encoder for CodableMap<K, V> {
    /// Keys are unique, there are at most `u32::MAX` of them, and each key and
    /// value has a wire form.
    open spec fn encodable(v: Seq<(K::V, V::V)>) -> bool {
        entries_encodable::<K, V>(v, 4)
    }

    open spec fn wire_bytes(v: Seq<(K::V, V::V)>) -> Seq<u8> {
        entries_bytes::<K, V>(v, 4)
    }

    open spec fn wire_fds(v: Seq<(K::V, V::V)>) -> Seq<i32> {
        items_fds::<(K, V)>(v)
    }

    fn encode(data: &CodableMap<K, V>) -> (r: Option<(Vec<u8>, FDsToSend)>) {
        encode_entries(&data.entries, 4)
    }
}

impl<K: MapKey, V: Decoder> Decoder for CodableMap<K, V> {
    /// A `u32` count of (key, value) pairs, inserted in order: where a key
    /// comes again, its last value stands.
    open spec fn parse(bytes: Seq<u8>, fds: Seq<i32>) -> Option<(Seq<(K::V, V::V)>, nat, nat)> {
        parse_entries::<K, V>(bytes, fds, 4)
    }

    proof fn lemma_parse_within(bytes: Seq<u8>, fds: Seq<i32>) {
        lemma_parse_entries_within::<K, V>(bytes, fds, 4);
    }

    proof fn lemma_round_trip(v: Seq<(K::V, V::V)>, rest: Seq<u8>, fd_rest: Seq<i32>) {
        lemma_entries_round_trip::<K, V>(v, 4, rest, fd_rest);
    }

    fn decode(it: &mut VecDeque<u8>, fds: &mut FDsToSend) -> (r: Option<CodableMap<K, V>>) {
        match decode_entries::<K, V>(it, fds, 4) {
            Some(entries) => Some(CodableMap { entries }),
            None => None,
        }
    }
}

} // verus!

use serenity_ipc::buffer::AnonymousBuffer;
use serenity_ipc::codec::{Decoder, Encoder, FDsToSend, File, Message};
use serenity_ipc::dictionary::{CodableMap, Dictionary};
use std::collections::VecDeque;

fn queue(bytes: &[u8]) -> VecDeque<u8> {
    bytes.iter().cloned().collect()
}

fn no_fds() -> FDsToSend {
    FDsToSend::from_vec(Vec::new())
}

#[test]
fn u32_is_four_little_endian_bytes() {
    let (bytes, fds) = u32::encode(&0x1234_5678).unwrap();
    assert_eq!(bytes, vec![0x78, 0x56, 0x34, 0x12]);
    assert!(fds.fds.is_empty());
    let mut it = queue(&[0x78, 0x56, 0x34, 0x12, 0xaa]);
    assert_eq!(u32::decode(&mut it, &mut no_fds()), Some(0x1234_5678));
    assert_eq!(it, queue(&[0xaa]));
}

#[test]
fn u64_is_eight_little_endian_bytes() {
    let (bytes, _) = u64::encode(&0x0102_0304_0506_0708).unwrap();
    assert_eq!(bytes, vec![8, 7, 6, 5, 4, 3, 2, 1]);
    let mut it = queue(&bytes);
    assert_eq!(u64::decode(&mut it, &mut no_fds()), Some(0x0102_0304_0506_0708));
    assert!(it.is_empty());
}

#[test]
fn short_integers_fail_to_decode() {
    assert_eq!(u32::decode(&mut queue(&[1, 2, 3]), &mut no_fds()), None);
    assert_eq!(u64::decode(&mut queue(&[1, 2, 3, 4, 5, 6, 7]), &mut no_fds()), None);
    assert_eq!(bool::decode(&mut queue(&[]), &mut no_fds()), None);
}

#[test]
fn bool_reads_any_nonzero_byte_as_true() {
    assert_eq!(bool::encode(&true).unwrap().0, vec![1]);
    assert_eq!(bool::encode(&false).unwrap().0, vec![0]);
    assert_eq!(bool::decode(&mut queue(&[7]), &mut no_fds()), Some(true));
    assert_eq!(bool::decode(&mut queue(&[0]), &mut no_fds()), Some(false));
}

#[test]
fn string_is_length_then_utf8() {
    let s = String::from("héllo");
    let (bytes, _) = String::encode(&s).unwrap();
    let mut expected = vec![6, 0, 0, 0];
    expected.extend_from_slice("héllo".as_bytes());
    assert_eq!(bytes, expected);
    let mut it = queue(&bytes);
    assert_eq!(String::decode(&mut it, &mut no_fds()), Some(s));
    assert!(it.is_empty());
}

#[test]
fn empty_string_round_trips() {
    let (bytes, _) = String::encode(&String::new()).unwrap();
    assert_eq!(bytes, vec![0, 0, 0, 0]);
    assert_eq!(String::decode(&mut queue(&bytes), &mut no_fds()), Some(String::new()));
}

#[test]
fn null_length_reads_as_empty_string() {
    let mut it = queue(&[0xff, 0xff, 0xff, 0xff]);
    assert_eq!(String::decode(&mut it, &mut no_fds()), Some(String::new()));
    assert!(it.is_empty());
    let mut it = queue(&[0xff, 0xff, 0xff, 0xff, b'x']);
    assert_eq!(String::decode(&mut it, &mut no_fds()), Some(String::new()));
    assert_eq!(it, queue(&[b'x']));
}

#[test]
fn string_with_invalid_utf8_fails() {
    assert_eq!(String::decode(&mut queue(&[2, 0, 0, 0, 0xc3, 0x28]), &mut no_fds()), None);
}

#[test]
fn truncated_string_fails() {
    assert_eq!(String::decode(&mut queue(&[5, 0, 0, 0, b'a', b'b']), &mut no_fds()), None);
}

#[test]
fn vector_is_count_then_elements() {
    let v: Vec<u32> = vec![1, 0x0200];
    let (bytes, _) = <Vec<u32>>::encode(&v).unwrap();
    assert_eq!(bytes, vec![2, 0, 0, 0, 1, 0, 0, 0, 0, 2, 0, 0]);
    assert_eq!(<Vec<u32>>::decode(&mut queue(&bytes), &mut no_fds()), Some(v));
}

#[test]
fn vector_decoding_stops_at_first_failure() {
    assert_eq!(<Vec<u32>>::decode(&mut queue(&[2, 0, 0, 0, 1, 0, 0, 0, 9]), &mut no_fds()), None);
}

#[test]
fn tuple_is_its_fields_in_order() {
    let t = (5u32, true, String::from("ab"));
    let (bytes, _) = <(u32, bool, String)>::encode(&t).unwrap();
    assert_eq!(bytes, vec![5, 0, 0, 0, 1, 2, 0, 0, 0, b'a', b'b']);
    assert_eq!(<(u32, bool, String)>::decode(&mut queue(&bytes), &mut no_fds()), Some(t));
    let one = (7u64,);
    let (bytes, _) = <(u64,)>::encode(&one).unwrap();
    assert_eq!(<(u64,)>::decode(&mut queue(&bytes), &mut no_fds()), Some(one));
    let four = (1u32, 2u64, false, String::from("z"));
    let (bytes, _) = <(u32, u64, bool, String)>::encode(&four).unwrap();
    assert_eq!(bytes.len(), 4 + 8 + 1 + 5);
    assert_eq!(<(u32, u64, bool, String)>::decode(&mut queue(&bytes), &mut no_fds()), Some(four));
}

fn entries(d: &Dictionary) -> Vec<(String, String)> {
    match d {
        Dictionary::Data(e) => e.clone(),
    }
}

#[test]
fn dictionary_count_is_a_u64() {
    let d = Dictionary::Data(vec![(String::from("k"), String::from("v"))]);
    let (bytes, fds) = Dictionary::encode(&d).unwrap();
    assert_eq!(bytes, vec![1, 0, 0, 0, 0, 0, 0, 0, 1, 0, 0, 0, b'k', 1, 0, 0, 0, b'v']);
    assert!(fds.fds.is_empty());
    let back = Dictionary::decode(&mut queue(&bytes), &mut no_fds()).unwrap();
    assert_eq!(entries(&back), entries(&d));
}

#[test]
fn dictionary_with_repeated_key_has_no_wire_form() {
    let d = Dictionary::Data(vec![
        (String::from("k"), String::from("a")),
        (String::from("k"), String::from("b")),
    ]);
    assert!(Dictionary::encode(&d).is_none());
}

#[test]
fn dictionary_keeps_last_value_of_repeated_key() {
    let bytes = vec![
        3, 0, 0, 0, 0, 0, 0, 0, 1, 0, 0, 0, b'k', 1, 0, 0, 0, b'a', 1, 0, 0, 0, b'j', 1, 0, 0, 0,
        b'x', 1, 0, 0, 0, b'k', 1, 0, 0, 0, b'b',
    ];
    let d = Dictionary::decode(&mut queue(&bytes), &mut no_fds()).unwrap();
    assert_eq!(
        entries(&d),
        vec![
            (String::from("k"), String::from("b")),
            (String::from("j"), String::from("x")),
        ]
    );
}

#[test]
fn duplicate_keeps_entries() {
    let d = Dictionary::Data(vec![(String::from("a"), String::from("b"))]);
    assert_eq!(entries(&d.duplicate()), entries(&d));
}

#[test]
fn file_sends_one_descriptor_and_no_bytes() {
    let (bytes, fds) = File::encode(&File { fd: 9 }).unwrap();
    assert!(bytes.is_empty());
    assert_eq!(fds.fds, vec![9]);
    let mut fds = FDsToSend::from_vec(vec![9, 4]);
    assert_eq!(File::decode(&mut queue(&[]), &mut fds).map(|f| f.fd), Some(9));
    assert_eq!(fds.fds, vec![4]);
    assert!(File::decode(&mut queue(&[]), &mut no_fds()).is_none());
}

#[test]
fn descriptors_are_taken_in_the_order_sent() {
    let files = vec![File { fd: 11 }, File { fd: 12 }, File { fd: 13 }];
    let (bytes, fds) = <Vec<File>>::encode(&files).unwrap();
    assert_eq!(bytes, vec![3, 0, 0, 0]);
    assert_eq!(fds.fds, vec![11, 12, 13]);
    let mut incoming = FDsToSend::from_vec(vec![11, 12, 13, 99]);
    let back = <Vec<File>>::decode(&mut queue(&bytes), &mut incoming).unwrap();
    assert_eq!(back.iter().map(|f| f.fd).collect::<Vec<i32>>(), vec![11, 12, 13]);
    assert_eq!(incoming.fds, vec![99]);
}

#[test]
fn empty_argument_list_has_no_bytes() {
    let (bytes, fds) = Message::encode(&Message {}).unwrap();
    assert!(bytes.is_empty() && fds.fds.is_empty());
    assert!(Message::decode(&mut queue(&[1]), &mut no_fds()).is_some());
}

#[test]
fn invalid_buffer_is_one_byte_and_no_descriptor() {
    let (bytes, fds) = AnonymousBuffer::encode(&AnonymousBuffer::new()).unwrap();
    assert_eq!(bytes, vec![0]);
    assert!(fds.fds.is_empty());
    let mut incoming = FDsToSend::from_vec(vec![5]);
    let back = AnonymousBuffer::decode(&mut queue(&bytes), &mut incoming).unwrap();
    assert!(!back.is_valid());
    assert_eq!(back.size(), 0);
    assert_eq!(incoming.fds, vec![5]);
}

#[test]
fn valid_buffer_takes_exactly_one_descriptor() {
    let buffer = AnonymousBuffer::from_fd(6, 64).unwrap();
    let (bytes, fds) = AnonymousBuffer::encode(&buffer).unwrap();
    assert_eq!(bytes, vec![1, 64, 0, 0, 0]);
    assert_eq!(fds.fds, vec![6]);
    let mut incoming = FDsToSend::from_vec(vec![6, 8]);
    let back = AnonymousBuffer::decode(&mut queue(&bytes), &mut incoming).unwrap();
    assert!(back.is_valid());
    assert_eq!((back.fd(), back.size()), (6, 64));
    assert_eq!(incoming.fds, vec![8]);
}

#[test]
fn valid_buffer_without_descriptor_fails() {
    let mut it = queue(&[1, 16, 0, 0, 0]);
    assert!(AnonymousBuffer::decode(&mut it, &mut no_fds()).is_none());
}

#[test]
fn buffer_of_size_zero_cannot_be_mapped() {
    let mut incoming = FDsToSend::from_vec(vec![3]);
    assert!(AnonymousBuffer::decode(&mut queue(&[1, 0, 0, 0, 0]), &mut incoming).is_none());
    assert!(AnonymousBuffer::from_fd(3, 0).is_none());
    assert!(AnonymousBuffer::from_fd(-1, 8).is_none());
}

#[test]
fn fd_queue_is_first_in_first_out() {
    let mut q = FDsToSend::from_fd(1);
    q.receive_fds(vec![2, 3]);
    assert_eq!(q.take(), Some(1));
    assert_eq!(q.take(), Some(2));
    assert_eq!(q.take(), Some(3));
    assert_eq!(q.take(), None);
}

#[test]
fn encode_value_and_decode_value_skip_descriptors() {
    let bytes = u32::encode_value(&7).unwrap();
    assert_eq!(bytes, vec![7, 0, 0, 0]);
    assert_eq!(u32::decode_value(&mut queue(&bytes)), Some(7));
}

#[test]
fn general_map_count_is_a_u32() {
    let m = CodableMap { entries: vec![(7u32, String::from("x")), (9u32, String::from(""))] };
    let (bytes, _) = <CodableMap<u32, String>>::encode(&m).unwrap();
    assert_eq!(bytes, vec![2, 0, 0, 0, 7, 0, 0, 0, 1, 0, 0, 0, b'x', 9, 0, 0, 0, 0, 0, 0, 0]);
    let back = <CodableMap<u32, String>>::decode(&mut queue(&bytes), &mut no_fds()).unwrap();
    assert_eq!(back.entries, m.entries);
}

#[test]
fn general_map_keeps_last_value_of_repeated_key() {
    let bytes = vec![2, 0, 0, 0, 1, 1, 0, 0, 0, 0, 0, 0, 0, 1, 0, 0, 0, 0, 0, 0, 0, 0, 0];
    let back = <CodableMap<bool, u64>>::decode(&mut queue(&bytes), &mut no_fds()).unwrap();
    assert_eq!(back.entries, vec![(true, 0u64)]);
    let dup = CodableMap { entries: vec![(1u64, true), (1u64, false)] };
    assert!(<CodableMap<u64, bool>>::encode(&dup).is_none());
}

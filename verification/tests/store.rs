use ttrpc::error::Error;
use ttrpc::fdstore::{MessageStore, SockMessage, SOCK_NAME_LEN};
use ttrpc::proto::WireMessage;

fn name(b: u8) -> Vec<u8> {
    vec![b; SOCK_NAME_LEN]
}

fn msg(payload: &[u8]) -> WireMessage {
    WireMessage { payload: payload.to_vec() }
}

fn record(b: u8, id: u64, payload: &[u8]) -> SockMessage {
    SockMessage { sock_name: name(b), id, message: msg(payload) }
}

#[test]
fn record_round_trip() {
    let r = record(b'A', 7, &[1, 2, 3]);
    let mut bytes: Vec<u8> = Vec::new();
    r.write_to(&mut bytes);

    // Wire-exact framing: 36 identity bytes, 8 big-endian id bytes, then the
    // frame's length-prefixed encoding.
    assert_eq!(bytes.len(), 36 + 8 + 4 + 3);
    assert_eq!(&bytes[..36], &name(b'A')[..]);
    assert_eq!(&bytes[36..44], &[0, 0, 0, 0, 0, 0, 0, 7]);
    assert_eq!(&bytes[44..48], &[0, 0, 0, 3]);
    assert_eq!(&bytes[48..], &[1, 2, 3]);

    let (back, used) = SockMessage::read_from(&bytes, 0).unwrap();
    assert_eq!(used, bytes.len());
    assert_eq!(back.sock_name, name(b'A'));
    assert_eq!(back.id, 7);
    assert_eq!(back.message.payload, vec![1, 2, 3]);
}

#[test]
fn record_round_trip_empty_payload() {
    let r = record(b'z', u64::MAX, &[]);
    let mut bytes: Vec<u8> = Vec::new();
    r.write_to(&mut bytes);
    assert_eq!(bytes.len(), 48);
    let (back, used) = SockMessage::read_from(&bytes, 0).unwrap();
    assert_eq!(used, 48);
    assert_eq!(back.sock_name, name(b'z'));
    assert_eq!(back.id, u64::MAX);
    assert!(back.message.payload.is_empty());
}

#[test]
fn clean_end_vs_torn_record() {
    let empty: Vec<u8> = Vec::new();
    match SockMessage::read_from(&empty, 0) {
        Err(Error::EndOfStream) => {},
        other => panic!("expected clean end of stream, got {:?}", other.is_ok()),
    }

    let r = record(b'A', 1, &[9, 9]);
    let mut bytes: Vec<u8> = Vec::new();
    r.write_to(&mut bytes);
    bytes.truncate(bytes.len() - 1);
    match SockMessage::read_from(&bytes, 0) {
        Err(Error::Decode) => {},
        other => panic!("expected a torn-record error, got {:?}", other.is_ok()),
    }
}

#[test]
fn frame_end_vs_decode_error() {
    let empty: Vec<u8> = Vec::new();
    assert!(matches!(WireMessage::read_from(&empty, 0), Err(Error::EndOfStream)));
    let short: Vec<u8> = vec![0, 0];
    assert!(matches!(WireMessage::read_from(&short, 0), Err(Error::Decode)));
    let hungry: Vec<u8> = vec![0, 0, 0, 9, 1];
    assert!(matches!(WireMessage::read_from(&hungry, 0), Err(Error::Decode)));
}

#[test]
fn insert_then_get_keeps_order() {
    let mut s = MessageStore::new();
    s.insert(name(b'A'), 0, msg(&[1]));
    s.insert(name(b'A'), 1, msg(&[2]));
    s.insert(name(b'A'), 2, msg(&[3]));
    s.remove(name(b'A'), 1);

    // Three inserts and one removal leave exactly the two non-removed
    // records, in their original insertion order.
    let got = s.get_messages(&name(b'A'));
    assert_eq!(got.len(), 2);
    assert_eq!(got[0].id, 0);
    assert_eq!(got[0].message.payload, vec![1]);
    assert_eq!(got[1].id, 2);
    assert_eq!(got[1].message.payload, vec![3]);
}

#[test]
fn remove_deletes_every_matching_id() {
    let mut s = MessageStore::new();
    s.insert(name(b'A'), 5, msg(&[1]));
    s.insert(name(b'A'), 5, msg(&[2]));
    s.insert(name(b'A'), 6, msg(&[3]));
    s.remove(name(b'A'), 5);
    let got = s.get_messages(&name(b'A'));
    assert_eq!(got.len(), 1);
    assert_eq!(got[0].id, 6);
}

#[test]
fn unknown_identity_is_empty() {
    let s = MessageStore::new();
    assert!(s.get_messages(&name(b'Q')).is_empty());
}

#[test]
fn identities_are_independent() {
    let mut s = MessageStore::new();
    s.insert(name(b'A'), 0, msg(&[1]));
    s.insert(name(b'B'), 0, msg(&[2]));
    s.remove(name(b'A'), 0);
    assert!(s.get_messages(&name(b'A')).is_empty());
    let got = s.get_messages(&name(b'B'));
    assert_eq!(got.len(), 1);
    assert_eq!(got[0].message.payload, vec![2]);
}

#[test]
fn dump_then_load_rebuilds_sequences() {
    // Insert two records under one identity, dump, reload: the rebuilt
    // store holds the same sequence, order and content.
    let mut s = MessageStore::new();
    s.insert(name(b'A'), 0, msg(b"m1"));
    s.insert(name(b'A'), 1, msg(b"m2"));
    let image = s.dump();

    let loaded = MessageStore::load(&image).unwrap();
    let got = loaded.get_messages(&name(b'A'));
    assert_eq!(got.len(), 2);
    assert_eq!(got[0].id, 0);
    assert_eq!(got[0].message.payload, b"m1".to_vec());
    assert_eq!(got[1].id, 1);
    assert_eq!(got[1].message.payload, b"m2".to_vec());
}

#[test]
fn dump_then_load_many_identities() {
    let mut s = MessageStore::new();
    s.insert(name(b'A'), 0, msg(&[1]));
    s.insert(name(b'B'), 4, msg(&[2, 2]));
    s.insert(name(b'A'), 1, msg(&[3]));
    let image = s.dump();
    let loaded = MessageStore::load(&image).unwrap();
    let a = loaded.get_messages(&name(b'A'));
    assert_eq!(a.len(), 2);
    assert_eq!((a[0].id, a[1].id), (0, 1));
    let b = loaded.get_messages(&name(b'B'));
    assert_eq!(b.len(), 1);
    assert_eq!(b[0].id, 4);
    assert_eq!(b[0].message.payload, vec![2, 2]);
}

#[test]
fn removed_before_dump_leaves_no_trace() {
    // Insert then remove the same record before any dump: the next durable
    // image holds no trace of it.
    let mut s = MessageStore::new();
    s.insert(name(b'A'), 3, msg(&[7, 7]));
    s.remove(name(b'A'), 3);
    let image = s.dump();
    assert!(image.is_empty());
    let loaded = MessageStore::load(&image).unwrap();
    assert!(loaded.get_messages(&name(b'A')).is_empty());
}

#[test]
fn load_of_empty_image_is_empty_store() {
    let empty: Vec<u8> = Vec::new();
    let s = MessageStore::load(&empty).unwrap();
    assert!(s.get_messages(&name(b'A')).is_empty());
}

#[test]
fn load_of_torn_image_is_fatal() {
    let mut s = MessageStore::new();
    s.insert(name(b'A'), 0, msg(&[1, 2, 3, 4]));
    let mut image = s.dump();
    image.truncate(image.len() - 2);
    assert!(matches!(MessageStore::load(&image), Err(Error::Decode)));
}

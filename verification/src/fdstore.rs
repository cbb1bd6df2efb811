//! Crash-survivable message store: an in-memory index of pending inbound
//! messages per connection identity, together with the durable-record
//! framing used to rewrite the whole index as one byte image and to read it
//! back after a restart.
//!
//! A durable record is framed as the raw 36-byte connection identity,
//! the record id as 8 big-endian bytes, then the frame's self-delimiting
//! encoding. The byte image of the store is the concatenation of every
//! record of every identity, in index-then-arrival order. The store itself
//! never touches a file: `load` takes the image read from the durable
//! handle, and `dump` returns the image the caller must write back after
//! every mutation.

use vstd::prelude::*;

use crate::error::Error;
use crate::proto::{
    clone_bytes, message_bytes, msg_wf, parse_message, push_u64, read_u64_at, u64_bytes,
    u64_of, lemma_u64_round_trip, lemma_message_round_trip, WireMessage,
};

verus! {

/// Fixed width of a connection identity inside a durable record.
pub const SOCK_NAME_LEN: usize = 36;

/// Mathematical model of one durable record.
#[verifier::ext_equal]
pub struct SockMessageView {
    pub sock_name: Seq<u8>,
    pub id: u64,
    pub message: Seq<u8>,
}

/// A record is well formed when its identity has the fixed width and its
/// frame is encodable.
pub open spec fn record_wf(r: SockMessageView) -> bool {
    &&& r.sock_name.len() == SOCK_NAME_LEN
    &&& msg_wf(r.message)
}

/// The framing of one durable record.
pub open spec fn record_bytes(r: SockMessageView) -> Seq<u8> {
    r.sock_name + u64_bytes(r.id) + message_bytes(r.message)
}

/// What decoding one record at the front of `b` yields: the record and the
/// number of bytes consumed, or `None` when `b` holds no whole record.
pub open spec fn parse_record(b: Seq<u8>) -> Option<(SockMessageView, int)> {
    if b.len() < 44 {
        None
    } else {
        match parse_message(b.subrange(44, b.len() as int)) {
            None => None,
            Some((m, n)) => Some(
                (
                    SockMessageView {
                        sock_name: b.subrange(0, SOCK_NAME_LEN as int),
                        id: u64_of(b.subrange(SOCK_NAME_LEN as int, 44)),
                        message: m,
                    },
                    44 + n,
                ),
            ),
        }
    }
}

/// A record's framing decodes back to that record, whatever follows it.
pub proof fn lemma_record_round_trip(r: SockMessageView, rest: Seq<u8>)
    requires
        record_wf(r),
    ensures
        record_bytes(r).len() == 48 + r.message.len(),
        parse_record(record_bytes(r) + rest)
            == Some((r, record_bytes(r).len() as int)),
{
    let b = record_bytes(r) + rest;
    assert(b.subrange(44, b.len() as int) =~= message_bytes(r.message) + rest);
    lemma_message_round_trip(r.message, rest);
    assert(b.subrange(0, SOCK_NAME_LEN as int) =~= r.sock_name);
    assert(b.subrange(SOCK_NAME_LEN as int, 44) =~= u64_bytes(r.id));
    lemma_u64_round_trip(r.id);
    let (parsed, n) = parse_record(b).unwrap();
    assert(parsed =~= r);
}

/// One pending inbound message as held in memory and on disk.
pub struct SockMessage {
    pub sock_name: Vec<u8>,
    pub id: u64,
    pub message: WireMessage,
}

impl View for SockMessage {
    type V = SockMessageView;

    open spec fn view(&self) -> SockMessageView {
        SockMessageView { sock_name: self.sock_name@, id: self.id, message: self.message@ }
    }
}

impl Clone for SockMessage {
    /// The copy models the same record.
    fn clone(&self) -> (r: Self)
        ensures
            r@ == self@,
    {
        SockMessage {
            sock_name: clone_bytes(&self.sock_name),
            id: self.id,
            message: self.message.clone(),
        }
    }
}

impl SockMessage {
    /// Appends this record's framing to `out`.
    pub fn write_to(&self, out: &mut Vec<u8>)
        requires
            record_wf(self@),
        ensures
            final(out)@ == old(out)@ + record_bytes(self@),
    {
        let ghost start = out@;
        let mut i: usize = 0;
        while i < self.sock_name.len()
            invariant
                i <= self.sock_name.len(),
                out@ == start + self.sock_name@.subrange(0, i as int),
            decreases self.sock_name.len() - i,
        {
            out.push(self.sock_name[i]);
            i += 1;
            proof {
                assert(out@ =~= start + self.sock_name@.subrange(0, i as int));
            }
        }
        proof {
            assert(self.sock_name@.subrange(0, self.sock_name@.len() as int)
                =~= self.sock_name@);
        }
        push_u64(out, self.id);
        self.message.write_to(out);
        proof {
            assert(out@ =~= start + record_bytes(self@));
        }
    }

    /// Decodes one record from `buf` starting at `pos`. `EndOfStream` means a
    /// clean end before any byte of a new record; `Decode` means a torn
    /// record: bytes were available but not a whole record.
    pub fn read_from(buf: &Vec<u8>, pos: usize) -> (r: Result<(SockMessage, usize), Error>)
        requires
            pos <= buf@.len(),
        ensures
            match r {
                Ok((m, p2)) => {
                    &&& parse_record(buf@.subrange(pos as int, buf@.len() as int))
                        == Some((m@, p2 - pos))
                    &&& pos < p2 <= buf@.len()
                    &&& record_wf(m@)
                },
                Err(e) => {
                    &&& (e == Error::EndOfStream <==> pos == buf@.len())
                    &&& (e == Error::Decode <==> pos < buf@.len())
                    &&& parse_record(buf@.subrange(pos as int, buf@.len() as int)).is_none()
                },
            },
    {
        let ghost tail = buf@.subrange(pos as int, buf@.len() as int);
        let blen = buf.len();
        if pos == blen {
            return Err(Error::EndOfStream);
        }
        if blen - pos < 44 {
            return Err(Error::Decode);
        }
        let mut sock_name: Vec<u8> = Vec::new();
        let mut i: usize = 0;
        while i < SOCK_NAME_LEN
            invariant
                i <= SOCK_NAME_LEN,
                pos + 44 <= blen == buf@.len(),
                sock_name@ == buf@.subrange(pos as int, pos as int + i as int),
            decreases SOCK_NAME_LEN - i,
        {
            sock_name.push(buf[pos + i]);
            i += 1;
            proof {
                assert(sock_name@ =~= buf@.subrange(pos as int, pos as int + i as int));
            }
        }
        let id = read_u64_at(buf, pos + SOCK_NAME_LEN);
        proof {
            assert(tail.subrange(0, SOCK_NAME_LEN as int)
                =~= buf@.subrange(pos as int, pos as int + SOCK_NAME_LEN as int));
            assert(tail.subrange(SOCK_NAME_LEN as int, 44)
                =~= buf@.subrange(pos as int + SOCK_NAME_LEN as int, pos as int + 44));
            assert(tail.subrange(44, tail.len() as int)
                =~= buf@.subrange(pos as int + 44, buf@.len() as int));
        }
        match WireMessage::read_from(buf, pos + 44) {
            Ok((message, p2)) => {
                let m = SockMessage { sock_name, id, message };
                proof {
                    let (pr, pn) = parse_record(tail).unwrap();
                    assert(pr =~= m@);
                }
                Ok((m, p2))
            },
            Err(_) => Err(Error::Decode),
        }
    }
}

/// Mathematical model of one identity's slot in the store.
#[verifier::ext_equal]
pub struct StoreEntryView {
    pub key: Seq<u8>,
    pub msgs: Seq<SockMessageView>,
}

/// An entry is well formed when its key has the fixed width and every record
/// in it is well formed and carries the entry's key as its identity.
pub open spec fn entry_wf(e: StoreEntryView) -> bool {
    &&& e.key.len() == SOCK_NAME_LEN
    &&& forall|j: int|
        0 <= j < e.msgs.len() ==> record_wf(#[trigger] e.msgs[j]) && e.msgs[j].sock_name == e.key
}

/// No two entries share an identity.
pub open spec fn keys_unique(s: Seq<StoreEntryView>) -> bool {
    forall|a: int, b: int| 0 <= a < b < s.len() ==> s[a].key != s[b].key
}

/// The store's invariant.
pub open spec fn store_wf(s: Seq<StoreEntryView>) -> bool {
    &&& keys_unique(s)
    &&& forall|i: int| 0 <= i < s.len() ==> entry_wf(#[trigger] s[i])
}

/// The records held for identity `k`, in arrival order; empty when unknown.
pub open spec fn msgs_of(s: Seq<StoreEntryView>, k: Seq<u8>) -> Seq<SockMessageView>
    decreases s.len(),
{
    if s.len() == 0 {
        Seq::empty()
    } else if s[0].key == k {
        s[0].msgs
    } else {
        msgs_of(s.skip(1), k)
    }
}

/// `msgs` with every record whose id is `id` deleted, order kept.
pub open spec fn remove_id(msgs: Seq<SockMessageView>, id: u64) -> Seq<SockMessageView>
    decreases msgs.len(),
{
    if msgs.len() == 0 {
        Seq::empty()
    } else {
        let rest = remove_id(msgs.drop_last(), id);
        if msgs.last().id == id {
            rest
        } else {
            rest.push(msgs.last())
        }
    }
}

/// The records of `rs` whose identity is `k`, order kept.
pub open spec fn records_for(rs: Seq<SockMessageView>, k: Seq<u8>) -> Seq<SockMessageView>
    decreases rs.len(),
{
    if rs.len() == 0 {
        Seq::empty()
    } else {
        let rest = records_for(rs.drop_last(), k);
        if rs.last().sock_name == k {
            rest.push(rs.last())
        } else {
            rest
        }
    }
}

/// Every record of the store, entry order then arrival order.
pub open spec fn records_of(s: Seq<StoreEntryView>) -> Seq<SockMessageView>
    decreases s.len(),
{
    if s.len() == 0 {
        Seq::empty()
    } else {
        s[0].msgs + records_of(s.skip(1))
    }
}

/// The concatenated framing of the records of `rs`.
pub open spec fn records_bytes(rs: Seq<SockMessageView>) -> Seq<u8>
    decreases rs.len(),
{
    if rs.len() == 0 {
        Seq::empty()
    } else {
        record_bytes(rs[0]) + records_bytes(rs.skip(1))
    }
}

/// The durable image of the store.
pub open spec fn store_bytes(s: Seq<StoreEntryView>) -> Seq<u8> {
    records_bytes(records_of(s))
}

/// What decoding a whole durable image yields: every record in order, or
/// `None` when the image ends inside a record.
pub open spec fn parse_records(b: Seq<u8>) -> Option<Seq<SockMessageView>>
    decreases b.len(),
{
    if b.len() == 0 {
        Some(Seq::empty())
    } else {
        match parse_record(b) {
            None => None,
            Some((r, n)) => match parse_records(b.skip(n)) {
                None => None,
                Some(rs) => Some(seq![r] + rs),
            },
        }
    }
}

/// One identity's slot: the key and its records in arrival order.
pub struct StoreEntry {
    pub key: Vec<u8>,
    pub msgs: Vec<SockMessage>,
}

impl View for StoreEntry {
    type V = StoreEntryView;

    open spec fn view(&self) -> StoreEntryView {
        StoreEntryView { key: self.key@, msgs: self.msgs@.map_values(|m: SockMessage| m@) }
    }
}

/// The in-memory index of pending messages per connection identity.
///
/// The durable file is the caller's: after every mutation the caller must
/// rewrite it wholesale with the image `dump` returns.
pub struct MessageStore {
    entries: Vec<StoreEntry>,
}

impl View for MessageStore {
    type V = Seq<StoreEntryView>;

    closed spec fn view(&self) -> Seq<StoreEntryView> {
        self.entries@.map_values(|e: StoreEntry| e@)
    }
}

/// Do `a` and `b` hold the same bytes?
fn bytes_eq(a: &Vec<u8>, b: &Vec<u8>) -> (r: bool)
    ensures
        r <==> a@ == b@,
{
    if a.len() != b.len() {
        return false;
    }
    let mut i: usize = 0;
    while i < a.len()
        invariant
            i <= a@.len(),
            a@.len() == b@.len(),
            forall|j: int| 0 <= j < i ==> a@[j] == b@[j],
        decreases a@.len() - i,
    {
        if a[i] != b[i] {
            return false;
        }
        i += 1;
    }
    proof {
        assert(a@ =~= b@);
    }
    true
}

impl MessageStore {
    /// An empty store: no identity holds any record.
    pub fn new() -> (s: Self)
        ensures
            s@ == Seq::<StoreEntryView>::empty(),
            store_wf(s@),
    {
        let s = MessageStore { entries: Vec::new() };
        proof {
            assert(s@ =~= Seq::<StoreEntryView>::empty());
        }
        s
    }

    /// Index of the entry for `key`, if the identity is known.
    fn find(&self, key: &Vec<u8>) -> (r: Option<usize>)
        ensures
            match r {
                Some(i) => i < self@.len() && self@[i as int].key == key@,
                None => forall|i: int| 0 <= i < self@.len() ==> self@[i].key != key@,
            },
    {
        let mut i: usize = 0;
        while i < self.entries.len()
            invariant
                i <= self.entries@.len(),
                self@.len() == self.entries@.len(),
                forall|j: int| 0 <= j < i ==> self@[j].key != key@,
                forall|j: int| 0 <= j < self@.len() ==> self@[j] == self.entries@[j]@,
            decreases self.entries@.len() - i,
        {
            if bytes_eq(&self.entries[i].key, key) {
                return Some(i);
            }
            i += 1;
        }
        None
    }

    /// Rebuilds the store from a durable image: reads records until the clean
    /// end of the image, replaying each insert. A torn trailing record is a
    /// fatal `Decode` error, not an end of stream.
    pub fn load(bytes: &Vec<u8>) -> (r: Result<MessageStore, Error>)
        ensures
            match r {
                Ok(s) => {
                    &&& store_wf(s@)
                    &&& parse_records(bytes@).is_some()
                    &&& forall|k: Seq<u8>|
                        msgs_of(s@, k) == records_for(parse_records(bytes@).unwrap(), k)
                },
                Err(e) => {
                    &&& parse_records(bytes@).is_none()
                    &&& e == Error::Decode
                },
            },
    {
        let mut s = MessageStore::new();
        let mut pos: usize = 0;
        let ghost mut done: Seq<SockMessageView> = Seq::empty();
        proof {
            assert(bytes@.skip(0) =~= bytes@);
            match parse_records(bytes@) {
                None => {},
                Some(q) => {
                    assert(done + q =~= q);
                },
            }
        }
        loop
            invariant
                pos <= bytes@.len(),
                store_wf(s@),
                forall|k: Seq<u8>| msgs_of(s@, k) == records_for(done, k),
                parse_cont(bytes@, done, pos as int),
            decreases bytes@.len() - pos,
        {
            let ghost tail = bytes@.skip(pos as int);
            match SockMessage::read_from(bytes, pos) {
                Ok((m, p2)) => {
                    proof {
                        assert(tail =~= bytes@.subrange(pos as int, bytes@.len() as int));
                        assert(tail.skip(p2 - pos) =~= bytes@.skip(p2 as int));
                        lemma_parse_cont_step(bytes@, done, pos as int, m@, p2 as int);
                        assert forall|k: Seq<u8>|
                            records_for(done.push(m@), k) == (if k == m@.sock_name {
                                records_for(done, k).push(m@)
                            } else {
                                records_for(done, k)
                            }) by {
                            assert(done.push(m@).drop_last() =~= done);
                        }
                    }
                    s.insert_sock_message(m);
                    proof {
                        done = done.push(m@);
                    }
                    pos = p2;
                },
                Err(e) => {
                    if matches!(e, Error::EndOfStream) {
                        proof {
                            assert(tail =~= bytes@.subrange(pos as int, bytes@.len() as int));
                            assert(tail.len() == 0);
                            assert(parse_records(tail) == Some(Seq::<SockMessageView>::empty()));
                            assert(done + Seq::<SockMessageView>::empty() =~= done);
                        }
                        return Ok(s);
                    } else {
                        proof {
                            assert(tail =~= bytes@.subrange(pos as int, bytes@.len() as int));
                            assert(tail.len() > 0);
                            assert(parse_records(tail).is_none());
                        }
                        return Err(Error::Decode);
                    }
                },
            }
        }
    }

    /// Records a pending message for `sock_name` under `id`, appending it to
    /// that identity's sequence. The caller must rewrite the durable file
    /// with `dump` afterwards.
    pub fn insert(&mut self, sock_name: Vec<u8>, id: u64, message: WireMessage)
        requires
            store_wf(old(self)@),
            sock_name@.len() == SOCK_NAME_LEN,
            msg_wf(message@),
        ensures
            store_wf(final(self)@),
            msgs_of(final(self)@, sock_name@) == msgs_of(old(self)@, sock_name@).push(
                SockMessageView { sock_name: sock_name@, id, message: message@ },
            ),
            forall|k: Seq<u8>|
                k != sock_name@ ==> msgs_of(final(self)@, k) == msgs_of(old(self)@, k),
    {
        self.insert_sock_message(SockMessage { sock_name, id, message });
    }

    /// Appends one record to its identity's sequence, creating the entry if
    /// the identity is new.
    fn insert_sock_message(&mut self, m: SockMessage)
        requires
            store_wf(old(self)@),
            record_wf(m@),
        ensures
            store_wf(final(self)@),
            msgs_of(final(self)@, m@.sock_name) == msgs_of(old(self)@, m@.sock_name).push(m@),
            forall|k: Seq<u8>|
                k != m@.sock_name ==> msgs_of(final(self)@, k) == msgs_of(old(self)@, k),
    {
        let ghost s0 = self@;
        let ghost mv = m@;
        match self.find(&m.sock_name) {
            Some(i) => {
                let e = &mut self.entries[i];
                e.msgs.push(m);
                proof {
                    let e2 = StoreEntryView { key: s0[i as int].key, msgs: s0[i as int].msgs.push(mv) };
                    assert(final(e)@ =~= e2);
                    assert(self@ =~= s0.update(i as int, e2));
                    lemma_msgs_of_at(s0, mv.sock_name, i as int);
                    assert forall|k: Seq<u8>|
                        msgs_of(self@, k) == (if k == mv.sock_name {
                            msgs_of(s0, k).push(mv)
                        } else {
                            msgs_of(s0, k)
                        }) by {
                        lemma_msgs_of_update(s0, i as int, e2, k);
                    }
                    assert(store_wf(self@)) by {
                        assert(forall|j: int|
                            0 <= j < self@.len() && j != i ==> self@[j] == s0[j]);
                        assert(entry_wf(e2));
                    }
                }
            },
            None => {
                let key = clone_bytes(&m.sock_name);
                let mut msgs: Vec<SockMessage> = Vec::new();
                msgs.push(m);
                let entry = StoreEntry { key, msgs };
                proof {
                    assert(entry@.msgs =~= seq![mv]);
                }
                self.entries.push(entry);
                proof {
                    let e2 = StoreEntryView { key: mv.sock_name, msgs: seq![mv] };
                    assert(entry@ =~= e2);
                    assert(self@ =~= s0.push(e2));
                    lemma_msgs_of_absent(s0, mv.sock_name);
                    assert forall|k: Seq<u8>|
                        msgs_of(self@, k) == (if k == mv.sock_name {
                            msgs_of(s0, k).push(mv)
                        } else {
                            msgs_of(s0, k)
                        }) by {
                        lemma_msgs_of_push(s0, e2, k);
                        if k == mv.sock_name {
                            assert(Seq::<SockMessageView>::empty().push(mv) =~= seq![mv]);
                        }
                    }
                    assert(store_wf(self@)) by {
                        assert(forall|j: int| 0 <= j < s0.len() ==> self@[j] == s0[j]);
                        assert(entry_wf(e2));
                    }
                }
            },
        }
    }

    /// Deletes every record with id `id` from `sock_name`'s sequence (a no-op
    /// if none matches). The caller must rewrite the durable file with `dump`
    /// afterwards.
    pub fn remove(&mut self, sock_name: Vec<u8>, id: u64)
        requires
            store_wf(old(self)@),
        ensures
            store_wf(final(self)@),
            msgs_of(final(self)@, sock_name@) == remove_id(msgs_of(old(self)@, sock_name@), id),
            forall|k: Seq<u8>|
                k != sock_name@ ==> msgs_of(final(self)@, k) == msgs_of(old(self)@, k),
    {
        self.remove_sock_message(sock_name, id);
    }

    /// Deletes the matching records from the identity's in-memory sequence.
    fn remove_sock_message(&mut self, sock_name: Vec<u8>, id: u64)
        requires
            store_wf(old(self)@),
        ensures
            store_wf(final(self)@),
            msgs_of(final(self)@, sock_name@) == remove_id(msgs_of(old(self)@, sock_name@), id),
            forall|k: Seq<u8>|
                k != sock_name@ ==> msgs_of(final(self)@, k) == msgs_of(old(self)@, k),
    {
        let ghost s0 = self@;
        match self.find(&sock_name) {
            Some(i) => {
                let e = &mut self.entries[i];
                let ghost old_msgs = e@.msgs;
                let mut kept: Vec<SockMessage> = Vec::new();
                let mut j: usize = 0;
                while j < e.msgs.len()
                    invariant
                        j <= e.msgs@.len(),
                        (i as int) < s0.len(),
                        e@.msgs == old_msgs,
                        e@ == s0[i as int],
                        kept@.map_values(|m: SockMessage| m@)
                            == remove_id(old_msgs.take(j as int), id),
                    decreases e.msgs@.len() - j,
                {
                    proof {
                        assert(old_msgs.take(j as int + 1).drop_last() =~= old_msgs.take(j as int));
                        assert(old_msgs.take(j as int + 1).last() == old_msgs[j as int]);
                        assert(old_msgs[j as int] == e.msgs@[j as int]@);
                    }
                    if e.msgs[j].id != id {
                        let c = e.msgs[j].clone();
                        kept.push(c);
                        proof {
                            assert(kept@.map_values(|m: SockMessage| m@)
                                =~= remove_id(old_msgs.take(j as int), id).push(old_msgs[j as int]));
                        }
                    }
                    j += 1;
                }
                proof {
                    assert(old_msgs.take(old_msgs.len() as int) =~= old_msgs);
                }
                e.msgs = kept;
                proof {
                    let e2 = StoreEntryView { key: s0[i as int].key, msgs: remove_id(old_msgs, id) };
                    assert(final(e)@ =~= e2);
                    assert(self@ =~= s0.update(i as int, e2));
                    lemma_msgs_of_at(s0, sock_name@, i as int);
                    assert forall|k: Seq<u8>|
                        msgs_of(self@, k) == (if k == sock_name@ {
                            remove_id(msgs_of(s0, k), id)
                        } else {
                            msgs_of(s0, k)
                        }) by {
                        lemma_msgs_of_update(s0, i as int, e2, k);
                    }
                    assert(store_wf(self@)) by {
                        assert(forall|j2: int|
                            0 <= j2 < self@.len() && j2 != i ==> self@[j2] == s0[j2]);
                        lemma_remove_id_props(old_msgs, id, s0[i as int].key);
                        assert(entry_wf(e2));
                    }
                }
            },
            None => {
                proof {
                    lemma_msgs_of_absent(s0, sock_name@);
                    assert(remove_id(Seq::<SockMessageView>::empty(), id)
                        =~= Seq::<SockMessageView>::empty());
                }
            },
        }
    }

    /// A copy of the identity's current sequence, in arrival order; empty if
    /// the identity is unknown.
    pub fn get_messages(&self, key: &Vec<u8>) -> (r: Vec<SockMessage>)
        requires
            store_wf(self@),
        ensures
            r@.map_values(|m: SockMessage| m@) == msgs_of(self@, key@),
    {
        match self.find(key) {
            None => {
                proof {
                    lemma_msgs_of_absent(self@, key@);
                    assert(Seq::<SockMessage>::empty().map_values(|m: SockMessage| m@)
                        =~= Seq::<SockMessageView>::empty());
                }
                Vec::new()
            },
            Some(i) => {
                proof {
                    lemma_msgs_of_at(self@, key@, i as int);
                }
                let e = &self.entries[i];
                let mut r: Vec<SockMessage> = Vec::new();
                let mut j: usize = 0;
                while j < e.msgs.len()
                    invariant
                        j <= e.msgs@.len(),
                        (i as int) < self@.len(),
                        r@.len() == j,
                        forall|t: int| 0 <= t < j ==> r@[t]@ == e@.msgs[t],
                        e@ == self@[i as int],
                        msgs_of(self@, key@) == e@.msgs,
                    decreases e.msgs@.len() - j,
                {
                    let c = e.msgs[j].clone();
                    r.push(c);
                    j += 1;
                }
                proof {
                    assert(r@.map_values(|m: SockMessage| m@) =~= e@.msgs);
                }
                r
            },
        }
    }

    /// The full durable image of the store: every record of every identity,
    /// index order then arrival order. The sole write path to disk is the
    /// caller writing this image wholesale.
    pub fn dump(&self) -> (out: Vec<u8>)
        requires
            store_wf(self@),
        ensures
            out@ == store_bytes(self@),
    {
        let mut out: Vec<u8> = Vec::new();
        let mut i: usize = 0;
        proof {
            assert(records_of(self@.take(0)) =~= Seq::<SockMessageView>::empty());
        }
        while i < self.entries.len()
            invariant
                i <= self.entries@.len(),
                self@.len() == self.entries@.len(),
                store_wf(self@),
                forall|j: int| 0 <= j < self@.len() ==> self@[j] == self.entries@[j]@,
                out@ == records_bytes(records_of(self@.take(i as int))),
            decreases self.entries@.len() - i,
        {
            let e = &self.entries[i];
            let ghost rs0 = records_of(self@.take(i as int));
            let mut j: usize = 0;
            proof {
                assert(rs0 + e@.msgs.take(0) =~= rs0);
            }
            while j < e.msgs.len()
                invariant
                    j <= e.msgs@.len(),
                    e@ == self@[i as int],
                    0 <= i < self@.len(),
                    store_wf(self@),
                    out@ == records_bytes(rs0 + e@.msgs.take(j as int)),
                decreases e.msgs@.len() - j,
            {
                proof {
                    assert(record_wf(e@.msgs[j as int])) by {
                        assert(entry_wf(self@[i as int]));
                    }
                }
                e.msgs[j].write_to(&mut out);
                j += 1;
                proof {
                    assert(rs0 + e@.msgs.take(j as int)
                        =~= (rs0 + e@.msgs.take(j as int - 1)).push(e@.msgs[j as int - 1]));
                    lemma_records_bytes_push(rs0 + e@.msgs.take(j as int - 1), e@.msgs[j as int - 1]);
                }
            }
            i += 1;
            proof {
                assert(e@.msgs.take(e@.msgs.len() as int) =~= e@.msgs);
                assert(self@.take(i as int) =~= self@.take(i as int - 1).push(self@[i as int - 1]));
                lemma_records_of_push(self@.take(i as int - 1), self@[i as int - 1]);
            }
        }
        proof {
            assert(self@.take(self@.len() as int) =~= self@);
        }
        out
    }
}

/// `parse_records` of the whole image continues as `parse_records` of the
/// unread suffix, prefixed by what has already been replayed.
pub open spec fn parse_cont(whole: Seq<u8>, done: Seq<SockMessageView>, pos: int) -> bool {
    parse_records(whole) == (match parse_records(whole.skip(pos)) {
        None => None::<Seq<SockMessageView>>,
        Some(q) => Some(done + q),
    })
}

proof fn lemma_parse_cont_step(whole: Seq<u8>, done: Seq<SockMessageView>, pos: int, r: SockMessageView, p2: int)
    requires
        0 <= pos < p2 <= whole.len(),
        parse_cont(whole, done, pos),
        parse_record(whole.skip(pos)) == Some((r, p2 - pos)),
    ensures
        parse_cont(whole, done.push(r), p2),
{
    let tail = whole.skip(pos);
    assert(tail.len() > 0);
    assert(tail.skip(p2 - pos) =~= whole.skip(p2));
    match parse_records(whole.skip(p2)) {
        None => {
            assert(parse_records(tail).is_none());
        },
        Some(q) => {
            assert(parse_records(tail) == Some(seq![r] + q));
            assert(done + (seq![r] + q) =~= done.push(r) + q);
        },
    }
}

/// `msgs_of` at a known entry index.
pub proof fn lemma_msgs_of_at(s: Seq<StoreEntryView>, k: Seq<u8>, i: int)
    requires
        keys_unique(s),
        0 <= i < s.len(),
        s[i].key == k,
    ensures
        msgs_of(s, k) == s[i].msgs,
    decreases s.len(),
{
    if i == 0 {
    } else {
        assert(s[0].key != k);
        assert(keys_unique(s.skip(1))) by {
            assert(forall|a: int, b: int|
                0 <= a < b < s.skip(1).len() ==> s.skip(1)[a] == s[a + 1] && s.skip(1)[b] == s[b + 1]);
        }
        assert(s.skip(1)[i - 1] == s[i]);
        lemma_msgs_of_at(s.skip(1), k, i - 1);
    }
}

/// `msgs_of` of an unknown identity is empty.
pub proof fn lemma_msgs_of_absent(s: Seq<StoreEntryView>, k: Seq<u8>)
    requires
        forall|i: int| 0 <= i < s.len() ==> s[i].key != k,
    ensures
        msgs_of(s, k) == Seq::<SockMessageView>::empty(),
    decreases s.len(),
{
    if s.len() > 0 {
        assert(forall|i: int| 0 <= i < s.skip(1).len() ==> s.skip(1)[i] == s[i + 1]);
        lemma_msgs_of_absent(s.skip(1), k);
    }
}

/// Updating entry `i` changes `msgs_of` at its key alone.
proof fn lemma_msgs_of_update(s: Seq<StoreEntryView>, i: int, e2: StoreEntryView, k: Seq<u8>)
    requires
        keys_unique(s),
        0 <= i < s.len(),
        e2.key == s[i].key,
    ensures
        msgs_of(s.update(i, e2), k) == (if k == s[i].key {
            e2.msgs
        } else {
            msgs_of(s, k)
        }),
    decreases s.len(),
{
    let s2 = s.update(i, e2);
    if i == 0 {
        assert(s2[0] == e2);
        if k == s[0].key {
        } else {
            assert(s2.skip(1) =~= s.skip(1));
        }
    } else {
        assert(s2[0] == s[0]);
        if k == s[0].key {
            assert(s[i].key != s[0].key);
        } else {
            assert(keys_unique(s.skip(1))) by {
                assert(forall|a: int, b: int|
                    0 <= a < b < s.skip(1).len()
                        ==> s.skip(1)[a] == s[a + 1] && s.skip(1)[b] == s[b + 1]);
            }
            assert(s2.skip(1) =~= s.skip(1).update(i - 1, e2));
            assert(s.skip(1)[i - 1] == s[i]);
            lemma_msgs_of_update(s.skip(1), i - 1, e2, k);
        }
    }
}

/// Appending a fresh entry changes `msgs_of` at its key alone.
proof fn lemma_msgs_of_push(s: Seq<StoreEntryView>, e: StoreEntryView, k: Seq<u8>)
    requires
        forall|i: int| 0 <= i < s.len() ==> s[i].key != e.key,
    ensures
        msgs_of(s.push(e), k) == (if k == e.key {
            e.msgs
        } else {
            msgs_of(s, k)
        }),
    decreases s.len(),
{
    if s.len() == 0 {
        assert(s.push(e)[0] == e);
        if k != e.key {
            assert(s.push(e).skip(1) =~= Seq::<StoreEntryView>::empty());
            assert(msgs_of(s.push(e), k) == msgs_of(Seq::<StoreEntryView>::empty(), k));
        }
    } else {
        assert(s.push(e)[0] == s[0]);
        assert(s.push(e).skip(1) =~= s.skip(1).push(e));
        assert(forall|i: int|
            0 <= i < s.skip(1).len() ==> s.skip(1)[i].key != e.key) by {
            assert(forall|i: int| 0 <= i < s.skip(1).len() ==> s.skip(1)[i] == s[i + 1]);
        }
        lemma_msgs_of_push(s.skip(1), e, k);
        assert(s[0].key != e.key);
        if s[0].key != k {
            assert(msgs_of(s.push(e), k) == msgs_of(s.skip(1).push(e), k));
            assert(msgs_of(s, k) == msgs_of(s.skip(1), k));
        }
    }
}

/// `remove_id` keeps well-formed records with the entry's identity so.
proof fn lemma_remove_id_props(msgs: Seq<SockMessageView>, id: u64, key: Seq<u8>)
    requires
        forall|j: int|
            0 <= j < msgs.len() ==> record_wf(#[trigger] msgs[j]) && msgs[j].sock_name == key,
    ensures
        forall|j: int|
            0 <= j < remove_id(msgs, id).len()
                ==> record_wf(#[trigger] remove_id(msgs, id)[j])
                    && remove_id(msgs, id)[j].sock_name == key,
        remove_id(msgs, id).len() <= msgs.len(),
    decreases msgs.len(),
{
    if msgs.len() > 0 {
        assert(forall|j: int|
            0 <= j < msgs.drop_last().len() ==> msgs.drop_last()[j] == msgs[j]);
        lemma_remove_id_props(msgs.drop_last(), id, key);
    }
}

/// Framing one more record extends the concatenated framing at the end.
proof fn lemma_records_bytes_push(rs: Seq<SockMessageView>, r: SockMessageView)
    ensures
        records_bytes(rs.push(r)) == records_bytes(rs) + record_bytes(r),
    decreases rs.len(),
{
    if rs.len() == 0 {
        assert(rs.push(r)[0] == r);
        assert(rs.push(r).skip(1) =~= Seq::<SockMessageView>::empty());
        assert(records_bytes(rs.push(r))
            == record_bytes(r) + records_bytes(Seq::<SockMessageView>::empty()));
        assert(record_bytes(r) + Seq::<u8>::empty() =~= Seq::<u8>::empty() + record_bytes(r));
    } else {
        assert(rs.push(r)[0] == rs[0]);
        assert(rs.push(r).skip(1) =~= rs.skip(1).push(r));
        lemma_records_bytes_push(rs.skip(1), r);
        assert(records_bytes(rs.push(r))
            == record_bytes(rs[0]) + (records_bytes(rs.skip(1)) + record_bytes(r)));
        assert(records_bytes(rs) == record_bytes(rs[0]) + records_bytes(rs.skip(1)));
        assert(record_bytes(rs[0]) + (records_bytes(rs.skip(1)) + record_bytes(r))
            =~= (record_bytes(rs[0]) + records_bytes(rs.skip(1))) + record_bytes(r));
    }
}

/// Concatenating record sequences concatenates their framings.
proof fn lemma_records_bytes_add(a: Seq<SockMessageView>, b: Seq<SockMessageView>)
    ensures
        records_bytes(a + b) == records_bytes(a) + records_bytes(b),
    decreases a.len(),
{
    if a.len() == 0 {
        assert(a + b =~= b);
        assert(records_bytes(a) + records_bytes(b) =~= records_bytes(b));
    } else {
        assert((a + b)[0] == a[0]);
        assert((a + b).skip(1) =~= a.skip(1) + b);
        lemma_records_bytes_add(a.skip(1), b);
        assert(records_bytes(a + b)
            == record_bytes(a[0]) + (records_bytes(a.skip(1)) + records_bytes(b)));
        assert(records_bytes(a) == record_bytes(a[0]) + records_bytes(a.skip(1)));
        assert(record_bytes(a[0]) + (records_bytes(a.skip(1)) + records_bytes(b))
            =~= (record_bytes(a[0]) + records_bytes(a.skip(1))) + records_bytes(b));
    }
}

/// The concatenated framings of well-formed records parse record by record.
proof fn lemma_parse_records_concat(rs: Seq<SockMessageView>, rest: Seq<u8>)
    requires
        forall|j: int| 0 <= j < rs.len() ==> record_wf(#[trigger] rs[j]),
    ensures
        parse_records(records_bytes(rs) + rest) == (match parse_records(rest) {
            None => None::<Seq<SockMessageView>>,
            Some(q) => Some(rs + q),
        }),
    decreases rs.len(),
{
    if rs.len() == 0 {
        assert(records_bytes(rs) + rest =~= rest);
        match parse_records(rest) {
            None => {},
            Some(q) => {
                assert(rs + q =~= q);
            },
        }
    } else {
        let r0 = rs[0];
        let tl = rs.skip(1);
        assert(forall|j: int| 0 <= j < tl.len() ==> tl[j] == rs[j + 1]);
        lemma_parse_records_concat(tl, rest);
        let mid = records_bytes(tl) + rest;
        assert(records_bytes(rs) + rest =~= record_bytes(r0) + mid);
        lemma_record_round_trip(r0, mid);
        let b = record_bytes(r0) + mid;
        let n = record_bytes(r0).len() as int;
        assert(b.len() > 0);
        assert(b.skip(n) =~= mid);
        match parse_records(rest) {
            None => {
                assert(parse_records(b).is_none());
            },
            Some(q) => {
                assert(parse_records(b) == Some(seq![r0] + (tl + q)));
                assert(seq![r0] + (tl + q) =~= rs + q);
            },
        }
    }
}

/// `records_for` distributes over concatenation.
proof fn lemma_records_for_add(a: Seq<SockMessageView>, b: Seq<SockMessageView>, k: Seq<u8>)
    ensures
        records_for(a + b, k) == records_for(a, k) + records_for(b, k),
    decreases b.len(),
{
    if b.len() == 0 {
        assert(a + b =~= a);
        assert(records_for(a, k) + records_for(b, k) =~= records_for(a, k));
    } else {
        assert((a + b).drop_last() =~= a + b.drop_last());
        assert((a + b).last() == b.last());
        lemma_records_for_add(a, b.drop_last(), k);
        if b.last().sock_name == k {
            assert(records_for(a, k) + records_for(b.drop_last(), k).push(b.last())
                =~= (records_for(a, k) + records_for(b.drop_last(), k)).push(b.last()));
        }
    }
}

/// Among records that all carry one identity, `records_for` keeps all or none.
proof fn lemma_records_for_uniform(ms: Seq<SockMessageView>, key: Seq<u8>, k: Seq<u8>)
    requires
        forall|j: int| 0 <= j < ms.len() ==> (#[trigger] ms[j]).sock_name == key,
    ensures
        records_for(ms, k) == (if k == key {
            ms
        } else {
            Seq::<SockMessageView>::empty()
        }),
    decreases ms.len(),
{
    if ms.len() > 0 {
        assert(forall|j: int|
            0 <= j < ms.drop_last().len() ==> ms.drop_last()[j] == ms[j]);
        lemma_records_for_uniform(ms.drop_last(), key, k);
        if k == key {
            assert(ms.drop_last().push(ms.last()) =~= ms);
        }
    }
}

/// The image of a well-formed store parses back to exactly its records.
proof fn lemma_parse_store(s: Seq<StoreEntryView>)
    requires
        store_wf(s),
    ensures
        parse_records(store_bytes(s)) == Some(records_of(s)),
    decreases s.len(),
{
    if s.len() == 0 {
        assert(store_bytes(s) =~= Seq::<u8>::empty());
    } else {
        let tail = s.skip(1);
        assert(store_wf(tail)) by {
            assert(forall|i: int| 0 <= i < tail.len() ==> tail[i] == s[i + 1]);
        }
        lemma_parse_store(tail);
        assert(entry_wf(s[0]));
        assert(records_of(s) == s[0].msgs + records_of(tail));
        lemma_records_bytes_add(s[0].msgs, records_of(tail));
        assert(forall|j: int| 0 <= j < s[0].msgs.len() ==> record_wf(#[trigger] s[0].msgs[j]));
        lemma_parse_records_concat(s[0].msgs, records_bytes(records_of(tail)));
        assert(store_bytes(tail) == records_bytes(records_of(tail)));
        assert(parse_records(store_bytes(s)) == Some(s[0].msgs + records_of(tail)));
    }
}

/// Replaying a well-formed store's records gives each identity the sequence
/// it was dumped with.
proof fn lemma_dump_load_key(s: Seq<StoreEntryView>, k: Seq<u8>)
    requires
        store_wf(s),
    ensures
        records_for(records_of(s), k) == msgs_of(s, k),
    decreases s.len(),
{
    if s.len() == 0 {
    } else {
        let tail = s.skip(1);
        assert(store_wf(tail)) by {
            assert(forall|i: int| 0 <= i < tail.len() ==> tail[i] == s[i + 1]);
        }
        lemma_dump_load_key(tail, k);
        assert(entry_wf(s[0]));
        assert(records_of(s) == s[0].msgs + records_of(tail));
        lemma_records_for_add(s[0].msgs, records_of(tail), k);
        lemma_records_for_uniform(s[0].msgs, s[0].key, k);
        if k == s[0].key {
            assert(forall|i: int| 0 <= i < tail.len() ==> tail[i] == s[i + 1]);
            assert(forall|i: int| 0 <= i < tail.len() ==> tail[i].key != k);
            lemma_msgs_of_absent(tail, k);
            assert(s[0].msgs + Seq::<SockMessageView>::empty() =~= s[0].msgs);
        } else {
            assert(Seq::<SockMessageView>::empty() + records_for(records_of(tail), k)
                =~= records_for(records_of(tail), k));
        }
    }
}

/// Reloading the image written by `dump` rebuilds every identity's sequence
/// unchanged: the image parses to exactly the store's records, and replaying
/// them gives each identity the sequence it was dumped with.
pub proof fn lemma_dump_then_load(s: Seq<StoreEntryView>)
    requires
        store_wf(s),
    ensures
        parse_records(store_bytes(s)) == Some(records_of(s)),
        forall|k: Seq<u8>| records_for(records_of(s), k) == msgs_of(s, k),
{
    lemma_parse_store(s);
    assert forall|k: Seq<u8>| records_for(records_of(s), k) == msgs_of(s, k) by {
        lemma_dump_load_key(s, k);
    }
}

/// `ids` removed one after another, oldest removal first.
pub open spec fn remove_ids(msgs: Seq<SockMessageView>, ids: Seq<u64>) -> Seq<SockMessageView>
    decreases ids.len(),
{
    if ids.len() == 0 {
        msgs
    } else {
        remove_id(remove_ids(msgs, ids.drop_last()), ids.last())
    }
}

/// The records of `msgs` whose id is not among `ids`, in their original order.
pub open spec fn surviving(msgs: Seq<SockMessageView>, ids: Seq<u64>) -> Seq<SockMessageView>
    decreases msgs.len(),
{
    if msgs.len() == 0 {
        Seq::empty()
    } else {
        let rest = surviving(msgs.drop_last(), ids);
        if ids.contains(msgs.last().id) {
            rest
        } else {
            rest.push(msgs.last())
        }
    }
}

/// How many records of `msgs` carry an id among `ids`.
pub open spec fn hit_count(msgs: Seq<SockMessageView>, ids: Seq<u64>) -> int
    decreases msgs.len(),
{
    if msgs.len() == 0 {
        0
    } else {
        hit_count(msgs.drop_last(), ids) + (if ids.contains(msgs.last().id) {
            1int
        } else {
            0int
        })
    }
}

/// The removed ids partition the inserted records: the survivors number the
/// inserts less the records hit by a removal — with removals that each
/// delete one distinct present id, N inserts and M removals leave N - M.
pub proof fn lemma_surviving_count(msgs: Seq<SockMessageView>, ids: Seq<u64>)
    ensures
        surviving(msgs, ids).len() + hit_count(msgs, ids) == msgs.len(),
    decreases msgs.len(),
{
    if msgs.len() > 0 {
        lemma_surviving_count(msgs.drop_last(), ids);
    }
}

proof fn lemma_surviving_none(msgs: Seq<SockMessageView>)
    ensures
        surviving(msgs, Seq::empty()) == msgs,
    decreases msgs.len(),
{
    if msgs.len() > 0 {
        lemma_surviving_none(msgs.drop_last());
        assert(!Seq::<u64>::empty().contains(msgs.last().id));
        assert(msgs.drop_last().push(msgs.last()) =~= msgs);
    }
}

proof fn lemma_surviving_step(msgs: Seq<SockMessageView>, ids: Seq<u64>, d: u64)
    ensures
        remove_id(surviving(msgs, ids), d) == surviving(msgs, ids.push(d)),
    decreases msgs.len(),
{
    if msgs.len() == 0 {
    } else {
        let m = msgs.last();
        let rest = msgs.drop_last();
        let sv = surviving(rest, ids);
        lemma_surviving_step(rest, ids, d);
        if ids.contains(m.id) {
            assert(ids.push(d).contains(m.id)) by {
                let w = choose|w: int| 0 <= w < ids.len() && ids[w] == m.id;
                assert(ids.push(d)[w] == m.id);
            }
        } else {
            assert(surviving(msgs, ids) == sv.push(m));
            assert(sv.push(m).drop_last() =~= sv);
            assert(sv.push(m).last() == m);
            if m.id == d {
                assert(ids.push(d).contains(m.id)) by {
                    assert(ids.push(d)[ids.len() as int] == d);
                }
            } else {
                assert(!ids.push(d).contains(m.id)) by {
                    if ids.push(d).contains(m.id) {
                        let w = choose|w: int|
                            0 <= w < ids.push(d).len() && ids.push(d)[w] == m.id;
                        if w < ids.len() {
                            assert(ids[w] == m.id);
                        }
                    }
                }
            }
        }
    }
}

/// After inserting records in order and then removing ids one after another,
/// an identity holds exactly the records whose id was never removed, in their
/// original insertion order.
pub proof fn lemma_inserts_then_removals(msgs: Seq<SockMessageView>, ids: Seq<u64>)
    ensures
        remove_ids(msgs, ids) == surviving(msgs, ids),
    decreases ids.len(),
{
    if ids.len() == 0 {
        assert(ids =~= Seq::<u64>::empty());
        lemma_surviving_none(msgs);
    } else {
        lemma_inserts_then_removals(msgs, ids.drop_last());
        lemma_surviving_step(msgs, ids.drop_last(), ids.last());
        assert(remove_ids(msgs, ids)
            == remove_id(remove_ids(msgs, ids.drop_last()), ids.last()));
        assert(remove_id(surviving(msgs, ids.drop_last()), ids.last())
            == surviving(msgs, ids.drop_last().push(ids.last())));
        assert(ids.drop_last().push(ids.last()) =~= ids);
        assert(surviving(msgs, ids.drop_last().push(ids.last())) == surviving(msgs, ids));
    }
}

/// One more entry appends its records to the store's record sequence.
proof fn lemma_records_of_push(s: Seq<StoreEntryView>, e: StoreEntryView)
    ensures
        records_of(s.push(e)) == records_of(s) + e.msgs,
    decreases s.len(),
{
    if s.len() == 0 {
        assert(s.push(e)[0] == e);
        assert(s.push(e).skip(1) =~= Seq::<StoreEntryView>::empty());
        assert(records_of(s.push(e))
            == e.msgs + records_of(Seq::<StoreEntryView>::empty()));
        assert(e.msgs + Seq::<SockMessageView>::empty()
            =~= Seq::<SockMessageView>::empty() + e.msgs);
    } else {
        assert(s.push(e)[0] == s[0]);
        assert(s.push(e).skip(1) =~= s.skip(1).push(e));
        lemma_records_of_push(s.skip(1), e);
        assert(records_of(s.push(e)) == s[0].msgs + (records_of(s.skip(1)) + e.msgs));
        assert(records_of(s) == s[0].msgs + records_of(s.skip(1)));
        assert(s[0].msgs + (records_of(s.skip(1)) + e.msgs)
            =~= (s[0].msgs + records_of(s.skip(1))) + e.msgs);
    }
}

} // verus!

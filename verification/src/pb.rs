use vstd::prelude::*;
use crate::error::BitswapError;
use crate::varint::{varint_bytes, varint_parse, write_varint, read_varint, lemma_varint_parse_bounds};

verus! {

// Wire schema of the compat message, in protocol-buffer encoding. Field
// numbers, all below 16 so every key is one byte:
//   Message:       wantlist = 1 (submessage), payload = 3 (repeated
//                  submessage), blockPresences = 4 (repeated submessage),
//                  tokens = 6 (repeated bytes);
//   Wantlist:      entries = 1 (repeated submessage);
//   Entry:         block = 1 (bytes), priority = 2 (varint), cancel = 3
//                  (varint bool), wantType = 4 (varint), sendDontHave = 5
//                  (varint bool), tokens = 6 (repeated varint index);
//   Block:         prefix = 1 (bytes), data = 2 (bytes), tokens = 3;
//   BlockPresence: cid = 1 (bytes), type = 2 (varint), tokens = 3.
// Scalar fields at their default value are omitted when encoding; unknown
// fields are skipped when decoding; the last occurrence of a scalar field
// wins; repeated fields accumulate in order.

/// Mathematical value of a want-list entry.
#[verifier::ext_equal]
pub struct EntryV {
    pub block: Seq<u8>,
    pub priority: u64,
    pub cancel: bool,
    pub want_type: u64,
    pub send_dont_have: bool,
    pub tokens: Seq<u64>,
}

/// Mathematical value of a payload block.
#[verifier::ext_equal]
pub struct BlockV {
    pub prefix: Seq<u8>,
    pub data: Seq<u8>,
    pub tokens: Seq<u64>,
}

/// Mathematical value of a block-presence entry.
#[verifier::ext_equal]
pub struct PresenceV {
    pub cid: Seq<u8>,
    pub type_pb: u64,
    pub tokens: Seq<u64>,
}

/// Mathematical value of a whole compat wire message.
#[verifier::ext_equal]
pub struct PbMessageV {
    pub entries: Seq<EntryV>,
    pub payload: Seq<BlockV>,
    pub presences: Seq<PresenceV>,
    pub tokens: Seq<Seq<u8>>,
}

/// A want-list entry of the compat wire message.
#[derive(Debug, Clone)]
pub struct PbWantEntry {
    pub block: Vec<u8>,
    pub priority: u64,
    pub cancel: bool,
    pub want_type: u64,
    pub send_dont_have: bool,
    pub tokens: Vec<u64>,
}

/// A payload block of the compat wire message.
#[derive(Debug, Clone)]
pub struct PbBlock {
    pub prefix: Vec<u8>,
    pub data: Vec<u8>,
    pub tokens: Vec<u64>,
}

/// A block-presence entry of the compat wire message.
#[derive(Debug, Clone)]
pub struct PbPresence {
    pub cid: Vec<u8>,
    pub type_pb: u64,
    pub tokens: Vec<u64>,
}

/// A compat wire message: want-list entries, payload blocks, presence
/// entries, and the shared token table that entries reference by index.
#[derive(Debug, Clone)]
pub struct PbMessage {
    pub entries: Vec<PbWantEntry>,
    pub payload: Vec<PbBlock>,
    pub presences: Vec<PbPresence>,
    pub tokens: Vec<Vec<u8>>,
}

impl View for PbWantEntry {
    type V = EntryV;

    open spec fn view(&self) -> EntryV {
        EntryV {
            block: self.block@,
            priority: self.priority,
            cancel: self.cancel,
            want_type: self.want_type,
            send_dont_have: self.send_dont_have,
            tokens: self.tokens@,
        }
    }
}

impl View for PbBlock {
    type V = BlockV;

    open spec fn view(&self) -> BlockV {
        BlockV { prefix: self.prefix@, data: self.data@, tokens: self.tokens@ }
    }
}

impl View for PbPresence {
    type V = PresenceV;

    open spec fn view(&self) -> PresenceV {
        PresenceV { cid: self.cid@, type_pb: self.type_pb, tokens: self.tokens@ }
    }
}

impl View for PbMessage {
    type V = PbMessageV;

    open spec fn view(&self) -> PbMessageV {
        PbMessageV {
            entries: self.entries@.map_values(|e: PbWantEntry| e@),
            payload: self.payload@.map_values(|b: PbBlock| b@),
            presences: self.presences@.map_values(|p: PbPresence| p@),
            tokens: self.tokens@.map_values(|t: Vec<u8>| t@),
        }
    }
}

/// The default want-list entry: every field at its protobuf default.
pub open spec fn entry_default() -> EntryV {
    EntryV {
        block: Seq::empty(),
        priority: 0,
        cancel: false,
        want_type: 0,
        send_dont_have: false,
        tokens: Seq::empty(),
    }
}

/// The default payload block.
pub open spec fn block_default() -> BlockV {
    BlockV { prefix: Seq::empty(), data: Seq::empty(), tokens: Seq::empty() }
}

/// The default presence entry.
pub open spec fn presence_default() -> PresenceV {
    PresenceV { cid: Seq::empty(), type_pb: 0, tokens: Seq::empty() }
}

/// The default, empty message.
pub open spec fn message_default() -> PbMessageV {
    PbMessageV {
        entries: Seq::empty(),
        payload: Seq::empty(),
        presences: Seq::empty(),
        tokens: Seq::empty(),
    }
}

/// A varint-valued field: key with wire type 0, then the value.
pub open spec fn pb_varint_field(field: u64, v: u64) -> Seq<u8>
    recommends
        field < 16,
{
    varint_bytes((field * 8) as u64) + varint_bytes(v)
}

/// A length-delimited field: key with wire type 2, a varint length, the bytes.
pub open spec fn pb_len_field(field: u64, b: Seq<u8>) -> Seq<u8>
    recommends
        field < 16,
{
    varint_bytes((field * 8 + 2) as u64) + varint_bytes(b.len() as u64) + b
}

/// Encodings of a token-index list as repeated varint fields.
pub open spec fn pb_index_fields(field: u64, idxs: Seq<u64>) -> Seq<u8>
    decreases idxs.len(),
{
    if idxs.len() == 0 {
        Seq::empty()
    } else {
        pb_varint_field(field, idxs[0]) + pb_index_fields(field, idxs.drop_first())
    }
}

/// Wire bytes of a want-list entry: fields in ascending number, defaults
/// omitted.
pub open spec fn entry_bytes(e: EntryV) -> Seq<u8> {
    (if e.block.len() > 0 { pb_len_field(1, e.block) } else { Seq::empty() })
    + (if e.priority != 0 { pb_varint_field(2, e.priority) } else { Seq::empty() })
    + (if e.cancel { pb_varint_field(3, 1) } else { Seq::empty() })
    + (if e.want_type != 0 { pb_varint_field(4, e.want_type) } else { Seq::empty() })
    + (if e.send_dont_have { pb_varint_field(5, 1) } else { Seq::empty() })
    + pb_index_fields(6, e.tokens)
}

/// Wire bytes of a payload block.
pub open spec fn block_bytes(b: BlockV) -> Seq<u8> {
    (if b.prefix.len() > 0 { pb_len_field(1, b.prefix) } else { Seq::empty() })
    + (if b.data.len() > 0 { pb_len_field(2, b.data) } else { Seq::empty() })
    + pb_index_fields(3, b.tokens)
}

/// Wire bytes of a presence entry.
pub open spec fn presence_bytes(p: PresenceV) -> Seq<u8> {
    (if p.cid.len() > 0 { pb_len_field(1, p.cid) } else { Seq::empty() })
    + (if p.type_pb != 0 { pb_varint_field(2, p.type_pb) } else { Seq::empty() })
    + pb_index_fields(3, p.tokens)
}

/// Wire bytes of the want-list submessage: each entry wrapped as field 1.
pub open spec fn wantlist_bytes(entries: Seq<EntryV>) -> Seq<u8>
    decreases entries.len(),
{
    if entries.len() == 0 {
        Seq::empty()
    } else {
        pb_len_field(1, entry_bytes(entries[0])) + wantlist_bytes(entries.drop_first())
    }
}

/// Wire bytes of the payload section: each block wrapped as field 3.
pub open spec fn payload_bytes(blocks: Seq<BlockV>) -> Seq<u8>
    decreases blocks.len(),
{
    if blocks.len() == 0 {
        Seq::empty()
    } else {
        pb_len_field(3, block_bytes(blocks[0])) + payload_bytes(blocks.drop_first())
    }
}

/// Wire bytes of the presence section: each entry wrapped as field 4.
pub open spec fn presences_bytes(ps: Seq<PresenceV>) -> Seq<u8>
    decreases ps.len(),
{
    if ps.len() == 0 {
        Seq::empty()
    } else {
        pb_len_field(4, presence_bytes(ps[0])) + presences_bytes(ps.drop_first())
    }
}

/// Wire bytes of the token table: each encoding wrapped as field 6.
pub open spec fn table_bytes(ts: Seq<Seq<u8>>) -> Seq<u8>
    decreases ts.len(),
{
    if ts.len() == 0 {
        Seq::empty()
    } else {
        pb_len_field(6, ts[0]) + table_bytes(ts.drop_first())
    }
}

/// Wire bytes of a whole compat message: the want-list submessage if any
/// entries exist, then payload blocks, presence entries and the token table.
pub open spec fn message_bytes(m: PbMessageV) -> Seq<u8> {
    (if m.entries.len() > 0 { pb_len_field(1, wantlist_bytes(m.entries)) } else { Seq::empty() })
    + payload_bytes(m.payload)
    + presences_bytes(m.presences)
    + table_bytes(m.tokens)
}

/// Appends a varint-valued field.
fn write_varint_field(field: u64, v: u64, out: &mut Vec<u8>)
    requires
        field < 16,
    ensures
        final(out)@ == old(out)@ + pb_varint_field(field, v),
{
    write_varint(field * 8, out);
    write_varint(v, out);
    assert(out@ =~= old(out)@ + pb_varint_field(field, v));
}

/// Appends a length-delimited field.
fn write_len_field(field: u64, b: &[u8], out: &mut Vec<u8>)
    requires
        field < 16,
    ensures
        final(out)@ == old(out)@ + pb_len_field(field, b@),
{
    write_varint(field * 8 + 2, out);
    write_varint(b.len() as u64, out);
    out.extend_from_slice(b);
    assert(out@ =~= old(out)@ + pb_len_field(field, b@));
}

/// Appends a token-index list as repeated varint fields.
#[verifier::loop_isolation(false)]
fn write_index_fields(field: u64, idxs: &Vec<u64>, out: &mut Vec<u8>)
    requires
        field < 16,
    ensures
        final(out)@ == old(out)@ + pb_index_fields(field, idxs@),
{
    let mut i: usize = 0;
    assert(out@ =~= old(out)@ + pb_index_fields(field, idxs@.take(0))) by {
        assert(idxs@.take(0) =~= Seq::<u64>::empty());
    }
    while i < idxs.len()
        invariant
            i <= idxs@.len(),
            out@ == old(out)@ + pb_index_fields(field, idxs@.take(i as int)),
        decreases idxs@.len() - i,
    {
        write_varint_field(field, idxs[i], out);
        proof {
            lemma_pb_index_fields_take_step(field, idxs@, i as int);
            assert(out@ =~= old(out)@ + pb_index_fields(field, idxs@.take(i as int + 1)));
        }
        i += 1;
    }
    proof {
        assert(idxs@.take(idxs@.len() as int) =~= idxs@);
    }
}

proof fn lemma_pb_index_fields_take_step(field: u64, idxs: Seq<u64>, i: int)
    requires
        0 <= i < idxs.len(),
    ensures
        pb_index_fields(field, idxs.take(i + 1))
            == pb_index_fields(field, idxs.take(i)) + pb_varint_field(field, idxs[i]),
    decreases i,
{
    if i == 0 {
        assert(idxs.take(1) =~= seq![idxs[0]]);
        assert(idxs.take(1)[0] == idxs[0]);
        assert(idxs.take(1).drop_first() == Seq::<u64>::empty()) by {
            assert(idxs.take(1).drop_first() =~= Seq::<u64>::empty());
        }
        assert(idxs.take(0) == Seq::<u64>::empty()) by {
            assert(idxs.take(0) =~= Seq::<u64>::empty());
        }
        assert(pb_index_fields(field, Seq::<u64>::empty()) == Seq::<u8>::empty());
        assert(pb_index_fields(field, idxs.take(1)) =~= pb_varint_field(field, idxs[0]) + Seq::<u8>::empty());
        assert(pb_varint_field(field, idxs[0]) + Seq::<u8>::empty()
            =~= Seq::<u8>::empty() + pb_varint_field(field, idxs[0]));
    } else {
        let tl = idxs.drop_first();
        lemma_pb_index_fields_take_step(field, tl, i - 1);
        assert(idxs.take(i + 1).drop_first() =~= tl.take(i));
        assert(idxs.take(i).drop_first() =~= tl.take(i - 1));
        assert(idxs.take(i + 1)[0] == idxs[0]);
        assert(idxs.take(i)[0] == idxs[0]);
        assert(tl[i - 1] == idxs[i]);
        assert(pb_varint_field(field, idxs[0]) + (pb_index_fields(field, tl.take(i - 1)) + pb_varint_field(field, idxs[i]))
            =~= (pb_varint_field(field, idxs[0]) + pb_index_fields(field, tl.take(i - 1))) + pb_varint_field(field, idxs[i]));
    }
}

/// Appends a want-list entry's wire bytes.
#[verifier::rlimit(100)]
fn write_entry(e: &PbWantEntry, out: &mut Vec<u8>)
    ensures
        final(out)@ == old(out)@ + entry_bytes(e@),
{
    if e.block.len() > 0 {
        write_len_field(1, e.block.as_slice(), out);
    }
    if e.priority != 0 {
        write_varint_field(2, e.priority, out);
    }
    if e.cancel {
        write_varint_field(3, 1, out);
    }
    if e.want_type != 0 {
        write_varint_field(4, e.want_type, out);
    }
    if e.send_dont_have {
        write_varint_field(5, 1, out);
    }
    write_index_fields(6, &e.tokens, out);
    assert(out@ =~= old(out)@ + entry_bytes(e@));
}

/// Appends a payload block's wire bytes.
#[verifier::rlimit(100)]
fn write_block(b: &PbBlock, out: &mut Vec<u8>)
    ensures
        final(out)@ == old(out)@ + block_bytes(b@),
{
    if b.prefix.len() > 0 {
        write_len_field(1, b.prefix.as_slice(), out);
    }
    if b.data.len() > 0 {
        write_len_field(2, b.data.as_slice(), out);
    }
    write_index_fields(3, &b.tokens, out);
    assert(out@ =~= old(out)@ + block_bytes(b@));
}

/// Appends a presence entry's wire bytes.
#[verifier::rlimit(100)]
fn write_presence(p: &PbPresence, out: &mut Vec<u8>)
    ensures
        final(out)@ == old(out)@ + presence_bytes(p@),
{
    if p.cid.len() > 0 {
        write_len_field(1, p.cid.as_slice(), out);
    }
    if p.type_pb != 0 {
        write_varint_field(2, p.type_pb, out);
    }
    write_index_fields(3, &p.tokens, out);
    assert(out@ =~= old(out)@ + presence_bytes(p@));
}

impl PbMessage {
    /// A message with no entries and an empty token table.
    pub fn new() -> (r: PbMessage)
        ensures
            r@ == message_default(),
    {
        let r = PbMessage { entries: Vec::new(), payload: Vec::new(), presences: Vec::new(), tokens: Vec::new() };
        proof {
            assert(r@ =~= message_default());
        }
        r
    }

    /// Encodes the message in the compat wire format.
    #[verifier::loop_isolation(false)]
    #[verifier::rlimit(60)]
    pub fn to_bytes(&self) -> (r: Vec<u8>)
        ensures
            r@ == message_bytes(self@),
    {
        let mut out: Vec<u8> = Vec::new();
        if self.entries.len() > 0 {
            let mut wl: Vec<u8> = Vec::new();
            let mut i: usize = 0;
            assert(wl@ =~= wantlist_bytes(self@.entries.take(0))) by {
                assert(self@.entries.take(0) =~= Seq::<EntryV>::empty());
            }
            while i < self.entries.len()
                invariant
                    i <= self.entries@.len(),
                    wl@ == wantlist_bytes(self@.entries.take(i as int)),
                decreases self.entries@.len() - i,
            {
                let mut eb: Vec<u8> = Vec::new();
                write_entry(&self.entries[i], &mut eb);
                write_len_field(1, eb.as_slice(), &mut wl);
                proof {
                    lemma_wantlist_bytes_take_step(self@.entries, i as int);
                    assert(self@.entries[i as int] == self.entries@[i as int]@);
                    assert(wl@ =~= wantlist_bytes(self@.entries.take(i as int + 1)));
                }
                i += 1;
            }
            proof {
                assert(self@.entries.take(self.entries@.len() as int) =~= self@.entries);
            }
            write_len_field(1, wl.as_slice(), &mut out);
        }
        let ghost mid0 = (if self@.entries.len() > 0 { pb_len_field(1, wantlist_bytes(self@.entries)) } else { Seq::<u8>::empty() });
        assert(out@ =~= mid0);
        let mut i: usize = 0;
        assert(out@ =~= mid0 + payload_bytes(self@.payload.take(0))) by {
            assert(self@.payload.take(0) =~= Seq::<BlockV>::empty());
        }
        while i < self.payload.len()
            invariant
                i <= self.payload@.len(),
                out@ == mid0 + payload_bytes(self@.payload.take(i as int)),
            decreases self.payload@.len() - i,
        {
            let mut bb: Vec<u8> = Vec::new();
            write_block(&self.payload[i], &mut bb);
            write_len_field(3, bb.as_slice(), &mut out);
            proof {
                lemma_payload_bytes_take_step(self@.payload, i as int);
                assert(self@.payload[i as int] == self.payload@[i as int]@);
                assert(out@ =~= mid0 + payload_bytes(self@.payload.take(i as int + 1)));
            }
            i += 1;
        }
        proof {
            assert(self@.payload.take(self.payload@.len() as int) =~= self@.payload);
        }
        let ghost mid1 = mid0 + payload_bytes(self@.payload);
        let mut i: usize = 0;
        assert(out@ =~= mid1 + presences_bytes(self@.presences.take(0))) by {
            assert(self@.presences.take(0) =~= Seq::<PresenceV>::empty());
        }
        while i < self.presences.len()
            invariant
                i <= self.presences@.len(),
                out@ == mid1 + presences_bytes(self@.presences.take(i as int)),
            decreases self.presences@.len() - i,
        {
            let mut pb: Vec<u8> = Vec::new();
            write_presence(&self.presences[i], &mut pb);
            write_len_field(4, pb.as_slice(), &mut out);
            proof {
                lemma_presences_bytes_take_step(self@.presences, i as int);
                assert(self@.presences[i as int] == self.presences@[i as int]@);
                assert(out@ =~= mid1 + presences_bytes(self@.presences.take(i as int + 1)));
            }
            i += 1;
        }
        proof {
            assert(self@.presences.take(self.presences@.len() as int) =~= self@.presences);
        }
        let ghost mid2 = mid1 + presences_bytes(self@.presences);
        let mut i: usize = 0;
        assert(out@ =~= mid2 + table_bytes(self@.tokens.take(0))) by {
            assert(self@.tokens.take(0) =~= Seq::<Seq<u8>>::empty());
        }
        while i < self.tokens.len()
            invariant
                i <= self.tokens@.len(),
                out@ == mid2 + table_bytes(self@.tokens.take(i as int)),
            decreases self.tokens@.len() - i,
        {
            write_len_field(6, self.tokens[i].as_slice(), &mut out);
            proof {
                lemma_table_bytes_take_step(self@.tokens, i as int);
                assert(self@.tokens[i as int] == self.tokens@[i as int]@);
                assert(out@ =~= mid2 + table_bytes(self@.tokens.take(i as int + 1)));
            }
            i += 1;
        }
        proof {
            assert(self@.tokens.take(self.tokens@.len() as int) =~= self@.tokens);
            assert(out@ =~= message_bytes(self@));
        }
        out
    }
}

proof fn lemma_wantlist_bytes_take_step(es: Seq<EntryV>, i: int)
    requires
        0 <= i < es.len(),
    ensures
        wantlist_bytes(es.take(i + 1))
            == wantlist_bytes(es.take(i)) + pb_len_field(1, entry_bytes(es[i])),
    decreases i,
{
    if i == 0 {
        assert(es.take(1) =~= seq![es[0]]);
        assert(es.take(1)[0] == es[0]);
        assert(es.take(1).drop_first() == Seq::<EntryV>::empty()) by {
            assert(es.take(1).drop_first() =~= Seq::<EntryV>::empty());
        }
        assert(es.take(0) == Seq::<EntryV>::empty()) by {
            assert(es.take(0) =~= Seq::<EntryV>::empty());
        }
        assert(wantlist_bytes(Seq::<EntryV>::empty()) == Seq::<u8>::empty());
        assert(wantlist_bytes(es.take(1)) =~= pb_len_field(1, entry_bytes(es[0])) + Seq::<u8>::empty());
        assert(pb_len_field(1, entry_bytes(es[0])) + Seq::<u8>::empty()
            =~= Seq::<u8>::empty() + pb_len_field(1, entry_bytes(es[0])));
    } else {
        let tl = es.drop_first();
        lemma_wantlist_bytes_take_step(tl, i - 1);
        assert(es.take(i + 1).drop_first() =~= tl.take(i));
        assert(es.take(i).drop_first() =~= tl.take(i - 1));
        assert(es.take(i + 1)[0] == es[0]);
        assert(es.take(i)[0] == es[0]);
        assert(tl[i - 1] == es[i]);
        let h = pb_len_field(1, entry_bytes(es[0]));
        assert(h + (wantlist_bytes(tl.take(i - 1)) + pb_len_field(1, entry_bytes(es[i])))
            =~= (h + wantlist_bytes(tl.take(i - 1))) + pb_len_field(1, entry_bytes(es[i])));
    }
}

proof fn lemma_payload_bytes_take_step(bs: Seq<BlockV>, i: int)
    requires
        0 <= i < bs.len(),
    ensures
        payload_bytes(bs.take(i + 1))
            == payload_bytes(bs.take(i)) + pb_len_field(3, block_bytes(bs[i])),
    decreases i,
{
    if i == 0 {
        assert(bs.take(1) =~= seq![bs[0]]);
        assert(bs.take(1)[0] == bs[0]);
        assert(bs.take(1).drop_first() == Seq::<BlockV>::empty()) by {
            assert(bs.take(1).drop_first() =~= Seq::<BlockV>::empty());
        }
        assert(bs.take(0) == Seq::<BlockV>::empty()) by {
            assert(bs.take(0) =~= Seq::<BlockV>::empty());
        }
        assert(payload_bytes(Seq::<BlockV>::empty()) == Seq::<u8>::empty());
        assert(payload_bytes(bs.take(1)) =~= pb_len_field(3, block_bytes(bs[0])) + Seq::<u8>::empty());
        assert(pb_len_field(3, block_bytes(bs[0])) + Seq::<u8>::empty()
            =~= Seq::<u8>::empty() + pb_len_field(3, block_bytes(bs[0])));
    } else {
        let tl = bs.drop_first();
        lemma_payload_bytes_take_step(tl, i - 1);
        assert(bs.take(i + 1).drop_first() =~= tl.take(i));
        assert(bs.take(i).drop_first() =~= tl.take(i - 1));
        assert(bs.take(i + 1)[0] == bs[0]);
        assert(bs.take(i)[0] == bs[0]);
        assert(tl[i - 1] == bs[i]);
        let h = pb_len_field(3, block_bytes(bs[0]));
        assert(h + (payload_bytes(tl.take(i - 1)) + pb_len_field(3, block_bytes(bs[i])))
            =~= (h + payload_bytes(tl.take(i - 1))) + pb_len_field(3, block_bytes(bs[i])));
    }
}

proof fn lemma_presences_bytes_take_step(ps: Seq<PresenceV>, i: int)
    requires
        0 <= i < ps.len(),
    ensures
        presences_bytes(ps.take(i + 1))
            == presences_bytes(ps.take(i)) + pb_len_field(4, presence_bytes(ps[i])),
    decreases i,
{
    if i == 0 {
        assert(ps.take(1) =~= seq![ps[0]]);
        assert(ps.take(1)[0] == ps[0]);
        assert(ps.take(1).drop_first() == Seq::<PresenceV>::empty()) by {
            assert(ps.take(1).drop_first() =~= Seq::<PresenceV>::empty());
        }
        assert(ps.take(0) == Seq::<PresenceV>::empty()) by {
            assert(ps.take(0) =~= Seq::<PresenceV>::empty());
        }
        assert(presences_bytes(Seq::<PresenceV>::empty()) == Seq::<u8>::empty());
        assert(presences_bytes(ps.take(1)) =~= pb_len_field(4, presence_bytes(ps[0])) + Seq::<u8>::empty());
        assert(pb_len_field(4, presence_bytes(ps[0])) + Seq::<u8>::empty()
            =~= Seq::<u8>::empty() + pb_len_field(4, presence_bytes(ps[0])));
    } else {
        let tl = ps.drop_first();
        lemma_presences_bytes_take_step(tl, i - 1);
        assert(ps.take(i + 1).drop_first() =~= tl.take(i));
        assert(ps.take(i).drop_first() =~= tl.take(i - 1));
        assert(ps.take(i + 1)[0] == ps[0]);
        assert(ps.take(i)[0] == ps[0]);
        assert(tl[i - 1] == ps[i]);
        let h = pb_len_field(4, presence_bytes(ps[0]));
        assert(h + (presences_bytes(tl.take(i - 1)) + pb_len_field(4, presence_bytes(ps[i])))
            =~= (h + presences_bytes(tl.take(i - 1))) + pb_len_field(4, presence_bytes(ps[i])));
    }
}

proof fn lemma_table_bytes_take_step(ts: Seq<Seq<u8>>, i: int)
    requires
        0 <= i < ts.len(),
    ensures
        table_bytes(ts.take(i + 1)) == table_bytes(ts.take(i)) + pb_len_field(6, ts[i]),
    decreases i,
{
    if i == 0 {
        assert(ts.take(1) =~= seq![ts[0]]);
        assert(ts.take(1)[0] == ts[0]);
        assert(ts.take(1).drop_first() == Seq::<Seq<u8>>::empty()) by {
            assert(ts.take(1).drop_first() =~= Seq::<Seq<u8>>::empty());
        }
        assert(ts.take(0) == Seq::<Seq<u8>>::empty()) by {
            assert(ts.take(0) =~= Seq::<Seq<u8>>::empty());
        }
        assert(table_bytes(Seq::<Seq<u8>>::empty()) == Seq::<u8>::empty());
        assert(table_bytes(ts.take(1)) =~= pb_len_field(6, ts[0]) + Seq::<u8>::empty());
        assert(pb_len_field(6, ts[0]) + Seq::<u8>::empty() =~= Seq::<u8>::empty() + pb_len_field(6, ts[0]));
    } else {
        let tl = ts.drop_first();
        lemma_table_bytes_take_step(tl, i - 1);
        assert(ts.take(i + 1).drop_first() =~= tl.take(i));
        assert(ts.take(i).drop_first() =~= tl.take(i - 1));
        assert(ts.take(i + 1)[0] == ts[0]);
        assert(ts.take(i)[0] == ts[0]);
        assert(tl[i - 1] == ts[i]);
        let h = pb_len_field(6, ts[0]);
        assert(h + (table_bytes(tl.take(i - 1)) + pb_len_field(6, ts[i]))
            =~= (h + table_bytes(tl.take(i - 1))) + pb_len_field(6, ts[i]));
    }
}


/// A length-delimited payload at `at`: its start and end offsets, after the
/// varint length; `UnexpectedEnd` when fewer bytes remain than declared.
pub open spec fn pb_lendelim(s: Seq<u8>, at: int) -> Result<(int, int), BitswapError> {
    match varint_parse(s, at) {
        Ok(p) => if p.0 > s.len() - p.1 {
            Err(BitswapError::UnexpectedEnd)
        } else {
            Ok((p.1, p.1 + p.0))
        },
        Err(e) => Err(e),
    }
}

/// Skip of one field payload of the given wire type: varint, 64-bit,
/// length-delimited or 32-bit. Group and reserved wire types are
/// `InvalidData`.
pub open spec fn pb_skip(s: Seq<u8>, at: int, wt: u64) -> Result<int, BitswapError> {
    if wt == 0 {
        match varint_parse(s, at) {
            Ok(p) => Ok(p.1),
            Err(e) => Err(e),
        }
    } else if wt == 1 {
        if at + 8 <= s.len() { Ok(at + 8) } else { Err(BitswapError::UnexpectedEnd) }
    } else if wt == 2 {
        match pb_lendelim(s, at) {
            Ok(p) => Ok(p.1),
            Err(e) => Err(e),
        }
    } else if wt == 5 {
        if at + 4 <= s.len() { Ok(at + 4) } else { Err(BitswapError::UnexpectedEnd) }
    } else {
        Err(BitswapError::InvalidData)
    }
}

/// Parse of one field of a want-list entry at `at`: the updated entry and
/// the offset past the field. Unknown fields and mismatched wire types are
/// skipped.
pub open spec fn entry_field_parse(s: Seq<u8>, at: int, acc: EntryV) -> Result<(EntryV, int), BitswapError> {
    match varint_parse(s, at) {
        Ok(k) => {
            let f = k.0 / 8;
            let wt = k.0 % 8;
            if f == 1 && wt == 2 {
                match pb_lendelim(s, k.1) {
                    Ok(p) => Ok((EntryV { block: s.subrange(p.0, p.1), ..acc }, p.1)),
                    Err(e) => Err(e),
                }
            } else if f == 2 && wt == 0 {
                match varint_parse(s, k.1) {
                    Ok(p) => Ok((EntryV { priority: p.0, ..acc }, p.1)),
                    Err(e) => Err(e),
                }
            } else if f == 3 && wt == 0 {
                match varint_parse(s, k.1) {
                    Ok(p) => Ok((EntryV { cancel: p.0 != 0, ..acc }, p.1)),
                    Err(e) => Err(e),
                }
            } else if f == 4 && wt == 0 {
                match varint_parse(s, k.1) {
                    Ok(p) => Ok((EntryV { want_type: p.0, ..acc }, p.1)),
                    Err(e) => Err(e),
                }
            } else if f == 5 && wt == 0 {
                match varint_parse(s, k.1) {
                    Ok(p) => Ok((EntryV { send_dont_have: p.0 != 0, ..acc }, p.1)),
                    Err(e) => Err(e),
                }
            } else if f == 6 && wt == 0 {
                match varint_parse(s, k.1) {
                    Ok(p) => Ok((EntryV { tokens: acc.tokens.push(p.0), ..acc }, p.1)),
                    Err(e) => Err(e),
                }
            } else {
                match pb_skip(s, k.1, wt) {
                    Ok(n) => Ok((acc, n)),
                    Err(e) => Err(e),
                }
            }
        },
        Err(e) => Err(e),
    }
}

/// Parse of a whole want-list entry submessage from `at` to the end of `s`.
pub open spec fn entry_parse_at(s: Seq<u8>, at: int, acc: EntryV) -> Result<EntryV, BitswapError>
    decreases s.len() - at,
{
    if at < 0 {
        Err(BitswapError::InvalidData)
    } else if at >= s.len() {
        Ok(acc)
    } else {
        match entry_field_parse(s, at, acc) {
            Ok(p) => if at < p.1 <= s.len() {
                entry_parse_at(s, p.1, p.0)
            } else {
                Err(BitswapError::InvalidData)
            },
            Err(e) => Err(e),
        }
    }
}

/// Parse of one field of a payload block.
pub open spec fn block_field_parse(s: Seq<u8>, at: int, acc: BlockV) -> Result<(BlockV, int), BitswapError> {
    match varint_parse(s, at) {
        Ok(k) => {
            let f = k.0 / 8;
            let wt = k.0 % 8;
            if f == 1 && wt == 2 {
                match pb_lendelim(s, k.1) {
                    Ok(p) => Ok((BlockV { prefix: s.subrange(p.0, p.1), ..acc }, p.1)),
                    Err(e) => Err(e),
                }
            } else if f == 2 && wt == 2 {
                match pb_lendelim(s, k.1) {
                    Ok(p) => Ok((BlockV { data: s.subrange(p.0, p.1), ..acc }, p.1)),
                    Err(e) => Err(e),
                }
            } else if f == 3 && wt == 0 {
                match varint_parse(s, k.1) {
                    Ok(p) => Ok((BlockV { tokens: acc.tokens.push(p.0), ..acc }, p.1)),
                    Err(e) => Err(e),
                }
            } else {
                match pb_skip(s, k.1, wt) {
                    Ok(n) => Ok((acc, n)),
                    Err(e) => Err(e),
                }
            }
        },
        Err(e) => Err(e),
    }
}

/// Parse of a whole payload-block submessage.
pub open spec fn block_parse_at(s: Seq<u8>, at: int, acc: BlockV) -> Result<BlockV, BitswapError>
    decreases s.len() - at,
{
    if at < 0 {
        Err(BitswapError::InvalidData)
    } else if at >= s.len() {
        Ok(acc)
    } else {
        match block_field_parse(s, at, acc) {
            Ok(p) => if at < p.1 <= s.len() {
                block_parse_at(s, p.1, p.0)
            } else {
                Err(BitswapError::InvalidData)
            },
            Err(e) => Err(e),
        }
    }
}

/// Parse of one field of a block-presence entry.
pub open spec fn presence_field_parse(s: Seq<u8>, at: int, acc: PresenceV) -> Result<(PresenceV, int), BitswapError> {
    match varint_parse(s, at) {
        Ok(k) => {
            let f = k.0 / 8;
            let wt = k.0 % 8;
            if f == 1 && wt == 2 {
                match pb_lendelim(s, k.1) {
                    Ok(p) => Ok((PresenceV { cid: s.subrange(p.0, p.1), ..acc }, p.1)),
                    Err(e) => Err(e),
                }
            } else if f == 2 && wt == 0 {
                match varint_parse(s, k.1) {
                    Ok(p) => Ok((PresenceV { type_pb: p.0, ..acc }, p.1)),
                    Err(e) => Err(e),
                }
            } else if f == 3 && wt == 0 {
                match varint_parse(s, k.1) {
                    Ok(p) => Ok((PresenceV { tokens: acc.tokens.push(p.0), ..acc }, p.1)),
                    Err(e) => Err(e),
                }
            } else {
                match pb_skip(s, k.1, wt) {
                    Ok(n) => Ok((acc, n)),
                    Err(e) => Err(e),
                }
            }
        },
        Err(e) => Err(e),
    }
}

/// Parse of a whole block-presence submessage.
pub open spec fn presence_parse_at(s: Seq<u8>, at: int, acc: PresenceV) -> Result<PresenceV, BitswapError>
    decreases s.len() - at,
{
    if at < 0 {
        Err(BitswapError::InvalidData)
    } else if at >= s.len() {
        Ok(acc)
    } else {
        match presence_field_parse(s, at, acc) {
            Ok(p) => if at < p.1 <= s.len() {
                presence_parse_at(s, p.1, p.0)
            } else {
                Err(BitswapError::InvalidData)
            },
            Err(e) => Err(e),
        }
    }
}

/// Parse of one field of the want-list submessage: field 1 holds one entry,
/// appended in order; anything else is skipped.
pub open spec fn wantlist_field_parse(s: Seq<u8>, at: int, acc: Seq<EntryV>) -> Result<(Seq<EntryV>, int), BitswapError> {
    match varint_parse(s, at) {
        Ok(k) => {
            let f = k.0 / 8;
            let wt = k.0 % 8;
            if f == 1 && wt == 2 {
                match pb_lendelim(s, k.1) {
                    Ok(p) => match entry_parse_at(s.subrange(p.0, p.1), 0, entry_default()) {
                        Ok(e) => Ok((acc.push(e), p.1)),
                        Err(e) => Err(e),
                    },
                    Err(e) => Err(e),
                }
            } else {
                match pb_skip(s, k.1, wt) {
                    Ok(n) => Ok((acc, n)),
                    Err(e) => Err(e),
                }
            }
        },
        Err(e) => Err(e),
    }
}

/// Parse of the whole want-list submessage.
pub open spec fn wantlist_parse_at(s: Seq<u8>, at: int, acc: Seq<EntryV>) -> Result<Seq<EntryV>, BitswapError>
    decreases s.len() - at,
{
    if at < 0 {
        Err(BitswapError::InvalidData)
    } else if at >= s.len() {
        Ok(acc)
    } else {
        match wantlist_field_parse(s, at, acc) {
            Ok(p) => if at < p.1 <= s.len() {
                wantlist_parse_at(s, p.1, p.0)
            } else {
                Err(BitswapError::InvalidData)
            },
            Err(e) => Err(e),
        }
    }
}

/// Parse of one field of the whole message: the want-list submessage, a
/// payload block, a presence entry, or a token-table entry; anything else
/// is skipped.
pub open spec fn message_field_parse(s: Seq<u8>, at: int, acc: PbMessageV) -> Result<(PbMessageV, int), BitswapError> {
    match varint_parse(s, at) {
        Ok(k) => {
            let f = k.0 / 8;
            let wt = k.0 % 8;
            if f == 1 && wt == 2 {
                match pb_lendelim(s, k.1) {
                    Ok(p) => match wantlist_parse_at(s.subrange(p.0, p.1), 0, acc.entries) {
                        Ok(es) => Ok((PbMessageV { entries: es, ..acc }, p.1)),
                        Err(e) => Err(e),
                    },
                    Err(e) => Err(e),
                }
            } else if f == 3 && wt == 2 {
                match pb_lendelim(s, k.1) {
                    Ok(p) => match block_parse_at(s.subrange(p.0, p.1), 0, block_default()) {
                        Ok(b) => Ok((PbMessageV { payload: acc.payload.push(b), ..acc }, p.1)),
                        Err(e) => Err(e),
                    },
                    Err(e) => Err(e),
                }
            } else if f == 4 && wt == 2 {
                match pb_lendelim(s, k.1) {
                    Ok(p) => match presence_parse_at(s.subrange(p.0, p.1), 0, presence_default()) {
                        Ok(b) => Ok((PbMessageV { presences: acc.presences.push(b), ..acc }, p.1)),
                        Err(e) => Err(e),
                    },
                    Err(e) => Err(e),
                }
            } else if f == 6 && wt == 2 {
                match pb_lendelim(s, k.1) {
                    Ok(p) => Ok((PbMessageV { tokens: acc.tokens.push(s.subrange(p.0, p.1)), ..acc }, p.1)),
                    Err(e) => Err(e),
                }
            } else {
                match pb_skip(s, k.1, wt) {
                    Ok(n) => Ok((acc, n)),
                    Err(e) => Err(e),
                }
            }
        },
        Err(e) => Err(e),
    }
}

/// Parse of a whole compat wire message.
pub open spec fn message_parse_at(s: Seq<u8>, at: int, acc: PbMessageV) -> Result<PbMessageV, BitswapError>
    decreases s.len() - at,
{
    if at < 0 {
        Err(BitswapError::InvalidData)
    } else if at >= s.len() {
        Ok(acc)
    } else {
        match message_field_parse(s, at, acc) {
            Ok(p) => if at < p.1 <= s.len() {
                message_parse_at(s, p.1, p.0)
            } else {
                Err(BitswapError::InvalidData)
            },
            Err(e) => Err(e),
        }
    }
}

/// Parse of a compat wire message from a full byte slice.
pub open spec fn message_parse(s: Seq<u8>) -> Result<PbMessageV, BitswapError> {
    message_parse_at(s, 0, message_default())
}


/// Reads a length-delimited payload's bounds.
fn read_lendelim(s: &[u8], at: usize) -> (r: Result<(usize, usize), BitswapError>)
    ensures
        (match r {
            Ok(p) => pb_lendelim(s@, at as int) == Ok::<(int, int), BitswapError>((p.0 as int, p.1 as int))
                && at < p.0 <= p.1 <= s@.len(),
            Err(e) => pb_lendelim(s@, at as int) == Err::<(int, int), BitswapError>(e),
        }),
{
    match read_varint(s, at) {
        Ok((len, start)) => {
            proof {
                lemma_varint_parse_bounds(s@, at as int);
            }
            if len > (s.len() - start) as u64 {
                Err(BitswapError::UnexpectedEnd)
            } else {
                Ok((start, start + len as usize))
            }
        },
        Err(e) => Err(e),
    }
}

/// Skips one field payload of the given wire type.
fn skip_field(s: &[u8], at: usize, wt: u64) -> (r: Result<usize, BitswapError>)
    ensures
        (match r {
            Ok(n) => pb_skip(s@, at as int, wt) == Ok::<int, BitswapError>(n as int)
                && at < n <= s@.len(),
            Err(e) => pb_skip(s@, at as int, wt) == Err::<int, BitswapError>(e),
        }),
{
    if wt == 0 {
        match read_varint(s, at) {
            Ok((_, n)) => {
                proof {
                    lemma_varint_parse_bounds(s@, at as int);
                }
                Ok(n)
            },
            Err(e) => Err(e),
        }
    } else if wt == 1 {
        if s.len() >= 8 && at <= s.len() - 8 {
            Ok(at + 8)
        } else {
            Err(BitswapError::UnexpectedEnd)
        }
    } else if wt == 2 {
        match read_lendelim(s, at) {
            Ok((_, end)) => Ok(end),
            Err(e) => Err(e),
        }
    } else if wt == 5 {
        if s.len() >= 4 && at <= s.len() - 4 {
            Ok(at + 4)
        } else {
            Err(BitswapError::UnexpectedEnd)
        }
    } else {
        Err(BitswapError::InvalidData)
    }
}

/// Parses one field of a want-list entry.
fn parse_entry_field(s: &[u8], at: usize, acc: PbWantEntry) -> (r: Result<(PbWantEntry, usize), BitswapError>)
    ensures
        (match r {
            Ok(p) => entry_field_parse(s@, at as int, acc@) == Ok::<(EntryV, int), BitswapError>((p.0@, p.1 as int))
                && at < p.1 <= s@.len(),
            Err(e) => entry_field_parse(s@, at as int, acc@) == Err::<(EntryV, int), BitswapError>(e),
        }),
{
    let mut a = acc;
    match read_varint(s, at) {
        Ok((key, at1)) => {
            proof {
                lemma_varint_parse_bounds(s@, at as int);
            }
            let f = key / 8;
            let wt = key % 8;
            if f == 1 && wt == 2 {
                match read_lendelim(s, at1) {
                    Ok((start, end)) => {
                        a.block = vstd::slice::slice_to_vec(vstd::slice::slice_subrange(s, start, end));
                        assert(a@ =~= EntryV { block: s@.subrange(start as int, end as int), ..acc@ });
                        Ok((a, end))
                    },
                    Err(e) => Err(e),
                }
            } else if f == 2 && wt == 0 {
                match read_varint(s, at1) {
                    Ok((v, n)) => {
                        proof {
                            lemma_varint_parse_bounds(s@, at1 as int);
                        }
                        a.priority = v;
                        assert(a@ =~= EntryV { priority: v, ..acc@ });
                        Ok((a, n))
                    },
                    Err(e) => Err(e),
                }
            } else if f == 3 && wt == 0 {
                match read_varint(s, at1) {
                    Ok((v, n)) => {
                        proof {
                            lemma_varint_parse_bounds(s@, at1 as int);
                        }
                        a.cancel = v != 0;
                        assert(a@ =~= EntryV { cancel: v != 0, ..acc@ });
                        Ok((a, n))
                    },
                    Err(e) => Err(e),
                }
            } else if f == 4 && wt == 0 {
                match read_varint(s, at1) {
                    Ok((v, n)) => {
                        proof {
                            lemma_varint_parse_bounds(s@, at1 as int);
                        }
                        a.want_type = v;
                        assert(a@ =~= EntryV { want_type: v, ..acc@ });
                        Ok((a, n))
                    },
                    Err(e) => Err(e),
                }
            } else if f == 5 && wt == 0 {
                match read_varint(s, at1) {
                    Ok((v, n)) => {
                        proof {
                            lemma_varint_parse_bounds(s@, at1 as int);
                        }
                        a.send_dont_have = v != 0;
                        assert(a@ =~= EntryV { send_dont_have: v != 0, ..acc@ });
                        Ok((a, n))
                    },
                    Err(e) => Err(e),
                }
            } else if f == 6 && wt == 0 {
                match read_varint(s, at1) {
                    Ok((v, n)) => {
                        proof {
                            lemma_varint_parse_bounds(s@, at1 as int);
                        }
                        a.tokens.push(v);
                        assert(a@ =~= EntryV { tokens: acc@.tokens.push(v), ..acc@ });
                        Ok((a, n))
                    },
                    Err(e) => Err(e),
                }
            } else {
                match skip_field(s, at1, wt) {
                    Ok(n) => Ok((a, n)),
                    Err(e) => Err(e),
                }
            }
        },
        Err(e) => Err(e),
    }
}

/// Parses a whole want-list entry submessage.
#[verifier::loop_isolation(false)]
pub fn parse_entry(s: &[u8]) -> (r: Result<PbWantEntry, BitswapError>)
    ensures
        (match r {
            Ok(e) => entry_parse_at(s@, 0, entry_default()) == Ok::<EntryV, BitswapError>(e@),
            Err(e) => entry_parse_at(s@, 0, entry_default()) == Err::<EntryV, BitswapError>(e),
        }),
{
    let mut acc = PbWantEntry {
        block: Vec::new(),
        priority: 0,
        cancel: false,
        want_type: 0,
        send_dont_have: false,
        tokens: Vec::new(),
    };
    assert(acc@ =~= entry_default());
    let mut at: usize = 0;
    while at < s.len()
        invariant
            at <= s@.len(),
            entry_parse_at(s@, 0, entry_default()) == entry_parse_at(s@, at as int, acc@),
        decreases s@.len() - at,
    {
        match parse_entry_field(s, at, acc) {
            Ok(p) => {
                acc = p.0;
                at = p.1;
            },
            Err(e) => {
                return Err(e);
            },
        }
    }
    Ok(acc)
}

/// Parses one field of a payload block.
fn parse_block_field(s: &[u8], at: usize, acc: PbBlock) -> (r: Result<(PbBlock, usize), BitswapError>)
    ensures
        (match r {
            Ok(p) => block_field_parse(s@, at as int, acc@) == Ok::<(BlockV, int), BitswapError>((p.0@, p.1 as int))
                && at < p.1 <= s@.len(),
            Err(e) => block_field_parse(s@, at as int, acc@) == Err::<(BlockV, int), BitswapError>(e),
        }),
{
    let mut a = acc;
    match read_varint(s, at) {
        Ok((key, at1)) => {
            proof {
                lemma_varint_parse_bounds(s@, at as int);
            }
            let f = key / 8;
            let wt = key % 8;
            if f == 1 && wt == 2 {
                match read_lendelim(s, at1) {
                    Ok((start, end)) => {
                        a.prefix = vstd::slice::slice_to_vec(vstd::slice::slice_subrange(s, start, end));
                        assert(a@ =~= BlockV { prefix: s@.subrange(start as int, end as int), ..acc@ });
                        Ok((a, end))
                    },
                    Err(e) => Err(e),
                }
            } else if f == 2 && wt == 2 {
                match read_lendelim(s, at1) {
                    Ok((start, end)) => {
                        a.data = vstd::slice::slice_to_vec(vstd::slice::slice_subrange(s, start, end));
                        assert(a@ =~= BlockV { data: s@.subrange(start as int, end as int), ..acc@ });
                        Ok((a, end))
                    },
                    Err(e) => Err(e),
                }
            } else if f == 3 && wt == 0 {
                match read_varint(s, at1) {
                    Ok((v, n)) => {
                        proof {
                            lemma_varint_parse_bounds(s@, at1 as int);
                        }
                        a.tokens.push(v);
                        assert(a@ =~= BlockV { tokens: acc@.tokens.push(v), ..acc@ });
                        Ok((a, n))
                    },
                    Err(e) => Err(e),
                }
            } else {
                match skip_field(s, at1, wt) {
                    Ok(n) => Ok((a, n)),
                    Err(e) => Err(e),
                }
            }
        },
        Err(e) => Err(e),
    }
}

/// Parses a whole payload-block submessage.
#[verifier::loop_isolation(false)]
pub fn parse_block(s: &[u8]) -> (r: Result<PbBlock, BitswapError>)
    ensures
        (match r {
            Ok(b) => block_parse_at(s@, 0, block_default()) == Ok::<BlockV, BitswapError>(b@),
            Err(e) => block_parse_at(s@, 0, block_default()) == Err::<BlockV, BitswapError>(e),
        }),
{
    let mut acc = PbBlock { prefix: Vec::new(), data: Vec::new(), tokens: Vec::new() };
    assert(acc@ =~= block_default());
    let mut at: usize = 0;
    while at < s.len()
        invariant
            at <= s@.len(),
            block_parse_at(s@, 0, block_default()) == block_parse_at(s@, at as int, acc@),
        decreases s@.len() - at,
    {
        match parse_block_field(s, at, acc) {
            Ok(p) => {
                acc = p.0;
                at = p.1;
            },
            Err(e) => {
                return Err(e);
            },
        }
    }
    Ok(acc)
}

/// Parses one field of a block-presence entry.
fn parse_presence_field(s: &[u8], at: usize, acc: PbPresence) -> (r: Result<(PbPresence, usize), BitswapError>)
    ensures
        (match r {
            Ok(p) => presence_field_parse(s@, at as int, acc@) == Ok::<(PresenceV, int), BitswapError>((p.0@, p.1 as int))
                && at < p.1 <= s@.len(),
            Err(e) => presence_field_parse(s@, at as int, acc@) == Err::<(PresenceV, int), BitswapError>(e),
        }),
{
    let mut a = acc;
    match read_varint(s, at) {
        Ok((key, at1)) => {
            proof {
                lemma_varint_parse_bounds(s@, at as int);
            }
            let f = key / 8;
            let wt = key % 8;
            if f == 1 && wt == 2 {
                match read_lendelim(s, at1) {
                    Ok((start, end)) => {
                        a.cid = vstd::slice::slice_to_vec(vstd::slice::slice_subrange(s, start, end));
                        assert(a@ =~= PresenceV { cid: s@.subrange(start as int, end as int), ..acc@ });
                        Ok((a, end))
                    },
                    Err(e) => Err(e),
                }
            } else if f == 2 && wt == 0 {
                match read_varint(s, at1) {
                    Ok((v, n)) => {
                        proof {
                            lemma_varint_parse_bounds(s@, at1 as int);
                        }
                        a.type_pb = v;
                        assert(a@ =~= PresenceV { type_pb: v, ..acc@ });
                        Ok((a, n))
                    },
                    Err(e) => Err(e),
                }
            } else if f == 3 && wt == 0 {
                match read_varint(s, at1) {
                    Ok((v, n)) => {
                        proof {
                            lemma_varint_parse_bounds(s@, at1 as int);
                        }
                        a.tokens.push(v);
                        assert(a@ =~= PresenceV { tokens: acc@.tokens.push(v), ..acc@ });
                        Ok((a, n))
                    },
                    Err(e) => Err(e),
                }
            } else {
                match skip_field(s, at1, wt) {
                    Ok(n) => Ok((a, n)),
                    Err(e) => Err(e),
                }
            }
        },
        Err(e) => Err(e),
    }
}

/// Parses a whole block-presence submessage.
#[verifier::loop_isolation(false)]
pub fn parse_presence(s: &[u8]) -> (r: Result<PbPresence, BitswapError>)
    ensures
        (match r {
            Ok(b) => presence_parse_at(s@, 0, presence_default()) == Ok::<PresenceV, BitswapError>(b@),
            Err(e) => presence_parse_at(s@, 0, presence_default()) == Err::<PresenceV, BitswapError>(e),
        }),
{
    let mut acc = PbPresence { cid: Vec::new(), type_pb: 0, tokens: Vec::new() };
    assert(acc@ =~= presence_default());
    let mut at: usize = 0;
    while at < s.len()
        invariant
            at <= s@.len(),
            presence_parse_at(s@, 0, presence_default()) == presence_parse_at(s@, at as int, acc@),
        decreases s@.len() - at,
    {
        match parse_presence_field(s, at, acc) {
            Ok(p) => {
                acc = p.0;
                at = p.1;
            },
            Err(e) => {
                return Err(e);
            },
        }
    }
    Ok(acc)
}

impl PbMessage {
    /// Decodes a compat wire message from a full byte slice: exactly what
    /// `message_parse` says of the bytes.
    #[verifier::loop_isolation(false)]
    #[verifier::rlimit(100)]
    pub fn from_bytes(s: &[u8]) -> (r: Result<PbMessage, BitswapError>)
        ensures
            (match r {
                Ok(m) => message_parse(s@) == Ok::<PbMessageV, BitswapError>(m@),
                Err(e) => message_parse(s@) == Err::<PbMessageV, BitswapError>(e),
            }),
    {
        let mut acc = PbMessage::new();
        let mut at: usize = 0;
        while at < s.len()
            invariant
                at <= s@.len(),
                message_parse(s@) == message_parse_at(s@, at as int, acc@),
            decreases s@.len() - at,
        {
            let ghost gacc = acc@;
            let ghost gat = at as int;
            match read_varint(s, at) {
                Ok((key, at1)) => {
                    proof {
                        lemma_varint_parse_bounds(s@, at as int);
                    }
                    let f = key / 8;
                    let wt = key % 8;
                    if f == 1 && wt == 2 {
                        match read_lendelim(s, at1) {
                            Ok((start, end)) => {
                                let sub = vstd::slice::slice_subrange(s, start, end);
                                let mut wat: usize = 0;
                                let ghost sub0 = sub@;
                                while wat < sub.len()
                                    invariant
                                        wat <= sub0.len(),
                                        sub@ == sub0,
                                        acc@.payload == gacc.payload,
                                        acc@.presences == gacc.presences,
                                        acc@.tokens == gacc.tokens,
                                        wantlist_parse_at(sub0, 0, gacc.entries)
                                            == wantlist_parse_at(sub0, wat as int, acc@.entries),
                                    decreases sub0.len() - wat,
                                {
                                    let ghost cur = acc@.entries;
                                    match read_varint(sub, wat) {
                                        Ok((wkey, wat1)) => {
                                            proof {
                                                lemma_varint_parse_bounds(sub0, wat as int);
                                            }
                                            let wf = wkey / 8;
                                            let wwt = wkey % 8;
                                            if wf == 1 && wwt == 2 {
                                                match read_lendelim(sub, wat1) {
                                                    Ok((ws, we)) => {
                                                        let esub = vstd::slice::slice_subrange(sub, ws, we);
                                                        match parse_entry(esub) {
                                                            Ok(entry) => {
                                                                let ghost ev = entry@;
                                                                acc.entries.push(entry);
                                                                proof {
                                                                    assert(acc@.entries =~= cur.push(ev));
                                                                    assert(acc@ =~= PbMessageV { entries: cur.push(ev), ..gacc });
                                                                }
                                                                wat = we;
                                                            },
                                                            Err(e) => {
                                                                return Err(e);
                                                            },
                                                        }
                                                    },
                                                    Err(e) => {
                                                        return Err(e);
                                                    },
                                                }
                                            } else {
                                                match skip_field(sub, wat1, wwt) {
                                                    Ok(n) => {
                                                        wat = n;
                                                    },
                                                    Err(e) => {
                                                        return Err(e);
                                                    },
                                                }
                                            }
                                        },
                                        Err(e) => {
                                            return Err(e);
                                        },
                                    }
                                }
                                proof {
                                    assert(acc@ =~= PbMessageV { entries: acc@.entries, ..gacc });
                                }
                                at = end;
                            },
                            Err(e) => {
                                return Err(e);
                            },
                        }
                    } else if f == 3 && wt == 2 {
                        match read_lendelim(s, at1) {
                            Ok((start, end)) => {
                                let sub = vstd::slice::slice_subrange(s, start, end);
                                match parse_block(sub) {
                                    Ok(b) => {
                                        let ghost bv = b@;
                                        acc.payload.push(b);
                                        proof {
                                            assert(acc@ =~= PbMessageV { payload: gacc.payload.push(bv), ..gacc });
                                        }
                                        at = end;
                                    },
                                    Err(e) => {
                                        return Err(e);
                                    },
                                }
                            },
                            Err(e) => {
                                return Err(e);
                            },
                        }
                    } else if f == 4 && wt == 2 {
                        match read_lendelim(s, at1) {
                            Ok((start, end)) => {
                                let sub = vstd::slice::slice_subrange(s, start, end);
                                match parse_presence(sub) {
                                    Ok(b) => {
                                        let ghost bv = b@;
                                        acc.presences.push(b);
                                        proof {
                                            assert(acc@ =~= PbMessageV { presences: gacc.presences.push(bv), ..gacc });
                                        }
                                        at = end;
                                    },
                                    Err(e) => {
                                        return Err(e);
                                    },
                                }
                            },
                            Err(e) => {
                                return Err(e);
                            },
                        }
                    } else if f == 6 && wt == 2 {
                        match read_lendelim(s, at1) {
                            Ok((start, end)) => {
                                let tok = vstd::slice::slice_to_vec(vstd::slice::slice_subrange(s, start, end));
                                let ghost tv = tok@;
                                acc.tokens.push(tok);
                                proof {
                                    assert(acc@ =~= PbMessageV { tokens: gacc.tokens.push(tv), ..gacc });
                                }
                                at = end;
                            },
                            Err(e) => {
                                return Err(e);
                            },
                        }
                    } else {
                        match skip_field(s, at1, wt) {
                            Ok(n) => {
                                at = n;
                            },
                            Err(e) => {
                                return Err(e);
                            },
                        }
                    }
                },
                Err(e) => {
                    return Err(e);
                },
            }
        }
        Ok(acc)
    }
}

} // verus!

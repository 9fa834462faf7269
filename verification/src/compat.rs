use vstd::prelude::*;
use vstd::std_specs::cmp::PartialEqSpec;
use crate::error::BitswapError;
use crate::identifier::{Identifier, id_read_spec, id_rebuilt_spec, id_rebuild_ok, id_prefix_spec};
use crate::token::{Token, TokenV, token_bytes, token_parse, lemma_token_round_trip};
use crate::varint::{varint_bytes, varint_parse, write_varint, read_varint};
use crate::protocol::{BitswapRequest, BitswapResponse, RequestType, RequestV, ResponseV};
use crate::pb::{PbMessage, PbMessageV, PbWantEntry, PbBlock, PbPresence, EntryV, BlockV, PresenceV, message_default, message_bytes, message_parse};

verus! {

/// Mathematical value of one logical compat value: a request, or a response
/// for an identifier together with its tokens.
#[verifier::ext_equal]
pub enum CompatV {
    Request(RequestV),
    Response(Seq<u8>, ResponseV, Seq<TokenV>),
}

/// One logical value carried by the compat wire format: a request, or a
/// response paired with the identifier it answers and its tokens.
#[derive(Debug, Clone)]
pub enum CompatMessage {
    Request(BitswapRequest),
    Response(Identifier, BitswapResponse, Vec<Token>),
}

impl View for CompatMessage {
    type V = CompatV;

    open spec fn view(&self) -> CompatV {
        match self {
            CompatMessage::Request(r) => CompatV::Request(r@),
            CompatMessage::Response(c, r, ts) => CompatV::Response(
                c@,
                r@,
                ts@.map_values(|t: Token| t@),
            ),
        }
    }
}

impl PartialEq for CompatMessage {
    fn eq(&self, other: &CompatMessage) -> (r: bool) {
        match (self, other) {
            (CompatMessage::Request(a), CompatMessage::Request(b)) => a == b,
            (CompatMessage::Response(c1, r1, t1), CompatMessage::Response(c2, r2, t2)) => {
                let same = c1 == c2 && r1 == r2 && t1 == t2;
                proof {
                    let a = t1@.map_values(|t: Token| t@);
                    let b = t2@.map_values(|t: Token| t@);
                    if same {
                        assert(a =~= b);
                        assert(self@ =~= other@);
                    } else if c1@ == c2@ && r1@ == r2@ {
                        if t1@.len() == t2@.len() {
                            let i = choose|i: int|
                                0 <= i < t1@.len() && !t1@[i].eq_spec(&t2@[i]);
                            assert(a[i] != b[i]);
                        }
                    }
                }
                same
            },
            _ => false,
        }
    }
}

impl vstd::std_specs::cmp::PartialEqSpecImpl for CompatMessage {
    open spec fn obeys_eq_spec() -> bool {
        true
    }

    open spec fn eq_spec(&self, other: &CompatMessage) -> bool {
        self@ == other@
    }
}

/// Index of the first table entry equal to `b`, or a negative value when
/// none is.
pub open spec fn find_first(table: Seq<Seq<u8>>, b: Seq<u8>) -> int
    decreases table.len(),
{
    if table.len() == 0 {
        -1
    } else if table[0] == b {
        0
    } else {
        let r = find_first(table.drop_first(), b);
        if r < 0 {
            -1
        } else {
            r + 1
        }
    }
}

/// Interning one byte string into the token table: reuse the first equal
/// entry's index, or append.
pub open spec fn intern(table: Seq<Seq<u8>>, b: Seq<u8>) -> (Seq<Seq<u8>>, int) {
    let i = find_first(table, b);
    if i >= 0 {
        (table, i)
    } else {
        (table.push(b), table.len() as int)
    }
}

/// No two table entries are equal.
pub open spec fn table_dedup(table: Seq<Seq<u8>>) -> bool {
    forall|i: int, j: int| 0 <= i < j < table.len() ==> table[i] != table[j]
}

/// What `find_first` finds is a match, preceded by none.
pub proof fn lemma_find_first_correct(table: Seq<Seq<u8>>, b: Seq<u8>)
    ensures
        find_first(table, b) >= 0 ==> {
            let i = find_first(table, b);
            i < table.len() && table[i] == b && (forall|j: int| 0 <= j < i ==> table[j] != b)
        },
        find_first(table, b) < 0 ==> (forall|j: int| 0 <= j < table.len() ==> table[j] != b),
    decreases table.len(),
{
    if table.len() > 0 && table[0] != b {
        let tl = table.drop_first();
        lemma_find_first_correct(tl, b);
        assert(forall|j: int| 0 <= j < tl.len() ==> tl[j] == table[j + 1]);
        let r = find_first(tl, b);
        if r >= 0 {
            assert(find_first(table, b) == r + 1);
            assert(table[r + 1] == tl[r]);
            assert forall|j: int| 0 <= j < r + 1 implies table[j] != b by {
                if j > 0 {
                    assert(table[j] == tl[j - 1]);
                }
            }
        } else {
            assert(find_first(table, b) == -1);
            assert forall|j: int| 0 <= j < table.len() implies table[j] != b by {
                if j > 0 {
                    assert(table[j] == tl[j - 1]);
                }
            }
        }
    }
}

/// When the first `i` entries miss and entry `i` (if any) matches,
/// `find_first` answers `i`, or misses entirely at the table's end.
pub proof fn lemma_find_first_at(table: Seq<Seq<u8>>, b: Seq<u8>, i: int)
    requires
        0 <= i <= table.len(),
        forall|j: int| 0 <= j < i ==> table[j] != b,
        i < table.len() ==> table[i] == b,
    ensures
        i < table.len() ==> find_first(table, b) == i,
        i == table.len() ==> find_first(table, b) < 0,
    decreases table.len(),
{
    if table.len() > 0 {
        if i == 0 {
            if table.len() == 0 {
            }
        } else {
            assert(table[0] != b);
            let tl = table.drop_first();
            assert(forall|j: int| 0 <= j < i - 1 ==> tl[j] == table[j + 1]);
            assert(i - 1 < tl.len() ==> tl[i - 1] == table[i]);
            lemma_find_first_at(tl, b, i - 1);
        }
    }
}

/// The token-deduplication law: interning keeps the table free of
/// duplicates, the returned index holds the interned bytes, and interning
/// the same byte string again returns the same index without growing the
/// table.
pub proof fn lemma_intern_dedup(table: Seq<Seq<u8>>, b: Seq<u8>)
    requires
        table_dedup(table),
    ensures
        table_dedup(intern(table, b).0),
        0 <= intern(table, b).1 < intern(table, b).0.len(),
        intern(table, b).0[intern(table, b).1] == b,
        intern(intern(table, b).0, b) == intern(table, b),
        table.len() <= intern(table, b).0.len() <= table.len() + 1,
        forall|j: int| 0 <= j < table.len() ==> intern(table, b).0[j] == table[j],
{
    lemma_find_first_correct(table, b);
    let i = find_first(table, b);
    if i >= 0 {
    } else {
        let t2 = table.push(b);
        assert(forall|j: int| 0 <= j < table.len() ==> t2[j] == table[j]);
        assert(t2[table.len() as int] == b);
        lemma_find_first_at(t2, b, table.len() as int);
        assert(find_first(t2, b) == table.len() as int);
        assert(table_dedup(t2)) by {
            assert forall|x: int, y: int| 0 <= x < y < t2.len() implies t2[x] != t2[y] by {
                if y == table.len() as int {
                    assert(t2[x] == table[x]);
                    assert(table[x] != b);
                }
            }
        }
    }
}

/// Interns a token's wire encoding into the message's token table and
/// returns its index: the first byte-identical entry's index when one
/// exists, else the index of the newly appended encoding. Everything else
/// in the message is untouched.
#[verifier::loop_isolation(false)]
pub fn push_token(msg: &mut PbMessage, token: &Token) -> (r: u64)
    ensures
        final(msg)@.tokens == intern(old(msg)@.tokens, token_bytes(token@)).0,
        r as int == intern(old(msg)@.tokens, token_bytes(token@)).1,
        final(msg)@.entries == old(msg)@.entries,
        final(msg)@.payload == old(msg)@.payload,
        final(msg)@.presences == old(msg)@.presences,
{
    let enc = token.to_vec();
    let n = msg.tokens.len();
    let mut i: usize = 0;
    while i < n
        invariant
            i <= n,
            forall|j: int| 0 <= j < i ==> old(msg)@.tokens[j] != token_bytes(token@),
            msg == old(msg),
        decreases n - i,
    {
        if msg.tokens[i] == enc {
            proof {
                assert(msg@.tokens[i as int] == msg.tokens@[i as int]@);
                assert(msg.tokens@[i as int]@ =~= enc@);
                lemma_find_first_at(msg@.tokens, token_bytes(token@), i as int);
            }
            return i as u64;
        }
        proof {
            assert(msg@.tokens[i as int] == msg.tokens@[i as int]@);
            if msg@.tokens[i as int] == token_bytes(token@) {
                assert(msg.tokens@[i as int]@ =~= enc@);
                assert(false);
            }
        }
        i += 1;
    }
    proof {
        lemma_find_first_at(msg@.tokens, token_bytes(token@), n as int);
    }
    let ghost before = msg@;
    msg.tokens.push(enc);
    proof {
        assert(msg@.tokens =~= before.tokens.push(token_bytes(token@)));
        assert(msg@.entries =~= before.entries);
        assert(msg@.payload =~= before.payload);
        assert(msg@.presences =~= before.presences);
    }
    n as u64
}

/// Resolution of token indices against the message's table: each index must
/// name a table entry (`InvalidData` otherwise, a dangling reference), and
/// each named entry must parse as a token.
pub open spec fn extract_spec(table: Seq<Seq<u8>>, idxs: Seq<u64>) -> Result<Seq<TokenV>, BitswapError>
    decreases idxs.len(),
{
    if idxs.len() == 0 {
        Ok(Seq::empty())
    } else if idxs[0] >= table.len() {
        Err(BitswapError::InvalidData)
    } else {
        match token_parse(table[idxs[0] as int], 0) {
            Ok(p) => match extract_spec(table, idxs.drop_first()) {
                Ok(rest) => Ok(seq![p.0] + rest),
                Err(e) => Err(e),
            },
            Err(e) => Err(e),
        }
    }
}

/// Resolves a want-list entry's token indices against the message's token
/// table, exactly as `extract_spec` says: a dangling index or a malformed
/// table entry fails, with nothing returned.
#[verifier::loop_isolation(false)]
pub fn extract_tokens(msg: &PbMessage, indices: &Vec<u64>) -> (r: Result<Vec<Token>, BitswapError>)
    ensures
        (match r {
            Ok(ts) => extract_spec(msg@.tokens, indices@)
                == Ok::<Seq<TokenV>, BitswapError>(ts@.map_values(|t: Token| t@)),
            Err(e) => extract_spec(msg@.tokens, indices@) == Err::<Seq<TokenV>, BitswapError>(e),
        }),
{
    let mut out: Vec<Token> = Vec::new();
    let mut i: usize = 0;
    let ghost full = extract_spec(msg@.tokens, indices@);
    assert(out@.map_values(|t: Token| t@) =~= Seq::<TokenV>::empty());
    assert(indices@.skip(0) =~= indices@);
    assert(full == (match extract_spec(msg@.tokens, indices@.skip(0)) {
        Ok(rest) => Ok::<Seq<TokenV>, BitswapError>(out@.map_values(|t: Token| t@) + rest),
        Err(e) => Err::<Seq<TokenV>, BitswapError>(e),
    })) by {
        match extract_spec(msg@.tokens, indices@) {
            Ok(rest) => {
                assert(Seq::<TokenV>::empty() + rest =~= rest);
            },
            Err(_) => {},
        }
    }
    while i < indices.len()
        invariant
            i <= indices@.len(),
            out@.len() == i,
            full == (match extract_spec(msg@.tokens, indices@.skip(i as int)) {
                Ok(rest) => Ok::<Seq<TokenV>, BitswapError>(out@.map_values(|t: Token| t@) + rest),
                Err(e) => Err::<Seq<TokenV>, BitswapError>(e),
            }),
        decreases indices@.len() - i,
    {
        let idx = indices[i];
        proof {
            assert(indices@.skip(i as int)[0] == indices@[i as int]);
            assert(indices@.skip(i as int).drop_first() =~= indices@.skip(i as int + 1));
        }
        if idx >= msg.tokens.len() as u64 {
            return Err(BitswapError::InvalidData);
        }
        proof {
            assert(msg@.tokens[idx as int] == msg.tokens@[idx as int]@);
        }
        match Token::from_bytes(msg.tokens[idx as usize].as_slice()) {
            Ok(t) => {
                let ghost prev = out@.map_values(|t: Token| t@);
                let ghost tv = t@;
                out.push(t);
                proof {
                    assert(out@.map_values(|t: Token| t@) =~= prev + seq![tv]);
                    match extract_spec(msg@.tokens, indices@.skip(i as int + 1)) {
                        Ok(rest) => {
                            assert(prev + (seq![tv] + rest) =~= (prev + seq![tv]) + rest);
                        },
                        Err(_) => {},
                    }
                }
            },
            Err(e) => {
                proof {
                    match token_parse(msg@.tokens[idx as int], 0) {
                        Ok(_) => {
                            assert(false);
                        },
                        Err(_) => {},
                    }
                }
                return Err(e);
            },
        }
        i += 1;
    }
    proof {
        assert(indices@.skip(indices@.len() as int) =~= Seq::<u64>::empty());
        assert(out@.map_values(|t: Token| t@) + Seq::<TokenV>::empty() =~= out@.map_values(|t: Token| t@));
    }
    Ok(out)
}


/// Interning of a token sequence, front to back: the final table and the
/// index assigned to each token.
pub open spec fn intern_all(table: Seq<Seq<u8>>, toks: Seq<TokenV>) -> (Seq<Seq<u8>>, Seq<u64>)
    decreases toks.len(),
{
    if toks.len() == 0 {
        (table, Seq::empty())
    } else {
        let p = intern(table, token_bytes(toks[0]));
        let q = intern_all(p.0, toks.drop_first());
        (q.0, seq![p.1 as u64] + q.1)
    }
}

/// Interns every token of `tokens` into the message's table, in order, and
/// returns their indices.
#[verifier::loop_isolation(false)]
fn intern_tokens(msg: &mut PbMessage, tokens: &Vec<Token>) -> (r: Vec<u64>)
    ensures
        final(msg)@.tokens == intern_all(old(msg)@.tokens, tokens@.map_values(|t: Token| t@)).0,
        r@ == intern_all(old(msg)@.tokens, tokens@.map_values(|t: Token| t@)).1,
        final(msg)@.entries == old(msg)@.entries,
        final(msg)@.payload == old(msg)@.payload,
        final(msg)@.presences == old(msg)@.presences,
{
    let ghost toks = tokens@.map_values(|t: Token| t@);
    let ghost t0 = msg@.tokens;
    let mut idxs: Vec<u64> = Vec::new();
    let mut i: usize = 0;
    assert(toks.skip(0) =~= toks);
    assert(intern_all(t0, toks) == (intern_all(msg@.tokens, toks.skip(0)).0, idxs@ + intern_all(msg@.tokens, toks.skip(0)).1)) by {
        assert(idxs@ + intern_all(msg@.tokens, toks.skip(0)).1 =~= intern_all(msg@.tokens, toks.skip(0)).1);
    }
    while i < tokens.len()
        invariant
            i <= tokens@.len(),
            msg@.entries == old(msg)@.entries,
            msg@.payload == old(msg)@.payload,
            msg@.presences == old(msg)@.presences,
            intern_all(t0, toks) == (intern_all(msg@.tokens, toks.skip(i as int)).0, idxs@ + intern_all(msg@.tokens, toks.skip(i as int)).1),
        decreases tokens@.len() - i,
    {
        let ghost cur = msg@.tokens;
        let ghost rem = toks.skip(i as int);
        proof {
            assert(rem[0] == toks[i as int]);
            assert(toks[i as int] == tokens@[i as int]@);
            assert(rem.drop_first() =~= toks.skip(i as int + 1));
        }
        let k = push_token(msg, &tokens[i]);
        let ghost prev = idxs@;
        idxs.push(k);
        proof {
            assert(idxs@ =~= prev + seq![k]);
            assert(intern_all(cur, rem)
                == (intern_all(msg@.tokens, rem.drop_first()).0,
                    seq![intern(cur, token_bytes(rem[0])).1 as u64] + intern_all(msg@.tokens, rem.drop_first()).1));
            assert(prev + (seq![k] + intern_all(msg@.tokens, toks.skip(i as int + 1)).1)
                =~= (prev + seq![k]) + intern_all(msg@.tokens, toks.skip(i as int + 1)).1);
        }
        i += 1;
    }
    proof {
        assert(toks.skip(toks.len() as int) =~= Seq::<TokenV>::empty());
        assert(idxs@ + Seq::<u64>::empty() =~= idxs@);
    }
    idxs
}

/// Wire value of a request kind in the compat want-type enum.
pub open spec fn want_type_of(ty: RequestType) -> u64 {
    match ty {
        RequestType::Have => 0,
        RequestType::Block => 1,
    }
}

/// Byte form of a prefix decomposition: four varints.
pub open spec fn prefix_enc(p: (u64, u64, u64, u64)) -> Seq<u8> {
    varint_bytes(p.0) + varint_bytes(p.1) + varint_bytes(p.2) + varint_bytes(p.3)
}

/// Parse of a prefix: four varints — version, codec, hash algorithm, hash
/// length; trailing bytes are ignored.
pub open spec fn prefix_parse(b: Seq<u8>) -> Result<(u64, u64, u64, u64), BitswapError> {
    match varint_parse(b, 0) {
        Ok(v) => match varint_parse(b, v.1) {
            Ok(c) => match varint_parse(b, c.1) {
                Ok(m) => match varint_parse(b, m.1) {
                    Ok(l) => Ok((v.0, c.0, m.0, l.0)),
                    Err(e) => Err(e),
                },
                Err(e) => Err(e),
            },
            Err(e) => Err(e),
        },
        Err(e) => Err(e),
    }
}

/// What adding one logical value does to an in-progress message: a request
/// becomes a want-list entry with `send-dont-have` asserted, a fixed
/// priority of one and no cancel; a presence answer becomes a
/// block-presence entry; a block becomes a payload entry carrying the
/// identifier's prefix bytes. Tokens are interned into the shared table.
pub open spec fn add_spec(m: PbMessageV, v: CompatV) -> PbMessageV {
    match v {
        CompatV::Request(rv) => {
            let p = intern_all(m.tokens, rv.tokens);
            PbMessageV {
                entries: m.entries.push(EntryV {
                    block: rv.cid,
                    priority: 1,
                    cancel: false,
                    want_type: want_type_of(rv.ty),
                    send_dont_have: true,
                    tokens: p.1,
                }),
                tokens: p.0,
                ..m
            }
        },
        CompatV::Response(cid, rv, ts) => {
            let p = intern_all(m.tokens, ts);
            match rv {
                ResponseV::Have(h) => PbMessageV {
                    presences: m.presences.push(PresenceV {
                        cid: cid,
                        type_pb: if h { 0 } else { 1 },
                        tokens: p.1,
                    }),
                    tokens: p.0,
                    ..m
                },
                ResponseV::Block(d) => PbMessageV {
                    payload: m.payload.push(BlockV {
                        prefix: prefix_enc(id_prefix_spec(cid)),
                        data: d,
                        tokens: p.1,
                    }),
                    tokens: p.0,
                    ..m
                },
            }
        },
    }
}

/// An in-progress compat wire message. One builder gathers the entries of
/// one message and its shared, deduplicated token table, and is discarded
/// once the message is finalized.
#[derive(Debug)]
pub struct MessageBuilder {
    pub msg: PbMessage,
}

impl MessageBuilder {
    /// An empty message with an empty token table.
    pub fn new() -> (r: MessageBuilder)
        ensures
            r.msg@ == message_default(),
    {
        MessageBuilder { msg: PbMessage::new() }
    }

    /// Adds one logical value to the message, as `add_spec` says: its
    /// tokens are interned into the shared table, so a token byte-sequence
    /// repeated across entries occupies one table slot that every entry
    /// references by the same index.
    pub fn add(&mut self, m: &CompatMessage)
        ensures
            final(self).msg@ == add_spec(old(self).msg@, m@),
    {
        match m {
            CompatMessage::Request(req) => {
                let ghost before = self.msg@;
                let idxs = intern_tokens(&mut self.msg, &req.tokens);
                let entry = PbWantEntry {
                    block: req.cid.to_bytes(),
                    priority: 1,
                    cancel: false,
                    want_type: match req.ty {
                        RequestType::Have => 0,
                        RequestType::Block => 1,
                    },
                    send_dont_have: true,
                    tokens: idxs,
                };
                let ghost ev = entry@;
                self.msg.entries.push(entry);
                proof {
                    assert(self.msg@.entries =~= before.entries.push(ev));
                    assert(self.msg@ =~= add_spec(before, m@));
                }
            },
            CompatMessage::Response(cid, res, tokens) => {
                let ghost before = self.msg@;
                let idxs = intern_tokens(&mut self.msg, tokens);
                match res {
                    BitswapResponse::Have(h) => {
                        let p = PbPresence {
                            cid: cid.to_bytes(),
                            type_pb: if *h { 0 } else { 1 },
                            tokens: idxs,
                        };
                        let ghost pv = p@;
                        self.msg.presences.push(p);
                        proof {
                            assert(self.msg@.presences =~= before.presences.push(pv));
                            assert(self.msg@ =~= add_spec(before, m@));
                        }
                    },
                    BitswapResponse::Block(d) => {
                        let pr = cid.prefix();
                        let mut prefix: Vec<u8> = Vec::new();
                        write_varint(pr.0, &mut prefix);
                        write_varint(pr.1, &mut prefix);
                        write_varint(pr.2, &mut prefix);
                        write_varint(pr.3, &mut prefix);
                        assert(prefix@ =~= prefix_enc(id_prefix_spec(cid@)));
                        let b = PbBlock {
                            prefix,
                            data: vstd::slice::slice_to_vec(d.as_slice()),
                            tokens: idxs,
                        };
                        let ghost bv = b@;
                        self.msg.payload.push(b);
                        proof {
                            assert(self.msg@.payload =~= before.payload.push(bv));
                            assert(self.msg@ =~= add_spec(before, m@));
                        }
                    },
                }
            },
        }
    }

    /// Encodes the gathered message in the compat wire format.
    pub fn to_bytes(&self) -> (r: Vec<u8>)
        ensures
            r@ == message_bytes(self.msg@),
    {
        self.msg.to_bytes()
    }
}

/// Translation of a parsed wire message's want-list: entries without
/// `send-dont-have` are dropped, an unresolvable identifier fails the whole
/// message, an unrecognized want-type drops the entry, and token indices
/// resolve against the shared table.
pub open spec fn parts_from_entries(entries: Seq<EntryV>, table: Seq<Seq<u8>>) -> Result<Seq<CompatV>, BitswapError>
    decreases entries.len(),
{
    if entries.len() == 0 {
        Ok(Seq::empty())
    } else {
        let e = entries[0];
        let rest = entries.drop_first();
        if !e.send_dont_have {
            parts_from_entries(rest, table)
        } else {
            match id_read_spec(e.block) {
                Err(er) => Err(er),
                Ok(c) => if e.want_type != 0 && e.want_type != 1 {
                    parts_from_entries(rest, table)
                } else {
                    match extract_spec(table, e.tokens) {
                        Err(e2) => Err(e2),
                        Ok(ts) => match parts_from_entries(rest, table) {
                            Ok(r) => Ok(
                                seq![CompatV::Request(RequestV {
                                    ty: if e.want_type == 0 { RequestType::Have } else { RequestType::Block },
                                    cid: c.0,
                                    tokens: ts,
                                })] + r,
                            ),
                            Err(e3) => Err(e3),
                        },
                    }
                },
            }
        }
    }
}

/// Translation of the payload section: the identifier is rebuilt from the
/// prefix bytes plus the block data; a malformed prefix or a rejected
/// rebuild fails the whole message.
pub open spec fn parts_from_payload(blocks: Seq<BlockV>, table: Seq<Seq<u8>>) -> Result<Seq<CompatV>, BitswapError>
    decreases blocks.len(),
{
    if blocks.len() == 0 {
        Ok(Seq::empty())
    } else {
        let b = blocks[0];
        let rest = blocks.drop_first();
        match prefix_parse(b.prefix) {
            Err(e) => Err(e),
            Ok(p) => if !id_rebuild_ok(p.0, p.1, p.2, b.data) {
                Err(BitswapError::InvalidData)
            } else {
                match extract_spec(table, b.tokens) {
                    Err(e2) => Err(e2),
                    Ok(ts) => match parts_from_payload(rest, table) {
                        Ok(r) => Ok(
                            seq![CompatV::Response(
                                id_rebuilt_spec(p.0, p.1, p.2, b.data),
                                ResponseV::Block(b.data),
                                ts,
                            )] + r,
                        ),
                        Err(e3) => Err(e3),
                    },
                }
            },
        }
    }
}

/// Translation of the block-presence section: an unresolvable identifier
/// fails the whole message, an unrecognized presence type drops the entry.
pub open spec fn parts_from_presences(ps: Seq<PresenceV>, table: Seq<Seq<u8>>) -> Result<Seq<CompatV>, BitswapError>
    decreases ps.len(),
{
    if ps.len() == 0 {
        Ok(Seq::empty())
    } else {
        let p = ps[0];
        let rest = ps.drop_first();
        match id_read_spec(p.cid) {
            Err(er) => Err(er),
            Ok(c) => if p.type_pb != 0 && p.type_pb != 1 {
                parts_from_presences(rest, table)
            } else {
                match extract_spec(table, p.tokens) {
                    Err(e2) => Err(e2),
                    Ok(ts) => match parts_from_presences(rest, table) {
                        Ok(r) => Ok(
                            seq![CompatV::Response(c.0, ResponseV::Have(p.type_pb == 0), ts)] + r,
                        ),
                        Err(e3) => Err(e3),
                    },
                }
            },
        }
    }
}

/// Translation of a whole parsed wire message into its logical values, in
/// wire order: want-list entries, then payload blocks, then presences. Any
/// structural failure returns no values at all.
pub open spec fn compat_parts(m: PbMessageV) -> Result<Seq<CompatV>, BitswapError> {
    match parts_from_entries(m.entries, m.tokens) {
        Err(e) => Err(e),
        Ok(a) => match parts_from_payload(m.payload, m.tokens) {
            Err(e) => Err(e),
            Ok(b) => match parts_from_presences(m.presences, m.tokens) {
                Err(e) => Err(e),
                Ok(c) => Ok(a + b + c),
            },
        },
    }
}

/// What decoding compat wire bytes returns: the wire parse, then the
/// translation.
pub open spec fn compat_from_bytes_spec(s: Seq<u8>) -> Result<Seq<CompatV>, BitswapError> {
    match message_parse(s) {
        Ok(m) => compat_parts(m),
        Err(e) => Err(e),
    }
}


/// Parses prefix bytes: four varints, trailing bytes ignored.
fn parse_prefix(b: &[u8]) -> (r: Result<(u64, u64, u64, u64), BitswapError>)
    ensures
        (match r {
            Ok(p) => prefix_parse(b@) == Ok::<(u64, u64, u64, u64), BitswapError>(p),
            Err(e) => prefix_parse(b@) == Err::<(u64, u64, u64, u64), BitswapError>(e),
        }),
{
    match read_varint(b, 0) {
        Ok((v, a1)) => match read_varint(b, a1) {
            Ok((c, a2)) => match read_varint(b, a2) {
                Ok((m, a3)) => match read_varint(b, a3) {
                    Ok((l, _)) => Ok((v, c, m, l)),
                    Err(e) => Err(e),
                },
                Err(e) => Err(e),
            },
            Err(e) => Err(e),
        },
        Err(e) => Err(e),
    }
}

/// Translates a parsed wire message into its logical values, exactly as
/// `compat_parts` says: dropped entries are benign capability gaps, and any
/// structural failure returns no values at all.
#[verifier::loop_isolation(false)]
#[verifier::rlimit(100)]
fn compat_parts_of(msg: &PbMessage) -> (r: Result<Vec<CompatMessage>, BitswapError>)
    ensures
        (match r {
            Ok(v) => compat_parts(msg@) == Ok::<Seq<CompatV>, BitswapError>(v@.map_values(|c: CompatMessage| c@)),
            Err(e) => compat_parts(msg@) == Err::<Seq<CompatV>, BitswapError>(e),
        }),
{
    let ghost table = msg@.tokens;
    let mut out: Vec<CompatMessage> = Vec::new();
    let ghost fulla = parts_from_entries(msg@.entries, table);
    let mut j: usize = 0;
    assert(msg@.entries.skip(0) =~= msg@.entries);
    assert(out@.map_values(|c: CompatMessage| c@) =~= Seq::<CompatV>::empty());
    assert(fulla == (match parts_from_entries(msg@.entries.skip(0), table) {
        Ok(rest) => Ok::<Seq<CompatV>, BitswapError>(out@.map_values(|c: CompatMessage| c@) + rest),
        Err(e) => Err::<Seq<CompatV>, BitswapError>(e),
    })) by {
        match parts_from_entries(msg@.entries, table) {
            Ok(rest) => {
                assert(Seq::<CompatV>::empty() + rest =~= rest);
            },
            Err(_) => {},
        }
    }
    while j < msg.entries.len()
        invariant
            j <= msg@.entries.len(),
            fulla == (match parts_from_entries(msg@.entries.skip(j as int), table) {
                Ok(rest) => Ok::<Seq<CompatV>, BitswapError>(out@.map_values(|c: CompatMessage| c@) + rest),
                Err(e) => Err::<Seq<CompatV>, BitswapError>(e),
            }),
        decreases msg@.entries.len() - j,
    {
        let ghost made = out@.map_values(|c: CompatMessage| c@);
        let ghost rem = msg@.entries.skip(j as int);
        proof {
            assert(rem[0] == msg@.entries[j as int]);
            assert(msg@.entries[j as int] == msg.entries@[j as int]@);
            assert(rem.drop_first() =~= msg@.entries.skip(j as int + 1));
        }
        if msg.entries[j].send_dont_have {
            match Identifier::read_bytes(msg.entries[j].block.as_slice()) {
                Ok(p) => {
                    let wt = msg.entries[j].want_type;
                    if wt == 0 || wt == 1 {
                        match extract_tokens(msg, &msg.entries[j].tokens) {
                            Ok(ts) => {
                                let ty = if wt == 0 { RequestType::Have } else { RequestType::Block };
                                let cm = CompatMessage::Request(BitswapRequest { ty, cid: p.0, tokens: ts });
                                let ghost cv = cm@;
                                out.push(cm);
                                proof {
                                    assert(out@.map_values(|c: CompatMessage| c@) =~= made + seq![cv]);
                                    match parts_from_entries(msg@.entries.skip(j as int + 1), table) {
                                        Ok(rest) => {
                                            assert(made + (seq![cv] + rest) =~= (made + seq![cv]) + rest);
                                        },
                                        Err(_) => {},
                                    }
                                }
                            },
                            Err(e) => {
                                return Err(e);
                            },
                        }
                    }
                },
                Err(e) => {
                    return Err(e);
                },
            }
        }
        j += 1;
    }
    proof {
        assert(msg@.entries.skip(msg@.entries.len() as int) =~= Seq::<EntryV>::empty());
        assert(out@.map_values(|c: CompatMessage| c@) + Seq::<CompatV>::empty()
            =~= out@.map_values(|c: CompatMessage| c@));
    }
    let ghost part_a = out@.map_values(|c: CompatMessage| c@);
    assert(parts_from_entries(msg@.entries, table) == Ok::<Seq<CompatV>, BitswapError>(part_a));
    let ghost fullb = parts_from_payload(msg@.payload, table);
    let mut j: usize = 0;
    assert(msg@.payload.skip(0) =~= msg@.payload);
    assert(out@.map_values(|c: CompatMessage| c@).skip(part_a.len() as int) =~= Seq::<CompatV>::empty());
    assert(fullb == (match parts_from_payload(msg@.payload.skip(0), table) {
        Ok(rest) => Ok::<Seq<CompatV>, BitswapError>(out@.map_values(|c: CompatMessage| c@).skip(part_a.len() as int) + rest),
        Err(e) => Err::<Seq<CompatV>, BitswapError>(e),
    })) by {
        match parts_from_payload(msg@.payload, table) {
            Ok(rest) => {
                assert(Seq::<CompatV>::empty() + rest =~= rest);
            },
            Err(_) => {},
        }
    }
    while j < msg.payload.len()
        invariant
            j <= msg@.payload.len(),
            part_a.len() <= out@.len(),
            out@.map_values(|c: CompatMessage| c@).take(part_a.len() as int) == part_a,
            fullb == (match parts_from_payload(msg@.payload.skip(j as int), table) {
                Ok(rest) => Ok::<Seq<CompatV>, BitswapError>(out@.map_values(|c: CompatMessage| c@).skip(part_a.len() as int) + rest),
                Err(e) => Err::<Seq<CompatV>, BitswapError>(e),
            }),
        decreases msg@.payload.len() - j,
    {
        let ghost made = out@.map_values(|c: CompatMessage| c@).skip(part_a.len() as int);
        let ghost rem = msg@.payload.skip(j as int);
        proof {
            assert(rem[0] == msg@.payload[j as int]);
            assert(msg@.payload[j as int] == msg.payload@[j as int]@);
            assert(rem.drop_first() =~= msg@.payload.skip(j as int + 1));
        }
        match parse_prefix(msg.payload[j].prefix.as_slice()) {
            Ok(pr) => {
                match Identifier::from_prefix(pr.0, pr.1, pr.2, msg.payload[j].data.as_slice()) {
                    Ok(cid) => {
                        match extract_tokens(msg, &msg.payload[j].tokens) {
                            Ok(ts) => {
                                let data = vstd::slice::slice_to_vec(msg.payload[j].data.as_slice());
                                let cm = CompatMessage::Response(cid, BitswapResponse::Block(data), ts);
                                let ghost cv = cm@;
                                out.push(cm);
                                proof {
                                    assert(out@.map_values(|c: CompatMessage| c@).take(part_a.len() as int) =~= part_a);
                                    assert(out@.map_values(|c: CompatMessage| c@).skip(part_a.len() as int) =~= made + seq![cv]);
                                    match parts_from_payload(msg@.payload.skip(j as int + 1), table) {
                                        Ok(rest) => {
                                            assert(made + (seq![cv] + rest) =~= (made + seq![cv]) + rest);
                                        },
                                        Err(_) => {},
                                    }
                                }
                            },
                            Err(e) => {
                                return Err(e);
                            },
                        }
                    },
                    Err(e) => {
                        return Err(e);
                    },
                }
            },
            Err(e) => {
                return Err(e);
            },
        }
        j += 1;
    }
    proof {
        assert(msg@.payload.skip(msg@.payload.len() as int) =~= Seq::<BlockV>::empty());
        assert(out@.map_values(|c: CompatMessage| c@).skip(part_a.len() as int) + Seq::<CompatV>::empty()
            =~= out@.map_values(|c: CompatMessage| c@).skip(part_a.len() as int));
    }
    let ghost part_b = out@.map_values(|c: CompatMessage| c@).skip(part_a.len() as int);
    assert(parts_from_payload(msg@.payload, table) == Ok::<Seq<CompatV>, BitswapError>(part_b));
    let ghost ab_len = out@.len() as int;
    let ghost part_ab = out@.map_values(|c: CompatMessage| c@);
    assert(part_ab =~= part_a + part_b);
    let ghost fullc = parts_from_presences(msg@.presences, table);
    let mut j: usize = 0;
    assert(msg@.presences.skip(0) =~= msg@.presences);
    assert(out@.map_values(|c: CompatMessage| c@).skip(ab_len) =~= Seq::<CompatV>::empty());
    assert(fullc == (match parts_from_presences(msg@.presences.skip(0), table) {
        Ok(rest) => Ok::<Seq<CompatV>, BitswapError>(out@.map_values(|c: CompatMessage| c@).skip(ab_len) + rest),
        Err(e) => Err::<Seq<CompatV>, BitswapError>(e),
    })) by {
        match parts_from_presences(msg@.presences, table) {
            Ok(rest) => {
                assert(Seq::<CompatV>::empty() + rest =~= rest);
            },
            Err(_) => {},
        }
    }
    while j < msg.presences.len()
        invariant
            j <= msg@.presences.len(),
            ab_len <= out@.len(),
            out@.map_values(|c: CompatMessage| c@).take(ab_len) == part_ab,
            fullc == (match parts_from_presences(msg@.presences.skip(j as int), table) {
                Ok(rest) => Ok::<Seq<CompatV>, BitswapError>(out@.map_values(|c: CompatMessage| c@).skip(ab_len) + rest),
                Err(e) => Err::<Seq<CompatV>, BitswapError>(e),
            }),
        decreases msg@.presences.len() - j,
    {
        let ghost made = out@.map_values(|c: CompatMessage| c@).skip(ab_len);
        let ghost rem = msg@.presences.skip(j as int);
        proof {
            assert(rem[0] == msg@.presences[j as int]);
            assert(msg@.presences[j as int] == msg.presences@[j as int]@);
            assert(rem.drop_first() =~= msg@.presences.skip(j as int + 1));
        }
        match Identifier::read_bytes(msg.presences[j].cid.as_slice()) {
            Ok(p) => {
                let tp = msg.presences[j].type_pb;
                if tp == 0 || tp == 1 {
                    match extract_tokens(msg, &msg.presences[j].tokens) {
                        Ok(ts) => {
                            let cm = CompatMessage::Response(p.0, BitswapResponse::Have(tp == 0), ts);
                            let ghost cv = cm@;
                            out.push(cm);
                            proof {
                                assert(out@.map_values(|c: CompatMessage| c@).take(ab_len) =~= part_ab);
                                assert(out@.map_values(|c: CompatMessage| c@).skip(ab_len) =~= made + seq![cv]);
                                match parts_from_presences(msg@.presences.skip(j as int + 1), table) {
                                    Ok(rest) => {
                                        assert(made + (seq![cv] + rest) =~= (made + seq![cv]) + rest);
                                    },
                                    Err(_) => {},
                                }
                            }
                        },
                        Err(e) => {
                            return Err(e);
                        },
                    }
                }
            },
            Err(e) => {
                return Err(e);
            },
        }
        j += 1;
    }
    proof {
        assert(msg@.presences.skip(msg@.presences.len() as int) =~= Seq::<PresenceV>::empty());
        assert(out@.map_values(|c: CompatMessage| c@).skip(ab_len) + Seq::<CompatV>::empty()
            =~= out@.map_values(|c: CompatMessage| c@).skip(ab_len));
        let part_c = out@.map_values(|c: CompatMessage| c@).skip(ab_len);
        assert(parts_from_presences(msg@.presences, table) == Ok::<Seq<CompatV>, BitswapError>(part_c));
        assert(out@.map_values(|c: CompatMessage| c@) =~= (part_a + part_b) + part_c);
    }
    Ok(out)
}

impl CompatMessage {
    /// Encodes one logical value as one compat wire message, as building a
    /// fresh message with this value alone and finalizing it. Always
    /// succeeds.
    pub fn to_bytes(&self) -> (r: Result<Vec<u8>, BitswapError>)
        ensures
            r matches Ok(b) && b@ == message_bytes(add_spec(message_default(), self@)),
    {
        let mut builder = MessageBuilder::new();
        builder.add(self);
        Ok(builder.to_bytes())
    }

    /// Decodes one compat wire message into its logical values, exactly as
    /// `compat_from_bytes_spec` says: the wire parse, then the translation;
    /// any structural failure returns no values at all.
    pub fn from_bytes(bytes: &[u8]) -> (r: Result<Vec<CompatMessage>, BitswapError>)
        ensures
            (match r {
                Ok(v) => compat_from_bytes_spec(bytes@)
                    == Ok::<Seq<CompatV>, BitswapError>(v@.map_values(|c: CompatMessage| c@)),
                Err(e) => compat_from_bytes_spec(bytes@) == Err::<Seq<CompatV>, BitswapError>(e),
            }),
    {
        match PbMessage::from_bytes(bytes) {
            Ok(m) => compat_parts_of(&m),
            Err(e) => Err(e),
        }
    }
}


/// A dangling token index anywhere in the list fails resolution.
pub proof fn lemma_extract_dangling(table: Seq<Seq<u8>>, idxs: Seq<u64>, i: int)
    requires
        0 <= i < idxs.len(),
        idxs[i] >= table.len(),
    ensures
        extract_spec(table, idxs) is Err,
    decreases idxs.len(),
{
    if i == 0 {
    } else {
        if idxs[0] >= table.len() {
        } else {
            match token_parse(table[idxs[0] as int], 0) {
                Ok(_) => {
                    assert(idxs.drop_first()[i - 1] == idxs[i]);
                    lemma_extract_dangling(table, idxs.drop_first(), i - 1);
                },
                Err(_) => {},
            }
        }
    }
}

/// Dangling token index law: a want-list entry that is not dropped and
/// references a token index outside the table fails the whole want-list
/// translation, so no values at all are returned for the message.
pub proof fn lemma_dangling_index_fails(entries: Seq<EntryV>, table: Seq<Seq<u8>>, j: int)
    requires
        0 <= j < entries.len(),
        entries[j].send_dont_have,
        id_read_spec(entries[j].block) is Ok,
        entries[j].want_type == 0 || entries[j].want_type == 1,
        exists|i: int| 0 <= i < entries[j].tokens.len() && entries[j].tokens[i] >= table.len(),
    ensures
        parts_from_entries(entries, table) is Err,
    decreases entries.len(),
{
    let e = entries[0];
    let rest = entries.drop_first();
    if j == 0 {
        let i = choose|i: int| 0 <= i < e.tokens.len() && e.tokens[i] >= table.len();
        lemma_extract_dangling(table, e.tokens, i);
    } else {
        assert(rest[j - 1] == entries[j]);
        lemma_dangling_index_fails(rest, table, j - 1);
    }
}

/// The same law lifted to a whole message: such a message translates to an
/// error, never to a partial result.
pub proof fn lemma_compat_dangling(m: PbMessageV, j: int)
    requires
        0 <= j < m.entries.len(),
        m.entries[j].send_dont_have,
        id_read_spec(m.entries[j].block) is Ok,
        m.entries[j].want_type == 0 || m.entries[j].want_type == 1,
        exists|i: int| 0 <= i < m.entries[j].tokens.len() && m.entries[j].tokens[i] >= m.tokens.len(),
    ensures
        compat_parts(m) is Err,
{
    lemma_dangling_index_fails(m.entries, m.tokens, j);
}

/// Skip-not-fail law: removing a want-list entry whose `send-dont-have` is
/// unset changes nothing about the translation — the entry is dropped while
/// its siblings still decode, and it can neither fail the message nor
/// contribute a value.
pub proof fn lemma_skip_not_fail(entries: Seq<EntryV>, table: Seq<Seq<u8>>, j: int)
    requires
        0 <= j < entries.len(),
        !entries[j].send_dont_have,
    ensures
        parts_from_entries(entries.remove(j), table) == parts_from_entries(entries, table),
    decreases entries.len(),
{
    if j == 0 {
        assert(entries.remove(0) =~= entries.drop_first());
    } else {
        let shorter = entries.remove(j);
        let rest = entries.drop_first();
        assert(shorter[0] == entries[0]);
        assert(shorter.drop_first() =~= rest.remove(j - 1));
        assert(rest[j - 1] == entries[j]);
        lemma_skip_not_fail(rest, table, j - 1);
        assert(parts_from_entries(shorter.drop_first(), table) == parts_from_entries(rest, table));
    }
}

/// Interning a token list into a duplicate-free table keeps it
/// duplicate-free, only appends, and resolving the returned indices against
/// the final table gives the tokens back.
pub proof fn lemma_intern_all_extract(table: Seq<Seq<u8>>, toks: Seq<TokenV>)
    requires
        table_dedup(table),
        table.len() + toks.len() <= u64::MAX,
        forall|i: int| 0 <= i < toks.len() ==> (#[trigger] toks[i]).value.len() <= usize::MAX,
    ensures
        table_dedup(intern_all(table, toks).0),
        intern_all(table, toks).1.len() == toks.len(),
        table.len() <= intern_all(table, toks).0.len() <= table.len() + toks.len(),
        forall|j: int| 0 <= j < table.len() ==> intern_all(table, toks).0[j] == table[j],
        extract_spec(intern_all(table, toks).0, intern_all(table, toks).1) == Ok::<Seq<TokenV>, BitswapError>(toks),
    decreases toks.len(),
{
    if toks.len() == 0 {
        assert(intern_all(table, toks).1 =~= Seq::<u64>::empty());
        assert(toks =~= Seq::<TokenV>::empty());
        assert(extract_spec(table, Seq::<u64>::empty()) == Ok::<Seq<TokenV>, BitswapError>(Seq::empty()));
    } else {
        let tb0 = token_bytes(toks[0]);
        let p = intern(table, tb0);
        lemma_intern_dedup(table, tb0);
        let tl = toks.drop_first();
        assert(forall|i: int| 0 <= i < tl.len() ==> (#[trigger] tl[i]).value.len() <= usize::MAX) by {
            assert forall|i: int| 0 <= i < tl.len() implies (#[trigger] tl[i]).value.len() <= usize::MAX by {
                assert(tl[i] == toks[i + 1]);
            }
        }
        lemma_intern_all_extract(p.0, tl);
        let q = intern_all(p.0, tl);
        let idxs = seq![p.1 as u64] + q.1;
        assert(intern_all(table, toks) == (q.0, idxs));
        assert(0 <= p.1 < p.0.len());
        assert(p.1 < u64::MAX);
        assert(idxs[0] == p.1 as u64);
        assert(q.0[p.1] == p.0[p.1]);
        assert(p.0[p.1] == tb0);
        assert(token_parse(tb0, 0) == Ok::<(TokenV, int), BitswapError>((toks[0], tb0.len() as int))) by {
            assert(tb0.subrange(0, tb0.len() as int) =~= tb0);
            lemma_token_round_trip(toks[0], tb0, 0);
        }
        assert(idxs.drop_first() =~= q.1);
        assert(extract_spec(q.0, idxs) == Ok::<Seq<TokenV>, BitswapError>(seq![toks[0]] + tl));
        assert(seq![toks[0]] + tl =~= toks);
    }
}

/// Request round trip through the compat format, at the message-structure
/// level: whenever the identifier reader inverts the writer on this
/// request's identifier bytes — which any one call of the reader on those
/// bytes establishes — translating the message built from the request
/// yields exactly the request back.
pub proof fn lemma_compat_request_round_trip(v: RequestV)
    requires
        id_read_spec(v.cid) == Ok::<(Seq<u8>, int), BitswapError>((v.cid, v.cid.len() as int)),
        v.tokens.len() <= u64::MAX,
        forall|i: int| 0 <= i < v.tokens.len() ==> (#[trigger] v.tokens[i]).value.len() <= usize::MAX,
    ensures
        compat_parts(add_spec(message_default(), CompatV::Request(v)))
            == Ok::<Seq<CompatV>, BitswapError>(seq![CompatV::Request(v)]),
{
    let m = add_spec(message_default(), CompatV::Request(v));
    lemma_intern_all_extract(Seq::empty(), v.tokens);
    let p = intern_all(Seq::empty(), v.tokens);
    let e = m.entries[0];
    assert(m.entries.drop_first() =~= Seq::<EntryV>::empty());
    assert(e.block == v.cid);
    assert(extract_spec(m.tokens, e.tokens) == Ok::<Seq<TokenV>, BitswapError>(v.tokens));
    let got = RequestV {
        ty: if e.want_type == 0 { RequestType::Have } else { RequestType::Block },
        cid: v.cid,
        tokens: v.tokens,
    };
    assert(parts_from_entries(Seq::<EntryV>::empty(), m.tokens) == Ok::<Seq<CompatV>, BitswapError>(Seq::empty()));
    match v.ty {
        RequestType::Have => {
            assert(e.want_type == 0);
        },
        RequestType::Block => {
            assert(e.want_type == 1);
        },
    }
    assert(got =~= v);
    assert(parts_from_entries(m.entries, m.tokens)
        == Ok::<Seq<CompatV>, BitswapError>(seq![CompatV::Request(got)] + Seq::<CompatV>::empty()));
    assert(seq![CompatV::Request(got)] + Seq::<CompatV>::empty() =~= seq![CompatV::Request(v)]);
    assert(m.payload =~= Seq::<BlockV>::empty());
    assert(m.presences =~= Seq::<PresenceV>::empty());
    assert((seq![CompatV::Request(v)] + Seq::<CompatV>::empty()) + Seq::<CompatV>::empty()
        =~= seq![CompatV::Request(v)]);
}

/// Presence round trip through the compat format, at the message-structure
/// level, under the same identifier-reader premise.
pub proof fn lemma_compat_presence_round_trip(cid: Seq<u8>, have: bool, ts: Seq<TokenV>)
    requires
        id_read_spec(cid) == Ok::<(Seq<u8>, int), BitswapError>((cid, cid.len() as int)),
        ts.len() <= u64::MAX,
        forall|i: int| 0 <= i < ts.len() ==> (#[trigger] ts[i]).value.len() <= usize::MAX,
    ensures
        compat_parts(add_spec(message_default(), CompatV::Response(cid, ResponseV::Have(have), ts)))
            == Ok::<Seq<CompatV>, BitswapError>(seq![CompatV::Response(cid, ResponseV::Have(have), ts)]),
{
    let m = add_spec(message_default(), CompatV::Response(cid, ResponseV::Have(have), ts));
    lemma_intern_all_extract(Seq::empty(), ts);
    let pr = m.presences[0];
    assert(m.presences.drop_first() =~= Seq::<PresenceV>::empty());
    assert(pr.cid == cid);
    assert(pr.type_pb == 0 || pr.type_pb == 1);
    assert((pr.type_pb == 0) == have);
    assert(extract_spec(m.tokens, pr.tokens) == Ok::<Seq<TokenV>, BitswapError>(ts));
    assert(parts_from_presences(Seq::<PresenceV>::empty(), m.tokens) == Ok::<Seq<CompatV>, BitswapError>(Seq::empty()));
    let out = CompatV::Response(cid, ResponseV::Have(have), ts);
    assert(parts_from_presences(m.presences, m.tokens)
        == Ok::<Seq<CompatV>, BitswapError>(seq![out] + Seq::<CompatV>::empty()));
    assert(m.entries =~= Seq::<EntryV>::empty());
    assert(m.payload =~= Seq::<BlockV>::empty());
    assert((Seq::<CompatV>::empty() + Seq::<CompatV>::empty()) + (seq![out] + Seq::<CompatV>::empty())
        =~= seq![out]);
}

/// Prefix bytes round trip: parsing the four encoded varints gives the
/// prefix fields back.
pub proof fn lemma_prefix_round_trip(p: (u64, u64, u64, u64))
    ensures
        prefix_parse(prefix_enc(p)) == Ok::<(u64, u64, u64, u64), BitswapError>(p),
{
    let a = varint_bytes(p.0);
    let b = varint_bytes(p.1);
    let c = varint_bytes(p.2);
    let d = varint_bytes(p.3);
    let s = prefix_enc(p);
    assert(s =~= a + (b + (c + d)));
    assert(s.subrange(0, (a.len() + (b + (c + d)).len()) as int) =~= a + (b + (c + d)));
    crate::protocol::lemma_concat_split(s, 0, a, b + (c + d));
    crate::varint::lemma_varint_round_trip(p.0, s, 0);
    crate::protocol::lemma_concat_split(s, a.len() as int, b, c + d);
    crate::varint::lemma_varint_round_trip(p.1, s, a.len() as int);
    crate::protocol::lemma_concat_split(s, (a.len() + b.len()) as int, c, d);
    crate::varint::lemma_varint_round_trip(p.2, s, (a.len() + b.len()) as int);
    assert(s.subrange((a.len() + b.len() + c.len()) as int, s.len() as int) =~= d);
    assert(d.subrange(0, d.len() as int) =~= d);
    crate::varint::lemma_varint_round_trip(p.3, s, (a.len() + b.len() + c.len()) as int);
}

/// Block round trip through the compat format, at the message-structure
/// level: conditional on the prefix adapter rebuilding this identifier from
/// its own prefix and the block bytes, which holds when the identifier was
/// derived from the block by the named hash algorithm.
pub proof fn lemma_compat_block_round_trip(cid: Seq<u8>, data: Seq<u8>, ts: Seq<TokenV>)
    requires
        id_rebuild_ok(
            id_prefix_spec(cid).0,
            id_prefix_spec(cid).1,
            id_prefix_spec(cid).2,
            data,
        ),
        id_rebuilt_spec(
            id_prefix_spec(cid).0,
            id_prefix_spec(cid).1,
            id_prefix_spec(cid).2,
            data,
        ) == cid,
        ts.len() <= u64::MAX,
        forall|i: int| 0 <= i < ts.len() ==> (#[trigger] ts[i]).value.len() <= usize::MAX,
    ensures
        compat_parts(add_spec(message_default(), CompatV::Response(cid, ResponseV::Block(data), ts)))
            == Ok::<Seq<CompatV>, BitswapError>(seq![CompatV::Response(cid, ResponseV::Block(data), ts)]),
{
    let m = add_spec(message_default(), CompatV::Response(cid, ResponseV::Block(data), ts));
    lemma_intern_all_extract(Seq::empty(), ts);
    let b = m.payload[0];
    assert(m.payload.drop_first() =~= Seq::<BlockV>::empty());
    lemma_prefix_round_trip(id_prefix_spec(cid));
    assert(prefix_parse(b.prefix) == Ok::<(u64, u64, u64, u64), BitswapError>(id_prefix_spec(cid)));
    assert(extract_spec(m.tokens, b.tokens) == Ok::<Seq<TokenV>, BitswapError>(ts));
    assert(parts_from_payload(Seq::<BlockV>::empty(), m.tokens) == Ok::<Seq<CompatV>, BitswapError>(Seq::empty()));
    let out = CompatV::Response(cid, ResponseV::Block(data), ts);
    assert(parts_from_payload(m.payload, m.tokens)
        == Ok::<Seq<CompatV>, BitswapError>(seq![out] + Seq::<CompatV>::empty()));
    assert(m.entries =~= Seq::<EntryV>::empty());
    assert(m.presences =~= Seq::<PresenceV>::empty());
    assert((Seq::<CompatV>::empty() + (seq![out] + Seq::<CompatV>::empty())) + Seq::<CompatV>::empty()
        =~= seq![out]);
}

} // verus!

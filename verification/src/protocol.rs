use vstd::prelude::*;
use vstd::std_specs::cmp::PartialEqSpec;
use crate::error::{BitswapError, MessageTooLarge, UnknownMessageType};
use crate::identifier::{Identifier, id_read_spec, id_read_canonical, id_bytes};
use crate::token::{Token, TokenV, token_bytes, token_parse, lemma_token_round_trip};
use crate::varint::{varint_bytes, varint_parse, write_varint, read_varint, lemma_varint_parse_bounds, lemma_varint_round_trip};

verus! {

/// Ceiling on an identifier's serialized size: four varints of at most ten
/// bytes each plus a digest of at most 64 bytes.
pub const MAX_CID_SIZE: usize = 4 * 10 + 64;

/// Ceiling on the token section of a native frame.
pub const MAX_TOKEN_SIZE: usize = 1024 * 1024;

/// The two kinds of request: a presence query or a block fetch.
#[derive(Clone, Copy, Debug, PartialEq, Eq, Structural)]
pub enum RequestType {
    Have,
    Block,
}

/// Wire tag byte of a request kind.
pub open spec fn request_tag(ty: RequestType) -> u8 {
    match ty {
        RequestType::Have => 0,
        RequestType::Block => 1,
    }
}

/// Mathematical value of a request: its kind, the identifier's canonical
/// bytes, and its tokens in wire order.
#[verifier::ext_equal]
pub struct RequestV {
    pub ty: RequestType,
    pub cid: Seq<u8>,
    pub tokens: Seq<TokenV>,
}

/// A request for content: its kind, the content identifier, and the tokens
/// that authenticate it, in wire order.
#[derive(Debug, Clone)]
pub struct BitswapRequest {
    pub ty: RequestType,
    pub cid: Identifier,
    pub tokens: Vec<Token>,
}

impl View for BitswapRequest {
    type V = RequestV;

    open spec fn view(&self) -> RequestV {
        RequestV {
            ty: self.ty,
            cid: self.cid@,
            tokens: self.tokens@.map_values(|t: Token| t@),
        }
    }
}

impl PartialEq for BitswapRequest {
    fn eq(&self, other: &BitswapRequest) -> (r: bool) {
        let same = self.ty == other.ty && self.cid == other.cid && self.tokens == other.tokens;
        proof {
            let a = self@.tokens;
            let b = other@.tokens;
            if same {
                assert(a =~= b);
                assert(self@ =~= other@);
            } else if self.ty == other.ty && self.cid@ == other.cid@ {
                if self.tokens@.len() == other.tokens@.len() {
                    let i = choose|i: int|
                        0 <= i < self.tokens@.len() && !self.tokens@[i].eq_spec(&other.tokens@[i]);
                    assert(a[i] != b[i]);
                }
            }
        }
        same
    }
}

impl vstd::std_specs::cmp::PartialEqSpecImpl for BitswapRequest {
    open spec fn obeys_eq_spec() -> bool {
        true
    }

    open spec fn eq_spec(&self, other: &BitswapRequest) -> bool {
        self@ == other@
    }
}

/// Concatenated wire encodings of a token sequence.
pub open spec fn tokens_bytes(ts: Seq<TokenV>) -> Seq<u8>
    decreases ts.len(),
{
    if ts.len() == 0 {
        Seq::empty()
    } else {
        token_bytes(ts[0]) + tokens_bytes(ts.drop_first())
    }
}

/// Native request frame: one tag byte, the identifier's canonical bytes, a
/// varint token count, then the token encodings.
pub open spec fn request_bytes(v: RequestV) -> Seq<u8> {
    seq![request_tag(v.ty)] + v.cid + varint_bytes(v.tokens.len() as u64) + tokens_bytes(v.tokens)
}

/// Parse of `n` tokens one after another starting at `at`.
pub open spec fn tokens_parse(s: Seq<u8>, at: int, n: u64) -> Result<(Seq<TokenV>, int), BitswapError>
    decreases n,
{
    if n == 0 {
        Ok((Seq::empty(), at))
    } else {
        match token_parse(s, at) {
            Ok(p) => match tokens_parse(s, p.1, (n - 1) as u64) {
                Ok(q) => Ok((seq![p.0] + q.0, q.1)),
                Err(e) => Err(e),
            },
            Err(e) => Err(e),
        }
    }
}

/// Parse of a native request frame: a tag byte that must be 0 or 1, then an
/// identifier (the external parser's decision, named by `id_read_spec`), a
/// varint token count and that many tokens. Trailing bytes are ignored.
pub open spec fn request_parse(s: Seq<u8>) -> Result<RequestV, BitswapError> {
    if s.len() == 0 {
        Err(BitswapError::UnexpectedEnd)
    } else if s[0] != 0 && s[0] != 1 {
        Err(BitswapError::UnknownMessage(UnknownMessageType(s[0])))
    } else {
        let ty = if s[0] == 0 { RequestType::Have } else { RequestType::Block };
        match id_read_spec(s.subrange(1, s.len() as int)) {
            Ok(c) => match varint_parse(s, 1 + c.1) {
                Ok(n) => match tokens_parse(s, n.1, n.0) {
                    Ok(ts) => Ok(RequestV { ty, cid: c.0, tokens: ts.0 }),
                    Err(e) => Err(e),
                },
                Err(e) => Err(e),
            },
            Err(e) => Err(e),
        }
    }
}

/// Splitting a slice of `s` known to hold `a + b` gives the two halves.
pub proof fn lemma_concat_split(s: Seq<u8>, at: int, a: Seq<u8>, b: Seq<u8>)
    requires
        0 <= at,
        at + a.len() + b.len() <= s.len(),
        s.subrange(at, at + a.len() + b.len()) == a + b,
    ensures
        s.subrange(at, at + a.len()) == a,
        s.subrange(at + a.len(), at + a.len() + b.len()) == b,
{
    let ab = a + b;
    assert(s.subrange(at, at + a.len()) =~= a) by {
        assert forall|i: int| 0 <= i < a.len() implies s.subrange(at, at + a.len())[i] == a[i] by {
            assert(s.subrange(at, at + ab.len())[i] == ab[i]);
        }
    }
    assert(s.subrange(at + a.len(), at + a.len() + b.len()) =~= b) by {
        assert forall|i: int| 0 <= i < b.len() implies
            s.subrange(at + a.len(), at + a.len() + b.len())[i] == b[i] by {
            assert(s.subrange(at, at + ab.len())[i + a.len()] == ab[i + a.len()]);
        }
    }
}

/// Appending one token to a prefix of the token section extends its
/// concatenated encoding by that token's encoding.
pub proof fn lemma_tokens_bytes_take_step(ts: Seq<TokenV>, i: int)
    requires
        0 <= i < ts.len(),
    ensures
        tokens_bytes(ts.take(i + 1)) == tokens_bytes(ts.take(i)) + token_bytes(ts[i]),
    decreases i,
{
    if i == 0 {
        assert(ts.take(1) =~= seq![ts[0]]);
        assert(ts.take(1)[0] == ts[0]);
        assert(ts.take(1).drop_first() == Seq::<TokenV>::empty()) by {
            assert(ts.take(1).drop_first() =~= Seq::<TokenV>::empty());
        }
        assert(ts.take(0) == Seq::<TokenV>::empty()) by {
            assert(ts.take(0) =~= Seq::<TokenV>::empty());
        }
        assert(tokens_bytes(Seq::<TokenV>::empty()) == Seq::<u8>::empty());
        assert(tokens_bytes(ts.take(1)) =~= token_bytes(ts[0]) + Seq::<u8>::empty());
        assert(token_bytes(ts[0]) + Seq::<u8>::empty() =~= Seq::<u8>::empty() + token_bytes(ts[0]));
    } else {
        let tl = ts.drop_first();
        lemma_tokens_bytes_take_step(tl, i - 1);
        assert(ts.take(i + 1).drop_first() =~= tl.take(i));
        assert(ts.take(i).drop_first() =~= tl.take(i - 1));
        assert(ts.take(i + 1)[0] == ts[0]);
        assert(ts.take(i)[0] == ts[0]);
        assert(tokens_bytes(ts.take(i + 1)) == token_bytes(ts[0]) + tokens_bytes(tl.take(i)));
        assert(tokens_bytes(ts.take(i)) == token_bytes(ts[0]) + tokens_bytes(tl.take(i - 1)));
        assert(tl[i - 1] == ts[i]);
        assert(token_bytes(ts[0]) + (tokens_bytes(tl.take(i - 1)) + token_bytes(ts[i]))
            =~= (token_bytes(ts[0]) + tokens_bytes(tl.take(i - 1))) + token_bytes(ts[i]));
    }
}

/// Parsing the concatenated encodings of `ts` starting at `at` gives back
/// exactly `ts` and consumes exactly the concatenation, whatever follows.
pub proof fn lemma_tokens_round_trip(ts: Seq<TokenV>, s: Seq<u8>, at: int)
    requires
        0 <= at,
        ts.len() <= u64::MAX,
        forall|i: int| 0 <= i < ts.len() ==> (#[trigger] ts[i]).value.len() <= usize::MAX,
        at + tokens_bytes(ts).len() <= s.len(),
        s.subrange(at, at + tokens_bytes(ts).len()) == tokens_bytes(ts),
    ensures
        tokens_parse(s, at, ts.len() as u64) == Ok::<(Seq<TokenV>, int), BitswapError>((ts, at + tokens_bytes(ts).len())),
    decreases ts.len(),
{
    if ts.len() == 0 {
        assert(ts =~= Seq::<TokenV>::empty());
    } else {
        let head = token_bytes(ts[0]);
        let tl = ts.drop_first();
        assert(tokens_bytes(ts) == head + tokens_bytes(tl));
        lemma_concat_split(s, at, head, tokens_bytes(tl));
        lemma_token_round_trip(ts[0], s, at);
        assert(forall|i: int| 0 <= i < tl.len() ==> (#[trigger] tl[i]).value.len() <= usize::MAX)
            by {
            assert forall|i: int| 0 <= i < tl.len() implies (#[trigger] tl[i]).value.len() <= usize::MAX by {
                assert(tl[i] == ts[i + 1]);
            }
        }
        lemma_tokens_round_trip(tl, s, at + head.len());
        assert(seq![ts[0]] + tl =~= ts);
    }
}


/// A request frame is at least two bytes and starts with the request tag.
pub proof fn lemma_request_bytes_first(v: RequestV)
    ensures
        request_bytes(v).len() >= 2,
        request_bytes(v)[0] == request_tag(v.ty),
{
    crate::varint::lemma_varint_bytes_len(v.tokens.len() as u64);
    let a = seq![request_tag(v.ty)];
    assert((a + v.cid)[0] == request_tag(v.ty));
    assert(((a + v.cid) + varint_bytes(v.tokens.len() as u64))[0] == request_tag(v.ty));
    assert(request_bytes(v)[0] == request_tag(v.ty));
}

/// A frame that is the encoding of `req` parses back to exactly `req`'s
/// value, given the canonical facts that one call of the identifier reader
/// on the frame's tail establishes.
proof fn lemma_request_encoding_parses(req: BitswapRequest, s: Seq<u8>, tail: Seq<u8>, idr: Result<(Identifier, usize), BitswapError>)
    requires
        s == request_bytes(req@),
        tail == s.subrange(1, s.len() as int),
        id_read_canonical(tail, idr),
        (match idr {
            Ok(p) => id_read_spec(tail) == Ok::<(Seq<u8>, int), BitswapError>((p.0@, p.1 as int)),
            Err(e) => id_read_spec(tail) == Err::<(Seq<u8>, int), BitswapError>(e),
        }),
    ensures
        request_parse(s) == Ok::<RequestV, BitswapError>(req@),
{
    let v = req@;
    let a = seq![request_tag(v.ty)];
    let b = v.cid;
    let c = varint_bytes(v.tokens.len() as u64);
    let d = tokens_bytes(v.tokens);
    crate::varint::lemma_varint_bytes_len(v.tokens.len() as u64);
    lemma_request_bytes_first(v);
    assert(s.len() == 1 + b.len() + c.len() + d.len());
    assert(tail.len() == b.len() + c.len() + d.len());
    assert forall|i: int| 0 <= i < tail.len() implies tail[i] == (b + c + d)[i] by {
        assert(tail[i] == s[1 + i]);
        assert(s[1 + i] == (((a + b) + c) + d)[1 + i]);
    }
    assert(tail =~= b + c + d);
    assert(tail.subrange(0, b.len() as int) =~= b) by {
        assert forall|i: int| 0 <= i < b.len() implies tail[i] == b[i] by {
            assert(tail[i] == (b + c + d)[i]);
        }
    }
    assert(id_bytes(req.cid) == b);
    assert(idr matches Ok(p) && p.0@ == b && p.1 == b.len());
    assert(id_read_spec(tail) == Ok::<(Seq<u8>, int), BitswapError>((b, b.len() as int)));
    let o2 = 1 + b.len();
    assert(s.subrange(o2 as int, o2 + c.len() as int) =~= c) by {
        assert forall|i: int| 0 <= i < c.len() implies s.subrange(o2 as int, o2 + c.len() as int)[i] == c[i] by {
            assert(s.subrange(o2 as int, o2 + c.len() as int)[i] == s[o2 + i]);
            assert(s[o2 + i] == (((a + b) + c) + d)[o2 + i]);
        }
    }
    assert(v.tokens.len() <= usize::MAX) by {
        assert(req.tokens.len() == req.tokens@.len());
        assert(v.tokens.len() == req.tokens@.len());
    }
    lemma_varint_round_trip(v.tokens.len() as u64, s, o2 as int);
    let o3 = o2 + c.len() as int;
    assert(s.subrange(o3 as int, o3 + d.len() as int) =~= d) by {
        assert forall|i: int| 0 <= i < d.len() implies s.subrange(o3 as int, o3 + d.len() as int)[i] == d[i] by {
            assert(s.subrange(o3 as int, o3 + d.len() as int)[i] == s[o3 + i]);
            assert(s[o3 + i] == (((a + b) + c) + d)[o3 + i]);
        }
    }
    assert(forall|i: int| 0 <= i < v.tokens.len() ==> (#[trigger] v.tokens[i]).value.len() <= usize::MAX) by {
        assert forall|i: int| 0 <= i < v.tokens.len() implies (#[trigger] v.tokens[i]).value.len() <= usize::MAX by {
            assert(v.tokens[i] == req.tokens@[i]@);
            assert(req.tokens@[i].1.len() == req.tokens@[i].1@.len());
        }
    }
    lemma_tokens_round_trip(v.tokens, s, o3 as int);
    assert(s[0] == request_tag(v.ty));
    assert(s.subrange(1, s.len() as int) == tail);
    if v.ty == RequestType::Have {
        assert(request_parse(s) == Ok::<RequestV, BitswapError>(RequestV { ty: RequestType::Have, cid: b, tokens: v.tokens }));
        assert(RequestV { ty: RequestType::Have, cid: b, tokens: v.tokens } =~= v);
    } else {
        assert(s[0] == 1);
        assert(request_parse(s) == Ok::<RequestV, BitswapError>(RequestV { ty: RequestType::Block, cid: b, tokens: v.tokens }));
        assert(RequestV { ty: RequestType::Block, cid: b, tokens: v.tokens } =~= v);
    }
}

impl BitswapRequest {
    /// Appends the native request frame to `w`: the tag byte, the
    /// identifier's canonical bytes, a varint token count, then the token
    /// encodings. Always succeeds: a vector's length always fits the wire
    /// count.
    pub fn write_to(&self, w: &mut Vec<u8>) -> (r: Result<(), BitswapError>)
        ensures
            r matches Ok(u) && u == (),
            final(w)@ == old(w)@ + request_bytes(self@),
    {
        match self.ty {
            RequestType::Have => w.push(0),
            RequestType::Block => w.push(1),
        }
        let cid_bytes = self.cid.to_bytes();
        w.extend_from_slice(cid_bytes.as_slice());
        write_varint(self.tokens.len() as u64, w);
        let ghost head = old(w)@ + seq![request_tag(self@.ty)] + self@.cid
            + varint_bytes(self@.tokens.len() as u64);
        assert(w@ =~= head + tokens_bytes(self@.tokens.take(0))) by {
            assert(self@.tokens.take(0) =~= Seq::<TokenV>::empty());
        }
        let n = self.tokens.len();
        let mut i: usize = 0;
        while i < n
            invariant
                n == self.tokens.len(),
                i <= n,
                w@ == head + tokens_bytes(self@.tokens.take(i as int)),
            decreases n - i,
        {
            let _ = self.tokens[i].write_to(w);
            proof {
                lemma_tokens_bytes_take_step(self@.tokens, i as int);
                assert(self@.tokens[i as int] == self.tokens@[i as int]@);
                assert(w@ =~= head + tokens_bytes(self@.tokens.take(i as int + 1)));
            }
            i += 1;
        }
        proof {
            assert(self@.tokens.take(n as int) =~= self@.tokens);
            assert(head + tokens_bytes(self@.tokens) =~= old(w)@ + request_bytes(self@));
        }
        Ok(())
    }

    /// Decodes a request from a full frame. The result is exactly what
    /// `request_parse` says of the bytes; in particular, decoding a frame
    /// that `write_to` produced gives the original request back, and a tag
    /// byte outside 0 and 1 is `UnknownMessageType` with that byte.
    #[verifier::loop_isolation(false)]
    pub fn from_bytes(bytes: &[u8]) -> (r: Result<BitswapRequest, BitswapError>)
        ensures
            (match r {
                Ok(q) => request_parse(bytes@) == Ok::<RequestV, BitswapError>(q@),
                Err(e) => request_parse(bytes@) == Err::<RequestV, BitswapError>(e),
            }),
            forall|req: BitswapRequest| bytes@ == #[trigger] request_bytes(req@)
                ==> (r matches Ok(q) && q@ == req@),
    {
        if bytes.len() == 0 {
            proof {
                assert forall|req: BitswapRequest| bytes@ == #[trigger] request_bytes(req@)
                    implies false by {
                    lemma_request_bytes_first(req@);
                }
            }
            return Err(BitswapError::UnexpectedEnd);
        }
        let tag = bytes[0];
        let ty: RequestType;
        if tag == 0 {
            ty = RequestType::Have;
        } else if tag == 1 {
            ty = RequestType::Block;
        } else {
            proof {
                assert forall|req: BitswapRequest| bytes@ == #[trigger] request_bytes(req@)
                    implies false by {
                    lemma_request_bytes_first(req@);
                }
            }
            return Err(BitswapError::UnknownMessage(UnknownMessageType(tag)));
        }
        let tail = vstd::slice::slice_subrange(bytes, 1, bytes.len());
        assert(tail@ == bytes@.subrange(1, bytes@.len() as int));
        let idres = Identifier::read_bytes(tail);
        let ghost gidr = idres;
        let cid: Identifier;
        let cid_len: usize;
        match idres {
            Ok(p) => {
                cid = p.0;
                cid_len = p.1;
            },
            Err(e) => {
                proof {
                    assert(request_parse(bytes@) == Err::<RequestV, BitswapError>(e));
                    assert forall|req: BitswapRequest| bytes@ == #[trigger] request_bytes(req@)
                        implies (Err::<BitswapRequest, BitswapError>(e) matches Ok(q) && q@ == req@) by {
                        lemma_request_encoding_parses(req, bytes@, tail@, gidr);
                    }
                }
                return Err(e);
            },
        }
        let at1 = 1 + cid_len;
        let count: u64;
        let at2: usize;
        match read_varint(bytes, at1) {
            Ok(p) => {
                count = p.0;
                at2 = p.1;
            },
            Err(e) => {
                proof {
                    assert(request_parse(bytes@) == Err::<RequestV, BitswapError>(e));
                    assert forall|req: BitswapRequest| bytes@ == #[trigger] request_bytes(req@)
                        implies (Err::<BitswapRequest, BitswapError>(e) matches Ok(q) && q@ == req@) by {
                        lemma_request_encoding_parses(req, bytes@, tail@, gidr);
                    }
                }
                return Err(e);
            },
        }
        proof {
            lemma_varint_parse_bounds(bytes@, at1 as int);
        }
        let mut tokens: Vec<Token> = Vec::new();
        let mut k: u64 = 0;
        let mut at: usize = at2;
        let ghost fullp = tokens_parse(bytes@, at2 as int, count);
        assert(tokens@.map_values(|t: Token| t@) =~= Seq::<TokenV>::empty());
        assert(fullp == (match tokens_parse(bytes@, at as int, count) {
            Ok(q) => Ok::<(Seq<TokenV>, int), BitswapError>((tokens@.map_values(|t: Token| t@) + q.0, q.1)),
            Err(e) => Err::<(Seq<TokenV>, int), BitswapError>(e),
        })) by {
            match tokens_parse(bytes@, at as int, count) {
                Ok(q) => {
                    assert(Seq::<TokenV>::empty() + q.0 =~= q.0);
                },
                Err(_) => {},
            }
        }
        while k < count
            invariant
                k <= count,
                at <= bytes@.len(),
                tokens@.len() == k,
                fullp == tokens_parse(bytes@, at2 as int, count),
                fullp == (match tokens_parse(bytes@, at as int, (count - k) as u64) {
                    Ok(q) => Ok::<(Seq<TokenV>, int), BitswapError>((tokens@.map_values(|t: Token| t@) + q.0, q.1)),
                    Err(e) => Err::<(Seq<TokenV>, int), BitswapError>(e),
                }),
            decreases count - k,
        {
            let step = Token::read_bytes(bytes, at);
            match step {
                Ok(p) => {
                    let ghost prev = tokens@.map_values(|t: Token| t@);
                    let ghost tv = p.0@;
                    let ghost atp = p.1 as int;
                    proof {
                        assert(token_parse(bytes@, at as int) == Ok::<(TokenV, int), BitswapError>((tv, atp)));
                        assert((count - k) as u64 != 0);
                    }
                    tokens.push(p.0);
                    proof {
                        assert(tokens@.map_values(|t: Token| t@) =~= prev + seq![tv]);
                        assert(tokens_parse(bytes@, at as int, (count - k) as u64)
                            == (match tokens_parse(bytes@, atp, (count - k - 1) as u64) {
                                Ok(q2) => Ok::<(Seq<TokenV>, int), BitswapError>((seq![tv] + q2.0, q2.1)),
                                Err(e) => Err::<(Seq<TokenV>, int), BitswapError>(e),
                            }));
                        match tokens_parse(bytes@, atp, (count - k - 1) as u64) {
                            Ok(q2) => {
                                assert(prev + (seq![tv] + q2.0) =~= (prev + seq![tv]) + q2.0);
                            },
                            Err(_) => {},
                        }
                        assert(atp <= bytes@.len());
                    }
                    at = p.1;
                },
                Err(e) => {
                    proof {
                        assert(tokens_parse(bytes@, at as int, (count - k) as u64)
                            == Err::<(Seq<TokenV>, int), BitswapError>(e));
                        assert(fullp == Err::<(Seq<TokenV>, int), BitswapError>(e));
                        assert(request_parse(bytes@) == Err::<RequestV, BitswapError>(e));
                        assert forall|req: BitswapRequest| bytes@ == #[trigger] request_bytes(req@)
                            implies (Err::<BitswapRequest, BitswapError>(e) matches Ok(q) && q@ == req@) by {
                            lemma_request_encoding_parses(req, bytes@, tail@, gidr);
                        }
                    }
                    return Err(e);
                },
            }
            k = k + 1;
        }
        let result = BitswapRequest { ty, cid, tokens };
        proof {
            assert(tokens_parse(bytes@, at as int, 0)
                == Ok::<(Seq<TokenV>, int), BitswapError>((Seq::<TokenV>::empty(), at as int)));
            assert(result@.tokens =~= tokens@.map_values(|t: Token| t@) + Seq::<TokenV>::empty());
            assert(fullp == Ok::<(Seq<TokenV>, int), BitswapError>((result@.tokens, at as int)));
            assert(request_parse(bytes@) == Ok::<RequestV, BitswapError>(result@)) by {
                assert(RequestV { ty, cid: cid@, tokens: result@.tokens } =~= result@);
            }
            assert forall|req: BitswapRequest| bytes@ == #[trigger] request_bytes(req@)
                implies result@ == req@ by {
                lemma_request_encoding_parses(req, bytes@, tail@, gidr);
            }
        }
        Ok(result)
    }

    /// Decodes a request from the bytes a reader would hand over, with the
    /// same contract as `from_bytes`: the two entry points share one
    /// parser.
    pub fn read_bytes(bytes: &[u8]) -> (r: Result<BitswapRequest, BitswapError>)
        ensures
            (match r {
                Ok(q) => request_parse(bytes@) == Ok::<RequestV, BitswapError>(q@),
                Err(e) => request_parse(bytes@) == Err::<RequestV, BitswapError>(e),
            }),
            forall|req: BitswapRequest| bytes@ == #[trigger] request_bytes(req@)
                ==> (r matches Ok(q) && q@ == req@),
    {
        Self::from_bytes(bytes)
    }
}


/// Mathematical value of a response: a presence answer or a block payload.
#[verifier::ext_equal]
pub enum ResponseV {
    Have(bool),
    Block(Seq<u8>),
}

/// A response: whether the peer has the identified content, or the raw
/// bytes of the requested block.
#[derive(Debug, Clone)]
pub enum BitswapResponse {
    Have(bool),
    Block(Vec<u8>),
}

impl View for BitswapResponse {
    type V = ResponseV;

    open spec fn view(&self) -> ResponseV {
        match self {
            BitswapResponse::Have(h) => ResponseV::Have(*h),
            BitswapResponse::Block(d) => ResponseV::Block(d@),
        }
    }
}

impl PartialEq for BitswapResponse {
    fn eq(&self, other: &BitswapResponse) -> (r: bool) {
        let same = match (self, other) {
            (BitswapResponse::Have(a), BitswapResponse::Have(b)) => a == b,
            (BitswapResponse::Block(a), BitswapResponse::Block(b)) => {
                let e = a == b;
                proof {
                    if e {
                        assert(a@ =~= b@);
                    } else {
                        if a@.len() == b@.len() {
                            let i = choose|i: int| 0 <= i < a@.len() && !a@[i].eq_spec(&b@[i]);
                            assert(a@[i] != b@[i]);
                        }
                    }
                }
                e
            },
            _ => false,
        };
        same
    }
}

impl vstd::std_specs::cmp::PartialEqSpecImpl for BitswapResponse {
    open spec fn obeys_eq_spec() -> bool {
        true
    }

    open spec fn eq_spec(&self, other: &BitswapResponse) -> bool {
        self@ == other@
    }
}

/// Native response frame: tag 0 for a positive presence answer, 2 for a
/// negative one, 1 followed by the raw payload for a block.
pub open spec fn response_bytes(v: ResponseV) -> Seq<u8> {
    match v {
        ResponseV::Have(h) => if h {
            seq![0u8]
        } else {
            seq![2u8]
        },
        ResponseV::Block(d) => seq![1u8] + d,
    }
}

/// Parse of a native response frame. An empty frame is `UnexpectedEnd`; tag
/// 0 or 2 is a presence answer, with trailing bytes ignored; tag 1 takes
/// all remaining bytes verbatim as the payload; any other tag is
/// `UnknownMessageType` with that byte.
pub open spec fn response_parse(s: Seq<u8>) -> Result<ResponseV, BitswapError> {
    if s.len() == 0 {
        Err(BitswapError::UnexpectedEnd)
    } else if s[0] == 0 {
        Ok(ResponseV::Have(true))
    } else if s[0] == 2 {
        Ok(ResponseV::Have(false))
    } else if s[0] == 1 {
        Ok(ResponseV::Block(s.subrange(1, s.len() as int)))
    } else {
        Err(BitswapError::UnknownMessage(UnknownMessageType(s[0])))
    }
}

impl BitswapResponse {
    /// Appends the native response frame to `w`. Always succeeds.
    pub fn write_to(&self, w: &mut Vec<u8>) -> (r: Result<(), BitswapError>)
        ensures
            r matches Ok(u) && u == (),
            final(w)@ == old(w)@ + response_bytes(self@),
    {
        match self {
            BitswapResponse::Have(h) => {
                if *h {
                    w.push(0);
                } else {
                    w.push(2);
                }
                assert(w@ =~= old(w)@ + response_bytes(self@));
            },
            BitswapResponse::Block(d) => {
                w.push(1);
                w.extend_from_slice(d.as_slice());
                assert(w@ =~= old(w)@ + response_bytes(self@));
            },
        }
        Ok(())
    }

    /// Decodes a response from a full frame: exactly what `response_parse`
    /// says of the bytes.
    pub fn from_bytes(bytes: &[u8]) -> (r: Result<BitswapResponse, BitswapError>)
        ensures
            (match r {
                Ok(q) => response_parse(bytes@) == Ok::<ResponseV, BitswapError>(q@),
                Err(e) => response_parse(bytes@) == Err::<ResponseV, BitswapError>(e),
            }),
    {
        if bytes.len() == 0 {
            return Err(BitswapError::UnexpectedEnd);
        }
        let tag = bytes[0];
        if tag == 0 {
            Ok(BitswapResponse::Have(true))
        } else if tag == 2 {
            Ok(BitswapResponse::Have(false))
        } else if tag == 1 {
            let data = vstd::slice::slice_to_vec(vstd::slice::slice_subrange(bytes, 1, bytes.len()));
            Ok(BitswapResponse::Block(data))
        } else {
            Err(BitswapError::UnknownMessage(UnknownMessageType(tag)))
        }
    }
}

/// Writing a response and parsing the frame gives the response back.
pub proof fn lemma_response_round_trip(v: ResponseV)
    ensures
        response_parse(response_bytes(v)) == Ok::<ResponseV, BitswapError>(v),
{
    match v {
        ResponseV::Have(h) => {},
        ResponseV::Block(d) => {
            let s = seq![1u8] + d;
            assert(s.subrange(1, s.len() as int) =~= d);
        },
    }
}

/// Ceiling on a native request frame: the identifier and token ceilings
/// plus the tag byte.
pub open spec fn request_frame_ceiling() -> int {
    MAX_CID_SIZE + MAX_TOKEN_SIZE + 1
}

/// Per-stream codec instance: the configured block-size ceiling and the
/// reusable working buffer, owned by exactly one stream.
#[derive(Debug)]
pub struct BitswapCodec {
    pub max_block_size: usize,
    pub buffer: Vec<u8>,
}

impl BitswapCodec {
    /// Well-formed: the block ceiling plus the tag byte fits the 32-bit
    /// length prefix the transport writes before each frame.
    pub open spec fn wf(&self) -> bool {
        self.max_block_size + 1 <= u32::MAX
    }

    /// Creates a codec for streams whose block frames are bounded by
    /// `max_block_size`, preallocating the working buffer so that encode
    /// and decode reuse it instead of allocating per message.
    pub fn new(max_block_size: usize) -> (r: BitswapCodec)
        requires
            max_block_size + 1 <= u32::MAX,
        ensures
            r.max_block_size == max_block_size,
            r.buffer@ == Seq::<u8>::empty(),
            r.wf(),
    {
        let mut capacity: usize = MAX_CID_SIZE + MAX_TOKEN_SIZE;
        if max_block_size > capacity {
            capacity = max_block_size;
        }
        BitswapCodec { max_block_size, buffer: Vec::with_capacity(capacity + 1) }
    }

    /// The working buffer, holding the last encoded frame.
    pub fn frame(&self) -> (r: &Vec<u8>)
        ensures
            r@ == self.buffer@,
    {
        &self.buffer
    }

    /// Encodes a request into the cleared working buffer. `MessageTooLarge`
    /// with the frame's length exactly when the frame exceeds the
    /// identifier+token ceiling; the buffer holds the frame either way.
    pub fn write_request(&mut self, req: &BitswapRequest) -> (r: Result<(), BitswapError>)
        ensures
            final(self).max_block_size == old(self).max_block_size,
            final(self).buffer@ == request_bytes(req@),
            r is Ok <==> request_bytes(req@).len() <= request_frame_ceiling(),
            r matches Err(e) ==> e == BitswapError::TooLarge(MessageTooLarge(request_bytes(req@).len() as usize)),
    {
        self.buffer.clear();
        let _ = req.write_to(&mut self.buffer);
        assert(self.buffer@ =~= request_bytes(req@));
        if self.buffer.len() > MAX_CID_SIZE + MAX_TOKEN_SIZE + 1 {
            return Err(BitswapError::TooLarge(MessageTooLarge(self.buffer.len())));
        }
        Ok(())
    }

    /// Encodes a response into the cleared working buffer. `MessageTooLarge`
    /// with the frame's length exactly when the frame exceeds the block
    /// ceiling; the buffer holds the frame either way.
    pub fn write_response(&mut self, res: &BitswapResponse) -> (r: Result<(), BitswapError>)
        requires
            old(self).wf(),
        ensures
            final(self).max_block_size == old(self).max_block_size,
            final(self).wf(),
            final(self).buffer@ == response_bytes(res@),
            r is Ok <==> response_bytes(res@).len() <= old(self).max_block_size + 1,
            r matches Err(e) ==> e == BitswapError::TooLarge(MessageTooLarge(response_bytes(res@).len() as usize)),
    {
        self.buffer.clear();
        let _ = res.write_to(&mut self.buffer);
        assert(self.buffer@ =~= response_bytes(res@));
        if self.buffer.len() > self.max_block_size + 1 {
            return Err(BitswapError::TooLarge(MessageTooLarge(self.buffer.len())));
        }
        Ok(())
    }

    /// Decodes a request frame. A frame over the identifier+token ceiling
    /// is `MessageTooLarge` with the observed length, before any bytes are
    /// copied into the working buffer; otherwise the frame is copied into
    /// the buffer and decoded as `request_parse` says, so a frame this
    /// codec wrote decodes to the original request.
    pub fn read_request(&mut self, frame: &[u8]) -> (r: Result<BitswapRequest, BitswapError>)
        ensures
            final(self).max_block_size == old(self).max_block_size,
            frame@.len() > request_frame_ceiling() ==> (
                r == Err::<BitswapRequest, BitswapError>(BitswapError::TooLarge(MessageTooLarge(frame@.len() as usize)))
                && final(self).buffer@ == old(self).buffer@
            ),
            frame@.len() <= request_frame_ceiling() ==> (
                final(self).buffer@ == frame@
                && (match r {
                    Ok(q) => request_parse(frame@) == Ok::<RequestV, BitswapError>(q@),
                    Err(e) => request_parse(frame@) == Err::<RequestV, BitswapError>(e),
                })
                && (forall|req: BitswapRequest| frame@ == #[trigger] request_bytes(req@)
                    ==> (r matches Ok(q) && q@ == req@))
            ),
    {
        if frame.len() > MAX_CID_SIZE + MAX_TOKEN_SIZE + 1 {
            return Err(BitswapError::TooLarge(MessageTooLarge(frame.len())));
        }
        self.buffer.clear();
        self.buffer.extend_from_slice(frame);
        assert(self.buffer@ =~= frame@);
        BitswapRequest::from_bytes(frame)
    }

    /// Decodes a response frame. A frame over the block ceiling is
    /// `MessageTooLarge` with the observed length, before any bytes are
    /// copied into the working buffer; otherwise the frame is copied into
    /// the buffer and decoded as `response_parse` says.
    pub fn read_response(&mut self, frame: &[u8]) -> (r: Result<BitswapResponse, BitswapError>)
        requires
            old(self).wf(),
        ensures
            final(self).max_block_size == old(self).max_block_size,
            final(self).wf(),
            frame@.len() > old(self).max_block_size + 1 ==> (
                r == Err::<BitswapResponse, BitswapError>(BitswapError::TooLarge(MessageTooLarge(frame@.len() as usize)))
                && final(self).buffer@ == old(self).buffer@
            ),
            frame@.len() <= old(self).max_block_size + 1 ==> (
                final(self).buffer@ == frame@
                && (match r {
                    Ok(q) => response_parse(frame@) == Ok::<ResponseV, BitswapError>(q@),
                    Err(e) => response_parse(frame@) == Err::<ResponseV, BitswapError>(e),
                })
            ),
    {
        if frame.len() > self.max_block_size + 1 {
            return Err(BitswapError::TooLarge(MessageTooLarge(frame.len())));
        }
        self.buffer.clear();
        self.buffer.extend_from_slice(frame);
        assert(self.buffer@ =~= frame@);
        BitswapResponse::from_bytes(frame)
    }
}

} // verus!

use vstd::prelude::*;
use crate::error::BitswapError;
use crate::varint::{varint_bytes, varint_parse, write_varint, read_varint, lemma_varint_parse_bounds, lemma_varint_round_trip, lemma_varint_bytes_len};

verus! {

/// Mathematical value of a token: the multicodec naming the value's encoding,
/// and the opaque value bytes.
#[verifier::ext_equal]
pub struct TokenV {
    pub codec: u64,
    pub value: Seq<u8>,
}

/// An opaque authentication credential attached to a request or response: a
/// multicodec tag and the credential bytes, opaque to this layer.
#[derive(Debug, Clone)]
pub struct Token(pub u64, pub Vec<u8>);

impl View for Token {
    type V = TokenV;

    open spec fn view(&self) -> TokenV {
        TokenV { codec: self.0, value: self.1@ }
    }
}

impl PartialEq for Token {
    fn eq(&self, other: &Token) -> (r: bool) {
        let same = self.0 == other.0 && self.1 == other.1;
        proof {
            if same {
                assert(self.1@ =~= other.1@);
                assert(self@ =~= other@);
            } else {
                if self.0 == other.0 {
                    assert(!(self.1@ =~= other.1@));
                }
            }
        }
        same
    }
}

impl vstd::std_specs::cmp::PartialEqSpecImpl for Token {
    open spec fn obeys_eq_spec() -> bool {
        true
    }

    open spec fn eq_spec(&self, other: &Token) -> bool {
        self@ == other@
    }
}

/// Wire form of a token: varint multicodec, varint value length, then the
/// value bytes themselves.
pub open spec fn token_bytes(t: TokenV) -> Seq<u8> {
    varint_bytes(t.codec) + varint_bytes(t.value.len() as u64) + t.value
}

/// Parse of one token at `at`: a varint multicodec, a varint length, then
/// exactly that many value bytes. A length that does not fit the platform's
/// size type is `InvalidInput`; fewer value bytes than declared is
/// `UnexpectedEnd`.
pub open spec fn token_parse(s: Seq<u8>, at: int) -> Result<(TokenV, int), BitswapError> {
    match varint_parse(s, at) {
        Ok(c) => match varint_parse(s, c.1) {
            Ok(l) => if l.0 > usize::MAX {
                Err(BitswapError::InvalidInput)
            } else if l.1 + l.0 > s.len() {
                Err(BitswapError::UnexpectedEnd)
            } else {
                Ok((TokenV { codec: c.0, value: s.subrange(l.1, l.1 + l.0) }, l.1 + l.0))
            },
            Err(e) => Err(e),
        },
        Err(e) => Err(e),
    }
}

impl Token {
    /// Appends the token's wire encoding to `w`. Always succeeds: a vector's
    /// length always fits the wire integer type.
    pub fn write_to(&self, w: &mut Vec<u8>) -> (r: Result<(), BitswapError>)
        ensures
            r matches Ok(u) && u == (),
            final(w)@ == old(w)@ + token_bytes(self@),
    {
        write_varint(self.0, w);
        write_varint(self.1.len() as u64, w);
        w.extend_from_slice(self.1.as_slice());
        assert(w@ =~= old(w)@ + token_bytes(self@));
        Ok(())
    }

    /// Reads one token starting at `at`; returns the token and the offset one
    /// past its last byte.
    pub fn read_bytes(s: &[u8], at: usize) -> (r: Result<(Token, usize), BitswapError>)
        ensures
            match r {
                Ok(p) => token_parse(s@, at as int) == Ok::<(TokenV, int), BitswapError>((p.0@, p.1 as int)),
                Err(e) => token_parse(s@, at as int) == Err::<(TokenV, int), BitswapError>(e),
            },
    {
        let codec: u64;
        let mut i: usize;
        match read_varint(s, at) {
            Ok(p) => {
                codec = p.0;
                i = p.1;
            },
            Err(e) => {
                return Err(e);
            },
        }
        let len: u64;
        let ghost i1 = i as int;
        match read_varint(s, i) {
            Ok(p) => {
                len = p.0;
                i = p.1;
            },
            Err(e) => {
                return Err(e);
            },
        }
        proof {
            lemma_varint_parse_bounds(s@, at as int);
            lemma_varint_parse_bounds(s@, i1);
        }
        if len > usize::MAX as u64 {
            return Err(BitswapError::InvalidInput);
        }
        let len_us: usize = len as usize;
        if len_us > s.len() - i {
            return Err(BitswapError::UnexpectedEnd);
        }
        let value = vstd::slice::slice_to_vec(vstd::slice::slice_subrange(s, i, i + len_us));
        Ok((Token(codec, value), i + len_us))
    }

    /// The token's wire encoding as a fresh byte vector.
    pub fn to_vec(&self) -> (r: Vec<u8>)
        ensures
            r@ == token_bytes(self@),
    {
        let mut out: Vec<u8> = Vec::new();
        let _ = self.write_to(&mut out);
        out
    }

    /// Reads a token from the start of `bytes`; trailing bytes are ignored.
    pub fn from_bytes(bytes: &[u8]) -> (r: Result<Token, BitswapError>)
        ensures
            match r {
                Ok(t) => token_parse(bytes@, 0) matches Ok(p) && p.0 == t@,
                Err(e) => token_parse(bytes@, 0) == Err::<(TokenV, int), BitswapError>(e),
            },
    {
        match Self::read_bytes(bytes, 0) {
            Ok(p) => Ok(p.0),
            Err(e) => Err(e),
        }
    }
}

/// Reading a written token gives the token back and consumes exactly its
/// encoding, whatever follows it: the token codec's write and read are
/// inverses for every token whose value length the platform can hold.
pub proof fn lemma_token_round_trip(t: TokenV, s: Seq<u8>, at: int)
    requires
        0 <= at,
        t.value.len() <= usize::MAX,
        at + token_bytes(t).len() <= s.len(),
        s.subrange(at, at + token_bytes(t).len()) == token_bytes(t),
    ensures
        token_parse(s, at) == Ok::<(TokenV, int), BitswapError>((t, at + token_bytes(t).len())),
{
    let cv = varint_bytes(t.codec);
    let lv = varint_bytes(t.value.len() as u64);
    let enc = token_bytes(t);
    lemma_varint_bytes_len(t.codec);
    lemma_varint_bytes_len(t.value.len() as u64);
    assert(s.subrange(at, at + cv.len()) =~= cv) by {
        assert forall|i: int| 0 <= i < cv.len() implies
            s.subrange(at, at + cv.len())[i] == cv[i] by {
            assert(s.subrange(at, at + enc.len())[i] == enc[i]);
            assert(enc[i] == cv[i]);
        }
    }
    lemma_varint_round_trip(t.codec, s, at);
    let at1 = at + cv.len();
    assert(s.subrange(at1, at1 + lv.len()) =~= lv) by {
        assert forall|i: int| 0 <= i < lv.len() implies
            s.subrange(at1, at1 + lv.len())[i] == lv[i] by {
            assert(s.subrange(at, at + enc.len())[i + cv.len()] == enc[i + cv.len()]);
            assert(enc[i + cv.len()] == lv[i]);
        }
    }
    lemma_varint_round_trip(t.value.len() as u64, s, at1);
    let at2 = at1 + lv.len();
    assert(s.subrange(at2, at2 + t.value.len()) =~= t.value) by {
        assert forall|i: int| 0 <= i < t.value.len() implies
            s.subrange(at2, at2 + t.value.len())[i] == t.value[i] by {
            assert(s.subrange(at, at + enc.len())[i + cv.len() + lv.len()] == enc[i + cv.len() + lv.len()]);
            assert(enc[i + cv.len() + lv.len()] == t.value[i]);
        }
    }
    assert(token_parse(s, at) == Ok::<(TokenV, int), BitswapError>((t, at + enc.len()))) by {
        assert(varint_parse(s, at) == Ok::<(u64, int), BitswapError>((t.codec, at1)));
        assert(varint_parse(s, at1) == Ok::<(u64, int), BitswapError>((t.value.len() as u64, at2)));
        assert(t.value.len() as u64 <= usize::MAX);
        assert(at2 + t.value.len() <= s.len());
        assert(s.subrange(at2, at2 + t.value.len() as u64) == t.value);
        assert(TokenV { codec: t.codec, value: s.subrange(at2, at2 + t.value.len() as u64) } =~= t);
    }
}

} // verus!

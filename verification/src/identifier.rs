use vstd::prelude::*;
use crate::error::BitswapError;

verus! {

/// An opaque content-addressing identifier. It holds the external identifier
/// value; this layer reads nothing inside it and models it by its canonical
/// byte serialization, which is the identifier's view. The serialization is
/// injective: distinct identifiers never share canonical bytes.
#[verifier::external_body]
#[derive(Debug)]
pub struct Identifier(libipld::Cid);

/// Canonical byte serialization of an identifier, as `Cid::to_bytes` and
/// `Cid::write_bytes` produce it: a function of the identifier alone.
pub uninterp spec fn id_bytes(c: Identifier) -> Seq<u8>;

impl View for Identifier {
    type V = Seq<u8>;

    open spec fn view(&self) -> Seq<u8> {
        id_bytes(*self)
    }
}

/// What `Cid::read_bytes` decides on a byte sequence: the canonical bytes of
/// the parsed identifier and how many input bytes it consumed, or a failure.
/// A pure function of the input bytes.
pub uninterp spec fn id_read_spec(s: Seq<u8>) -> Result<(Seq<u8>, int), BitswapError>;

/// The prefix decomposition — version, codec, hash algorithm, hash length —
/// that the identifier's accessors report; determined by the canonical bytes.
pub uninterp spec fn id_prefix_spec(b: Seq<u8>) -> (u64, u64, u64, u64);

/// Canonical bytes of the identifier the prefix adapter rebuilds from prefix
/// fields plus raw block bytes, hashing the bytes with the named algorithm:
/// a function of the arguments alone.
pub uninterp spec fn id_rebuilt_spec(version: u64, codec: u64, mh_type: u64, data: Seq<u8>) -> Seq<u8>;

/// Whether the prefix adapter accepts these prefix fields: the version and
/// hash-algorithm registries' decision, a function of the arguments alone.
pub uninterp spec fn id_rebuild_ok(version: u64, codec: u64, mh_type: u64, data: Seq<u8>) -> bool;

/// Holds when `r`, the outcome of reading one identifier off the front of
/// `s`, agrees with the canonical serialization: an input that begins with
/// some identifier's canonical bytes parses back to an identifier with
/// exactly those bytes and consumes exactly them, whatever follows.
pub open spec fn id_read_canonical(s: Seq<u8>, r: Result<(Identifier, usize), BitswapError>) -> bool {
    forall|c: Identifier|
        (#[trigger] id_bytes(c)).len() <= s.len()
            && s.subrange(0, id_bytes(c).len() as int) == id_bytes(c)
        ==> (r matches Ok(p) && p.0@ == id_bytes(c) && p.1 == id_bytes(c).len())
}

impl Identifier {
    /// Relies on `Cid::to_bytes`: returns the canonical serialization.
    #[verifier::external_body]
    pub fn to_bytes(&self) -> (r: Vec<u8>)
        ensures
            r@ == id_bytes(*self),
    {
        self.0.to_bytes()
    }

    /// Relies on `Cid::read_bytes`, reading one identifier off the front of
    /// the slice. On success it consumes at least one byte and at most the
    /// slice; reading inverts writing, so an input that begins with an
    /// identifier's canonical bytes yields that identifier back.
    #[verifier::external_body]
    pub fn read_bytes(s: &[u8]) -> (r: Result<(Identifier, usize), BitswapError>)
        ensures
            (match r {
                Ok(p) => id_read_spec(s@) == Ok::<(Seq<u8>, int), BitswapError>((p.0@, p.1 as int))
                    && 0 < p.1 <= s@.len(),
                Err(e) => e == BitswapError::InvalidData
                    && id_read_spec(s@) == Err::<(Seq<u8>, int), BitswapError>(e),
            }),
            id_read_canonical(s@, r),
    {
        let mut cursor: &[u8] = s;
        match libipld::Cid::read_bytes(&mut cursor) {
            Ok(c) => Ok((Identifier(c), s.len() - cursor.len())),
            Err(_) => Err(BitswapError::InvalidData),
        }
    }

    /// Relies on `Cid::version`, `Cid::codec`, `Cid::hash`,
    /// `Multihash::code` and `Multihash::size`: the prefix decomposition of
    /// the identifier, each field as a plain integer.
    #[verifier::external_body]
    pub fn prefix(&self) -> (r: (u64, u64, u64, u64))
        ensures
            r == id_prefix_spec(self@),
    {
        (
            u64::from(self.0.version()),
            self.0.codec(),
            self.0.hash().code(),
            self.0.hash().size() as u64,
        )
    }

    /// Relies on `Version::try_from`, `Code::try_from`,
    /// `MultihashDigest::digest` and `Cid::new`: rebuilds an identifier from
    /// prefix fields by hashing the raw block bytes with the named
    /// algorithm. The result depends on the arguments alone; which
    /// algorithms the hash registry accepts is the external component's
    /// decision, so success is not promised.
    #[verifier::external_body]
    pub fn from_prefix(version: u64, codec: u64, mh_type: u64, data: &[u8]) -> (r: Result<Identifier, BitswapError>)
        ensures
            r is Ok <==> id_rebuild_ok(version, codec, mh_type, data@),
            r matches Ok(c) ==> c@ == id_rebuilt_spec(version, codec, mh_type, data@),
            r matches Err(e) ==> e == BitswapError::InvalidData,
    {
        let ver = match libipld::cid::Version::try_from(version) {
            Ok(v) => v,
            Err(_) => return Err(BitswapError::InvalidData),
        };
        let code = match libipld::multihash::Code::try_from(mh_type) {
            Ok(v) => v,
            Err(_) => return Err(BitswapError::InvalidData),
        };
        let mh = libipld::multihash::MultihashDigest::digest(&code, data);
        match libipld::Cid::new(ver, codec, mh) {
            Ok(c) => Ok(Identifier(c)),
            Err(_) => Err(BitswapError::InvalidData),
        }
    }
}

impl Clone for Identifier {
    /// Relies on the identifier type's derived `Clone`: the clone is the
    /// same value.
    #[verifier::external_body]
    fn clone(&self) -> (r: Self)
        ensures
            r@ == self@,
    {
        Identifier(self.0.clone())
    }
}

/// Relies on the identifier type's derived `PartialEq`: identifiers compare
/// equal exactly when their canonical serializations are equal, the
/// serialization being injective.
#[verifier::external_body]
fn id_eq(a: &Identifier, b: &Identifier) -> (r: bool)
    ensures
        r == (id_bytes(*a) == id_bytes(*b)),
{
    a.0 == b.0
}

impl PartialEq for Identifier {
    fn eq(&self, other: &Identifier) -> (r: bool) {
        id_eq(self, other)
    }
}

impl vstd::std_specs::cmp::PartialEqSpecImpl for Identifier {
    open spec fn obeys_eq_spec() -> bool {
        true
    }

    open spec fn eq_spec(&self, other: &Identifier) -> bool {
        self@ == other@
    }
}

} // verus!

use bitswap::compat::MessageBuilder;
use bitswap::compat::{extract_tokens, push_token};
use bitswap::pb::{PbMessage, PbWantEntry};
use bitswap::{BitswapError, BitswapRequest, BitswapResponse, CompatMessage, Identifier, RequestType, Token};
use bitswap::varint::read_varint;
use libipld::multihash::{Code, MultihashDigest};
use libipld::Cid;

fn ident_of(bytes: &[u8]) -> Identifier {
    let digest = Code::Blake3_256.digest(bytes);
    let cid = Cid::new_v1(0x55, digest);
    Identifier::read_bytes(&cid.to_bytes()).unwrap().0
}

fn block_ident(data: &[u8]) -> Identifier {
    // an identifier actually derived from the data, as a block's is
    ident_of(data)
}

#[test]
fn token_round_trip_zero_length_value() {
    let token = Token(5, vec![]);
    let mut buf = Vec::new();
    token.write_to(&mut buf).unwrap();
    let (back, used) = Token::read_bytes(&buf, 0).unwrap();
    assert_eq!(back, token);
    assert_eq!(used, buf.len());
}

#[test]
fn token_round_trip_value_at_declared_boundary() {
    let token = Token(0x42, vec![7; 127]);
    let buf = token.to_vec();
    // the declared length is exactly what remains after the two varints
    let (_, after_codec) = read_varint(&buf, 0).unwrap();
    let (len, after_len) = read_varint(&buf, after_codec).unwrap();
    assert_eq!(len as usize, buf.len() - after_len);
    assert_eq!(Token::from_bytes(&buf).unwrap(), token);
}

#[test]
fn token_truncated_value_rejected() {
    // codec 1, declared length 5, only three value bytes
    let bytes = [0x01, 0x05, b'a', b'b', b'c'];
    let err = Token::read_bytes(&bytes, 0).unwrap_err();
    assert_eq!(err, BitswapError::UnexpectedEnd);
}

#[test]
fn varint_decoding_cases() {
    assert_eq!(read_varint(&[0x80, 0x01], 0).unwrap(), (128, 2));
    assert_eq!(read_varint(&[0x00], 0).unwrap(), (0, 1));
    // input ends in the middle of a varint
    assert_eq!(read_varint(&[0x80], 0).unwrap_err(), BitswapError::UnexpectedEnd);
    // eleven continuation bytes never fit a 64-bit value
    let overlong = [0xffu8; 11];
    assert_eq!(read_varint(&overlong, 0).unwrap_err(), BitswapError::InvalidData);
}

#[test]
fn compat_token_deduplication() {
    let token = Token(1, b"credential".to_vec());
    let mut builder = MessageBuilder::new();
    builder.add(&CompatMessage::Request(BitswapRequest {
        ty: RequestType::Block,
        cid: ident_of(b"first"),
        tokens: vec![token.clone(), token.clone()],
    }));
    builder.add(&CompatMessage::Response(
        ident_of(b"second"),
        BitswapResponse::Have(true),
        vec![token.clone()],
    ));
    assert_eq!(builder.msg.tokens.len(), 1);
    assert_eq!(builder.msg.tokens[0], token.to_vec());
    assert_eq!(builder.msg.entries[0].tokens, vec![0, 0]);
    assert_eq!(builder.msg.presences[0].tokens, vec![0]);
}

#[test]
fn push_token_reuses_first_match() {
    let mut msg = PbMessage::new();
    let a = Token(1, b"a".to_vec());
    let b = Token(2, b"b".to_vec());
    assert_eq!(push_token(&mut msg, &a), 0);
    assert_eq!(push_token(&mut msg, &b), 1);
    assert_eq!(push_token(&mut msg, &a), 0);
    assert_eq!(msg.tokens.len(), 2);
    let tokens = extract_tokens(&msg, &vec![0, 1, 0]).unwrap();
    assert_eq!(tokens, vec![a.clone(), b, a]);
}

#[test]
fn compat_request_round_trip() {
    let msg = CompatMessage::Request(BitswapRequest {
        ty: RequestType::Block,
        cid: ident_of(b"compat request"),
        tokens: vec![Token(1, b"abc".to_vec())],
    });
    let bytes = msg.to_bytes().unwrap();
    assert_eq!(CompatMessage::from_bytes(&bytes).unwrap(), vec![msg]);
}

#[test]
fn compat_presence_round_trip() {
    for have in [true, false] {
        let msg = CompatMessage::Response(
            ident_of(b"compat presence"),
            BitswapResponse::Have(have),
            vec![Token(3, b"t".to_vec())],
        );
        let bytes = msg.to_bytes().unwrap();
        assert_eq!(CompatMessage::from_bytes(&bytes).unwrap(), vec![msg]);
    }
}

#[test]
fn compat_block_round_trip() {
    let data = b"compat block payload".to_vec();
    let msg = CompatMessage::Response(
        block_ident(&data),
        BitswapResponse::Block(data),
        vec![Token(1, b"abc".to_vec())],
    );
    let bytes = msg.to_bytes().unwrap();
    assert_eq!(CompatMessage::from_bytes(&bytes).unwrap(), vec![msg]);
}

#[test]
fn compat_skip_not_fail() {
    let keep = ident_of(b"kept entry");
    let mut builder = MessageBuilder::new();
    builder.add(&CompatMessage::Request(BitswapRequest {
        ty: RequestType::Have,
        cid: ident_of(b"dropped entry"),
        tokens: vec![],
    }));
    builder.add(&CompatMessage::Request(BitswapRequest {
        ty: RequestType::Block,
        cid: keep.clone(),
        tokens: vec![],
    }));
    // unset send-dont-have on the first entry only
    builder.msg.entries[0].send_dont_have = false;
    let bytes = builder.to_bytes();
    let parts = CompatMessage::from_bytes(&bytes).unwrap();
    assert_eq!(
        parts,
        vec![CompatMessage::Request(BitswapRequest {
            ty: RequestType::Block,
            cid: keep,
            tokens: vec![],
        })]
    );
}

#[test]
fn compat_unknown_want_type_drops_entry_only() {
    let keep = ident_of(b"kept");
    let mut builder = MessageBuilder::new();
    builder.add(&CompatMessage::Request(BitswapRequest {
        ty: RequestType::Have,
        cid: ident_of(b"odd"),
        tokens: vec![],
    }));
    builder.add(&CompatMessage::Request(BitswapRequest {
        ty: RequestType::Have,
        cid: keep.clone(),
        tokens: vec![],
    }));
    builder.msg.entries[0].want_type = 7;
    let bytes = builder.to_bytes();
    let parts = CompatMessage::from_bytes(&bytes).unwrap();
    assert_eq!(
        parts,
        vec![CompatMessage::Request(BitswapRequest {
            ty: RequestType::Have,
            cid: keep,
            tokens: vec![],
        })]
    );
}

#[test]
fn compat_dangling_token_index_fails_whole_message() {
    let mut msg = PbMessage::new();
    for k in 0..3u64 {
        msg.tokens.push(Token(k, b"t".to_vec()).to_vec());
    }
    msg.entries.push(PbWantEntry {
        block: ident_of(b"dangling").to_bytes(),
        priority: 1,
        cancel: false,
        want_type: 0,
        send_dont_have: true,
        tokens: vec![5],
    });
    let bytes = msg.to_bytes();
    let err = CompatMessage::from_bytes(&bytes).unwrap_err();
    assert_eq!(err, BitswapError::InvalidData);
}

#[test]
fn compat_bad_identifier_fails_whole_message() {
    let mut msg = PbMessage::new();
    msg.entries.push(PbWantEntry {
        block: vec![0xff, 0xff, 0xff],
        priority: 1,
        cancel: false,
        want_type: 0,
        send_dont_have: true,
        tokens: vec![],
    });
    let bytes = msg.to_bytes();
    let err = CompatMessage::from_bytes(&bytes).unwrap_err();
    assert_eq!(err, BitswapError::InvalidData);
}

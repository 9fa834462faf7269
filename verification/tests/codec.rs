use bitswap::protocol::{MAX_CID_SIZE, MAX_TOKEN_SIZE};
use bitswap::{
    BitswapCodec, BitswapError, BitswapRequest, BitswapResponse, Identifier, MessageTooLarge,
    RequestType, Token, UnknownMessageType,
};
use libipld::multihash::{Code, MultihashDigest};
use libipld::Cid;

fn create_cid(bytes: &[u8]) -> Cid {
    let digest = Code::Blake3_256.digest(bytes);
    Cid::new_v1(0x55, digest)
}

fn ident(bytes: &[u8]) -> Identifier {
    let cid_bytes = create_cid(bytes).to_bytes();
    let (id, used) = Identifier::read_bytes(&cid_bytes).unwrap();
    assert_eq!(used, cid_bytes.len());
    id
}

#[test]
fn test_request_encode_decode() {
    let requests = [
        BitswapRequest {
            ty: RequestType::Have,
            cid: ident(&b"have_request"[..]),
            tokens: vec![],
        },
        BitswapRequest {
            ty: RequestType::Block,
            cid: ident(&b"block_request"[..]),
            tokens: vec![],
        },
    ];
    let mut buf = Vec::with_capacity(MAX_CID_SIZE + 1);
    for request in &requests {
        buf.clear();
        request.write_to(&mut buf).unwrap();
        assert_eq!(&BitswapRequest::from_bytes(&buf).unwrap(), request);
    }
}

#[test]
fn test_response_encode_decode() {
    let responses = [
        BitswapResponse::Have(true),
        BitswapResponse::Have(false),
        BitswapResponse::Block(b"block_response".to_vec()),
    ];
    let mut buf = Vec::with_capacity(13 + 1);
    for response in &responses {
        buf.clear();
        response.write_to(&mut buf).unwrap();
        assert_eq!(&BitswapResponse::from_bytes(&buf).unwrap(), response);
    }
}

#[test]
fn request_round_trip_with_tokens() {
    let request = BitswapRequest {
        ty: RequestType::Block,
        cid: ident(b"with_tokens"),
        tokens: vec![Token(1, b"abc".to_vec()), Token(7, vec![]), Token(300, vec![0, 255, 7])],
    };
    let mut buf = Vec::new();
    request.write_to(&mut buf).unwrap();
    assert_eq!(BitswapRequest::from_bytes(&buf).unwrap(), request);
}

#[test]
fn request_example_scenario_exact_bytes() {
    let cid = create_cid(b"example block");
    let id_bytes = cid.to_bytes();
    assert_eq!(id_bytes.len(), 36);
    let request = BitswapRequest {
        ty: RequestType::Block,
        cid: ident(b"example block"),
        tokens: vec![Token(0x01, b"abc".to_vec())],
    };
    let mut buf = Vec::new();
    request.write_to(&mut buf).unwrap();
    let mut expected = vec![0x01u8];
    expected.extend_from_slice(&id_bytes);
    expected.extend_from_slice(&[0x01, 0x01, 0x03]);
    expected.extend_from_slice(b"abc");
    assert_eq!(buf, expected);
    assert_eq!(BitswapRequest::from_bytes(&buf).unwrap(), request);
}

#[test]
fn request_unknown_tag_rejected() {
    let err = BitswapRequest::from_bytes(&[0x03, 0x00]).unwrap_err();
    assert_eq!(err, BitswapError::UnknownMessage(UnknownMessageType(3)));
}

#[test]
fn response_unknown_tag_rejected() {
    let err = BitswapResponse::from_bytes(&[0x03]).unwrap_err();
    assert_eq!(err, BitswapError::UnknownMessage(UnknownMessageType(3)));
}

#[test]
fn response_empty_frame_rejected() {
    let err = BitswapResponse::from_bytes(&[]).unwrap_err();
    assert_eq!(err, BitswapError::UnexpectedEnd);
}

#[test]
fn request_malformed_identifier_rejected() {
    // tag byte, then bytes no identifier parser accepts
    let err = BitswapRequest::from_bytes(&[0x00, 0xff, 0xff]).unwrap_err();
    assert_eq!(err, BitswapError::InvalidData);
}

#[test]
fn codec_request_ceiling_enforced_on_decode() {
    let mut codec = BitswapCodec::new(1024);
    let over = vec![0u8; MAX_CID_SIZE + MAX_TOKEN_SIZE + 2];
    let err = codec.read_request(&over).unwrap_err();
    assert_eq!(err, BitswapError::TooLarge(MessageTooLarge(MAX_CID_SIZE + MAX_TOKEN_SIZE + 2)));
    // at the ceiling the frame is read (and fails later for other reasons,
    // never as too large)
    let at = vec![0u8; MAX_CID_SIZE + MAX_TOKEN_SIZE + 1];
    let err = codec.read_request(&at).unwrap_err();
    assert_ne!(err, BitswapError::TooLarge(MessageTooLarge(MAX_CID_SIZE + MAX_TOKEN_SIZE + 1)));
}

#[test]
fn codec_request_ceiling_enforced_on_encode() {
    let ceiling = MAX_CID_SIZE + MAX_TOKEN_SIZE + 1;
    let mut codec = BitswapCodec::new(1024);
    // frame layout: 1 tag + 36 identifier bytes + 1 count + 1 codec varint
    // + 3 length varint + value
    let overhead = 1 + 36 + 1 + 1 + 3;
    let fits = BitswapRequest {
        ty: RequestType::Block,
        cid: ident(b"ceiling"),
        tokens: vec![Token(1, vec![0xaa; ceiling - overhead])],
    };
    codec.write_request(&fits).unwrap();
    assert_eq!(codec.frame().len(), ceiling);
    let too_big = BitswapRequest {
        ty: RequestType::Block,
        cid: ident(b"ceiling"),
        tokens: vec![Token(1, vec![0xaa; ceiling - overhead + 1])],
    };
    let err = codec.write_request(&too_big).unwrap_err();
    assert_eq!(err, BitswapError::TooLarge(MessageTooLarge(ceiling + 1)));
}

#[test]
fn codec_response_ceiling_enforced() {
    let mut codec = BitswapCodec::new(8);
    codec.write_response(&BitswapResponse::Block(vec![1; 8])).unwrap();
    assert_eq!(codec.frame().len(), 9);
    let err = codec.write_response(&BitswapResponse::Block(vec![1; 9])).unwrap_err();
    assert_eq!(err, BitswapError::TooLarge(MessageTooLarge(10)));
    let err = codec.read_response(&vec![1u8; 10]).unwrap_err();
    assert_eq!(err, BitswapError::TooLarge(MessageTooLarge(10)));
    let res = codec.read_response(&vec![1u8, 2, 3]).unwrap();
    assert_eq!(res, BitswapResponse::Block(vec![2, 3]));
}

#[test]
fn codec_frame_round_trip() {
    let mut codec = BitswapCodec::new(1 << 20);
    let request = BitswapRequest {
        ty: RequestType::Have,
        cid: ident(b"frame_round_trip"),
        tokens: vec![Token(9, b"tok".to_vec())],
    };
    codec.write_request(&request).unwrap();
    let frame = codec.frame().clone();
    assert_eq!(codec.read_request(&frame).unwrap(), request);
    let response = BitswapResponse::Have(false);
    codec.write_response(&response).unwrap();
    let frame = codec.frame().clone();
    assert_eq!(codec.read_response(&frame).unwrap(), response);
}

#[test]
fn identifier_bytes_round_trip() {
    let cid = create_cid(b"ident");
    let bytes = cid.to_bytes();
    let (id, used) = Identifier::read_bytes(&bytes).unwrap();
    assert_eq!(used, bytes.len());
    assert_eq!(id.to_bytes(), bytes);
    // trailing bytes are left alone
    let mut longer = bytes.clone();
    longer.extend_from_slice(b"rest");
    let (id2, used2) = Identifier::read_bytes(&longer).unwrap();
    assert_eq!(used2, bytes.len());
    assert_eq!(id2, id);
}

#[test]
fn identifier_prefix_and_rebuild() {
    let data = b"prefix data";
    let cid = create_cid(data);
    let (id, _) = Identifier::read_bytes(&cid.to_bytes()).unwrap();
    let (version, codec, mh_type, mh_len) = id.prefix();
    assert_eq!(version, 1);
    assert_eq!(codec, 0x55);
    assert_eq!(mh_type, 0x1e);
    assert_eq!(mh_len, 32);
    let rebuilt = Identifier::from_prefix(version, codec, mh_type, data).unwrap();
    assert_eq!(rebuilt, id);
    assert!(Identifier::from_prefix(9, codec, mh_type, data).is_err());
}

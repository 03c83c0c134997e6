use cakemaster::protocol::{
    FrameError, FrameLimits, ProtocolError, RequestFrame, RequestHeader, ResponseFrame,
    ResponseHeader, MAGIC, MOONCAKE_STORE_VERSION,
};

#[test]
fn request_header_golden_bytes() {
    let header = RequestHeader::new(0x0102_0304, 0xcbb1_1ed8, 9, 3);
    assert_eq!(
        header.encode(),
        [
            0x15, 0, 0, 0, 4, 3, 2, 1, 0xd8, 0x1e, 0xb1, 0xcb, 9, 0, 0, 0, 3, 0, 0, 0,
        ]
    );
    assert_eq!(RequestHeader::decode(&header.encode()).unwrap(), header);
}

#[test]
fn response_header_golden_bytes() {
    let header = ResponseHeader::new(0x0102_0304, 0, 9, 3);
    assert_eq!(
        header.encode(),
        [0x15, 0, 0, 0, 4, 3, 2, 1, 9, 0, 0, 0, 3, 0, 0, 0]
    );
    assert_eq!(ResponseHeader::decode(&header.encode()).unwrap(), header);
}

#[test]
fn headers_are_checked_field_by_field() {
    let good = RequestHeader::new(1, 2, 3, 4).encode();
    assert_eq!(
        RequestHeader::decode(&good[..19]),
        Err(ProtocolError::InvalidHeaderLength { expected: 20, actual: 19 })
    );
    let mut magic = good;
    magic[0] = 22;
    assert_eq!(RequestHeader::decode(&magic), Err(ProtocolError::InvalidMagic(22)));
    let mut version = good;
    version[1] = 1;
    assert_eq!(RequestHeader::decode(&version), Err(ProtocolError::UnsupportedVersion(1)));
    let mut serialization = good;
    serialization[2] = 7;
    assert_eq!(
        RequestHeader::decode(&serialization),
        Err(ProtocolError::UnsupportedSerialization(7))
    );
    let mut kind = good;
    kind[3] = 9;
    assert_eq!(RequestHeader::decode(&kind).unwrap().msg_type, 9);

    let response = ResponseHeader::new(1, 8, 3, 4).encode();
    assert_eq!(
        ResponseHeader::decode(&[]),
        Err(ProtocolError::InvalidHeaderLength { expected: 16, actual: 0 })
    );
    assert_eq!(ResponseHeader::decode(&response).unwrap().error_code, 8);
    let mut magic = response;
    magic[0] = 0;
    assert_eq!(ResponseHeader::decode(&magic), Err(ProtocolError::InvalidMagic(0)));
    let mut version = response;
    version[1] = 255;
    assert_eq!(ResponseHeader::decode(&version), Err(ProtocolError::UnsupportedVersion(255)));
    assert_eq!(MAGIC, 21);
    assert_eq!(MOONCAKE_STORE_VERSION, "2.0.0");
}

#[test]
fn payload_lengths_are_limited() {
    let limits = FrameLimits { max_body_len: 10, max_attachment_len: 5 };
    assert_eq!(RequestHeader::new(0, 0, 10, 5).payload_len(limits), Ok(15));
    assert_eq!(
        RequestHeader::new(0, 0, 11, 5).payload_len(limits),
        Err(ProtocolError::BodyTooLarge { length: 11, limit: 10 })
    );
    assert_eq!(
        ResponseHeader::new(0, 0, 10, 6).payload_len(limits),
        Err(ProtocolError::AttachmentTooLarge { length: 6, limit: 5 })
    );
    let usual = FrameLimits::default();
    assert_eq!(usual.max_body_len, 64 * 1024 * 1024);
    assert_eq!(usual.max_attachment_len, 256 * 1024 * 1024);
}

#[test]
fn frames_come_back_as_they_were_sent() {
    let request = RequestFrame::new(7, 8, vec![1, 2, 3], vec![4, 5]).unwrap();
    let bytes = request.to_bytes();
    assert_eq!(bytes.len(), 25);
    let header = RequestHeader::decode(&bytes[..20]).unwrap();
    let length = header.payload_len(FrameLimits::default()).unwrap();
    assert_eq!(length, 5);
    let back = RequestFrame::from_payload(header, bytes[20..].to_vec());
    assert_eq!(back, request);

    let response = ResponseFrame::new(7, 255, vec![9], Vec::new()).unwrap();
    let bytes = response.to_bytes();
    let header = ResponseHeader::decode(&bytes[..16]).unwrap();
    let back = ResponseFrame::from_payload(header, bytes[16..].to_vec());
    assert_eq!(back, response);
    assert_eq!(back.header.error_code, 255);
}

#[test]
fn protocol_faults_become_frame_errors() {
    let error: FrameError<String> = FrameError::from(ProtocolError::LengthOverflow);
    assert_eq!(error, FrameError::Protocol(ProtocolError::LengthOverflow));
}

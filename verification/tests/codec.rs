use dns_client::{DnsError, QueryClass, QueryType, Question, RData, ResourceRecord};

#[test]
fn test_from_bytes_to_question() {
    let mut bytes: [u8; 512] = [0; 512];
    let initial_offset: usize = 10;
    let mut offset: usize = initial_offset;
    let header_payload: [u8; 17] = [
        // example.com: type A, class IN
        0x07, 0x65, 0x78, 0x61, 0x6d, 0x70, 0x6c, 0x65, 0x03, 0x63, 0x6f, 0x6d, 0x00, 0x00, 0x01,
        0x00, 0x01,
    ];
    for byte in header_payload {
        bytes[offset] = byte;
        offset += 1;
    }
    offset = initial_offset;
    assert_eq!(
        Question::from_bytes(&bytes, &mut offset),
        Ok(Question::new("example.com", QueryType::A)),
    );
    assert_eq!(offset, header_payload.len() + initial_offset);
}

#[test]
fn test_from_bytes_to_resource_record() {
    let mut bytes: [u8; 512] = [0; 512];
    let mut start_offset: usize = 28;
    let mut offset: usize = 0;
    let rr_payload: [u8; 60] = [
        0x9e, 0xd9, 0x81, 0x80, 0x00, 0x01, 0x00, 0x02, 0x00, 0x00, 0x00, 0x00, 0x03, 0x64, 0x6e,
        0x73, 0x06, 0x67, 0x6f, 0x6f, 0x67, 0x6c, 0x65, 0x00, 0x00, 0x01, 0x00, 0x01, 0xc0, 0x0c,
        0x00, 0x01, 0x00, 0x01, 0x00, 0x00, 0x02, 0xb3, 0x00, 0x04, 0x08, 0x08, 0x04, 0x04, 0xc0,
        0x0c, 0x00, 0x01, 0x00, 0x01, 0x00, 0x00, 0x02, 0xb3, 0x00, 0x04, 0x08, 0x08, 0x08, 0x08,
    ];
    for byte in rr_payload {
        bytes[offset] = byte;
        offset += 1;
    }
    assert_eq!(
        ResourceRecord::from_bytes(&bytes, &mut start_offset),
        Ok(ResourceRecord::new(
            "dns.google".to_string(),
            QueryType::A,
            QueryClass::IN,
            691,
            4,
            RData::A([8, 8, 4, 4])
        )),
    );
    assert_eq!(offset, rr_payload.len());
    assert_eq!(start_offset, 44);
}

#[test]
fn question_with_unknown_type_is_rejected() {
    let mut bytes: [u8; 512] = [0; 512];
    bytes[0] = 1;
    bytes[1] = b'a';
    bytes[2] = 0;
    bytes[3] = 0;
    bytes[4] = 5;
    let mut offset: usize = 0;
    assert_eq!(Question::from_bytes(&bytes, &mut offset), Err(DnsError::InvalidQuestionType));
    assert_eq!(offset, 3);
}

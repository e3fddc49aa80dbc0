use dns_client::header::{push_be16, read_be16, Header};
use dns_client::message::{read_questions, read_records};
use dns_client::name::{
    get_name, join_texts, label_to_text, lower_label, name_from_labels, read_labels,
    to_lower_byte, write_name,
};
use dns_client::record::{decimal_strings, read_be32, read_record_name};
use dns_client::text::{decimal_string, join_strings};
use dns_client::{
    DnsError, Query, QueryClass, QueryType, Question, RData, ResourceRecord, Response,
};

fn buffer_with(payload: &[u8], at: usize) -> [u8; 512] {
    let mut bytes: [u8; 512] = [0; 512];
    bytes[at..at + payload.len()].copy_from_slice(payload);
    bytes
}

const DNS_GOOGLE_RESPONSE: [u8; 60] = [
    0x9e, 0xd9, 0x81, 0x80, 0x00, 0x01, 0x00, 0x02, 0x00, 0x00, 0x00, 0x00, 0x03, 0x64, 0x6e, 0x73,
    0x06, 0x67, 0x6f, 0x6f, 0x67, 0x6c, 0x65, 0x00, 0x00, 0x01, 0x00, 0x01, 0xc0, 0x0c, 0x00, 0x01,
    0x00, 0x01, 0x00, 0x00, 0x02, 0xb3, 0x00, 0x04, 0x08, 0x08, 0x04, 0x04, 0xc0, 0x0c, 0x00, 0x01,
    0x00, 0x01, 0x00, 0x00, 0x02, 0xb3, 0x00, 0x04, 0x08, 0x08, 0x08, 0x08,
];

#[test]
fn query_for_example_com_has_the_expected_bytes() {
    let domains: Vec<String> = vec!["example.com".to_string()];
    let query = Query::new(0x1234, &domains).unwrap();
    let bytes = query.to_bytes().unwrap();
    let expected: Vec<u8> = vec![
        0x12, 0x34, 0x01, 0x00, 0x00, 0x01, 0x00, 0x00, 0x00, 0x00, 0x00, 0x00, 0x07, 0x65, 0x78,
        0x61, 0x6d, 0x70, 0x6c, 0x65, 0x03, 0x63, 0x6f, 0x6d, 0x00, 0x00, 0x01, 0x00, 0x01,
    ];
    assert_eq!(bytes, expected);
}

#[test]
fn query_header_counts_its_questions() {
    let domains: Vec<String> = vec!["a.example".to_string(), "b.example".to_string()];
    let query = Query::new(7, &domains).unwrap();
    assert_eq!(query.header(), Header::new_query(7, 2));
    assert_eq!(query.questions().len(), 2);
    assert_eq!(query.questions()[0], Question::new("a.example", QueryType::A));
    assert_eq!(query.questions()[1], Question::new("b.example", QueryType::A));
    let bytes = query.to_bytes().unwrap();
    assert_eq!(&bytes[0..12], &[0, 7, 1, 0, 0, 2, 0, 0, 0, 0, 0, 0]);
    assert_eq!(bytes.len(), 12 + 2 * (1 + 1 + 1 + 7 + 1 + 4));
}

#[test]
fn query_without_domains_is_a_bare_header() {
    let domains: Vec<String> = Vec::new();
    let query = Query::new(0xffff, &domains).unwrap();
    assert_eq!(query.to_bytes().unwrap(), vec![0xff, 0xff, 1, 0, 0, 0, 0, 0, 0, 0, 0, 0]);
}

#[test]
fn response_for_dns_google_has_two_answers() {
    let bytes = buffer_with(&DNS_GOOGLE_RESPONSE, 0);
    let response = Response::from_bytes(&bytes).unwrap();
    assert_eq!(response.header.id, 0x9ed9);
    assert!(response.header.qr);
    assert_eq!(response.header.opcode, 0);
    assert!(!response.header.aa);
    assert!(!response.header.tc);
    assert!(response.header.rd);
    assert!(response.header.ra);
    assert_eq!(response.header.z, 0);
    assert_eq!(response.header.rcode, 0);
    assert_eq!(response.header.qdcount, 1);
    assert_eq!(response.header.ancount, 2);
    assert_eq!(response.header.nscount, 0);
    assert_eq!(response.header.arcount, 0);
    assert_eq!(response.questions, vec![Question::new("dns.google", QueryType::A)]);
    assert_eq!(
        response.answers,
        vec![
            ResourceRecord::new(
                "dns.google".to_string(),
                QueryType::A,
                QueryClass::IN,
                691,
                4,
                RData::A([8, 8, 4, 4]),
            ),
            ResourceRecord::new(
                "dns.google".to_string(),
                QueryType::A,
                QueryClass::IN,
                691,
                4,
                RData::A([8, 8, 8, 8]),
            ),
        ]
    );
    assert!(response.authorities.is_empty());
    assert!(response.additionals.is_empty());
    assert_eq!(response.answers[0].rdata.to_string(), "8.8.4.4");
    assert_eq!(response.answers[1].rdata.to_string(), "8.8.8.8");
}

#[test]
fn header_survives_a_round_trip() {
    let header = Header::new(0xbeef, true, 2, true, false, true, true, 3, 1, 2, 3, 4);
    let wire = header.to_bytes();
    assert_eq!(wire, vec![0xbe, 0xef, 0x95, 0x83, 0, 1, 0, 2, 0, 3, 0, 4]);
    let bytes = buffer_with(&wire, 0);
    assert_eq!(Header::from_bytes(&bytes), header);
}

#[test]
fn header_flags_are_packed_from_the_top_bit_down() {
    let all = Header::new(0, true, 15, true, true, true, true, 15, 0, 0, 0, 0);
    assert_eq!(&all.to_bytes()[2..4], &[0xff, 0x8f]);
    let only_tc = Header::new(0, false, 0, false, true, false, false, 0, 0, 0, 0, 0);
    assert_eq!(&only_tc.to_bytes()[2..4], &[0x02, 0x00]);
    let only_opcode = Header::new(0, false, 1, false, false, false, false, 0, 0, 0, 0, 0);
    assert_eq!(&only_opcode.to_bytes()[2..4], &[0x08, 0x00]);
}

#[test]
fn header_decoding_leaves_the_reserved_bits_out() {
    let mut bytes: [u8; 512] = [0; 512];
    bytes[3] = 0x70;
    let header = Header::from_bytes(&bytes);
    assert_eq!(header.z, 0);
    assert_eq!(header.rcode, 0);
    assert!(!header.ra);
}

#[test]
fn new_query_asks_for_recursion() {
    let header = Header::new_query(0x0102, 3);
    assert_eq!(header, Header::new(0x0102, false, 0, false, false, true, false, 0, 3, 0, 0, 0));
    assert_eq!(header.to_bytes(), vec![1, 2, 1, 0, 0, 3, 0, 0, 0, 0, 0, 0]);
}

#[test]
fn question_survives_a_round_trip() {
    let question = Question::new("www.example.org", QueryType::AAAA);
    let wire = question.to_bytes().unwrap();
    assert_eq!(
        wire,
        vec![
            3, b'w', b'w', b'w', 7, b'e', b'x', b'a', b'm', b'p', b'l', b'e', 3, b'o', b'r', b'g',
            0, 0, 28, 0, 1,
        ]
    );
    let bytes = buffer_with(&wire, 100);
    let mut offset: usize = 100;
    assert_eq!(Question::from_bytes(&bytes, &mut offset), Ok(question));
    assert_eq!(offset, 100 + wire.len());
}

#[test]
fn mixed_case_decodes_like_lower_case() {
    let mixed = buffer_with(&[3, b'W', b'w', b'W', 7, b'E', b'x', b'a', b'M', b'p', b'l', b'E', 0], 0);
    let lower = buffer_with(&[3, b'w', b'w', b'w', 7, b'e', b'x', b'a', b'm', b'p', b'l', b'e', 0], 0);
    let mut mixed_offset: usize = 0;
    let mut lower_offset: usize = 0;
    let from_mixed = get_name(&mixed, &mut mixed_offset);
    let from_lower = get_name(&lower, &mut lower_offset);
    assert_eq!(from_mixed, Ok("www.example".to_string()));
    assert_eq!(from_mixed, from_lower);
    assert_eq!(mixed_offset, 13);
    assert_eq!(lower_offset, 13);
}

#[test]
fn length_bytes_are_not_lowered() {
    // 0x41 is the letter A, and here the length of a label of 65 bytes.
    let mut payload: Vec<u8> = vec![0x41];
    payload.extend(std::iter::repeat(b'x').take(65));
    payload.push(0);
    let bytes = buffer_with(&payload, 0);
    let mut offset: usize = 0;
    assert_eq!(get_name(&bytes, &mut offset), Ok("x".repeat(65)));
    assert_eq!(offset, 67);
}

#[test]
fn pointer_gives_the_name_at_its_target() {
    let mut bytes = buffer_with(&[3, b'd', b'n', b's', 6, b'g', b'o', b'o', b'g', b'l', b'e', 0], 40);
    bytes[200] = 0xc0;
    bytes[201] = 40;
    bytes[203] = 1;
    bytes[209] = 7;
    bytes[211] = 4;
    bytes[212] = 10;
    bytes[215] = 1;
    let mut direct: usize = 40;
    let name = get_name(&bytes, &mut direct).unwrap();
    assert_eq!(name, "dns.google");
    assert_eq!(direct, 52);
    let mut offset: usize = 200;
    let record = ResourceRecord::from_bytes(&bytes, &mut offset).unwrap();
    assert_eq!(record.name, name);
    assert_eq!(record.ttl, 7);
    assert_eq!(record.rdata, RData::A([10, 0, 0, 1]));
    // two bytes of pointer, ten fixed bytes, four bytes of data
    assert_eq!(offset, 200 + 2 + 10 + 4);
}

#[test]
fn pointer_inside_a_pointed_to_name_is_not_followed() {
    let mut bytes: [u8; 512] = [0; 512];
    bytes[20] = 0xc0;
    bytes[21] = 100;
    bytes[23] = 1;
    bytes[31] = 4;
    bytes[100] = 0xc0;
    bytes[101] = 5;
    let mut offset: usize = 20;
    // at the target, 0xc0 is the length of a label of 192 bytes
    let record = ResourceRecord::from_bytes(&bytes, &mut offset).unwrap();
    assert_eq!(record.name.len(), 192);
    assert!(record.name.starts_with('\u{5}'));
    assert_eq!(offset, 36);
}

#[test]
fn record_name_in_place_is_read_to_its_end() {
    let mut payload: Vec<u8> = vec![1, b'a', 2, b'B', b'c', 0];
    payload.extend([0, 28, 0, 1, 0x01, 0x02, 0x03, 0x04, 0, 16]);
    payload.extend(1..=16u8);
    let bytes = buffer_with(&payload, 300);
    let mut offset: usize = 300;
    let record = ResourceRecord::from_bytes(&bytes, &mut offset).unwrap();
    assert_eq!(
        record,
        ResourceRecord::new(
            "a.bc".to_string(),
            QueryType::AAAA,
            QueryClass::IN,
            0x01020304,
            16,
            RData::AAAA([1, 2, 3, 4, 5, 6, 7, 8, 9, 10, 11, 12, 13, 14, 15, 16]),
        )
    );
    assert_eq!(offset, 300 + payload.len());
    assert_eq!(record.rdata.to_string(), "1:2:3:4:5:6:7:8:9:10:11:12:13:14:15:16");
}

#[test]
fn time_to_live_is_big_endian() {
    let mut payload: Vec<u8> = vec![0];
    payload.extend([0, 1, 0, 1, 0xff, 0xff, 0xff, 0xff, 0, 4, 1, 2, 3, 4]);
    let bytes = buffer_with(&payload, 0);
    let mut offset: usize = 0;
    let record = ResourceRecord::from_bytes(&bytes, &mut offset).unwrap();
    assert_eq!(record.name, "");
    assert_eq!(record.ttl, u32::MAX);
    assert_eq!(offset, 15);
}

#[test]
fn counts_drive_parsing_whatever_follows() {
    let mut bytes = buffer_with(&DNS_GOOGLE_RESPONSE, 0);
    let clean = Response::from_bytes(&bytes).unwrap();
    for i in 60..512usize {
        bytes[i] = 0xa5;
    }
    let noisy = Response::from_bytes(&bytes).unwrap();
    assert_eq!(noisy.questions.len(), 1);
    assert_eq!(noisy.answers.len(), 2);
    assert_eq!(noisy.authorities.len(), 0);
    assert_eq!(noisy.additionals.len(), 0);
    assert_eq!(noisy.questions, clean.questions);
    assert_eq!(noisy.answers, clean.answers);
}

#[test]
fn all_four_sections_are_filled_in_order() {
    let mut payload: Vec<u8> = vec![0, 1, 0x80, 0, 0, 1, 0, 1, 0, 1, 0, 1];
    payload.extend([1, b'q', 0, 0, 1, 0, 1]);
    for last in [1u8, 2, 3] {
        payload.extend([0xc0, 12, 0, 1, 0, 1, 0, 0, 0, last, 0, 4, 192, 168, 0, last]);
    }
    let bytes = buffer_with(&payload, 0);
    let response = Response::from_bytes(&bytes).unwrap();
    assert_eq!(response.questions.len(), 1);
    assert_eq!(response.answers.len(), 1);
    assert_eq!(response.authorities.len(), 1);
    assert_eq!(response.additionals.len(), 1);
    assert_eq!(response.answers[0].rdata, RData::A([192, 168, 0, 1]));
    assert_eq!(response.authorities[0].rdata, RData::A([192, 168, 0, 2]));
    assert_eq!(response.additionals[0].rdata, RData::A([192, 168, 0, 3]));
    assert_eq!(response.additionals[0].ttl, 3);
    assert_eq!(response.additionals[0].name, "q");
}

#[test]
fn name_encoding_cuts_at_dots() {
    assert_eq!(write_name("a.bc"), Ok(vec![1, b'a', 2, b'b', b'c', 0]));
    assert_eq!(write_name("single"), Ok(vec![6, b's', b'i', b'n', b'g', b'l', b'e', 0]));
    // the empty name is one empty label
    assert_eq!(write_name(""), Ok(vec![0, 0]));
    // a dot at the end leaves an empty label behind it
    assert_eq!(write_name("a."), Ok(vec![1, b'a', 0, 0]));
    assert_eq!(write_name("a..b"), Ok(vec![1, b'a', 0, 1, b'b', 0]));
}

#[test]
fn name_encoding_keeps_the_case_it_is_given() {
    assert_eq!(write_name("Ab.C"), Ok(vec![2, b'A', b'b', 1, b'C', 0]));
}

#[test]
fn name_encoding_counts_bytes_not_characters() {
    assert_eq!(write_name("é.x"), Ok(vec![2, 0xc3, 0xa9, 1, b'x', 0]));
}

#[test]
fn root_name_decodes_to_the_empty_text() {
    let bytes: [u8; 512] = [0; 512];
    let mut offset: usize = 5;
    assert_eq!(get_name(&bytes, &mut offset), Ok(String::new()));
    assert_eq!(offset, 6);
}

#[test]
fn bytes_that_are_no_text_come_out_as_replacement_characters() {
    let bytes = buffer_with(&[2, 0xff, b'A', 1, b'z', 0], 0);
    let mut offset: usize = 0;
    assert_eq!(get_name(&bytes, &mut offset), Ok("\u{fffd}a.z".to_string()));
    assert_eq!(offset, 6);
}

#[test]
fn multi_byte_text_in_a_label_is_kept() {
    let bytes = buffer_with(&[3, 0xc3, 0x89, b'X', 0], 0);
    let mut offset: usize = 0;
    assert_eq!(get_name(&bytes, &mut offset), Ok("Éx".to_string()));
}

#[test]
fn decimal_text_has_no_leading_zeros() {
    assert_eq!(decimal_string(0), "0");
    assert_eq!(decimal_string(9), "9");
    assert_eq!(decimal_string(10), "10");
    assert_eq!(decimal_string(99), "99");
    assert_eq!(decimal_string(100), "100");
    assert_eq!(decimal_string(205), "205");
    assert_eq!(decimal_string(255), "255");
    assert_eq!(RData::A([0, 9, 10, 255]).to_string(), "0.9.10.255");
}

#[test]
fn type_and_class_codes() {
    assert_eq!(QueryType::A.code(), 1);
    assert_eq!(QueryType::AAAA.code(), 28);
    assert_eq!(QueryClass::IN.code(), 1);
    assert_eq!(QueryType::from_code(1), Some(QueryType::A));
    assert_eq!(QueryType::from_code(28), Some(QueryType::AAAA));
    assert_eq!(QueryType::from_code(0), None);
    assert_eq!(QueryType::from_code(5), None);
    assert_eq!(QueryType::from_code(0x0100), None);
}

#[test]
fn opcode_of_more_than_four_bits_spills_into_the_flag_above_it() {
    let header = Header::new(0, false, 16, false, false, false, false, 0, 0, 0, 0, 0);
    let wire = header.to_bytes();
    assert_eq!(wire[2], 0x80);
    let bytes = buffer_with(&wire, 0);
    let back = Header::from_bytes(&bytes);
    assert!(back.qr);
    assert_eq!(back.opcode, 0);
}

#[test]
fn sixteen_bit_fields_are_big_endian() {
    let mut out: Vec<u8> = vec![9];
    push_be16(&mut out, 0x1234);
    push_be16(&mut out, 0x00ff);
    assert_eq!(out, vec![9, 0x12, 0x34, 0x00, 0xff]);
    assert_eq!(read_be16(0x12, 0x34), 0x1234);
    assert_eq!(read_be16(0xff, 0xff), 0xffff);
    assert_eq!(read_be16(0, 28), 28);
    assert_eq!(read_be32(0, 0, 0x02, 0xb3), 691);
    assert_eq!(read_be32(0x80, 0, 0, 1), 0x8000_0001);
}

#[test]
fn labels_are_read_lowered_and_joined_in_steps() {
    let bytes = buffer_with(&[2, b'A', b'b', 1, b'C', 0], 7);
    let mut offset: usize = 7;
    let labels = read_labels(&bytes, &mut offset).unwrap();
    assert_eq!(labels, vec![vec![b'A', b'b'], vec![b'C']]);
    assert_eq!(offset, 13);
    assert_eq!(to_lower_byte(b'A'), b'a');
    assert_eq!(to_lower_byte(b'Z'), b'z');
    assert_eq!(to_lower_byte(b'@'), b'@');
    assert_eq!(to_lower_byte(b'['), b'[');
    assert_eq!(to_lower_byte(b'a'), b'a');
    assert_eq!(to_lower_byte(0xc1), 0xc1);
    assert_eq!(lower_label(&labels[0]), vec![b'a', b'b']);
    assert_eq!(label_to_text(&labels[0]), "ab");
    assert_eq!(name_from_labels(&labels), "ab.c");
    let no_labels: Vec<Vec<u8>> = Vec::new();
    assert_eq!(name_from_labels(&no_labels), "");
    let texts: Vec<String> = vec!["x".to_string(), "".to_string(), "yz".to_string()];
    assert_eq!(join_texts(&texts), "x..yz");
    assert_eq!(join_strings(&texts, ", "), "x, , yz");
    let one: Vec<String> = vec!["alone".to_string()];
    assert_eq!(join_strings(&one, "-"), "alone");
}

#[test]
fn record_data_takes_the_length_its_type_fixes() {
    let four: Vec<u8> = vec![1, 2, 3, 4];
    let sixteen: Vec<u8> = (0..16u8).collect();
    assert_eq!(RData::from_data(QueryType::A, &four), Some(RData::A([1, 2, 3, 4])));
    assert_eq!(RData::from_data(QueryType::AAAA, &four), None);
    assert_eq!(RData::from_data(QueryType::A, &sixteen), None);
    assert_eq!(
        RData::from_data(QueryType::AAAA, &sixteen),
        Some(RData::AAAA([0, 1, 2, 3, 4, 5, 6, 7, 8, 9, 10, 11, 12, 13, 14, 15]))
    );
    assert_eq!(decimal_strings(&four), vec!["1", "2", "3", "4"]);
}

#[test]
fn record_name_field_is_a_pointer_or_a_name() {
    let mut bytes = buffer_with(&[1, b'p', 0], 60);
    bytes[100] = 0xc0;
    bytes[101] = 60;
    let mut offset: usize = 100;
    assert_eq!(read_record_name(&bytes, &mut offset), Ok("p".to_string()));
    assert_eq!(offset, 102);
    let mut in_place: usize = 60;
    assert_eq!(read_record_name(&bytes, &mut in_place), Ok("p".to_string()));
    assert_eq!(in_place, 63);
    // a pointer mark in the last byte has no second byte: it is a label length
    let mut last = [0u8; 512];
    last[511] = 0xc0;
    let mut at_end: usize = 511;
    assert_eq!(read_record_name(&last, &mut at_end), Err(DnsError::InvalidLabel));
    assert_eq!(at_end, 512);
}

#[test]
fn sections_are_read_one_entry_behind_the_other() {
    let mut payload: Vec<u8> = Vec::new();
    payload.extend([1, b'a', 0, 0, 1, 0, 1]);
    payload.extend([1, b'b', 0, 0, 28, 0, 1]);
    payload.extend([0, 0, 1, 0, 1, 0, 0, 0, 5, 0, 4, 1, 1, 1, 1]);
    let bytes = buffer_with(&payload, 0);
    let mut offset: usize = 0;
    let questions = read_questions(&bytes, &mut offset, 2).unwrap();
    assert_eq!(
        questions,
        vec![Question::new("a", QueryType::A), Question::new("b", QueryType::AAAA)]
    );
    assert_eq!(offset, 14);
    let records = read_records(&bytes, &mut offset, 1).unwrap();
    assert_eq!(records.len(), 1);
    assert_eq!(records[0].rdata, RData::A([1, 1, 1, 1]));
    assert_eq!(offset, 29);
    let mut none: usize = 3;
    assert_eq!(read_questions(&bytes, &mut none, 0), Ok(Vec::new()));
    assert_eq!(none, 3);
    let mut failing: usize = 14;
    assert_eq!(read_records(&bytes, &mut failing, 2), Err(DnsError::UnsupportedRecordType));
    assert_eq!(failing, 40);
}

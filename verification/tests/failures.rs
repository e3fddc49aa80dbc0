use dns_client::name::{get_name, read_labels, write_name};
use dns_client::{DnsError, Query, QueryType, Question, ResourceRecord, Response};

fn buffer_from(payload: &[u8], at: usize) -> [u8; 512] {
    let mut bytes: [u8; 512] = [0; 512];
    bytes[at..at + payload.len()].copy_from_slice(payload);
    bytes
}

#[test]
fn label_that_overruns_the_buffer_is_invalid() {
    let mut bytes: [u8; 512] = [0; 512];
    bytes[509] = 3;
    bytes[510] = b'a';
    bytes[511] = b'b';
    let mut offset: usize = 509;
    assert_eq!(get_name(&bytes, &mut offset), Err(DnsError::InvalidLabel));
    assert_eq!(offset, 510);
}

#[test]
fn label_that_ends_with_the_buffer_leaves_no_room_for_the_end_of_the_name() {
    let mut bytes: [u8; 512] = [0; 512];
    bytes[509] = 2;
    bytes[510] = b'a';
    bytes[511] = b'b';
    let mut offset: usize = 509;
    assert_eq!(get_name(&bytes, &mut offset), Err(DnsError::TruncatedMessage));
    assert_eq!(offset, 512);
}

#[test]
fn name_that_starts_behind_the_buffer_is_truncated() {
    let bytes: [u8; 512] = [0; 512];
    let mut offset: usize = 512;
    assert_eq!(get_name(&bytes, &mut offset), Err(DnsError::TruncatedMessage));
    assert_eq!(offset, 512);
    let mut far: usize = usize::MAX;
    assert_eq!(read_labels(&bytes, &mut far), Err(DnsError::TruncatedMessage));
    assert_eq!(far, usize::MAX);
}

#[test]
fn overrun_in_a_later_label_is_invalid_too() {
    let bytes = buffer_from(&[1, b'a', 200, b'b'], 400);
    let mut offset: usize = 400;
    assert_eq!(get_name(&bytes, &mut offset), Err(DnsError::InvalidLabel));
    assert_eq!(offset, 403);
}

#[test]
fn question_type_other_than_a_and_aaaa_is_invalid() {
    let bytes = buffer_from(&[1, b'a', 0, 0, 2, 0, 1], 0);
    let mut offset: usize = 0;
    assert_eq!(Question::from_bytes(&bytes, &mut offset), Err(DnsError::InvalidQuestionType));
    assert_eq!(offset, 3);
    let high = buffer_from(&[1, b'a', 0, 1, 1, 0, 1], 0);
    let mut high_offset: usize = 0;
    assert_eq!(Question::from_bytes(&high, &mut high_offset), Err(DnsError::InvalidQuestionType));
}

#[test]
fn question_class_is_not_looked_at() {
    let bytes = buffer_from(&[1, b'a', 0, 0, 1, 0xab, 0xcd], 0);
    let mut offset: usize = 0;
    assert_eq!(Question::from_bytes(&bytes, &mut offset), Ok(Question::new("a", QueryType::A)));
    assert_eq!(offset, 7);
}

#[test]
fn question_without_room_for_its_type_is_truncated() {
    let mut bytes: [u8; 512] = [0; 512];
    bytes[509] = 1;
    bytes[510] = b'a';
    let mut offset: usize = 509;
    assert_eq!(Question::from_bytes(&bytes, &mut offset), Err(DnsError::TruncatedMessage));
    assert_eq!(offset, 512);
}

#[test]
fn question_without_room_for_its_class_is_truncated() {
    let mut bytes: [u8; 512] = [0; 512];
    bytes[507] = 1;
    bytes[508] = b'a';
    bytes[511] = 1;
    let mut offset: usize = 507;
    assert_eq!(Question::from_bytes(&bytes, &mut offset), Err(DnsError::TruncatedMessage));
    assert_eq!(offset, 512);
}

#[test]
fn question_that_ends_with_the_buffer_is_read() {
    let mut bytes: [u8; 512] = [0; 512];
    bytes[505] = 1;
    bytes[506] = b'a';
    bytes[509] = 28;
    bytes[511] = 1;
    let mut offset: usize = 505;
    assert_eq!(Question::from_bytes(&bytes, &mut offset), Ok(Question::new("a", QueryType::AAAA)));
    assert_eq!(offset, 512);
}

#[test]
fn record_with_fewer_than_twelve_bytes_left_is_too_short() {
    let bytes: [u8; 512] = [0; 512];
    let mut offset: usize = 501;
    assert_eq!(ResourceRecord::from_bytes(&bytes, &mut offset), Err(DnsError::DataTooShort));
    assert_eq!(offset, 501);
    let mut behind: usize = 600;
    assert_eq!(ResourceRecord::from_bytes(&bytes, &mut behind), Err(DnsError::DataTooShort));
    assert_eq!(behind, 600);
}

#[test]
fn record_with_twelve_bytes_left_is_looked_into() {
    let mut bytes: [u8; 512] = [0; 512];
    bytes[502] = 1;
    let mut offset: usize = 500;
    // root name, type A, no data: the length does not match
    assert_eq!(ResourceRecord::from_bytes(&bytes, &mut offset), Err(DnsError::RDataLengthMismatch));
    assert_eq!(offset, 511);
}

#[test]
fn record_of_another_type_is_unsupported_and_stepped_over() {
    let bytes = buffer_from(&[0, 0, 5, 0, 1, 0, 0, 0, 60, 0, 3, 1, 2, 3], 100);
    let mut offset: usize = 100;
    assert_eq!(ResourceRecord::from_bytes(&bytes, &mut offset), Err(DnsError::UnsupportedRecordType));
    assert_eq!(offset, 114);
}

#[test]
fn record_whose_data_length_differs_from_its_type_is_a_mismatch() {
    let a = buffer_from(&[0, 0, 1, 0, 1, 0, 0, 0, 60, 0, 16, 0, 0, 0, 0], 0);
    let mut offset: usize = 0;
    assert_eq!(ResourceRecord::from_bytes(&a, &mut offset), Err(DnsError::RDataLengthMismatch));
    assert_eq!(offset, 27);
    let aaaa = buffer_from(&[0, 0, 28, 0, 1, 0, 0, 0, 60, 0, 4, 1, 2, 3, 4], 0);
    let mut other: usize = 0;
    assert_eq!(ResourceRecord::from_bytes(&aaaa, &mut other), Err(DnsError::RDataLengthMismatch));
    assert_eq!(other, 15);
}

#[test]
fn record_whose_data_runs_past_the_buffer_is_truncated() {
    let bytes = buffer_from(&[0, 0, 1, 0, 1, 0, 0, 0, 60, 0, 4, 1, 2, 3], 498);
    let mut offset: usize = 498;
    assert_eq!(ResourceRecord::from_bytes(&bytes, &mut offset), Err(DnsError::TruncatedMessage));
    assert_eq!(offset, 509);
}

#[test]
fn record_whose_fixed_part_runs_past_the_buffer_is_truncated() {
    let mut payload: Vec<u8> = vec![5, b'a', b'b', b'c', b'd', b'e', 0];
    payload.extend([0, 1, 0, 1, 0, 0]);
    let bytes = buffer_from(&payload, 499);
    let mut offset: usize = 499;
    assert_eq!(ResourceRecord::from_bytes(&bytes, &mut offset), Err(DnsError::TruncatedMessage));
    assert_eq!(offset, 506);
}

#[test]
fn record_whose_pointer_leads_to_a_bad_name_fails_behind_the_pointer() {
    let mut bytes: [u8; 512] = [0; 512];
    bytes[10] = 0xc0;
    bytes[11] = 255;
    for i in 255..512usize {
        bytes[i] = 0xff;
    }
    let mut offset: usize = 10;
    assert_eq!(ResourceRecord::from_bytes(&bytes, &mut offset), Err(DnsError::InvalidLabel));
    assert_eq!(offset, 12);
}

#[test]
fn response_fails_as_its_first_bad_entry_fails() {
    let mut payload: Vec<u8> = vec![0, 1, 0x80, 0, 0, 1, 0, 2, 0, 0, 0, 0];
    payload.extend([1, b'q', 0, 0, 1, 0, 1]);
    payload.extend([0xc0, 12, 0, 1, 0, 1, 0, 0, 0, 9, 0, 4, 10, 0, 0, 1]);
    payload.extend([0xc0, 12, 0, 16, 0, 1, 0, 0, 0, 9, 0, 2, b'h', b'i']);
    let bytes = buffer_from(&payload, 0);
    assert_eq!(Response::from_bytes(&bytes).err(), Some(DnsError::UnsupportedRecordType));
    let mut bad_question = bytes;
    bad_question[16] = 9;
    assert_eq!(Response::from_bytes(&bad_question).err(), Some(DnsError::InvalidQuestionType));
}

#[test]
fn response_that_counts_more_than_it_holds_fails() {
    let mut bytes: [u8; 512] = [0; 512];
    bytes[4] = 0xff;
    bytes[5] = 0xff;
    // 65535 questions are announced; the zero bytes stop being questions once
    // fewer than five of them are left
    assert_eq!(Response::from_bytes(&bytes).err(), Some(DnsError::InvalidQuestionType));
    let mut answers: [u8; 512] = [0; 512];
    answers[7] = 200;
    assert_eq!(Response::from_bytes(&answers).err(), Some(DnsError::UnsupportedRecordType));
}

#[test]
fn label_of_more_than_255_bytes_cannot_be_encoded() {
    let long = "a".repeat(256);
    assert_eq!(write_name(&long), Err(DnsError::LabelTooLong));
    let behind = format!("ok.{}", long);
    assert_eq!(write_name(&behind), Err(DnsError::LabelTooLong));
    assert_eq!(Question::new(&behind, QueryType::A).to_bytes(), Err(DnsError::LabelTooLong));
    let domains: Vec<String> = vec!["fine.example".to_string(), behind];
    assert_eq!(Query::new(1, &domains).unwrap().to_bytes(), Err(DnsError::LabelTooLong));
}

#[test]
fn label_of_255_bytes_can_be_encoded() {
    let name = "b".repeat(255);
    let wire = write_name(&name).unwrap();
    assert_eq!(wire.len(), 257);
    assert_eq!(wire[0], 255);
    assert_eq!(wire[256], 0);
}

#[test]
fn more_domains_than_a_header_counts_are_too_many() {
    let mut domains: Vec<String> = vec!["a".to_string(); 65535];
    assert!(Query::new(1, &domains).is_ok());
    assert_eq!(Query::new(1, &domains).unwrap().header().qdcount, 65535);
    domains.push("a".to_string());
    assert_eq!(Query::new(1, &domains).err(), Some(DnsError::TooManyQuestions));
}

#[test]
fn every_error_has_a_message() {
    assert_eq!(DnsError::InvalidLabel.message(), "Invalid name");
    assert_eq!(DnsError::InvalidQuestionType.message(), "Invalid question");
    assert_eq!(DnsError::DataTooShort.message(), "data is too short");
    assert_eq!(DnsError::TruncatedMessage.message(), "message is truncated");
    assert_eq!(DnsError::UnsupportedRecordType.message(), "unsupported record type");
    assert_eq!(
        DnsError::RDataLengthMismatch.message(),
        "record data length does not match its type"
    );
    assert_eq!(DnsError::LabelTooLong.message(), "label is too long");
    assert_eq!(DnsError::TooManyQuestions.message(), "too many questions");
}

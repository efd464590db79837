use dns_resolver::buffer::NetworkBuffer;
use dns_resolver::coding::MessageCoder;
use dns_resolver::errors::NetworkBufferError;
use dns_resolver::packets::{
    Message, PacketType, Question, QuestionClass, ResourceRecord, ResourceRecordClass,
    ResourceRecordData, ResourceRecordType, ResponseCode, SOARecord,
};

#[test]
fn coding_test_decode_single_domain() {
    let mut coder = MessageCoder::new();
    let mut buf = NetworkBuffer::new();

    let domain_bytes: [u8; 7] = [0x05, b'h', b'e', b'l', b'l', b'o', 0x00];

    buf.put_bytes(&domain_bytes).unwrap();

    let domain = coder.decode_name(&mut buf).unwrap();

    // A . is prepended so include here
    assert_eq!(domain, String::from(".hello"));
}

#[test]
fn coding_test_decode_domain() {
    let mut coder = MessageCoder::new();
    let mut buf = NetworkBuffer::new();

    let domain_bytes: [u8; 11] = [
        0x05, b'h', b'e', b'l', b'l', b'o', 0x03, b'c', b'o', b'm', 0x00,
    ];

    buf.put_bytes(&domain_bytes).unwrap();

    let domain = coder.decode_name(&mut buf).unwrap();

    assert_eq!(domain, String::from(".hello.com"));
}

#[test]
fn coding_test_decode_label() {
    let mut coder = MessageCoder::new();
    let mut buf = NetworkBuffer::new();

    let domain_bytes: [u8; 5] = [b'h', b'e', b'l', b'l', b'o'];

    buf.put_bytes(&domain_bytes).unwrap();

    let domain = coder.decode_label(5, &mut buf).unwrap();

    assert_eq!(domain, String::from("hello"));
}

#[test]
fn coding_test_decode_header() {
    let mut coder = MessageCoder::new();
    let mut buf = NetworkBuffer::new();

    let header_bytes: [u8; 12] = [112, 181, 151, 132, 0, 0, 0, 0, 0, 0, 0, 0];

    buf.put_bytes(&header_bytes).unwrap();

    let message = coder.decode_message(&mut buf).unwrap();

    assert_eq!(message.id, 28853);
    assert_eq!(message.op_code, 0x02);
    assert!(matches!(message.packet_type, PacketType::Response));

    assert!(message.authoritative_answer);
    assert!(message.truncation);
    assert!(message.recursion_desired);
    assert!(message.recursion_available);
    assert!(matches!(
        message.response_code,
        ResponseCode::NotImplemented
    ));
}

#[test]
fn coding_test_encode_frame() {
    let mut coder = MessageCoder::new();
    let mut buf = NetworkBuffer::new();

    let message = Message {
        id: 28853,
        op_code: 0x02,
        packet_type: PacketType::Response,
        authoritative_answer: true,
        truncation: true,
        recursion_desired: true,
        recursion_available: true,
        response_code: ResponseCode::NotImplemented,
        questions: vec![],
        answers: vec![],
        additional_records: vec![],
        authorities: vec![],
    };

    coder.encode_message(&message, &mut buf).unwrap();

    let expected_bytes: [u8; 12] = [112, 181, 151, 132, 0, 0, 0, 0, 0, 0, 0, 0];

    assert_eq!(expected_bytes, buf.buf[..12]);
}

#[test]
fn coding_test_decode_question() {
    let mut coder = MessageCoder::new();
    let mut buf = NetworkBuffer::new();

    let question_bytes: [u8; 20] = [
        3, 119, 119, 119, 6, 103, 111, 111, 103, 108, 101, 3, 99, 111, 109, 0, 0, 1, 0, 1,
    ];

    buf.put_bytes(&question_bytes).unwrap();

    let question = coder.decode_question(&mut buf).unwrap();

    assert_eq!(question.domain, String::from(".www.google.com"));
    assert!(matches!(
        question.question_type,
        ResourceRecordType::ARecord
    ));

    assert!(matches!(question.class, QuestionClass::InternetAddress))
}

#[test]
fn coding_test_decode_resource_record() {
    let mut coder = MessageCoder::new();
    let mut buf = NetworkBuffer::new();

    let resource_record_bytes: [u8; 30] = [
        3, 119, 119, 119, 6, 103, 111, 111, 103, 108, 101, 3, 99, 111, 109, 0, 0, 1, 0, 1, 0, 0,
        0, 255, 0, 4, 8, 8, 8, 8,
    ];

    buf.put_bytes(&resource_record_bytes).unwrap();

    let resource_record = coder.decode_resource_record(&mut buf).unwrap();

    assert_eq!(resource_record.domain, String::from(".www.google.com"));
    assert!(matches!(
        resource_record.record_type,
        ResourceRecordType::ARecord
    ));

    assert!(matches!(
        resource_record.class,
        ResourceRecordClass::InternetAddress
    ));

    assert_eq!(resource_record.time_to_live, 255);
    match resource_record.data {
        ResourceRecordData::A(value) => assert_eq!(value, 0x08080808),
        _ => panic!("Bad resource record"),
    }
}

#[test]
#[allow(non_snake_case)]
fn coding_test_decode_resource_record_AAARecord() {
    let mut coder = MessageCoder::new();
    let mut buf = NetworkBuffer::new();

    let resource_record_bytes: [u8; 42] = [
        3, 119, 119, 119, 6, 103, 111, 111, 103, 108, 101, 3, 99, 111, 109, 0, 0, 28, 0, 1, 0, 0,
        0, 255, 0, 16, 8, 8, 8, 8, 8, 8, 8, 8, 8, 8, 8, 8, 8, 8, 8, 8,
    ];

    buf.put_bytes(&resource_record_bytes).unwrap();

    let resource_record = coder.decode_resource_record(&mut buf).unwrap();

    assert_eq!(resource_record.domain, String::from(".www.google.com"));
    assert!(matches!(
        resource_record.record_type,
        ResourceRecordType::AAAARecord
    ));

    assert!(matches!(
        resource_record.class,
        ResourceRecordClass::InternetAddress
    ));

    assert_eq!(resource_record.time_to_live, 255);
    match resource_record.data {
        ResourceRecordData::AAAA(value) => {
            assert_eq!(value, 0x08080808080808080808080808080808)
        }
        _ => panic!("Bad resource record"),
    }
}

#[test]
#[allow(non_snake_case)]
fn coding_test_decode_resource_record_CNAME() {
    let mut coder = MessageCoder::new();
    let mut buf = NetworkBuffer::new();

    let resource_record_bytes = [
        3, 119, 119, 119, 6, 103, 111, 111, 103, 108, 101, 3, 99, 111, 109, 0, 0, 5, 0, 1, 0, 0,
        0, 255, 0, 15, 3, 119, 119, 119, 6, 103, 111, 111, 103, 108, 101, 3, 99, 111, 109,
    ];

    buf.put_bytes(&resource_record_bytes).unwrap();

    let resource_record = coder.decode_resource_record(&mut buf).unwrap();

    assert_eq!(resource_record.domain, String::from(".www.google.com"));
    assert!(matches!(
        resource_record.record_type,
        ResourceRecordType::CNameRecord
    ));

    assert!(matches!(
        resource_record.class,
        ResourceRecordClass::InternetAddress
    ));

    assert_eq!(resource_record.time_to_live, 255);
    match resource_record.data {
        ResourceRecordData::CName(value) => assert_eq!(value, ".www.google.com"),
        _ => panic!("Bad resource record"),
    }
}

#[test]
fn coding_test_decode_pointer_domain() {
    let mut coder = MessageCoder::new();
    let mut buf = NetworkBuffer::new();

    let pointer_domain_bytes: [u8; 18] = [
        3, 119, 119, 119, 6, 103, 111, 111, 103, 108, 101, 3, 99, 111, 109, 0, 192, 0,
    ];

    buf.put_bytes(&pointer_domain_bytes).unwrap();

    let original = coder.decode_name(&mut buf).unwrap();

    assert_eq!(original, String::from(".www.google.com"));

    let pointer = coder.decode_name(&mut buf).unwrap();

    assert_eq!(original, pointer);
}

#[test]
fn coding_test_decode_double_pointer_cname_request() {
    let mut buf = NetworkBuffer::new();

    buf.put_bytes(&[
        5, 100, 128, 128, 0, 1, 0, 2, 0, 0, 0, 0, 3, 119, 119, 119, 8, 102, 97, 99, 101, 98, 111,
        111, 107, 3, 99, 111, 109, 0, 0, 1, 0, 1, 192, 12, 0, 5, 0, 1, 0, 0, 9, 125, 0, 17, 9,
        115, 116, 97, 114, 45, 109, 105, 110, 105, 4, 99, 49, 48, 114, 192, 16, 192, 46, 0, 1, 0,
        1, 0, 0, 0, 14, 0, 4, 157, 240, 18, 35, 0,
    ])
    .unwrap();

    let mut coder = MessageCoder::new();

    let message = coder.decode_message(&mut buf).unwrap();

    assert!(message.answers.len() > 0);
    assert_eq!(message.answers[0].domain, ".www.facebook.com");
    assert_eq!(
        message.answers[0].record_type,
        ResourceRecordType::CNameRecord
    );
    assert_eq!(
        message.answers[0].data,
        ResourceRecordData::CName(".star-mini.c10r.facebook.com".to_string()),
    );
}

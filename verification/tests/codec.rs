use dns_resolver::buffer::NetworkBuffer;
use dns_resolver::coding::MessageCoder;
use dns_resolver::errors::NetworkBufferError;
use dns_resolver::packets::{
    Message, PacketType, Question, QuestionClass, ResourceRecord, ResourceRecordClass,
    ResourceRecordData, ResourceRecordType, ResponseCode, SOARecord,
};

#[test]
fn test_decode_single_domain() {
    let mut coder = MessageCoder::new();
    let mut buf = NetworkBuffer::new();

    let domain_bytes: [u8; 7] = [0x05, b'h', b'e', b'l', b'l', b'o', 0x00];

    buf.put_bytes(&domain_bytes).unwrap();

    let domain = coder.decode_name(&mut buf).unwrap();

    // A . is prepended so include here
    assert_eq!(domain, String::from(".hello"));
}

#[test]
fn test_decode_domain() {
    let mut coder = MessageCoder::new();
    let mut buf = NetworkBuffer::new();

    let domain_bytes: [u8; 11] = [
        0x05, b'h', b'e', b'l', b'l', b'o', 0x03, b'c', b'o', b'm', 0x00,
    ];

    buf.put_bytes(&domain_bytes).unwrap();

    let domain = coder.decode_name(&mut buf).unwrap();

    assert_eq!(domain, String::from(".hello.com"));
}

#[test]
fn test_decode_label() {
    let mut coder = MessageCoder::new();
    let mut buf = NetworkBuffer::new();

    let domain_bytes: [u8; 5] = [b'h', b'e', b'l', b'l', b'o'];

    buf.put_bytes(&domain_bytes).unwrap();

    let domain = coder.decode_label(5, &mut buf).unwrap();

    assert_eq!(domain, String::from("hello"));
}

#[test]
fn test_decode_header() {
    let mut coder = MessageCoder::new();
    let mut buf = NetworkBuffer::new();

    let header_bytes: [u8; 12] = [112, 181, 151, 132, 0, 0, 0, 0, 0, 0, 0, 0];

    buf.put_bytes(&header_bytes).unwrap();

    let message = coder.decode_message(&mut buf).unwrap();

    assert_eq!(message.id, 28853);
    assert_eq!(message.op_code, 0x02);
    assert!(matches!(message.packet_type, PacketType::Response));

    assert!(message.authoritative_answer);
    assert!(message.truncation);
    assert!(message.recursion_desired);
    assert!(message.recursion_available);
    assert!(matches!(
        message.response_code,
        ResponseCode::NotImplemented
    ));
}

#[test]
fn test_encode_frame() {
    let mut coder = MessageCoder::new();
    let mut buf = NetworkBuffer::new();

    let message = Message {
        id: 28853,
        op_code: 0x02,
        packet_type: PacketType::Response,
        authoritative_answer: true,
        truncation: true,
        recursion_desired: true,
        recursion_available: true,
        response_code: ResponseCode::NotImplemented,
        questions: vec![],
        answers: vec![],
        additional_records: vec![],
        authorities: vec![],
    };

    coder.encode_message(&message, &mut buf).unwrap();

    let expected_bytes: [u8; 12] = [112, 181, 151, 132, 0, 0, 0, 0, 0, 0, 0, 0];

    assert_eq!(expected_bytes, buf.buf[..12]);
}

#[test]
fn test_decode_question() {
    let mut coder = MessageCoder::new();
    let mut buf = NetworkBuffer::new();

    let question_bytes: [u8; 20] = [
        3, 119, 119, 119, 6, 103, 111, 111, 103, 108, 101, 3, 99, 111, 109, 0, 0, 1, 0, 1,
    ];

    buf.put_bytes(&question_bytes).unwrap();

    let question = coder.decode_question(&mut buf).unwrap();

    assert_eq!(question.domain, String::from(".www.google.com"));
    assert!(matches!(
        question.question_type,
        ResourceRecordType::ARecord
    ));

    assert!(matches!(question.class, QuestionClass::InternetAddress))
}

#[test]
fn test_decode_resource_record() {
    let mut coder = MessageCoder::new();
    let mut buf = NetworkBuffer::new();

    let resource_record_bytes: [u8; 30] = [
        3, 119, 119, 119, 6, 103, 111, 111, 103, 108, 101, 3, 99, 111, 109, 0, 0, 1, 0, 1, 0, 0,
        0, 255, 0, 4, 8, 8, 8, 8,
    ];

    buf.put_bytes(&resource_record_bytes).unwrap();

    let resource_record = coder.decode_resource_record(&mut buf).unwrap();

    assert_eq!(resource_record.domain, String::from(".www.google.com"));
    assert!(matches!(
        resource_record.record_type,
        ResourceRecordType::ARecord
    ));

    assert!(matches!(
        resource_record.class,
        ResourceRecordClass::InternetAddress
    ));

    assert_eq!(resource_record.time_to_live, 255);
    match resource_record.data {
        ResourceRecordData::A(value) => assert_eq!(value, 0x08080808),
        _ => panic!("Bad resource record"),
    }
}

#[test]
#[allow(non_snake_case)]
fn test_decode_resource_record_AAARecord() {
    let mut coder = MessageCoder::new();
    let mut buf = NetworkBuffer::new();

    let resource_record_bytes: [u8; 42] = [
        3, 119, 119, 119, 6, 103, 111, 111, 103, 108, 101, 3, 99, 111, 109, 0, 0, 28, 0, 1, 0, 0,
        0, 255, 0, 16, 8, 8, 8, 8, 8, 8, 8, 8, 8, 8, 8, 8, 8, 8, 8, 8,
    ];

    buf.put_bytes(&resource_record_bytes).unwrap();

    let resource_record = coder.decode_resource_record(&mut buf).unwrap();

    assert_eq!(resource_record.domain, String::from(".www.google.com"));
    assert!(matches!(
        resource_record.record_type,
        ResourceRecordType::AAAARecord
    ));

    assert!(matches!(
        resource_record.class,
        ResourceRecordClass::InternetAddress
    ));

    assert_eq!(resource_record.time_to_live, 255);
    match resource_record.data {
        ResourceRecordData::AAAA(value) => {
            assert_eq!(value, 0x08080808080808080808080808080808)
        }
        _ => panic!("Bad resource record"),
    }
}

#[test]
#[allow(non_snake_case)]
fn test_decode_resource_record_CNAME() {
    let mut coder = MessageCoder::new();
    let mut buf = NetworkBuffer::new();

    let resource_record_bytes = [
        3, 119, 119, 119, 6, 103, 111, 111, 103, 108, 101, 3, 99, 111, 109, 0, 0, 5, 0, 1, 0, 0,
        0, 255, 0, 15, 3, 119, 119, 119, 6, 103, 111, 111, 103, 108, 101, 3, 99, 111, 109,
    ];

    buf.put_bytes(&resource_record_bytes).unwrap();

    let resource_record = coder.decode_resource_record(&mut buf).unwrap();

    assert_eq!(resource_record.domain, String::from(".www.google.com"));
    assert!(matches!(
        resource_record.record_type,
        ResourceRecordType::CNameRecord
    ));

    assert!(matches!(
        resource_record.class,
        ResourceRecordClass::InternetAddress
    ));

    assert_eq!(resource_record.time_to_live, 255);
    match resource_record.data {
        ResourceRecordData::CName(value) => assert_eq!(value, ".www.google.com"),
        _ => panic!("Bad resource record"),
    }
}

#[test]
fn test_decode_pointer_domain() {
    let mut coder = MessageCoder::new();
    let mut buf = NetworkBuffer::new();

    let pointer_domain_bytes: [u8; 18] = [
        3, 119, 119, 119, 6, 103, 111, 111, 103, 108, 101, 3, 99, 111, 109, 0, 192, 0,
    ];

    buf.put_bytes(&pointer_domain_bytes).unwrap();

    let original = coder.decode_name(&mut buf).unwrap();

    assert_eq!(original, String::from(".www.google.com"));

    let pointer = coder.decode_name(&mut buf).unwrap();

    assert_eq!(original, pointer);
}

#[test]
fn test_decode_double_pointer_cname_request() {
    let mut buf = NetworkBuffer::new();

    buf.put_bytes(&[
        5, 100, 128, 128, 0, 1, 0, 2, 0, 0, 0, 0, 3, 119, 119, 119, 8, 102, 97, 99, 101, 98, 111,
        111, 107, 3, 99, 111, 109, 0, 0, 1, 0, 1, 192, 12, 0, 5, 0, 1, 0, 0, 9, 125, 0, 17, 9,
        115, 116, 97, 114, 45, 109, 105, 110, 105, 4, 99, 49, 48, 114, 192, 16, 192, 46, 0, 1, 0,
        1, 0, 0, 0, 14, 0, 4, 157, 240, 18, 35, 0,
    ])
    .unwrap();

    let mut coder = MessageCoder::new();

    let message = coder.decode_message(&mut buf).unwrap();

    assert!(message.answers.len() > 0);
    assert_eq!(message.answers[0].domain, ".www.facebook.com");
    assert_eq!(
        message.answers[0].record_type,
        ResourceRecordType::CNameRecord
    );
    assert_eq!(
        message.answers[0].data,
        ResourceRecordData::CName(".star-mini.c10r.facebook.com".to_string()),
    );
}

#[test]
fn test_single_question_decode() {
    // A whole datagram: header, then one question for www.google.com A/IN.
    let mut buf = NetworkBuffer::new();
    buf.put_bytes(&[0x70, 0xb5, 0x97, 0x84, 0x00, 0x01, 0x00, 0x00, 0x00, 0x00, 0x00, 0x00])
        .unwrap();
    buf.put_bytes(&[
        0x03, 0x77, 0x77, 0x77, 0x06, 0x67, 0x6f, 0x6f, 0x67, 0x6c, 0x65, 0x03, 0x63, 0x6f, 0x6d,
        0x00, 0x00, 0x01, 0x00, 0x01,
    ])
    .unwrap();

    let mut coder = MessageCoder::new();
    let message = coder.decode_message(&mut buf).unwrap();

    assert_eq!(message.id, 28853);
    assert_eq!(message.op_code, 2);
    assert!(matches!(message.packet_type, PacketType::Response));
    assert!(message.authoritative_answer);
    assert!(message.truncation);
    assert!(message.recursion_desired);
    assert!(message.recursion_available);
    assert!(matches!(
        message.response_code,
        ResponseCode::NotImplemented
    ));
    assert_eq!(message.questions.len(), 1);
    assert_eq!(message.questions[0].domain, ".www.google.com");
    assert_eq!(
        message.questions[0].question_type,
        ResourceRecordType::ARecord
    );
    assert!(matches!(
        message.questions[0].class,
        QuestionClass::InternetAddress
    ));
}

fn a_record(domain: &str, address: u32) -> ResourceRecord {
    ResourceRecord {
        domain: domain.to_string(),
        record_type: ResourceRecordType::ARecord,
        class: ResourceRecordClass::InternetAddress,
        time_to_live: 300,
        data: ResourceRecordData::A(address),
    }
}

#[test]
fn test_compression_round_trip() {
    // Two answers under the same name: the second occurrence must be a
    // two-octet pointer back to the first, and both decode to equal names.
    let message = Message {
        id: 7,
        packet_type: PacketType::Response,
        op_code: 0,
        authoritative_answer: false,
        truncation: false,
        recursion_desired: false,
        recursion_available: false,
        response_code: ResponseCode::NoError,
        questions: vec![],
        answers: vec![
            a_record("www.example.com", 0x01010101),
            a_record("www.example.com", 0x02020202),
        ],
        authorities: vec![],
        additional_records: vec![],
    };

    let mut coder = MessageCoder::new();
    let mut buf = NetworkBuffer::new();
    coder.encode_message(&message, &mut buf).unwrap();

    // header 12, first name 17 octets, then type/class/ttl/rdlength/rdata 14:
    // the second answer's name starts at offset 43 as a pointer to offset 12
    assert_eq!(buf.buf[43], 0xC0);
    assert_eq!(buf.buf[44], 0x0C);

    let mut decoder = MessageCoder::new();
    buf.read_cursor = 0;
    let decoded = decoder.decode_message(&mut buf).unwrap();

    assert_eq!(decoded.answers.len(), 2);
    assert_eq!(decoded.answers[0].domain, decoded.answers[1].domain);
    assert_eq!(decoded.answers[0].domain, ".www.example.com");
}

#[test]
fn test_encode_decode_message_round_trip() {
    // Every record type the codec carries, all names distinct: the decoded
    // message matches the original field for field.
    let message = Message {
        id: 4242,
        packet_type: PacketType::Response,
        op_code: 0,
        authoritative_answer: true,
        truncation: false,
        recursion_desired: true,
        recursion_available: true,
        response_code: ResponseCode::NoError,
        questions: vec![Question {
            domain: "www.example.org".to_string(),
            question_type: ResourceRecordType::ARecord,
            class: QuestionClass::InternetAddress,
        }],
        answers: vec![
            a_record("a.example.org", 0x7F000001),
            ResourceRecord {
                domain: "b.example.org".to_string(),
                record_type: ResourceRecordType::CNameRecord,
                class: ResourceRecordClass::InternetAddress,
                time_to_live: 60,
                data: ResourceRecordData::CName("c.example.net".to_string()),
            },
        ],
        authorities: vec![ResourceRecord {
            domain: "d.example.org".to_string(),
            record_type: ResourceRecordType::SOARecord,
            class: ResourceRecordClass::InternetAddress,
            time_to_live: 120,
            data: ResourceRecordData::SOA(SOARecord {
                master_name: "ns1.example.org".to_string(),
                mail_name: "mail.example.org".to_string(),
                serial: 11,
                refresh: 22,
                retry: 33,
                expire: 44,
                minimum: 55,
            }),
        }],
        additional_records: vec![
            ResourceRecord {
                domain: "e.example.org".to_string(),
                record_type: ResourceRecordType::MXRecord,
                class: ResourceRecordClass::InternetAddress,
                time_to_live: 90,
                data: ResourceRecordData::MX(10, "mx.example.net".to_string()),
            },
            ResourceRecord {
                domain: "f.example.org".to_string(),
                record_type: ResourceRecordType::TXTRecord,
                class: ResourceRecordClass::InternetAddress,
                time_to_live: 30,
                data: ResourceRecordData::TXT("hello world".to_string()),
            },
            ResourceRecord {
                domain: "g.example.org".to_string(),
                record_type: ResourceRecordType::AAAARecord,
                class: ResourceRecordClass::InternetAddress,
                time_to_live: 15,
                data: ResourceRecordData::AAAA(0x20010DB8000000000000000000000001),
            },
            ResourceRecord {
                domain: "h.example.org".to_string(),
                record_type: ResourceRecordType::NSRecord,
                class: ResourceRecordClass::InternetAddress,
                time_to_live: 45,
                data: ResourceRecordData::NS("ns2.example.net".to_string()),
            },
        ],
    };

    let mut coder = MessageCoder::new();
    let mut buf = NetworkBuffer::new();
    coder.encode_message(&message, &mut buf).unwrap();

    buf.read_cursor = 0;
    let mut decoder = MessageCoder::new();
    let decoded = decoder.decode_message(&mut buf).unwrap();

    assert_eq!(decoded.id, message.id);
    assert_eq!(decoded.op_code, message.op_code);
    assert_eq!(decoded.authoritative_answer, message.authoritative_answer);
    assert_eq!(decoded.recursion_desired, message.recursion_desired);
    assert_eq!(decoded.recursion_available, message.recursion_available);
    assert_eq!(decoded.questions.len(), 1);
    assert_eq!(decoded.questions[0].domain, ".www.example.org");
    assert_eq!(decoded.answers.len(), 2);
    assert_eq!(decoded.answers[0].domain, ".a.example.org");
    assert_eq!(decoded.answers[0].data, ResourceRecordData::A(0x7F000001));
    assert_eq!(
        decoded.answers[1].data,
        ResourceRecordData::CName(".c.example.net".to_string())
    );
    assert_eq!(decoded.authorities.len(), 1);
    match &decoded.authorities[0].data {
        ResourceRecordData::SOA(soa) => {
            assert_eq!(soa.master_name, ".ns1.example.org");
            assert_eq!(soa.mail_name, ".mail.example.org");
            assert_eq!(soa.serial, 11);
            assert_eq!(soa.minimum, 55);
        }
        _ => panic!("Bad authority record"),
    }
    assert_eq!(decoded.additional_records.len(), 4);
    assert_eq!(
        decoded.additional_records[0].data,
        ResourceRecordData::MX(10, ".mx.example.net".to_string())
    );
    assert_eq!(
        decoded.additional_records[1].data,
        ResourceRecordData::TXT("hello world".to_string())
    );
    assert_eq!(
        decoded.additional_records[2].data,
        ResourceRecordData::AAAA(0x20010DB8000000000000000000000001)
    );
    assert_eq!(
        decoded.additional_records[3].data,
        ResourceRecordData::NS(".ns2.example.net".to_string())
    );
}

#[test]
fn test_encode_label_too_long() {
    let mut coder = MessageCoder::new();
    let mut buf = NetworkBuffer::new();
    let label = "x".repeat(64);

    let result = coder.encode_label(&label, &mut buf);
    assert!(matches!(
        result,
        Err(NetworkBufferError::InvalidLabelLengthError(_))
    ));
}

#[test]
fn test_encode_name_too_long() {
    let mut coder = MessageCoder::new();
    let mut buf = NetworkBuffer::new();
    let name = "abc.".repeat(70);

    let result = coder.encode_name(&name, &mut buf);
    assert!(matches!(
        result,
        Err(NetworkBufferError::InvalidNameLengthError(_))
    ));
}

#[test]
fn test_second_occurrence_is_two_octets() {
    let mut coder = MessageCoder::new();
    let mut buf = NetworkBuffer::new();

    let first = coder.encode_name("www.example.com", &mut buf).unwrap();
    let second = coder.encode_name("www.example.com", &mut buf).unwrap();

    assert_eq!(first, 17);
    assert_eq!(second, 2);
    assert_eq!(buf.buf[17], 0xC0);
    assert_eq!(buf.buf[18], 0x00);
}

#[test]
fn test_pointer_to_own_offset_is_rejected() {
    // A name whose pointer targets its own offset: no offset has been
    // decoded yet, so this fails cleanly instead of looping.
    let mut coder = MessageCoder::new();
    let mut buf = NetworkBuffer::new();
    buf.put_bytes(&[0xC0, 0x00]).unwrap();
    buf.read_cursor = 0;

    let result = coder.decode_name(&mut buf);
    assert!(matches!(result, Err(NetworkBufferError::CompressionError)));
}

#[test]
fn test_unknown_rcode_is_invalid_packet() {
    let mut buf = NetworkBuffer::new();
    buf.put_bytes(&[0, 1, 0, 0x0F, 0, 0, 0, 0, 0, 0, 0, 0]).unwrap();

    let mut coder = MessageCoder::new();
    let result = coder.decode_message(&mut buf);
    assert!(matches!(result, Err(NetworkBufferError::InvalidPacket)));
}

#[test]
fn test_unknown_record_type_is_invalid_packet() {
    // A PTR record: the type decodes, but its payload is not carried.
    let mut buf = NetworkBuffer::new();
    buf.put_bytes(&[
        3, b'f', b'o', b'o', 0, 0, 0x0C, 0, 1, 0, 0, 0, 60, 0, 4, 1, 2, 3, 4,
    ])
    .unwrap();

    let mut coder = MessageCoder::new();
    let result = coder.decode_resource_record(&mut buf);
    assert!(matches!(result, Err(NetworkBufferError::InvalidPacket)));
}

#[test]
fn test_decode_label_too_long_is_rejected() {
    // 0x45 is neither a pointer nor a legal label length.
    let mut buf = NetworkBuffer::new();
    buf.put_bytes(&[0x45, b'a', 0x00]).unwrap();
    buf.read_cursor = 0;

    let mut coder = MessageCoder::new();
    let result = coder.decode_name(&mut buf);
    assert!(matches!(
        result,
        Err(NetworkBufferError::InvalidLabelLengthError(_))
    ));
}

#[test]
fn test_buffer_empty_on_truncated_message() {
    let mut buf = NetworkBuffer::new();
    buf.read_cursor = 511;

    let mut coder = MessageCoder::new();
    let result = coder.decode_message(&mut buf);
    assert!(matches!(result, Err(NetworkBufferError::BufferEmptyError)));
}

#[test]
fn test_txt_record_round_trip() {
    let mut coder = MessageCoder::new();
    let mut buf = NetworkBuffer::new();
    let record = ResourceRecord {
        domain: "txt.example.org".to_string(),
        record_type: ResourceRecordType::TXTRecord,
        class: ResourceRecordClass::InternetAddress,
        time_to_live: 5,
        data: ResourceRecordData::TXT("v=spf1 -all".to_string()),
    };

    coder.encode_resource_record(&record, &mut buf).unwrap();
    buf.read_cursor = 0;

    let mut decoder = MessageCoder::new();
    let decoded = decoder.decode_resource_record(&mut buf).unwrap();
    assert_eq!(
        decoded.data,
        ResourceRecordData::TXT("v=spf1 -all".to_string())
    );
}

#[test]
fn test_ptr_question_round_trip() {
    // PTR is a supported question type on the wire: code 12 both ways.
    let mut coder = MessageCoder::new();
    let mut buf = NetworkBuffer::new();
    let question = Question {
        domain: "4.3.2.1.in-addr.arpa".to_string(),
        question_type: ResourceRecordType::PTRRecord,
        class: QuestionClass::InternetAddress,
    };
    coder.encode_question(&question, &mut buf).unwrap();

    buf.read_cursor = 0;
    let mut decoder = MessageCoder::new();
    let decoded = decoder.decode_question(&mut buf).unwrap();
    assert_eq!(decoded.question_type, ResourceRecordType::PTRRecord);
    assert_eq!(decoded.domain, ".4.3.2.1.in-addr.arpa");
}

#[test]
fn test_encode_question_rejects_unimplemented_type() {
    let mut coder = MessageCoder::new();
    let mut buf = NetworkBuffer::new();
    let question = Question {
        domain: "q.example.".to_string(),
        question_type: ResourceRecordType::Unimplemented,
        class: QuestionClass::InternetAddress,
    };
    let result = coder.encode_question(&question, &mut buf);
    assert!(matches!(result, Err(NetworkBufferError::InvalidPacket)));
}

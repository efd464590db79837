use dns_resolver::cache::HashCache;
use dns_resolver::errors::RecurseError;
use dns_resolver::messages::Request;
use dns_resolver::packets::{
    Message, PacketType, Question, QuestionClass, ResourceRecord, ResourceRecordClass,
    ResourceRecordData, ResourceRecordType, ResponseCode,
};
use dns_resolver::resolver::{
    build_query_message, unix_now, BaseHandler, HandleOutcome, Pending, ResolveAction,
    ResolveOutcome, ResolveState, ROOT_SERVER_IP,
};

fn record(domain: &str, ttl: u32, data: ResourceRecordData) -> ResourceRecord {
    ResourceRecord {
        domain: domain.to_string(),
        record_type: match &data {
            ResourceRecordData::A(_) => ResourceRecordType::ARecord,
            ResourceRecordData::NS(_) => ResourceRecordType::NSRecord,
            _ => ResourceRecordType::ARecord,
        },
        class: ResourceRecordClass::InternetAddress,
        time_to_live: ttl,
        data,
    }
}

fn response_with(
    answers: Vec<ResourceRecord>,
    authorities: Vec<ResourceRecord>,
    additional: Vec<ResourceRecord>,
) -> Message {
    Message {
        id: 1,
        packet_type: PacketType::Response,
        op_code: 0,
        authoritative_answer: false,
        truncation: false,
        recursion_desired: false,
        recursion_available: true,
        response_code: ResponseCode::NoError,
        questions: vec![],
        answers,
        authorities,
        additional_records: additional,
    }
}

#[test]
fn test_cache_expiry() {
    // Put a record with ttl 1: visible at t, visible at t+1, gone at t+2.
    let mut cache = HashCache::new();
    let t0: i64 = 1_000_000;
    let records = vec![record("a.example.", 1, ResourceRecordData::A(0x01020304))];
    cache.put_resource_records(&records, t0);

    let hit = cache.get(ResourceRecordType::ARecord, "a.example.", t0);
    assert!(hit.is_some());
    assert_eq!(hit.unwrap()[0].data, ResourceRecordData::A(0x01020304));

    let boundary = cache.get(ResourceRecordType::ARecord, "a.example.", t0 + 1);
    assert!(boundary.is_some());

    let expired = cache.get(ResourceRecordType::ARecord, "a.example.", t0 + 2);
    assert!(expired.is_none());
}

#[test]
fn test_cache_returns_original_ttl() {
    let mut cache = HashCache::new();
    let t0: i64 = 500;
    let records = vec![record("b.example.", 60, ResourceRecordData::A(9))];
    cache.put_resource_records(&records, t0);

    // Thirty seconds later, the record still carries its original ttl.
    let hit = cache.get(ResourceRecordType::ARecord, "b.example.", t0 + 30).unwrap();
    assert_eq!(hit[0].time_to_live, 60);
}

#[test]
fn test_cache_suppresses_duplicate_data() {
    let mut cache = HashCache::new();
    let t0: i64 = 0;
    let records = vec![
        record("c.example.", 60, ResourceRecordData::A(1)),
        record("c.example.", 60, ResourceRecordData::A(1)),
        record("c.example.", 60, ResourceRecordData::A(2)),
    ];
    cache.put_resource_records(&records, t0);

    let hit = cache.get(ResourceRecordType::ARecord, "c.example.", t0).unwrap();
    assert_eq!(hit.len(), 2);
    assert_eq!(hit[0].data, ResourceRecordData::A(1));
    assert_eq!(hit[1].data, ResourceRecordData::A(2));
}

#[test]
fn test_cache_keys_by_name_and_type() {
    let mut cache = HashCache::new();
    let t0: i64 = 0;
    let records = vec![record("d.example.", 60, ResourceRecordData::A(7))];
    cache.put_resource_records(&records, t0);

    assert!(cache.get(ResourceRecordType::NSRecord, "d.example.", t0).is_none());
    assert!(cache.get(ResourceRecordType::ARecord, "other.example.", t0).is_none());
    assert!(cache.get(ResourceRecordType::ARecord, "d.example.", t0).is_some());
}

#[test]
fn test_build_query_message() {
    let message = build_query_message("host.example.com.", ResourceRecordType::NSRecord);
    assert!(matches!(message.packet_type, PacketType::Query));
    assert!(message.recursion_desired);
    assert_eq!(message.questions.len(), 1);
    assert_eq!(message.questions[0].domain, "host.example.com.");
    assert_eq!(
        message.questions[0].question_type,
        ResourceRecordType::NSRecord
    );
    assert!(message.answers.is_empty());
}

#[test]
fn test_unix_now_is_after_epoch() {
    assert!(unix_now() > 0);
}

#[test]
fn test_iterative_resolve_with_mock_upstream() {
    // A mock upstream hands out NS+glue for "com.", then NS+glue for
    // "example.com.", then the final A answer. The resolver must follow the
    // chain and leave every intermediate record in the cache.
    let mut cache = HashCache::new();
    let now = 10_000;
    let mut state = ResolveState::start("example.com.", ResourceRecordType::ARecord);

    // Hop one: the root is asked for the NS set of "com.".
    let action = state.advance(&cache, now);
    let (ip, domain, qtype) = match action {
        ResolveAction::SendQuery { ip, domain, qtype } => (ip, domain, qtype),
    };
    assert_eq!(ip, ROOT_SERVER_IP);
    assert_eq!(domain, "com.");
    assert_eq!(qtype, ResourceRecordType::NSRecord);

    let com_referral = response_with(
        vec![],
        vec![record(
            "com.",
            600,
            ResourceRecordData::NS("ns.com.".to_string()),
        )],
        vec![record("ns.com.", 600, ResourceRecordData::A(0x01020304))],
    );
    let outcome = state.handle_response(&com_referral, &mut cache, now).unwrap();
    assert!(matches!(outcome, ResolveOutcome::Continue));

    // Hop two: the com server is asked for the NS set of "example.com.".
    let action = state.advance(&cache, now);
    let (ip, domain, qtype) = match action {
        ResolveAction::SendQuery { ip, domain, qtype } => (ip, domain, qtype),
    };
    assert_eq!(ip, 0x01020304);
    assert_eq!(domain, "example.com.");
    assert_eq!(qtype, ResourceRecordType::NSRecord);

    let example_referral = response_with(
        vec![],
        vec![record(
            "example.com.",
            600,
            ResourceRecordData::NS("ns.example.com.".to_string()),
        )],
        vec![record(
            "ns.example.com.",
            600,
            ResourceRecordData::A(0x05060708),
        )],
    );
    let outcome = state
        .handle_response(&example_referral, &mut cache, now)
        .unwrap();
    assert!(matches!(outcome, ResolveOutcome::Continue));

    // Final hop: the authoritative server gets the original question.
    let action = state.advance(&cache, now);
    let (ip, domain, qtype) = match action {
        ResolveAction::SendQuery { ip, domain, qtype } => (ip, domain, qtype),
    };
    assert_eq!(ip, 0x05060708);
    assert_eq!(domain, "example.com.");
    assert_eq!(qtype, ResourceRecordType::ARecord);

    let answer = response_with(
        vec![record(
            "example.com.",
            300,
            ResourceRecordData::A(0x5DB8D822),
        )],
        vec![],
        vec![],
    );
    let outcome = state.handle_response(&answer, &mut cache, now).unwrap();
    assert!(matches!(outcome, ResolveOutcome::Finished));

    // Everything learnt on the way down is in the cache.
    assert!(cache.get(ResourceRecordType::NSRecord, "com.", now).is_some());
    assert!(cache.get(ResourceRecordType::ARecord, "ns.com.", now).is_some());
    assert!(cache
        .get(ResourceRecordType::NSRecord, "example.com.", now)
        .is_some());
    assert!(cache
        .get(ResourceRecordType::ARecord, "ns.example.com.", now)
        .is_some());
}

#[test]
fn test_resolve_referral_without_ns_fails() {
    let mut cache = HashCache::new();
    let now = 0;
    let mut state = ResolveState::start("example.com.", ResourceRecordType::ARecord);
    let _ = state.advance(&cache, now);

    let empty = response_with(vec![], vec![], vec![]);
    let outcome = state.handle_response(&empty, &mut cache, now);
    assert!(matches!(outcome, Err(RecurseError::NoNameServerError)));
}

#[test]
fn test_resolve_follow_up_for_missing_glue() {
    let mut cache = HashCache::new();
    let now = 0;
    let mut state = ResolveState::start("example.com.", ResourceRecordType::ARecord);
    let _ = state.advance(&cache, now);

    // A referral that names a server but carries no address for it.
    let referral = response_with(
        vec![],
        vec![record(
            "com.",
            600,
            ResourceRecordData::NS("ns.com.".to_string()),
        )],
        vec![],
    );
    let outcome = state.handle_response(&referral, &mut cache, now).unwrap();
    match outcome {
        ResolveOutcome::FollowUp { ip, domain, qtype } => {
            assert_eq!(ip, ROOT_SERVER_IP);
            assert_eq!(domain, "ns.com.");
            assert_eq!(qtype, ResourceRecordType::ARecord);
        }
        _ => panic!("Bad outcome"),
    }
    assert!(matches!(state.pending, Pending::AwaitGlue { .. }));

    // The follow-up answer with no A record fails the walk.
    let no_a = response_with(vec![], vec![], vec![]);
    let outcome = state.handle_response(&no_a, &mut cache, now);
    assert!(matches!(outcome, Err(RecurseError::NoARecordError)));
}

#[test]
fn test_get_record_searches_sections_in_order() {
    let message = response_with(
        vec![record("x.example.", 1, ResourceRecordData::A(1))],
        vec![record(
            "x.example.",
            1,
            ResourceRecordData::NS("ns.example.".to_string()),
        )],
        vec![record("y.example.", 1, ResourceRecordData::A(2))],
    );

    let hit = message
        .get_record(&ResourceRecordType::ARecord, "y.example.")
        .unwrap();
    assert_eq!(hit.data, ResourceRecordData::A(2));

    let ns = message
        .get_record(&ResourceRecordType::NSRecord, "x.example.")
        .unwrap();
    assert_eq!(
        ns.data,
        ResourceRecordData::NS("ns.example.".to_string())
    );

    assert!(message
        .get_record(&ResourceRecordType::ARecord, "missing.example.")
        .is_none());
}

#[test]
fn test_request_response_skeleton() {
    let mut query = build_query_message(".www.example.com", ResourceRecordType::ARecord);
    query.id = 99;
    let request = Request::new(query);
    assert_eq!(request.id(), 99);
    assert!(request.recursion_desired());

    let response = request.response();
    assert_eq!(response.message().id, 99);
    assert!(matches!(response.message().packet_type, PacketType::Response));
    assert!(response.message().recursion_available);
    assert!(matches!(
        response.message().response_code,
        ResponseCode::NoError
    ));
    assert_eq!(response.message().questions.len(), 1);
    assert!(response.message().answers.is_empty());
}

#[test]
fn test_handler_answers_from_cache() {
    let mut handler = BaseHandler::new();
    let now = 50;
    let records = vec![record(
        ".www.example.com",
        60,
        ResourceRecordData::A(0x0A000001),
    )];
    handler.cache.put_resource_records(&records, now);

    let mut query = build_query_message(".www.example.com", ResourceRecordType::ARecord);
    query.id = 7;
    let request = Request::new(query);
    let response = request.response();

    match handler.handle(&request, response, now) {
        HandleOutcome::Respond(resp) => {
            assert_eq!(resp.message().answers.len(), 1);
            assert_eq!(
                resp.message().answers[0].data,
                ResourceRecordData::A(0x0A000001)
            );
        }
        _ => panic!("Bad outcome"),
    }
}

#[test]
fn test_handler_requests_recursion_on_miss() {
    let handler = BaseHandler::new();
    let now = 50;
    let mut query = build_query_message(".www.example.com", ResourceRecordType::ARecord);
    query.id = 8;
    let request = Request::new(query);
    let response = request.response();

    match handler.handle(&request, response, now) {
        HandleOutcome::Resolve { domain, qtype, .. } => {
            assert_eq!(domain, ".www.example.com");
            assert_eq!(qtype, ResourceRecordType::ARecord);
        }
        _ => panic!("Bad outcome"),
    }
}

#[test]
fn test_handler_no_question_is_answered_empty() {
    let handler = BaseHandler::new();
    let message = response_with(vec![], vec![], vec![]);
    let request = Request::new(message);
    let response = request.response();

    match handler.handle(&request, response, 0) {
        HandleOutcome::Respond(resp) => assert!(resp.message().answers.is_empty()),
        _ => panic!("Bad outcome"),
    }
}

#[test]
fn test_set_code_marks_response() {
    let message = response_with(vec![], vec![], vec![]);
    let request = Request::new(message);
    let mut response = request.response();
    response.set_code(ResponseCode::ServerError);
    assert!(matches!(
        response.message().response_code,
        ResponseCode::ServerError
    ));
}

#[test]
fn test_question_class_rejected_on_unknown_wire_value() {
    // QCLASS other than Internet decodes to Unimplemented.
    let mut buf = dns_resolver::buffer::NetworkBuffer::new();
    buf.put_bytes(&[3, b'f', b'o', b'o', 0, 0, 1, 0, 9]).unwrap();
    let mut coder = dns_resolver::coding::MessageCoder::new();
    let question = coder.decode_question(&mut buf).unwrap();
    assert!(matches!(question.class, QuestionClass::Unimplemented));
}

#[test]
fn test_build_query_then_add_answer() {
    let skeleton = response_with(vec![], vec![], vec![]);
    let mut message = skeleton.build_query(77);
    assert_eq!(message.id, 77);
    assert!(matches!(message.packet_type, PacketType::Query));

    message.add_question(&Question {
        domain: "q.example.".to_string(),
        question_type: ResourceRecordType::ARecord,
        class: QuestionClass::InternetAddress,
    });
    message.add_answer(&record("q.example.", 1, ResourceRecordData::A(5)));
    assert_eq!(message.questions.len(), 1);
    assert_eq!(message.answers.len(), 1);

    let reply = message.build_response();
    assert_eq!(reply.id, 77);
    assert!(matches!(reply.packet_type, PacketType::Response));
    assert!(reply.answers.is_empty());
}

#[test]
fn test_encode_question_rejects_unimplemented_class() {
    let mut coder = dns_resolver::coding::MessageCoder::new();
    let mut buf = dns_resolver::buffer::NetworkBuffer::new();
    let question = Question {
        domain: "q.example.".to_string(),
        question_type: ResourceRecordType::ARecord,
        class: QuestionClass::Unimplemented,
    };
    let result = coder.encode_question(&question, &mut buf);
    assert!(matches!(
        result,
        Err(dns_resolver::errors::NetworkBufferError::InvalidPacket)
    ));
}

//! The codec's round-trip laws, proved over the wire-format model.
//!
//! The encoder's and decoder's contracts each relate the executable code to
//! the spec functions `wire_name` and `parse_labels`; the laws here close
//! the loop between those two models.

use vstd::prelude::*;

use crate::buffer::{be_u16, be_u32, read_be_u16, read_be_u32};
use crate::coding::{
    byte_chars, char_byte, bytes_chars, flag_byte1, flag_byte2, join_dots, label_bytes,
    labels_from, labels_wire, max_label_from, max_label_len, parse_labels, rcode_num, str_bytes,
    wire_name, wire_name_from, MAX_LABEL_LENGTH,
};
use crate::packets::{Message, PacketType, Question, ResourceRecordType};

verus! {

/// A big-endian sixteen-bit field reads back as the value written.
pub proof fn lemma_be_u16_round_trip(s: Seq<u8>, p: int, v: u16)
    requires
        0 <= p,
        p + 2 <= s.len(),
        s.subrange(p, p + 2) == be_u16(v),
    ensures
        read_be_u16(s, p) == v,
{
    assert(s[p] == be_u16(v)[0]);
    assert(s[p + 1] == be_u16(v)[1]);
    let hi = s[p];
    let lo = s[p + 1];
    assert(hi == ((v >> 8) & 0xff) as u8 && lo == (v & 0xff) as u8 ==> ((hi as u16) << 8 | lo as u16)
        == v) by (bit_vector);
}

/// A big-endian thirty-two-bit field reads back as the value written.
pub proof fn lemma_be_u32_round_trip(s: Seq<u8>, p: int, v: u32)
    requires
        0 <= p,
        p + 4 <= s.len(),
        s.subrange(p, p + 4) == be_u32(v),
    ensures
        read_be_u32(s, p) == v,
{
    assert(s[p] == be_u32(v)[0]);
    assert(s[p + 1] == be_u32(v)[1]);
    assert(s[p + 2] == be_u32(v)[2]);
    assert(s[p + 3] == be_u32(v)[3]);
    let b0 = s[p];
    let b1 = s[p + 1];
    let b2 = s[p + 2];
    let b3 = s[p + 3];
    assert(b0 == ((v >> 24) & 0xff) as u8 && b1 == ((v >> 16) & 0xff) as u8 && b2 == ((v >> 8)
        & 0xff) as u8 && b3 == (v & 0xff) as u8 ==> ((b0 as u32) << 24 | (b1 as u32) << 16 | (
    b2 as u32) << 8 | b3 as u32) == v) by (bit_vector);
}

/// The header flag octets decode back to the fields they encode, for any
/// message whose opcode fits its four-bit field.
pub proof fn lemma_flag_bytes_round_trip(m: &Message)
    requires
        m.op_code <= 0x0f,
    ensures
        (flag_byte1(m) & 0x80 == 0x80) == (m.packet_type is Response),
        (flag_byte1(m) >> 3) & 0x0f == m.op_code,
        ((flag_byte1(m) >> 2) & 0x01 == 1) == m.authoritative_answer,
        ((flag_byte1(m) >> 1) & 0x01 == 1) == m.truncation,
        (flag_byte1(m) & 0x01 == 1) == m.recursion_desired,
        ((flag_byte2(m) >> 7) & 0x01 == 1) == m.recursion_available,
        flag_byte2(m) & 0x0f == rcode_num(m.response_code),
{
    let q: u8 = match m.packet_type {
        PacketType::Query => 0x00,
        PacketType::Response => 0x80,
    };
    let op: u8 = m.op_code;
    let aa: u8 = if m.authoritative_answer {
        0x04
    } else {
        0x00
    };
    let tc: u8 = if m.truncation {
        0x02
    } else {
        0x00
    };
    let rd: u8 = if m.recursion_desired {
        0x01
    } else {
        0x00
    };
    assert((q == 0x00 || q == 0x80) && op <= 0x0f && (aa == 0x04 || aa == 0x00) && (tc == 0x02 || tc
        == 0x00) && (rd == 0x01 || rd == 0x00) ==> {
        let b = q | ((op & 0x0f) << 3) | aa | tc | rd;
        &&& (b & 0x80 == 0x80) == (q == 0x80)
        &&& (b >> 3) & 0x0f == op
        &&& ((b >> 2) & 0x01 == 1) == (aa == 0x04)
        &&& ((b >> 1) & 0x01 == 1) == (tc == 0x02)
        &&& (b & 0x01 == 1) == (rd == 0x01)
    }) by (bit_vector);
    let ra: u8 = if m.recursion_available {
        0x80
    } else {
        0x00
    };
    let code: u8 = rcode_num(m.response_code);
    assert((ra == 0x80 || ra == 0x00) && code <= 5 ==> {
        let b = ra | (code & 0x0f);
        &&& ((b >> 7) & 0x01 == 1) == (ra == 0x80)
        &&& b & 0x0f == code
    }) by (bit_vector);
}

/// A compression pointer's two octets point back to the offset they were
/// built from: the second and later occurrences of a name are two octets
/// that lead to its first occurrence.
pub proof fn lemma_pointer_round_trip(off: usize)
    requires
        off < 0x4000,
    ensures
        crate::coding::spec_pointer_target(
            crate::coding::pointer_bytes(off)[0],
            crate::coding::pointer_bytes(off)[1],
        ) == off,
        crate::coding::pointer_bytes(off)[0] >= 0xc0,
{
    let v: u16 = 0xc000u16 | off as u16;
    assert(off < 0x4000 ==> {
        let hi = ((0xc000u16 | (off as u16)) >> 8) & 0xff;
        let lo = (0xc000u16 | (off as u16)) & 0xff;
        &&& ((((0x3fu8 & (hi as u8)) as u16) << 8 | (lo as u8) as u16) as usize) == off
        &&& hi as u8 >= 0xc0
    }) by (bit_vector);
    assert(crate::coding::pointer_bytes(off)[0] == ((v >> 8) & 0xff) as u8);
    assert(crate::coding::pointer_bytes(off)[1] == (v & 0xff) as u8);
}

/// The compression law in one statement: wherever a later occurrence of a
/// name was written as a pointer to its first occurrence, the pointer's two
/// octets lead back to that offset, and the octets there parse to the very
/// labels of the name.
pub proof fn lemma_compressed_occurrence_round_trip(b: Seq<u8>, first_off: usize, s: Seq<char>)
    requires
        b.len() == 512,
        byte_chars(s),
        max_label_len(s) <= MAX_LABEL_LENGTH,
        first_off + wire_name(s).len() < b.len(),
        b.subrange(first_off as int, first_off + wire_name(s).len()) == wire_name(s),
    ensures
        crate::coding::spec_pointer_target(
            crate::coding::pointer_bytes(first_off)[0],
            crate::coding::pointer_bytes(first_off)[1],
        ) == first_off,
        parse_labels(b, first_off as int) is Some,
        parse_labels(b, first_off as int).unwrap().0 == labels_from(s, Seq::empty()),
{
    lemma_pointer_round_trip(first_off);
    lemma_wire_name_round_trip(b, first_off as int, s);
}

/// The twelve header octets decode back to the message they encode: every
/// field the message-level decoder reads out of them equals the field the
/// encoder wrote, for a message whose opcode and counts fit their fields.
pub proof fn lemma_wire_header_round_trip(b: Seq<u8>, p: int, m: &Message)
    requires
        0 <= p,
        p + 12 <= b.len(),
        m.op_code <= 0x0f,
        m.questions@.len() <= 0xffff,
        m.answers@.len() <= 0xffff,
        m.authorities@.len() <= 0xffff,
        m.additional_records@.len() <= 0xffff,
        b.subrange(p, p + 12) == crate::coding::wire_header(m),
    ensures
        read_be_u16(b, p) == m.id,
        (b[p + 2] & 0x80 == 0x80) == (m.packet_type is Response),
        (b[p + 2] >> 3) & 0x0f == m.op_code,
        ((b[p + 2] >> 2) & 0x01 == 1) == m.authoritative_answer,
        ((b[p + 2] >> 1) & 0x01 == 1) == m.truncation,
        (b[p + 2] & 0x01 == 1) == m.recursion_desired,
        ((b[p + 3] >> 7) & 0x01 == 1) == m.recursion_available,
        b[p + 3] & 0x0f == rcode_num(m.response_code),
        read_be_u16(b, p + 4) == m.questions@.len(),
        read_be_u16(b, p + 6) == m.answers@.len(),
        read_be_u16(b, p + 8) == m.authorities@.len(),
        read_be_u16(b, p + 10) == m.additional_records@.len(),
{
    let w = crate::coding::wire_header(m);
    assert forall|k: int| 0 <= k < 12 implies #[trigger] b[p + k] == w[k] by {
        assert(b.subrange(p, p + 12)[k] == b[p + k]);
    }
    assert(w[0] == be_u16(m.id)[0]);
    assert(w[1] == be_u16(m.id)[1]);
    assert(b.subrange(p, p + 2) =~= be_u16(m.id));
    lemma_be_u16_round_trip(b, p, m.id);
    assert(w[2] == flag_byte1(m));
    assert(w[3] == flag_byte2(m));
    lemma_flag_bytes_round_trip(m);
    assert(w[4] == be_u16(m.questions@.len() as u16)[0]);
    assert(w[5] == be_u16(m.questions@.len() as u16)[1]);
    assert(b.subrange(p + 4, p + 6) =~= be_u16(m.questions@.len() as u16));
    lemma_be_u16_round_trip(b, p + 4, m.questions@.len() as u16);
    assert(w[6] == be_u16(m.answers@.len() as u16)[0]);
    assert(w[7] == be_u16(m.answers@.len() as u16)[1]);
    assert(b.subrange(p + 6, p + 8) =~= be_u16(m.answers@.len() as u16));
    lemma_be_u16_round_trip(b, p + 6, m.answers@.len() as u16);
    assert(w[8] == be_u16(m.authorities@.len() as u16)[0]);
    assert(w[9] == be_u16(m.authorities@.len() as u16)[1]);
    assert(b.subrange(p + 8, p + 10) =~= be_u16(m.authorities@.len() as u16));
    lemma_be_u16_round_trip(b, p + 8, m.authorities@.len() as u16);
    assert(w[10] == be_u16(m.additional_records@.len() as u16)[0]);
    assert(w[11] == be_u16(m.additional_records@.len() as u16)[1]);
    assert(b.subrange(p + 10, p + 12) =~= be_u16(m.additional_records@.len() as u16));
    lemma_be_u16_round_trip(b, p + 10, m.additional_records@.len() as u16);
}

/// The wire type codes of the question encoder and decoder are inverse on
/// every type the question encoder can express.
pub proof fn lemma_qtype_codes_round_trip(t: ResourceRecordType)
    requires
        t is ARecord || t is AAAARecord || t is NSRecord || t is CNameRecord || t is MXRecord
            || t is SOARecord,
    ensures
        crate::coding::qtype_from_code(crate::coding::qtype_code(t)) == t,
{
}

/// The round-trip law for a whole question written with its name in full:
/// the octets of `wire_question` parse back to the question's labels, its
/// type code, and the Internet class.
pub proof fn lemma_wire_question_round_trip(b: Seq<u8>, p: int, q: &Question)
    requires
        b.len() == 512,
        byte_chars(q.domain@),
        max_label_len(q.domain@) <= MAX_LABEL_LENGTH,
        0 <= p,
        p + crate::coding::wire_question(q).len() < b.len(),
        b.subrange(p, p + crate::coding::wire_question(q).len()) == crate::coding::wire_question(
            q,
        ),
    ensures
        parse_labels(b, p) is Some,
        parse_labels(b, p).unwrap().0 == labels_from(q.domain@, Seq::empty()),
        parse_labels(b, p).unwrap().2 == p + wire_name(q.domain@).len(),
        read_be_u16(b, p + wire_name(q.domain@).len()) == crate::coding::qtype_code(
            q.question_type,
        ),
        read_be_u16(b, p + wire_name(q.domain@).len() + 2) == 1,
{
    let w = crate::coding::wire_question(q);
    let na = wire_name(q.domain@);
    assert forall|k: int| 0 <= k < w.len() implies #[trigger] b[p + k] == w[k] by {
        assert(b.subrange(p, p + w.len())[k] == b[p + k]);
    }
    assert(b.subrange(p, p + na.len()) =~= na) by {
        assert(forall|k: int|
            0 <= k < na.len() ==> #[trigger] b.subrange(p, p + na.len())[k] == b[p + k]);
        assert(forall|k: int| 0 <= k < na.len() ==> #[trigger] w[k] == na[k]);
    }
    lemma_wire_name_round_trip(b, p, q.domain@);
    let end = p + na.len();
    let tw = be_u16(crate::coding::qtype_code(q.question_type));
    assert(b.subrange(end, end + 2) =~= tw) by {
        assert(b[p + (na.len() + 0)] == w[na.len() as int + 0]);
        assert(b[p + (na.len() + 1)] == w[na.len() as int + 1]);
        assert(w[na.len() as int + 0] == tw[0]);
        assert(w[na.len() as int + 1] == tw[1]);
        assert(b.subrange(end, end + 2)[0] == b[end]);
        assert(b.subrange(end, end + 2)[1] == b[end + 1]);
        assert(b[end] == b[p + (na.len() + 0)]);
        assert(b[end + 1] == b[p + (na.len() + 1)]);
    }
    lemma_be_u16_round_trip(b, end, crate::coding::qtype_code(q.question_type));
    let cw = be_u16(1u16);
    assert(b.subrange(end + 2, end + 4) =~= cw) by {
        assert(b[p + (na.len() + 2)] == w[na.len() as int + 2]);
        assert(b[p + (na.len() + 3)] == w[na.len() as int + 3]);
        assert(w[na.len() as int + 2] == cw[0]);
        assert(w[na.len() as int + 3] == cw[1]);
        assert(b.subrange(end + 2, end + 4)[0] == b[end + 2]);
        assert(b.subrange(end + 2, end + 4)[1] == b[end + 3]);
        assert(b[end + 2] == b[p + (na.len() + 2)]);
        assert(b[end + 3] == b[p + (na.len() + 3)]);
    }
    lemma_be_u16_round_trip(b, end + 2, 1u16);
}

/// The round-trip law for a whole address record written with its name in
/// full: the octets of `wire_rr` parse back to the record's labels, its
/// type and class codes, its time to live, and its address.
pub proof fn lemma_wire_rr_a_round_trip(b: Seq<u8>, p: int, r: &crate::packets::ResourceRecord, v: u32)
    requires
        b.len() == 512,
        r.data == crate::packets::ResourceRecordData::A(v),
        r.record_type is ARecord,
        byte_chars(r.domain@),
        max_label_len(r.domain@) <= MAX_LABEL_LENGTH,
        0 <= p,
        p + crate::coding::wire_rr(r).len() < b.len(),
        b.subrange(p, p + crate::coding::wire_rr(r).len()) == crate::coding::wire_rr(r),
    ensures
        parse_labels(b, p) is Some,
        parse_labels(b, p).unwrap().0 == labels_from(r.domain@, Seq::empty()),
        parse_labels(b, p).unwrap().2 == p + wire_name(r.domain@).len(),
        read_be_u16(b, parse_labels(b, p).unwrap().2) == 1,
        crate::coding::type_from_code(read_be_u16(b, parse_labels(b, p).unwrap().2))
            == r.record_type,
        read_be_u16(b, parse_labels(b, p).unwrap().2 + 2) == 1,
        read_be_u32(b, parse_labels(b, p).unwrap().2 + 4) == r.time_to_live,
        read_be_u16(b, parse_labels(b, p).unwrap().2 + 8) == 4,
        read_be_u32(b, parse_labels(b, p).unwrap().2 + 10) == v,
{
    let w = crate::coding::wire_rr(r);
    let na = wire_name(r.domain@);
    assert(crate::coding::rdata_wire(&r.data) == be_u32(v));
    assert(crate::coding::rtype_code(r.record_type) == 1);
    assert(w.len() == na.len() + 14);
    assert forall|k: int| 0 <= k < w.len() implies #[trigger] b[p + k] == w[k] by {
        assert(b.subrange(p, p + w.len())[k] == b[p + k]);
    }
    assert(b.subrange(p, p + na.len()) =~= na) by {
        assert(forall|k: int|
            0 <= k < na.len() ==> #[trigger] b.subrange(p, p + na.len())[k] == b[p + k]);
        assert(forall|k: int| 0 <= k < na.len() ==> #[trigger] w[k] == na[k]);
    }
    lemma_wire_name_round_trip(b, p, r.domain@);
    let end = p + na.len();
    let chunks: Seq<Seq<u8>> = seq![
        be_u16(1u16),
        be_u16(1u16),
        be_u32(r.time_to_live),
        be_u16(4u16),
        be_u32(v),
    ];
    assert forall|k: int| 0 <= k < 14 implies #[trigger] b[end + k] == w[na.len() as int + k] by {
        assert(b[p + (na.len() as int + k)] == w[na.len() as int + k]);
        assert(b[end + k] == b[p + (na.len() as int + k)]);
    }
    assert(b.subrange(end, end + 2) =~= be_u16(1u16)) by {
        assert(forall|k: int|
            0 <= k < 2 ==> #[trigger] b.subrange(end, end + 2)[k] == b[end + k]);
        assert(forall|k: int| 0 <= k < 2 ==> #[trigger] w[na.len() as int + k] == be_u16(1u16)[k]);
    }
    lemma_be_u16_round_trip(b, end, 1u16);
    assert(b.subrange(end + 2, end + 4) =~= be_u16(1u16)) by {
        assert(forall|k: int|
            0 <= k < 2 ==> #[trigger] b.subrange(end + 2, end + 4)[k] == b[end + (2 + k)]);
        assert(forall|k: int|
            0 <= k < 2 ==> #[trigger] w[na.len() as int + 2 + k] == be_u16(1u16)[k]);
        assert(forall|k: int| 0 <= k < 2 ==> b[end + (2 + k)] == #[trigger] w[na.len() as int + 2
            + k]);
    }
    lemma_be_u16_round_trip(b, end + 2, 1u16);
    assert(b.subrange(end + 4, end + 8) =~= be_u32(r.time_to_live)) by {
        assert(forall|k: int|
            0 <= k < 4 ==> #[trigger] b.subrange(end + 4, end + 8)[k] == b[end + (4 + k)]);
        assert(forall|k: int|
            0 <= k < 4 ==> #[trigger] w[na.len() as int + 4 + k] == be_u32(r.time_to_live)[k]);
        assert(forall|k: int| 0 <= k < 4 ==> b[end + (4 + k)] == #[trigger] w[na.len() as int + 4
            + k]);
    }
    lemma_be_u32_round_trip(b, end + 4, r.time_to_live);
    assert(b.subrange(end + 8, end + 10) =~= be_u16(4u16)) by {
        assert(forall|k: int|
            0 <= k < 2 ==> #[trigger] b.subrange(end + 8, end + 10)[k] == b[end + (8 + k)]);
        assert(forall|k: int|
            0 <= k < 2 ==> #[trigger] w[na.len() as int + 8 + k] == be_u16(4u16)[k]);
        assert(forall|k: int| 0 <= k < 2 ==> b[end + (8 + k)] == #[trigger] w[na.len() as int + 8
            + k]);
    }
    lemma_be_u16_round_trip(b, end + 8, 4u16);
    assert(b.subrange(end + 10, end + 14) =~= be_u32(v)) by {
        assert(forall|k: int|
            0 <= k < 4 ==> #[trigger] b.subrange(end + 10, end + 14)[k] == b[end + (10 + k)]);
        assert(forall|k: int|
            0 <= k < 4 ==> #[trigger] w[na.len() as int + 10 + k] == be_u32(v)[k]);
        assert(forall|k: int| 0 <= k < 4 ==> b[end + (10 + k)] == #[trigger] w[na.len() as int
            + 10 + k]);
    }
    lemma_be_u32_round_trip(b, end + 10, v);
}

/// A question in the decoder's dotted form, with a type the question codec
/// carries and the Internet class; such a question survives the wire
/// unchanged.
pub open spec fn question_canonical(q: &Question) -> bool {
    &&& q.domain@ == seq!['.'] + join_dots(labels_from(q.domain@, Seq::empty()))
    &&& byte_chars(q.domain@)
    &&& q.domain@.len() <= crate::coding::MAX_NAME_LENGTH
    &&& max_label_len(q.domain@) <= MAX_LABEL_LENGTH
    &&& crate::coding::qtype_from_code(crate::coding::qtype_code(q.question_type))
        == q.question_type
    &&& q.class == crate::packets::QuestionClass::InternetAddress
}

/// The wire image of a canonical question satisfies the decoder's framing
/// and denotes the question itself.
pub proof fn lemma_wire_question_frame(b: Seq<u8>, p: int, q: &Question)
    requires
        b.len() == 512,
        question_canonical(q),
        0 <= p,
        p + crate::coding::wire_question(q).len() < b.len(),
        b.subrange(p, p + crate::coding::wire_question(q).len()) == crate::coding::wire_question(
            q,
        ),
    ensures
        crate::coding::q_end(b, p) == Some(p + crate::coding::wire_question(q).len()),
        crate::coding::q_denotes(b, p, *q),
{
    lemma_wire_question_round_trip(b, p, q);
    assert(parse_labels(b, p).unwrap().0 == labels_from(q.domain@, Seq::empty()));
    assert(seq!['.'] + join_dots(parse_labels(b, p).unwrap().0) == q.domain@);
    assert(1 + join_dots(parse_labels(b, p).unwrap().0).len() == q.domain@.len());
    assert(crate::coding::wire_question(q).len() == wire_name(q.domain@).len() + 4);
    assert(crate::coding::qtype_from_code(
        read_be_u16(b, parse_labels(b, p).unwrap().2),
    ) == q.question_type);
    assert(read_be_u16(b, parse_labels(b, p).unwrap().2 + 2) == 1);
}

/// The wire image of a list of canonical questions satisfies the decoder's
/// framing, question by question, and denotes the list itself.
pub proof fn lemma_wire_questions_frame(b: Seq<u8>, p: int, qs: Seq<Question>)
    requires
        b.len() == 512,
        forall|k: int| 0 <= k < qs.len() ==> question_canonical(#[trigger] &qs[k]),
        0 <= p,
        p + crate::coding::wire_questions(qs).len() < b.len(),
        b.subrange(p, p + crate::coding::wire_questions(qs).len())
            == crate::coding::wire_questions(qs),
    ensures
        crate::coding::qs_frame(b, p, qs.len() as int) == Some(
            p + crate::coding::wire_questions(qs).len(),
        ),
        crate::coding::qs_denote_upto(
            b,
            p,
            qs,
            p + crate::coding::wire_questions(qs).len(),
        ),
    decreases qs.len(),
{
    if qs.len() == 0 {
        assert(crate::coding::wire_questions(qs).len() == 0);
    } else {
        let w0 = crate::coding::wire_question(&qs[0]);
        let rest = crate::coding::wire_questions(qs.drop_first());
        assert(crate::coding::wire_questions(qs) == w0 + rest);
        assert forall|k: int|
            0 <= k < crate::coding::wire_questions(qs).len() implies #[trigger] b[p + k]
            == crate::coding::wire_questions(qs)[k] by {
            assert(b.subrange(p, p + crate::coding::wire_questions(qs).len())[k] == b[p + k]);
        }
        assert(b.subrange(p, p + w0.len()) =~= w0) by {
            assert(forall|k: int|
                0 <= k < w0.len() ==> #[trigger] b.subrange(p, p + w0.len())[k] == b[p + k]);
            assert(forall|k: int|
                0 <= k < w0.len() ==> #[trigger] crate::coding::wire_questions(qs)[k] == w0[k]);
        }
        lemma_wire_question_frame(b, p, &qs[0]);
        let p2 = p + w0.len();
        assert(b.subrange(p2, p2 + rest.len()) =~= rest) by {
            assert forall|k: int|
                0 <= k < rest.len() implies #[trigger] b.subrange(p2, p2 + rest.len())[k]
                == rest[k] by {
                assert(b.subrange(p2, p2 + rest.len())[k] == b[p2 + k]);
                assert(b[p2 + k] == b[p + (w0.len() + k)]);
                assert(crate::coding::wire_questions(qs)[w0.len() + k] == rest[k]);
            }
        }
        assert(forall|k: int|
            0 <= k < qs.drop_first().len() ==> question_canonical(
                #[trigger] &qs.drop_first()[k],
            ));
        lemma_wire_questions_frame(b, p2, qs.drop_first());
        assert(crate::coding::q_end(b, p).unwrap() == p2);
    }
}

/// The whole-message round trip, for a message with no resource records:
/// its uncompressed wire image satisfies the message-level decoder's
/// framing, and its question section denotes exactly the original
/// questions. Together with the header law, decode after encode recovers
/// the message.
pub proof fn lemma_wire_message_frame_no_records(b: Seq<u8>, rc: int, m: &Message)
    requires
        b.len() == 512,
        m.op_code <= 0x0f,
        m.questions@.len() <= 0xffff,
        m.answers@.len() == 0,
        m.authorities@.len() == 0,
        m.additional_records@.len() == 0,
        forall|k: int| 0 <= k < m.questions@.len() ==> question_canonical(#[trigger] &m.questions@[k]),
        0 <= rc,
        rc + crate::coding::wire_message(m).len() < b.len(),
        b.subrange(rc, rc + crate::coding::wire_message(m).len())
            == crate::coding::wire_message(m),
    ensures
        crate::coding::message_frame(b, rc) == Some(
            (
                rc + crate::coding::wire_message(m).len(),
                rc + crate::coding::wire_message(m).len(),
                rc + crate::coding::wire_message(m).len(),
                rc + crate::coding::wire_message(m).len(),
            ),
        ),
        crate::coding::qs_denote_upto(
            b,
            rc + 12,
            m.questions@,
            rc + crate::coding::wire_message(m).len(),
        ),
{
    let w = crate::coding::wire_message(m);
    let wh = crate::coding::wire_header(m);
    let wq = crate::coding::wire_questions(m.questions@);
    assert(crate::coding::wire_rrs(m.answers@) =~= Seq::<u8>::empty());
    assert(crate::coding::wire_rrs(m.authorities@) =~= Seq::<u8>::empty());
    assert(crate::coding::wire_rrs(m.additional_records@) =~= Seq::<u8>::empty());
    assert(be_u16(m.id).len() == 2);
    assert(seq![flag_byte1(m), flag_byte2(m)].len() == 2);
    assert(be_u16(m.questions@.len() as u16).len() == 2);
    assert(be_u16(m.answers@.len() as u16).len() == 2);
    assert(be_u16(m.authorities@.len() as u16).len() == 2);
    assert(be_u16(m.additional_records@.len() as u16).len() == 2);
    assert(wh.len() == 12);
    assert(w =~= wh + wq);
    assert forall|k: int| 0 <= k < w.len() implies #[trigger] b[rc + k] == w[k] by {
        assert(b.subrange(rc, rc + w.len())[k] == b[rc + k]);
    }
    assert(b.subrange(rc, rc + 12) =~= wh) by {
        assert(forall|k: int|
            0 <= k < 12 ==> #[trigger] b.subrange(rc, rc + 12)[k] == b[rc + k]);
        assert(forall|k: int| 0 <= k < 12 ==> #[trigger] w[k] == wh[k]);
    }
    lemma_wire_header_round_trip(b, rc, m);
    lemma_flag_bytes_round_trip(m);
    assert(b[rc + 3] == wh[3]);
    assert(wh[3] == flag_byte2(m));
    assert((b[rc + 3] & 0x0f) <= 5);
    let p0 = rc + 12;
    assert(b.subrange(p0, p0 + wq.len()) =~= wq) by {
        assert forall|k: int|
            0 <= k < wq.len() implies #[trigger] b.subrange(p0, p0 + wq.len())[k] == wq[k] by {
            assert(b.subrange(p0, p0 + wq.len())[k] == b[p0 + k]);
            assert(b[p0 + k] == b[rc + (12 + k)]);
            assert(w[12 + k] == wq[k]);
        }
    }
    lemma_wire_questions_frame(b, p0, m.questions@);
    assert(read_be_u16(b, rc + 4) == m.questions@.len());
    assert(read_be_u16(b, rc + 4) as int == m.questions@.len() as int);
    assert(crate::coding::qs_frame(b, p0, read_be_u16(b, rc + 4) as int) == Some(
        p0 + wq.len(),
    ));
    let p1 = p0 + wq.len();
    assert(p1 == rc + w.len());
    assert(read_be_u16(b, rc + 6) == 0);
    assert(read_be_u16(b, rc + 8) == 0);
    assert(read_be_u16(b, rc + 10) == 0);
    assert(crate::coding::rrs_frame(b, p1, 0) == Some(p1));
}

/// Every label that the encoder would split a name into is nonempty, octet
/// characters, and at most as long as the longest label of the name.
pub proof fn lemma_labels_from_shape(s: Seq<char>, cur: Seq<char>)
    requires
        byte_chars(s),
        byte_chars(cur),
    ensures
        forall|i: int|
            0 <= i < labels_from(s, cur).len() ==> {
                &&& (#[trigger] labels_from(s, cur)[i]).len() > 0
                &&& byte_chars(labels_from(s, cur)[i])
                &&& labels_from(s, cur)[i].len() <= max_label_from(s, cur.len())
            },
    decreases s.len(),
{
    if s.len() == 0 {
    } else if s[0] == '.' {
        assert(byte_chars(s.drop_first())) by {
            assert(forall|i: int|
                0 <= i < s.drop_first().len() ==> s.drop_first()[i] == s[i + 1]);
        }
        lemma_labels_from_shape(s.drop_first(), Seq::empty());
        lemma_max_from_mono(s.drop_first(), 0, cur.len());
        let rest = labels_from(s.drop_first(), Seq::empty());
        let head = if cur.len() > 0 {
            seq![cur]
        } else {
            Seq::<Seq<char>>::empty()
        };
        assert forall|i: int|
            0 <= i < labels_from(s, cur).len() implies {
            &&& (#[trigger] labels_from(s, cur)[i]).len() > 0
            &&& byte_chars(labels_from(s, cur)[i])
            &&& labels_from(s, cur)[i].len() <= max_label_from(s, cur.len())
        } by {
            if i < head.len() {
                assert(labels_from(s, cur)[i] == cur);
            } else {
                assert(labels_from(s, cur)[i] == rest[i - head.len()]);
            }
        }
    } else {
        assert(byte_chars(s.drop_first())) by {
            assert(forall|i: int|
                0 <= i < s.drop_first().len() ==> s.drop_first()[i] == s[i + 1]);
        }
        assert(byte_chars(cur.push(s[0]))) by {
            assert(forall|i: int|
                0 <= i < cur.len() ==> cur.push(s[0])[i] == cur[i]);
            assert(cur.push(s[0])[cur.len() as int] == s[0]);
        }
        lemma_labels_from_shape(s.drop_first(), cur.push(s[0]));
        assert forall|i: int|
            0 <= i < labels_from(s, cur).len() implies {
            &&& (#[trigger] labels_from(s, cur)[i]).len() > 0
            &&& byte_chars(labels_from(s, cur)[i])
            &&& labels_from(s, cur)[i].len() <= max_label_from(s, cur.len())
        } by {
            assert(labels_from(s, cur)[i] == labels_from(s.drop_first(), cur.push(s[0]))[i]);
        }
    }
}

/// A longer partial label can only raise the longest-label bound.
pub proof fn lemma_max_from_mono(s: Seq<char>, a: nat, b: nat)
    requires
        a <= b,
    ensures
        max_label_from(s, a) <= max_label_from(s, b),
    decreases s.len(),
{
    if s.len() == 0 {
    } else if s[0] == '.' {
    } else {
        lemma_max_from_mono(s.drop_first(), a + 1, b + 1);
    }
}

/// The wire form of a name is exactly the wire form of its label list.
pub proof fn lemma_wire_name_labels(s: Seq<char>, cur: Seq<char>)
    ensures
        wire_name_from(s, cur) == labels_wire(labels_from(s, cur)),
    decreases s.len(),
{
    if s.len() == 0 {
        if cur.len() > 0 {
            assert(labels_from(s, cur) == seq![cur]);
            assert(labels_wire(seq![cur]) == label_bytes(seq![cur][0]) + labels_wire(
                seq![cur].drop_first(),
            ));
            assert(seq![cur].drop_first() =~= Seq::<Seq<char>>::empty());
            assert(wire_name_from(s, cur) =~= label_bytes(cur) + seq![0u8]);
        } else {
            assert(wire_name_from(s, cur) =~= seq![0u8]);
        }
    } else if s[0] == '.' {
        lemma_wire_name_labels(s.drop_first(), Seq::empty());
        if cur.len() > 0 {
            let rest = labels_from(s.drop_first(), Seq::empty());
            assert(labels_from(s, cur) == seq![cur] + rest);
            assert((seq![cur] + rest)[0] == cur);
            assert((seq![cur] + rest).drop_first() =~= rest);
            assert(labels_wire(seq![cur] + rest) == label_bytes(cur) + labels_wire(rest));
        } else {
            assert(labels_from(s, cur) =~= labels_from(s.drop_first(), Seq::empty()));
            assert(wire_name_from(s, cur) =~= wire_name_from(s.drop_first(), Seq::empty()));
        }
    } else {
        lemma_wire_name_labels(s.drop_first(), cur.push(s[0]));
    }
}

/// A label list written on the wire parses back to itself: the labels in
/// order, their start offsets in sequence, and the cursor just past the
/// terminator.
pub proof fn lemma_labels_wire_parse(b: Seq<u8>, p: int, ls: Seq<Seq<char>>)
    requires
        b.len() == 512,
        0 <= p,
        p + labels_wire(ls).len() < b.len(),
        b.subrange(p, p + labels_wire(ls).len()) == labels_wire(ls),
        forall|i: int|
            0 <= i < ls.len() ==> {
                &&& 0 < (#[trigger] ls[i]).len() <= MAX_LABEL_LENGTH
                &&& byte_chars(ls[i])
            },
    ensures
        parse_labels(b, p) is Some,
        parse_labels(b, p).unwrap().0 == ls,
        parse_labels(b, p).unwrap().2 == p + labels_wire(ls).len(),
    decreases ls.len(),
{
    if ls.len() == 0 {
        assert(labels_wire(ls) == seq![0u8]);
        assert(b.subrange(p, p + 1)[0] == b[p]);
        assert(b[p] == 0);
        assert(parse_labels(b, p) == Some(
            (Seq::<Seq<char>>::empty(), Seq::<int>::empty(), p + 1),
        ));
    } else {
        let l0 = ls[0];
        let w0 = label_bytes(l0);
        let rest = ls.drop_first();
        assert(labels_wire(ls) == w0 + labels_wire(rest));
        assert(w0.len() == l0.len() + 1);
        assert(b.subrange(p, p + labels_wire(ls).len())[0] == b[p]);
        assert(b[p] == labels_wire(ls)[0]);
        assert(labels_wire(ls)[0] == w0[0]);
        assert(w0[0] == l0.len() as u8);
        let p2 = p + w0.len();
        assert forall|k: int|
            0 <= k < labels_wire(ls).len() implies #[trigger] b[p + k] == labels_wire(ls)[k] by {
            assert(b.subrange(p, p + labels_wire(ls).len())[k] == b[p + k]);
        }
        assert(b.subrange(p2, p2 + labels_wire(rest).len()) =~= labels_wire(rest)) by {
            assert forall|j: int|
                0 <= j < labels_wire(rest).len() implies #[trigger] b.subrange(
                p2,
                p2 + labels_wire(rest).len(),
            )[j] == labels_wire(rest)[j] by {
                assert(b[p + (w0.len() + j)] == labels_wire(ls)[w0.len() + j]);
                assert(labels_wire(ls)[w0.len() + j] == labels_wire(rest)[j]);
                assert(b.subrange(p2, p2 + labels_wire(rest).len())[j] == b[p2 + j]);
                assert(b[p2 + j] == b[p + (w0.len() + j)]);
            }
        }
        lemma_labels_wire_parse(b, p2, rest);
        assert(byte_chars(l0));
        assert(bytes_chars(b.subrange(p + 1, p + 1 + l0.len())) =~= l0) by {
            assert forall|j: int|
                0 <= j < l0.len() implies #[trigger] bytes_chars(
                b.subrange(p + 1, p + 1 + l0.len()),
            )[j] == l0[j] by {
                assert(b[p + (1 + j)] == labels_wire(ls)[1 + j]);
                assert(labels_wire(ls)[1 + j] == w0[1 + j]);
                assert(w0[1 + j] == str_bytes(l0)[j]);
                assert(str_bytes(l0)[j] == char_byte(l0[j]));
                assert((l0[j] as u32) < 256);
                assert(char_byte(l0[j]) as u32 == l0[j] as u32);
                assert((char_byte(l0[j]) as char) as u32 == char_byte(l0[j]) as u32);
                vstd::utf8::char_u32_cast(l0[j], l0[j] as u32);
                vstd::utf8::char_u32_cast(
                    char_byte(l0[j]) as char,
                    (char_byte(l0[j]) as char) as u32,
                );
                assert((char_byte(l0[j]) as char) == l0[j]);
                assert(b.subrange(p + 1, p + 1 + l0.len())[j] == b[p + 1 + j]);
                assert(b[p + 1 + j] == b[p + (1 + j)]);
            }
        }
        assert(b[p] != 0);
        assert(b[p] < 0x40);
        assert(p + 1 + b[p] < b.len());
        assert(parse_labels(b, p).unwrap().0 =~= seq![l0] + rest);
        assert(seq![l0] + rest =~= ls);
    }
}

/// The round-trip law for names, with no compression in play: the
/// uncompressed wire form of a name parses back to exactly the name's
/// nonempty labels, and consumes exactly the wire form's octets. Joining
/// those labels with dots behind the leading-dot sentinel rebuilds the
/// decoder's form of the name.
pub proof fn lemma_wire_name_round_trip(b: Seq<u8>, p: int, s: Seq<char>)
    requires
        b.len() == 512,
        byte_chars(s),
        max_label_len(s) <= MAX_LABEL_LENGTH,
        0 <= p,
        p + wire_name(s).len() < b.len(),
        b.subrange(p, p + wire_name(s).len()) == wire_name(s),
    ensures
        parse_labels(b, p) is Some,
        parse_labels(b, p).unwrap().0 == labels_from(s, Seq::empty()),
        parse_labels(b, p).unwrap().2 == p + wire_name(s).len(),
{
    lemma_wire_name_labels(s, Seq::empty());
    lemma_labels_from_shape(s, Seq::empty());
    assert(forall|i: int|
        0 <= i < labels_from(s, Seq::empty()).len() ==> (#[trigger] labels_from(
            s,
            Seq::empty(),
        )[i]).len() <= MAX_LABEL_LENGTH);
    lemma_labels_wire_parse(b, p, labels_from(s, Seq::empty()));
}

/// The name round trip in one statement: a name in the decoder's dotted
/// form, written uncompressed and parsed back, comes out unchanged.
pub proof fn lemma_canonical_name_round_trip(b: Seq<u8>, p: int, ls: Seq<Seq<char>>)
    requires
        b.len() == 512,
        forall|i: int|
            0 <= i < ls.len() ==> {
                &&& 0 < (#[trigger] ls[i]).len() <= MAX_LABEL_LENGTH
                &&& byte_chars(ls[i])
            },
        forall|i: int, j: int|
            0 <= i < ls.len() && 0 <= j < ls[i].len() ==> #[trigger] ls[i][j] != '.',
        0 <= p,
        p + wire_name(seq!['.'] + join_dots(ls)).len() < b.len(),
        b.subrange(p, p + wire_name(seq!['.'] + join_dots(ls)).len()) == wire_name(
            seq!['.'] + join_dots(ls),
        ),
    ensures
        parse_labels(b, p) is Some,
        seq!['.'] + join_dots(parse_labels(b, p).unwrap().0) == seq!['.'] + join_dots(ls),
        parse_labels(b, p).unwrap().0 == ls,
{
    let s = seq!['.'] + join_dots(ls);
    lemma_canonical_labels(ls);
    assert(byte_chars(s)) by {
        lemma_join_dots_chars(ls);
        assert(('.' as u32) < 256);
        assert(forall|i: int|
            1 <= i < s.len() ==> #[trigger] s[i] == join_dots(ls)[i - 1]);
        assert(forall|i: int| 0 <= i < s.len() ==> (#[trigger] s[i] as u32) < 256);
    }
    assert(max_label_len(s) <= MAX_LABEL_LENGTH) by {
        lemma_max_of_canonical(s, ls);
    }
    lemma_wire_name_round_trip(b, p, s);
}

/// The dot-joined form of octet-character labels is octet characters.
pub proof fn lemma_join_dots_chars(ls: Seq<Seq<char>>)
    requires
        forall|i: int| 0 <= i < ls.len() ==> byte_chars(#[trigger] ls[i]),
    ensures
        byte_chars(join_dots(ls)),
{
    crate::coding::lemma_join_dots_byte_chars(ls);
}

/// The longest label of a canonical name is the longest of its label list.
pub proof fn lemma_max_of_canonical(s: Seq<char>, ls: Seq<Seq<char>>)
    requires
        labels_from(s, Seq::empty()) == ls,
        forall|i: int| 0 <= i < ls.len() ==> (#[trigger] ls[i]).len() <= MAX_LABEL_LENGTH,
    ensures
        max_label_len(s) <= MAX_LABEL_LENGTH,
{
    lemma_max_bounded_by_labels(s, Seq::empty(), MAX_LABEL_LENGTH as nat);
}

/// The longest-label measure never exceeds a bound that every split label
/// (and the running label being read) respects.
pub proof fn lemma_max_bounded_by_labels(s: Seq<char>, cur: Seq<char>, bound: nat)
    requires
        cur.len() <= bound,
        forall|i: int|
            0 <= i < labels_from(s, cur).len() ==> (#[trigger] labels_from(s, cur)[i]).len()
                <= bound,
    ensures
        max_label_from(s, cur.len()) <= bound,
    decreases s.len(),
{
    if s.len() == 0 {
    } else if s[0] == '.' {
        let head = if cur.len() > 0 {
            seq![cur]
        } else {
            Seq::<Seq<char>>::empty()
        };
        let rest = labels_from(s.drop_first(), Seq::empty());
        assert forall|i: int| 0 <= i < rest.len() implies (#[trigger] rest[i]).len() <= bound by {
            assert(labels_from(s, cur)[head.len() + i] == rest[i]);
        }
        lemma_max_bounded_by_labels(s.drop_first(), Seq::empty(), bound);
    } else {
        lemma_cur_prefix_of_first(s, cur);
        assert(labels_from(s, cur)[0].len() <= bound);
        assert forall|i: int|
            0 <= i < labels_from(s.drop_first(), cur.push(s[0])).len() implies (
        #[trigger] labels_from(s.drop_first(), cur.push(s[0]))[i]).len() <= bound by {
            assert(labels_from(s, cur)[i] == labels_from(s.drop_first(), cur.push(s[0]))[i]);
        }
        lemma_max_bounded_by_labels(s.drop_first(), cur.push(s[0]), bound);
    }
}

/// The first label of a split extends the running label being read.
pub proof fn lemma_cur_prefix_of_first(s: Seq<char>, cur: Seq<char>)
    requires
        s.len() > 0,
        s[0] != '.',
    ensures
        labels_from(s, cur).len() >= 1,
        labels_from(s, cur)[0].len() >= cur.len() + 1,
    decreases s.len(),
{
    let next = cur.push(s[0]);
    if s.len() == 1 {
        assert(labels_from(s.drop_first(), next) == seq![next]);
    } else if s[1] == '.' {
        assert(labels_from(s, cur) == labels_from(s.drop_first(), next));
        lemma_split_at_least(s.drop_first(), next);
        assert(labels_from(s.drop_first(), next)[0] == next);
    } else {
        lemma_cur_prefix_of_first(s.drop_first(), next);
    }
}

/// A name already in the decoder's dotted form splits back into the very
/// labels it was joined from: encode after decode changes nothing.

/// A name already in the decoder's dotted form splits back into the very
/// labels it was joined from: encode after decode changes nothing.
pub proof fn lemma_canonical_labels(ls: Seq<Seq<char>>)
    requires
        forall|i: int| 0 <= i < ls.len() ==> (#[trigger] ls[i]).len() > 0,
        forall|i: int, j: int|
            0 <= i < ls.len() && 0 <= j < ls[i].len() ==> #[trigger] ls[i][j] != '.',
    ensures
        labels_from(seq!['.'] + join_dots(ls), Seq::empty()) == ls,
{
    lemma_canonical_labels_from(ls);
    let s = seq!['.'] + join_dots(ls);
    assert(s[0] == '.');
    assert(s.drop_first() =~= join_dots(ls));
    assert(labels_from(s, Seq::empty()) == labels_from(join_dots(ls), Seq::empty()));
}

/// Splitting the dot-joined form of a label list recovers the list.
pub proof fn lemma_canonical_labels_from(ls: Seq<Seq<char>>)
    requires
        forall|i: int| 0 <= i < ls.len() ==> (#[trigger] ls[i]).len() > 0,
        forall|i: int, j: int|
            0 <= i < ls.len() && 0 <= j < ls[i].len() ==> #[trigger] ls[i][j] != '.',
    ensures
        labels_from(join_dots(ls), Seq::empty()) == ls,
    decreases ls.len(),
{
    if ls.len() == 0 {
        assert(labels_from(join_dots(ls), Seq::empty()) =~= Seq::<Seq<char>>::empty());
    } else if ls.len() == 1 {
        lemma_label_only_split(ls[0], Seq::empty());
        assert(join_dots(ls) == ls[0]);
        assert(Seq::<char>::empty() + ls[0] =~= ls[0]);
        assert(labels_from(ls[0], Seq::empty()) =~= seq![ls[0]]);
        assert(seq![ls[0]] =~= ls);
    } else {
        lemma_canonical_labels_from(ls.drop_last());
        lemma_join_snoc_split(ls.drop_last(), ls.last());
        assert(ls.drop_last().push(ls.last()) =~= ls);
    }
}

/// Splitting a dot-free nonempty label yields just that label, appended to
/// whatever was accumulated.
pub proof fn lemma_label_only_split(l: Seq<char>, cur: Seq<char>)
    requires
        l.len() + cur.len() > 0,
        forall|j: int| 0 <= j < l.len() ==> l[j] != '.',
    ensures
        labels_from(l, cur) == seq![cur + l],
    decreases l.len(),
{
    if l.len() == 0 {
        assert(cur + l =~= cur);
    } else {
        lemma_label_only_split(l.drop_first(), cur.push(l[0]));
        assert(cur.push(l[0]) + l.drop_first() =~= cur + l);
    }
}

/// Splitting `join(ls) . last` yields the labels of `join(ls)` plus `last`.
pub proof fn lemma_join_snoc_split(ls: Seq<Seq<char>>, last: Seq<char>)
    requires
        ls.len() >= 1,
        last.len() > 0,
        forall|j: int| 0 <= j < last.len() ==> last[j] != '.',
        forall|i: int| 0 <= i < ls.len() ==> (#[trigger] ls[i]).len() > 0,
        forall|i: int, j: int|
            0 <= i < ls.len() && 0 <= j < ls[i].len() ==> #[trigger] ls[i][j] != '.',
        labels_from(join_dots(ls), Seq::empty()) == ls,
    ensures
        labels_from(join_dots(ls.push(last)), Seq::empty()) == ls.push(last),
{
    assert(ls.push(last).drop_last() =~= ls);
    assert(ls.push(last).last() == last);
    assert(join_dots(ls.push(last)) == join_dots(ls) + seq!['.'] + last);
    lemma_split_append_tail(join_dots(ls), Seq::empty(), ls, last);
}

/// Extending the text with `. last` extends the split with one more label.
pub proof fn lemma_split_append_tail(
    s: Seq<char>,
    cur: Seq<char>,
    ls: Seq<Seq<char>>,
    last: Seq<char>,
)
    requires
        labels_from(s, cur) == ls,
        ls.len() >= 1,
        last.len() > 0,
        forall|j: int| 0 <= j < last.len() ==> last[j] != '.',
    ensures
        labels_from(s + seq!['.'] + last, cur) == ls.push(last),
    decreases s.len(),
{
    let ext = s + seq!['.'] + last;
    if s.len() == 0 {
        assert(ext[0] == '.');
        assert(ext.drop_first() =~= last);
        if cur.len() > 0 {
            lemma_label_only_split(last, Seq::empty());
            assert(Seq::<char>::empty() + last =~= last);
            assert(labels_from(ext, cur) == seq![cur] + seq![last]);
            assert(ls == seq![cur]);
            assert(seq![cur] + seq![last] =~= seq![cur].push(last));
        } else {
            assert(ls.len() == 0);
        }
    } else if s[0] == '.' {
        assert(ext[0] == '.');
        assert(ext.drop_first() =~= s.drop_first() + seq!['.'] + last);
        if cur.len() > 0 {
            let rest = labels_from(s.drop_first(), Seq::empty());
            assert(ls == seq![cur] + rest);
            if rest.len() == 0 {
                assert(labels_from(s.drop_first(), Seq::empty()) =~= Seq::<Seq<char>>::empty());
                lemma_split_empty_tail(s.drop_first(), last);
                assert(labels_from(ext, cur) == seq![cur] + seq![last]);
                assert(ls =~= seq![cur]);
                assert(seq![cur] + seq![last] =~= ls.push(last));
            } else {
                lemma_split_append_tail(s.drop_first(), Seq::empty(), rest, last);
                assert(labels_from(ext, cur) == seq![cur] + rest.push(last));
                assert(seq![cur] + rest.push(last) =~= (seq![cur] + rest).push(last));
            }
        } else {
            let rest = labels_from(s.drop_first(), Seq::empty());
            assert(ls =~= rest);
            if rest.len() == 0 {
                assert(false);
            } else {
                lemma_split_append_tail(s.drop_first(), Seq::empty(), rest, last);
                assert(labels_from(ext, cur) =~= labels_from(
                    s.drop_first() + seq!['.'] + last,
                    Seq::empty(),
                ));
            }
        }
    } else {
        assert(ext[0] == s[0]);
        assert(ext.drop_first() =~= s.drop_first() + seq!['.'] + last);
        lemma_split_append_tail(s.drop_first(), cur.push(s[0]), ls, last);
    }
}

/// A text whose split is empty, followed by `. last`, splits to just `last`.
pub proof fn lemma_split_empty_tail(s: Seq<char>, last: Seq<char>)
    requires
        labels_from(s, Seq::empty()) == Seq::<Seq<char>>::empty(),
        last.len() > 0,
        forall|j: int| 0 <= j < last.len() ==> last[j] != '.',
    ensures
        labels_from(s + seq!['.'] + last, Seq::empty()) == seq![last],
    decreases s.len(),
{
    let ext = s + seq!['.'] + last;
    if s.len() == 0 {
        assert(ext[0] == '.');
        assert(ext.drop_first() =~= last);
        lemma_label_only_split(last, Seq::empty());
        assert(Seq::<char>::empty() + last =~= last);
    } else if s[0] == '.' {
        assert(ext[0] == '.');
        assert(ext.drop_first() =~= s.drop_first() + seq!['.'] + last);
        lemma_split_empty_tail(s.drop_first(), last);
    } else {
        // a non-dot head always yields at least one label, against the premise
        lemma_split_at_least(s, Seq::empty());
        assert(false);
    }
}

/// A split starting inside a label yields at least one label.
pub proof fn lemma_split_at_least(s: Seq<char>, cur: Seq<char>)
    requires
        s.len() > 0 && s[0] != '.' || cur.len() > 0,
    ensures
        labels_from(s, cur).len() >= 1,
    decreases s.len(),
{
    if s.len() == 0 {
    } else if s[0] == '.' {
        if cur.len() > 0 {
        } else {
        }
    } else {
        lemma_split_at_least(s.drop_first(), cur.push(s[0]));
    }
}

} // verus!

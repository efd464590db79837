//! The message model: header flags, questions, and resource records.
//!
//! Pure data with light constructor helpers. Wire counts are derived from the
//! list lengths on encode; on decode they drive the parse loop.

use vstd::prelude::*;

verus! {

/// Whether a message is a query or a response (the QR header bit).
#[derive(Debug, Clone, Copy, PartialEq, Eq, Structural)]
pub enum PacketType {
    Query,
    Response,
}

/// The class of a question; only the Internet class is supported.
#[derive(Debug, Clone, Copy, PartialEq, Eq, Structural)]
pub enum QuestionClass {
    InternetAddress,
    Unimplemented,
}

/// The type of a resource record or question, as carried on the wire.
#[derive(Debug, Clone, Copy, PartialEq, Eq, Structural)]
pub enum ResourceRecordType {
    ARecord,
    AAAARecord,
    CNameRecord,
    MXRecord,
    NSRecord,
    PTRRecord,
    SOARecord,
    SRVRecord,
    TXTRecord,
    Unimplemented,
}

/// The class of a resource record; only the Internet class is supported.
#[derive(Debug, Clone, Copy, PartialEq, Eq, Structural)]
pub enum ResourceRecordClass {
    InternetAddress,
    Unimplemented,
}

/// The response code carried in the low four bits of the second flag byte.
#[derive(Debug, Clone, Copy, PartialEq, Eq, Structural)]
pub enum ResponseCode {
    /// No error condition.
    NoError,
    FormatError,
    ServerError,
    NameError,
    NotImplemented,
    Refused,
}

/// The fields of a start-of-authority record.
#[derive(Debug)]
pub struct SOARecord {
    pub master_name: String,
    pub mail_name: String,
    pub serial: u32,
    pub refresh: u32,
    pub retry: u32,
    pub expire: u32,
    pub minimum: u32,
}

impl SOARecord {
    /// Field-wise equality, comparing the names by their characters.
    pub open spec fn equiv(&self, other: &SOARecord) -> bool {
        &&& self.master_name@ == other.master_name@
        &&& self.mail_name@ == other.mail_name@
        &&& self.serial == other.serial
        &&& self.refresh == other.refresh
        &&& self.retry == other.retry
        &&& self.expire == other.expire
        &&& self.minimum == other.minimum
    }
}

impl PartialEq for SOARecord {
    fn eq(&self, other: &SOARecord) -> (r: bool) {
        self.master_name == other.master_name && self.mail_name == other.mail_name
            && self.serial == other.serial && self.refresh == other.refresh && self.retry
            == other.retry && self.expire == other.expire && self.minimum == other.minimum
    }
}

impl vstd::std_specs::cmp::PartialEqSpecImpl for SOARecord {
    open spec fn obeys_eq_spec() -> bool {
        true
    }

    open spec fn eq_spec(&self, other: &SOARecord) -> bool {
        self.equiv(other)
    }
}

/// The type-specific payload of a resource record.
#[derive(Debug)]
pub enum ResourceRecordData {
    /// A 32-bit IPv4 address.
    A(u32),
    /// A 128-bit IPv6 address.
    AAAA(u128),
    /// The canonical name a CNAME record points at.
    CName(String),
    /// The name of an authoritative name server.
    NS(String),
    /// A start-of-authority payload.
    SOA(SOARecord),
    /// Preference and exchange of a mail-exchanger record.
    MX(u16, String),
    /// The concatenated character strings of a TXT record.
    TXT(String),
}

impl ResourceRecordData {
    /// Variant-wise equality, comparing names by their characters.
    pub open spec fn equiv(&self, other: &ResourceRecordData) -> bool {
        match (self, other) {
            (ResourceRecordData::A(a), ResourceRecordData::A(b)) => a == b,
            (ResourceRecordData::AAAA(a), ResourceRecordData::AAAA(b)) => a == b,
            (ResourceRecordData::CName(a), ResourceRecordData::CName(b)) => a@ == b@,
            (ResourceRecordData::NS(a), ResourceRecordData::NS(b)) => a@ == b@,
            (ResourceRecordData::SOA(a), ResourceRecordData::SOA(b)) => a.equiv(b),
            (ResourceRecordData::MX(p, e), ResourceRecordData::MX(q, f)) => p == q && e@ == f@,
            (ResourceRecordData::TXT(a), ResourceRecordData::TXT(b)) => a@ == b@,
            _ => false,
        }
    }

    /// The wire type that this payload is carried under.
    pub fn get_type(&self) -> (r: ResourceRecordType)
        ensures
            r == self.spec_type(),
    {
        match self {
            ResourceRecordData::A(_) => ResourceRecordType::ARecord,
            ResourceRecordData::AAAA(_) => ResourceRecordType::AAAARecord,
            ResourceRecordData::CName(_) => ResourceRecordType::CNameRecord,
            ResourceRecordData::NS(_) => ResourceRecordType::NSRecord,
            ResourceRecordData::SOA(_) => ResourceRecordType::SOARecord,
            ResourceRecordData::MX(_, _) => ResourceRecordType::MXRecord,
            ResourceRecordData::TXT(_) => ResourceRecordType::TXTRecord,
        }
    }

    /// The wire type of each payload variant.
    pub open spec fn spec_type(&self) -> ResourceRecordType {
        match self {
            ResourceRecordData::A(_) => ResourceRecordType::ARecord,
            ResourceRecordData::AAAA(_) => ResourceRecordType::AAAARecord,
            ResourceRecordData::CName(_) => ResourceRecordType::CNameRecord,
            ResourceRecordData::NS(_) => ResourceRecordType::NSRecord,
            ResourceRecordData::SOA(_) => ResourceRecordType::SOARecord,
            ResourceRecordData::MX(_, _) => ResourceRecordType::MXRecord,
            ResourceRecordData::TXT(_) => ResourceRecordType::TXTRecord,
        }
    }
}

impl PartialEq for ResourceRecordData {
    fn eq(&self, other: &ResourceRecordData) -> (r: bool) {
        match (self, other) {
            (ResourceRecordData::A(a), ResourceRecordData::A(b)) => *a == *b,
            (ResourceRecordData::AAAA(a), ResourceRecordData::AAAA(b)) => *a == *b,
            (ResourceRecordData::CName(a), ResourceRecordData::CName(b)) => *a == *b,
            (ResourceRecordData::NS(a), ResourceRecordData::NS(b)) => *a == *b,
            (ResourceRecordData::SOA(a), ResourceRecordData::SOA(b)) => *a == *b,
            (ResourceRecordData::MX(p, e), ResourceRecordData::MX(q, f)) => *p == *q && *e == *f,
            (ResourceRecordData::TXT(a), ResourceRecordData::TXT(b)) => *a == *b,
            _ => false,
        }
    }
}

impl vstd::std_specs::cmp::PartialEqSpecImpl for ResourceRecordData {
    open spec fn obeys_eq_spec() -> bool {
        true
    }

    open spec fn eq_spec(&self, other: &ResourceRecordData) -> bool {
        self.equiv(other)
    }
}

/// One entry of the question section.
#[derive(Debug)]
pub struct Question {
    pub domain: String,
    pub question_type: ResourceRecordType,
    pub class: QuestionClass,
}

impl Question {
    /// Field-wise equality, comparing the name by its characters.
    pub open spec fn equiv(&self, other: &Question) -> bool {
        &&& self.domain@ == other.domain@
        &&& self.question_type == other.question_type
        &&& self.class == other.class
    }
}

/// One resource record of the answer, authority, or additional section.
#[derive(Debug)]
pub struct ResourceRecord {
    pub domain: String,
    pub record_type: ResourceRecordType,
    pub class: ResourceRecordClass,
    pub time_to_live: u32,
    pub data: ResourceRecordData,
}

impl ResourceRecord {
    /// Field-wise equality, comparing names by their characters.
    pub open spec fn equiv(&self, other: &ResourceRecord) -> bool {
        &&& self.domain@ == other.domain@
        &&& self.record_type == other.record_type
        &&& self.class == other.class
        &&& self.time_to_live == other.time_to_live
        &&& self.data.equiv(&other.data)
    }

    /// This record carries the given type under the given name.
    pub open spec fn is_for(&self, record_type: ResourceRecordType, domain: Seq<char>) -> bool {
        self.record_type == record_type && self.domain@ == domain
    }
}

/// A whole DNS message: header fields plus the four sections.
#[derive(Debug)]
pub struct Message {
    pub id: u16,
    pub packet_type: PacketType,
    pub op_code: u8,
    pub authoritative_answer: bool,
    pub truncation: bool,
    pub recursion_desired: bool,
    pub recursion_available: bool,
    pub response_code: ResponseCode,
    pub questions: Vec<Question>,
    pub answers: Vec<ResourceRecord>,
    pub authorities: Vec<ResourceRecord>,
    pub additional_records: Vec<ResourceRecord>,
}

/// Element-wise equivalence of two question lists.
pub open spec fn questions_equiv(a: Seq<Question>, b: Seq<Question>) -> bool {
    a.len() == b.len() && forall|i: int| 0 <= i < a.len() ==> #[trigger] a[i].equiv(&b[i])
}

/// Element-wise equivalence of two resource-record lists.
pub open spec fn records_equiv(a: Seq<ResourceRecord>, b: Seq<ResourceRecord>) -> bool {
    a.len() == b.len() && forall|i: int| 0 <= i < a.len() ==> #[trigger] a[i].equiv(&b[i])
}

impl Message {
    /// Field-wise, list-order-preserving equivalence of two messages.
    pub open spec fn equiv(&self, other: &Message) -> bool {
        &&& self.id == other.id
        &&& self.packet_type == other.packet_type
        &&& self.op_code == other.op_code
        &&& self.authoritative_answer == other.authoritative_answer
        &&& self.truncation == other.truncation
        &&& self.recursion_desired == other.recursion_desired
        &&& self.recursion_available == other.recursion_available
        &&& self.response_code == other.response_code
        &&& questions_equiv(self.questions@, other.questions@)
        &&& records_equiv(self.answers@, other.answers@)
        &&& records_equiv(self.authorities@, other.authorities@)
        &&& records_equiv(self.additional_records@, other.additional_records@)
    }

    /// The answer, authority, and additional sections in search order.
    pub open spec fn all_records(&self) -> Seq<ResourceRecord> {
        self.answers@ + self.authorities@ + self.additional_records@
    }

    /// An empty message skeleton with the given type and id.
    fn skeleton(packet_type: PacketType, id: u16) -> (r: Message)
        ensures
            r.id == id,
            r.packet_type == packet_type,
            r.op_code == 0,
            !r.authoritative_answer,
            !r.truncation,
            !r.recursion_desired,
            !r.recursion_available,
            r.response_code == ResponseCode::NoError,
            r.questions@.len() == 0,
            r.answers@.len() == 0,
            r.authorities@.len() == 0,
            r.additional_records@.len() == 0,
    {
        Message {
            id,
            packet_type: packet_type,
            op_code: 0,
            authoritative_answer: false,
            truncation: false,
            recursion_desired: false,
            recursion_available: false,
            response_code: ResponseCode::NoError,
            questions: Vec::new(),
            answers: Vec::new(),
            authorities: Vec::new(),
            additional_records: Vec::new(),
        }
    }

    /// A fresh query skeleton under a caller-chosen id.
    pub fn build_query(&self, id: u16) -> (r: Message)
        ensures
            r.id == id,
            r.packet_type == PacketType::Query,
            r.op_code == 0,
            !r.authoritative_answer,
            !r.truncation,
            !r.recursion_desired,
            !r.recursion_available,
            r.response_code == ResponseCode::NoError,
            r.questions@.len() == 0,
            r.answers@.len() == 0,
            r.authorities@.len() == 0,
            r.additional_records@.len() == 0,
    {
        Message::skeleton(PacketType::Query, id)
    }

    /// A fresh response skeleton that answers this message's id.
    pub fn build_response(&self) -> (r: Message)
        ensures
            r.id == self.id,
            r.packet_type == PacketType::Response,
            r.op_code == 0,
            !r.authoritative_answer,
            !r.truncation,
            !r.recursion_desired,
            !r.recursion_available,
            r.response_code == ResponseCode::NoError,
            r.questions@.len() == 0,
            r.answers@.len() == 0,
            r.authorities@.len() == 0,
            r.additional_records@.len() == 0,
    {
        Message::skeleton(PacketType::Response, self.id)
    }

    /// Appends a question to the question section.
    pub fn add_question(&mut self, question: &Question)
        ensures
            final(self).questions@ == old(self).questions@.push(*question),
            final(self).answers@ == old(self).answers@,
            final(self).authorities@ == old(self).authorities@,
            final(self).additional_records@ == old(self).additional_records@,
            final(self).id == old(self).id,
            final(self).packet_type == old(self).packet_type,
            final(self).op_code == old(self).op_code,
            final(self).authoritative_answer == old(self).authoritative_answer,
            final(self).truncation == old(self).truncation,
            final(self).recursion_desired == old(self).recursion_desired,
            final(self).recursion_available == old(self).recursion_available,
            final(self).response_code == old(self).response_code,
    {
        self.questions.push(question.clone());
    }

    /// Appends an answer to the answer section.
    pub fn add_answer(&mut self, answer: &ResourceRecord)
        ensures
            final(self).answers@ == old(self).answers@.push(*answer),
            final(self).questions@ == old(self).questions@,
            final(self).authorities@ == old(self).authorities@,
            final(self).additional_records@ == old(self).additional_records@,
            final(self).id == old(self).id,
            final(self).packet_type == old(self).packet_type,
            final(self).op_code == old(self).op_code,
            final(self).authoritative_answer == old(self).authoritative_answer,
            final(self).truncation == old(self).truncation,
            final(self).recursion_desired == old(self).recursion_desired,
            final(self).recursion_available == old(self).recursion_available,
            final(self).response_code == old(self).response_code,
    {
        self.answers.push(answer.clone());
    }

    /// Finds the first record of the given type under the given name,
    /// searching answers, then authorities, then additional records.
    pub fn get_record(&self, record_type: &ResourceRecordType, domain: &str) -> (r: Option<
        ResourceRecord,
    >)
        ensures
            match r {
                Some(rec) => {
                    exists|i: int|
                        {
                            &&& 0 <= i < self.all_records().len()
                            &&& #[trigger] self.all_records()[i].is_for(*record_type, domain@)
                            &&& rec == self.all_records()[i]
                            &&& forall|j: int|
                                0 <= j < i ==> !(#[trigger] self.all_records()[j]).is_for(
                                    *record_type,
                                    domain@,
                                )
                        }
                },
                None => forall|i: int|
                    0 <= i < self.all_records().len() ==> !(#[trigger] self.all_records()[i]).is_for(
                        *record_type,
                        domain@,
                    ),
            },
    {
        let ghost all = self.all_records();
        let mut i: usize = 0;
        while i < self.answers.len()
            invariant
                i <= self.answers@.len(),
                all == self.all_records(),
                forall|j: int| 0 <= j < i ==> !(#[trigger] all[j]).is_for(*record_type, domain@),
            decreases self.answers@.len() - i,
        {
            proof {
                assert(all[i as int] == self.answers@[i as int]);
            }
            let rec = &self.answers[i];
            if rec.record_type == *record_type && str_equal(rec.domain.as_str(), domain) {
                proof {
                    assert(all[i as int].is_for(*record_type, domain@));
                }
                return Some(rec.clone());
            }
            i = i + 1;
        }
        let ghost base_auth = self.answers@.len() as int;
        let mut i: usize = 0;
        while i < self.authorities.len()
            invariant
                i <= self.authorities@.len(),
                all == self.all_records(),
                base_auth == self.answers@.len(),
                forall|j: int|
                    0 <= j < base_auth + i ==> !(#[trigger] all[j]).is_for(*record_type, domain@),
            decreases self.authorities@.len() - i,
        {
            proof {
                assert(all[base_auth + i] == self.authorities@[i as int]);
            }
            let rec = &self.authorities[i];
            if rec.record_type == *record_type && str_equal(rec.domain.as_str(), domain) {
                proof {
                    assert(all[base_auth + i].is_for(*record_type, domain@));
                }
                return Some(rec.clone());
            }
            i = i + 1;
        }
        let ghost base_add = self.answers@.len() + self.authorities@.len() as int;
        let mut i: usize = 0;
        while i < self.additional_records.len()
            invariant
                i <= self.additional_records@.len(),
                all == self.all_records(),
                base_add == self.answers@.len() + self.authorities@.len(),
                forall|j: int|
                    0 <= j < base_add + i ==> !(#[trigger] all[j]).is_for(*record_type, domain@),
            decreases self.additional_records@.len() - i,
        {
            proof {
                assert(all[base_add + i] == self.additional_records@[i as int]);
            }
            let rec = &self.additional_records[i];
            if rec.record_type == *record_type && str_equal(rec.domain.as_str(), domain) {
                proof {
                    assert(all[base_add + i].is_for(*record_type, domain@));
                }
                return Some(rec.clone());
            }
            i = i + 1;
        }
        None
    }
}

/// Compares two string slices character by character.
pub fn str_equal(a: &str, b: &str) -> (r: bool)
    ensures
        r == (a@ == b@),
{
    let a_string: String = a.to_owned();
    let b_string: String = b.to_owned();
    a_string == b_string
}


impl Clone for SOARecord {
    /// An exact copy: every field of the clone equals the original's.
    fn clone(&self) -> (r: Self)
        ensures
            r == *self,
    {
        SOARecord {
            master_name: self.master_name.clone(),
            mail_name: self.mail_name.clone(),
            serial: self.serial,
            refresh: self.refresh,
            retry: self.retry,
            expire: self.expire,
            minimum: self.minimum,
        }
    }
}

impl Clone for ResourceRecordData {
    /// An exact copy: the clone equals the original.
    fn clone(&self) -> (r: Self)
        ensures
            r == *self,
    {
        match self {
            ResourceRecordData::A(v) => ResourceRecordData::A(*v),
            ResourceRecordData::AAAA(v) => ResourceRecordData::AAAA(*v),
            ResourceRecordData::CName(n) => ResourceRecordData::CName(n.clone()),
            ResourceRecordData::NS(n) => ResourceRecordData::NS(n.clone()),
            ResourceRecordData::SOA(soa) => ResourceRecordData::SOA(soa.clone()),
            ResourceRecordData::MX(p, e) => ResourceRecordData::MX(*p, e.clone()),
            ResourceRecordData::TXT(t) => ResourceRecordData::TXT(t.clone()),
        }
    }
}

impl Clone for Question {
    /// An exact copy: the clone equals the original.
    fn clone(&self) -> (r: Self)
        ensures
            r == *self,
    {
        Question {
            domain: self.domain.clone(),
            question_type: self.question_type,
            class: self.class,
        }
    }
}

impl Clone for ResourceRecord {
    /// An exact copy: the clone equals the original.
    fn clone(&self) -> (r: Self)
        ensures
            r == *self,
    {
        ResourceRecord {
            domain: self.domain.clone(),
            record_type: self.record_type,
            class: self.class,
            time_to_live: self.time_to_live,
            data: self.data.clone(),
        }
    }
}

/// Copies a question list element by element.
pub fn clone_questions(v: &Vec<Question>) -> (r: Vec<Question>)
    ensures
        r@ == v@,
{
    let mut r: Vec<Question> = Vec::new();
    let mut i: usize = 0;
    while i < v.len()
        invariant
            i <= v@.len(),
            r@ =~= v@.subrange(0, i as int),
        decreases v@.len() - i,
    {
        r.push(v[i].clone());
        i = i + 1;
    }
    proof {
        assert(r@ =~= v@);
    }
    r
}

/// Copies a resource-record list element by element.
pub fn clone_records(v: &Vec<ResourceRecord>) -> (r: Vec<ResourceRecord>)
    ensures
        r@ == v@,
{
    let mut r: Vec<ResourceRecord> = Vec::new();
    let mut i: usize = 0;
    while i < v.len()
        invariant
            i <= v@.len(),
            r@ =~= v@.subrange(0, i as int),
        decreases v@.len() - i,
    {
        r.push(v[i].clone());
        i = i + 1;
    }
    proof {
        assert(r@ =~= v@);
    }
    r
}

impl Clone for Message {
    /// A copy whose scalar fields equal the original's and whose section
    /// lists hold the same entries in the same order.
    fn clone(&self) -> (r: Self)
        ensures
            r.id == self.id,
            r.packet_type == self.packet_type,
            r.op_code == self.op_code,
            r.authoritative_answer == self.authoritative_answer,
            r.truncation == self.truncation,
            r.recursion_desired == self.recursion_desired,
            r.recursion_available == self.recursion_available,
            r.response_code == self.response_code,
            r.questions@ == self.questions@,
            r.answers@ == self.answers@,
            r.authorities@ == self.authorities@,
            r.additional_records@ == self.additional_records@,
    {
        Message {
            id: self.id,
            packet_type: self.packet_type,
            op_code: self.op_code,
            authoritative_answer: self.authoritative_answer,
            truncation: self.truncation,
            recursion_desired: self.recursion_desired,
            recursion_available: self.recursion_available,
            response_code: self.response_code,
            questions: clone_questions(&self.questions),
            answers: clone_records(&self.answers),
            authorities: clone_records(&self.authorities),
            additional_records: clone_records(&self.additional_records),
        }
    }
}

} // verus!

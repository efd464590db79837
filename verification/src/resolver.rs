//! The iterative resolution engine, as a state machine over plain values.
//!
//! Starting from the root server, the resolver builds the queried name
//! suffix by suffix (trailing labels first). For each suffix it either finds
//! a cached NS record with a cached glue address, or asks the current name
//! server for the NS set and follows the referral, asking separately for the
//! glue address when the referral does not carry it. Once every label has
//! been consumed, the original question is put to the last server reached.
//!
//! The socket work happens outside: a driver performs each `SendQuery`, and
//! hands the response back to `handle_response`.

use vstd::prelude::*;

use crate::cache::{batch_touches, expiry_at, fresh_values, HashCache};
use crate::coding::{labels_from, string_views};
use crate::errors::RecurseError;
use crate::messages::{Request, Response};
use crate::packets::{
    Message, PacketType, Question, QuestionClass, ResourceRecord, ResourceRecordClass,
    ResourceRecordData, ResourceRecordType, ResponseCode,
};

verus! {

/// The IPv4 address of the root name server the walk is seeded with,
/// 198.41.0.4, as a big-endian integer.
pub const ROOT_SERVER_IP: u32 = 0xC6290004;

/// The UDP port DNS servers answer on.
pub const DNS_PORT: u16 = 53;

/// Relies on rand::random: a uniformly drawn sixteen-bit transaction id
/// from the thread-local generator. Nothing is promised of the value.
#[verifier::external_body]
fn random_id() -> u16 {
    rand::random()
}

/// Relies on chrono::Utc::now: the current Unix timestamp in seconds.
/// Nothing is promised of the value; chrono itself aborts if the system
/// clock reads before the Unix epoch, an environmental condition no caller
/// can exclude.
#[verifier::external_body]
pub fn unix_now() -> i64 {
    chrono::Utc::now().timestamp()
}

/// Builds the single-question query a client sends upstream: a fresh random
/// transaction id, recursion desired, and one Internet-class question.
pub fn build_query_message(domain: &str, request_type: ResourceRecordType) -> (r: Message)
    ensures
        r.packet_type == PacketType::Query,
        r.op_code == 0,
        !r.authoritative_answer,
        !r.truncation,
        r.recursion_desired,
        !r.recursion_available,
        r.response_code == ResponseCode::NoError,
        r.questions@.len() == 1,
        r.questions@[0].domain@ == domain@,
        r.questions@[0].question_type == request_type,
        r.questions@[0].class == QuestionClass::InternetAddress,
        r.answers@.len() == 0,
        r.authorities@.len() == 0,
        r.additional_records@.len() == 0,
{
    let id = random_id();
    let mut questions: Vec<Question> = Vec::new();
    questions.push(
        Question {
            domain: domain.to_owned(),
            question_type: request_type,
            class: QuestionClass::InternetAddress,
        },
    );
    Message {
        id,
        packet_type: PacketType::Query,
        op_code: 0,
        authoritative_answer: false,
        truncation: false,
        recursion_desired: true,
        recursion_available: false,
        response_code: ResponseCode::NoError,
        questions,
        answers: Vec::new(),
        authorities: Vec::new(),
        additional_records: Vec::new(),
    }
}

/// The suffix built after consuming `k` labels: each consumed label,
/// newest first, followed by one dot.
pub open spec fn suffix_text(labels: Seq<String>, k: int) -> Seq<char>
    decreases k,
{
    if k <= 0 {
        Seq::empty()
    } else {
        labels[k - 1]@ + seq!['.'] + suffix_text(labels, k - 1)
    }
}

/// The glue address the cache can supply for a suffix at time `now`: the
/// first fresh NS record's target, when that target's first fresh A record
/// exists; nothing otherwise.
pub open spec fn cached_glue(cache: &HashCache, suffix: Seq<char>, now: i64) -> Option<u32> {
    match cache.lookup(suffix, ResourceRecordType::NSRecord) {
        Option::None => Option::None,
        Option::Some(values) => {
            let fresh = fresh_values(values, now);
            if fresh.len() == 0 {
                Option::None
            } else {
                match fresh[0].data {
                    ResourceRecordData::NS(target) => {
                        match cache.lookup(target@, ResourceRecordType::ARecord) {
                            Option::None => Option::None,
                            Option::Some(avalues) => {
                                let afresh = fresh_values(avalues, now);
                                if afresh.len() == 0 {
                                    Option::None
                                } else {
                                    match afresh[0].data {
                                        ResourceRecordData::A(value) => Option::Some(value),
                                        _ => Option::None,
                                    }
                                }
                            },
                        }
                    },
                    _ => Option::None,
                }
            }
        },
    }
}

/// Whether any record of the message carries the given key.
pub open spec fn message_touches(m: &Message, n: Seq<char>, t: ResourceRecordType) -> bool {
    ||| batch_touches(m.answers@, m.answers@.len() as int, n, t)
    ||| batch_touches(m.authorities@, m.authorities@.len() as int, n, t)
    ||| batch_touches(m.additional_records@, m.additional_records@.len() as int, n, t)
}

/// The cache holds, under the record's own key, an entry with its data.
pub open spec fn stored_data_equiv(cache: &HashCache, rec: ResourceRecord) -> bool {
    &&& cache.lookup(rec.domain@, rec.record_type) matches Some(vs)
    &&& exists|j: int| 0 <= j < vs.len() && (#[trigger] vs[j]).data.equiv(&rec.data)
}

/// Every stored list survives as a prefix of its successor.
pub open spec fn lists_survive(before: &HashCache, after: &HashCache) -> bool {
    forall|n: Seq<char>, t: ResourceRecordType|
        (before.lookup(n, t) is Some) ==> ((#[trigger] after.lookup(n, t) is Some)
            && after.lookup(n, t).unwrap().len() >= before.lookup(n, t).unwrap().len()
            && after.lookup(n, t).unwrap().take(before.lookup(n, t).unwrap().len() as int)
            == before.lookup(n, t).unwrap())
}

/// Record `i` is the first of the list carrying the given type and name.
pub open spec fn first_record_for(
    records: Seq<ResourceRecord>,
    t: ResourceRecordType,
    n: Seq<char>,
    i: int,
) -> bool {
    &&& 0 <= i < records.len()
    &&& records[i].is_for(t, n)
    &&& forall|j: int| 0 <= j < i ==> !(#[trigger] records[j]).is_for(t, n)
}

/// Every record of the message's three sections is stored, data-equal,
/// under its own key, and every previously stored entry survived.
pub open spec fn response_cached(before: &HashCache, after: &HashCache, m: &Message) -> bool {
    &&& lists_survive(before, after)
    &&& (forall|k: int|
        0 <= k < m.answers@.len() ==> stored_data_equiv(after, #[trigger] m.answers@[k]))
    &&& (forall|k: int|
        0 <= k < m.authorities@.len() ==> stored_data_equiv(after, #[trigger] m.authorities@[k]))
    &&& (forall|k: int|
        0 <= k < m.additional_records@.len() ==> stored_data_equiv(
            after,
            #[trigger] m.additional_records@[k],
        ))
}

/// An entry with equivalent data survives into any cache the stored lists
/// of which extend this one's.
pub proof fn lemma_membership_survives(before: &HashCache, after: &HashCache, rec: ResourceRecord)
    requires
        stored_data_equiv(before, rec),
        lists_survive(before, after),
    ensures
        stored_data_equiv(after, rec),
{
    let vs = before.lookup(rec.domain@, rec.record_type).unwrap();
    let vs2 = after.lookup(rec.domain@, rec.record_type).unwrap();
    let j = choose|j: int| 0 <= j < vs.len() && (#[trigger] vs[j]).data.equiv(&rec.data);
    assert(vs2.take(vs.len() as int)[j] == vs2[j]);
    assert(vs2[j].data.equiv(&rec.data));
}

/// What the resolver is waiting for.
#[derive(Debug)]
pub enum Pending {
    /// Nothing outstanding; the next step comes from the cache walk.
    Idle,
    /// A query for the NS set of the current suffix is in flight.
    AwaitNameServer,
    /// A query for the address of the named server is in flight.
    AwaitGlue { target: String },
    /// The final question is in flight; the next response is the answer.
    AwaitAnswer,
}

/// Survival of stored lists composes.
pub proof fn lemma_survival_trans(a: &HashCache, b: &HashCache, c: &HashCache)
    requires
        lists_survive(a, b),
        lists_survive(b, c),
    ensures
        lists_survive(a, c),
{
    assert forall|n: Seq<char>, t: ResourceRecordType|
        (a.lookup(n, t) is Some) implies ((#[trigger] c.lookup(n, t) is Some) && c.lookup(
        n,
        t,
    ).unwrap().len() >= a.lookup(n, t).unwrap().len() && c.lookup(n, t).unwrap().take(
        a.lookup(n, t).unwrap().len() as int,
    ) == a.lookup(n, t).unwrap()) by {
        let vs = a.lookup(n, t).unwrap();
        let vsm = b.lookup(n, t).unwrap();
        let vs2 = c.lookup(n, t).unwrap();
        assert(vsm.take(vs.len() as int) == vs);
        assert(vs2.take(vsm.len() as int) == vsm);
        assert forall|j: int| 0 <= j < vs.len() implies #[trigger] vs2.take(vs.len() as int)[j]
            == vs[j] by {
            assert(vs2.take(vsm.len() as int)[j] == vs2[j]);
            assert(vsm.take(vs.len() as int)[j] == vsm[j]);
            assert(vs2.take(vs.len() as int)[j] == vs2[j]);
        }
        assert(vs2.take(vs.len() as int) =~= vs);
    }
}

/// What the driver must do next.
#[derive(Debug)]
pub enum ResolveAction {
    /// Send one question to the given IPv4 address and await the response.
    SendQuery { ip: u32, domain: String, qtype: ResourceRecordType },
}

/// What a handled response means for the driver.
#[derive(Debug)]
pub enum ResolveOutcome {
    /// The walk goes on; ask `advance` for the next action.
    Continue,
    /// One more query is needed before the walk can go on.
    FollowUp { ip: u32, domain: String, qtype: ResourceRecordType },
    /// The response just handled is the final answer.
    Finished,
}

/// The resolver's whole state between steps.
#[derive(Debug)]
pub struct ResolveState {
    /// The labels of the queried name, trailing label first.
    pub labels: Vec<String>,
    /// How many labels have been folded into the suffix so far.
    pub consumed: usize,
    /// The suffix built so far, each label followed by one dot.
    pub search_domain: String,
    /// The type of the original question.
    pub qtype: ResourceRecordType,
    /// The server the next query goes to.
    pub name_server_ip: u32,
    /// What the resolver is waiting for.
    pub pending: Pending,
}

impl ResolveState {
    /// The consumed count never passes the label count, and the suffix is
    /// exactly the consumed labels, newest first, dotted.
    pub open spec fn wf(&self) -> bool {
        &&& self.consumed <= self.labels@.len()
        &&& self.search_domain@ == suffix_text(self.labels@, self.consumed as int)
    }

    /// Seeds a walk at the root server with no label consumed yet.
    pub fn start(name: &str, qtype: ResourceRecordType) -> (r: ResolveState)
        ensures
            r.wf(),
            r.consumed == 0,
            r.search_domain@.len() == 0,
            r.qtype == qtype,
            r.name_server_ip == ROOT_SERVER_IP,
            r.pending is Idle,
            r.labels@.len() == labels_from(name@, Seq::empty()).len(),
            forall|i: int|
                0 <= i < r.labels@.len() ==> (#[trigger] r.labels@[i])@ == labels_from(
                    name@,
                    Seq::empty(),
                )[r.labels@.len() - 1 - i],
            forall|i: int| 0 <= i < r.labels@.len() ==> (#[trigger] r.labels@[i])@.len() > 0,
    {
        let labels = split_labels_reversed(name);
        ResolveState {
            labels,
            consumed: 0,
            search_domain: String::new(),
            qtype,
            name_server_ip: ROOT_SERVER_IP,
            pending: Pending::Idle,
        }
    }

    /// Walks suffixes out of the cache for as long as both a fresh NS record
    /// and a fresh glue address are cached, then says which query to send:
    /// the NS set of the first suffix the cache cannot answer, or the final
    /// question once every label is consumed.
    pub fn advance(&mut self, cache: &HashCache, now: i64) -> (r: ResolveAction)
        requires
            old(self).wf(),
            old(self).pending is Idle,
            cache.wf(),
        ensures
            final(self).wf(),
            final(self).labels@ == old(self).labels@,
            final(self).qtype == old(self).qtype,
            old(self).consumed <= final(self).consumed <= final(self).labels@.len(),
            r matches ResolveAction::SendQuery { ip, domain, qtype }
                && ip == final(self).name_server_ip,
            final(self).pending is AwaitNameServer || final(self).pending is AwaitAnswer,
            final(self).pending is AwaitAnswer ==> {
                &&& final(self).consumed == final(self).labels@.len()
                &&& (r matches ResolveAction::SendQuery { ip, domain, qtype }
                    && qtype == final(self).qtype && domain@ == final(self).search_domain@)
            },
            final(self).pending is AwaitNameServer ==> {
                &&& final(self).consumed >= 1
                &&& (r matches ResolveAction::SendQuery { ip, domain, qtype }
                    && qtype == ResourceRecordType::NSRecord
                    && domain@ == final(self).search_domain@)
                // the query is sent exactly because the cache could not
                // supply both a fresh NS record and its glue address
                &&& cached_glue(cache, final(self).search_domain@, now) is None
            },
            // the walk's address is exactly the cached glue it followed: it
            // is left alone when no label came from the cache, and otherwise
            // equals the glue of the last suffix the cache answered
            final(self).consumed == old(self).consumed ==> final(self).name_server_ip == old(
                self,
            ).name_server_ip,
            (final(self).pending is AwaitNameServer && final(self).consumed == old(self).consumed
                + 1) ==> final(self).name_server_ip == old(self).name_server_ip,
            (final(self).pending is AwaitNameServer && final(self).consumed > old(self).consumed
                + 1) ==> ({
                let glue = cached_glue(
                    cache,
                    suffix_text(final(self).labels@, final(self).consumed - 1),
                    now,
                );
                glue is Some && final(self).name_server_ip == glue.unwrap()
            }),
            (final(self).pending is AwaitAnswer && final(self).consumed > old(self).consumed)
                ==> ({
                let glue = cached_glue(cache, final(self).search_domain@, now);
                glue is Some && final(self).name_server_ip == glue.unwrap()
            }),
    {
        while self.consumed < self.labels.len()
            invariant
                self.wf(),
                cache.wf(),
                self.consumed <= self.labels@.len(),
                self.consumed >= old(self).consumed,
                self.labels@ == old(self).labels@,
                self.qtype == old(self).qtype,
                self.pending is Idle,
                self.consumed == old(self).consumed ==> self.name_server_ip == old(
                    self,
                ).name_server_ip,
                self.consumed > old(self).consumed ==> ({
                    let glue = cached_glue(
                        cache,
                        suffix_text(self.labels@, self.consumed as int),
                        now,
                    );
                    glue is Some && self.name_server_ip == glue.unwrap()
                }),
            decreases self.labels@.len() - self.consumed,
        {
            let ghost before_consumed = self.consumed as int;
            let mut candidate = self.labels[self.consumed].clone();
            push_dot(&mut candidate);
            candidate.append(self.search_domain.as_str());
            self.search_domain = candidate;
            self.consumed = self.consumed + 1;
            proof {
                assert(self.search_domain@ =~= self.labels@[before_consumed]@ + seq!['.']
                    + suffix_text(self.labels@, before_consumed));
                assert(self.search_domain@ == suffix_text(self.labels@, self.consumed as int));
            }
            let cached_ip = cached_name_server(cache, self.search_domain.as_str(), now);
            match cached_ip {
                Some(ip) => {
                    self.name_server_ip = ip;
                },
                None => {
                    self.pending = Pending::AwaitNameServer;
                    return ResolveAction::SendQuery {
                        ip: self.name_server_ip,
                        domain: self.search_domain.clone(),
                        qtype: ResourceRecordType::NSRecord,
                    };
                },
            }
        }
        self.pending = Pending::AwaitAnswer;
        ResolveAction::SendQuery {
            ip: self.name_server_ip,
            domain: self.search_domain.clone(),
            qtype: self.qtype,
        }
    }

    /// Digests the response to the outstanding query. A referral with no NS
    /// record for the suffix fails with `NoNameServerError`; an address
    /// lookup with no usable A record fails with `NoARecordError`. Every
    /// record of a referral response is stored in the cache.
    pub fn handle_response(
        &mut self,
        response: &Message,
        cache: &mut HashCache,
        now: i64,
    ) -> (r: Result<ResolveOutcome, RecurseError>)
        requires
            old(self).wf(),
            !(old(self).pending is Idle),
            old(cache).wf(),
        ensures
            final(self).wf(),
            final(cache).wf(),
            final(self).labels@ == old(self).labels@,
            final(self).consumed == old(self).consumed,
            final(self).search_domain@ == old(self).search_domain@,
            final(self).qtype == old(self).qtype,
            old(self).pending is AwaitAnswer ==> (r matches Ok(o) && o is Finished),
            old(self).pending is AwaitNameServer && (forall|i: int|
                0 <= i < response.all_records().len() ==> !(
                #[trigger] response.all_records()[i]).is_for(
                    ResourceRecordType::NSRecord,
                    old(self).search_domain@,
                )) ==> (r matches Err(e) && e == RecurseError::NoNameServerError),
            // and conversely: the walk only gives up on a referral when the
            // response offers no NS record for the suffix whose payload is
            // itself a name-server name
            (old(self).pending is AwaitNameServer && (r matches Err(e) && e
                == RecurseError::NoNameServerError)) ==> !(exists|i: int|
                {
                    &&& 0 <= i < response.all_records().len()
                    &&& (#[trigger] response.all_records()[i]).is_for(
                        ResourceRecordType::NSRecord,
                        old(self).search_domain@,
                    )
                    &&& response.all_records()[i].data is NS
                    &&& forall|j: int|
                        0 <= j < i ==> !(#[trigger] response.all_records()[j]).is_for(
                            ResourceRecordType::NSRecord,
                            old(self).search_domain@,
                        )
                }),
            r matches Ok(o) ==> (o is Continue ==> final(self).pending is Idle),
            r matches Ok(o) ==> (o matches ResolveOutcome::FollowUp { ip, domain, qtype } ==> {
                &&& qtype == ResourceRecordType::ARecord
                &&& ip == final(self).name_server_ip
                &&& (final(self).pending matches Pending::AwaitGlue { target } && target@
                    == domain@)
            }),
            // a referral whose first NS record for the suffix names a server
            // is digested: the whole response is cached
            old(self).pending is AwaitNameServer && (exists|i: int|
                first_record_for(
                    response.all_records(),
                    ResourceRecordType::NSRecord,
                    old(self).search_domain@,
                    i,
                ) && (#[trigger] response.all_records()[i]).data is NS) ==> response_cached(
                &*old(cache),
                &*final(cache),
                response,
            ),
            // ... and when the response carries no address for the named
            // server, a follow-up query for it is asked, the address
            // untouched for now
            old(self).pending is AwaitNameServer ==> (forall|i: int|
                #![trigger response.all_records()[i]]
                response.all_records()[i].data matches ResourceRecordData::NS(target) ==> ((
                first_record_for(
                    response.all_records(),
                    ResourceRecordType::NSRecord,
                    old(self).search_domain@,
                    i,
                ) && (forall|k: int|
                    0 <= k < response.all_records().len() ==> !(
                    #[trigger] response.all_records()[k]).is_for(
                        ResourceRecordType::ARecord,
                        target@,
                    ))) ==> ({
                    let wanted = target@;
                    &&& (r matches Ok(o) && (o matches ResolveOutcome::FollowUp {
                        ip,
                        domain,
                        qtype,
                    } && domain@ == wanted))
                    &&& final(self).name_server_ip == old(self).name_server_ip
                }))),
            // ... and when it does carry one, the walk moves to that address
            old(self).pending is AwaitNameServer ==> (forall|i: int, k: int|
                #![trigger response.all_records()[i], response.all_records()[k]]
                response.all_records()[i].data matches ResourceRecordData::NS(target) ==> (
                response.all_records()[k].data matches ResourceRecordData::A(value) ==> ((
                first_record_for(
                    response.all_records(),
                    ResourceRecordType::NSRecord,
                    old(self).search_domain@,
                    i,
                ) && first_record_for(
                    response.all_records(),
                    ResourceRecordType::ARecord,
                    target@,
                    k,
                )) ==> ((r matches Ok(o) && o is Continue) && final(self).name_server_ip
                    == value && final(self).pending is Idle)))),
            // ... unless the record found for the target is not an address
            old(self).pending is AwaitNameServer ==> (forall|i: int, k: int|
                #![trigger response.all_records()[i], response.all_records()[k]]
                response.all_records()[i].data matches ResourceRecordData::NS(target) ==> ((
                first_record_for(
                    response.all_records(),
                    ResourceRecordType::NSRecord,
                    old(self).search_domain@,
                    i,
                ) && first_record_for(
                    response.all_records(),
                    ResourceRecordType::ARecord,
                    target@,
                    k,
                ) && !(response.all_records()[k].data is A)) ==> (r matches Err(e) && e
                    == RecurseError::NoARecordError))),
            // awaiting glue with no address in the answer: the walk fails
            // and the cache is left alone
            old(self).pending matches Pending::AwaitGlue { target } && (forall|k: int|
                0 <= k < response.all_records().len() ==> !(
                #[trigger] response.all_records()[k]).is_for(
                    ResourceRecordType::ARecord,
                    target@,
                )) ==> ((r matches Err(e) && e == RecurseError::NoARecordError) && *final(cache)
                == *old(cache)),
            // awaiting glue with an address: the walk moves there and the
            // response is cached
            old(self).pending matches Pending::AwaitGlue { target } ==> (forall|k: int|
                #![trigger response.all_records()[k]]
                response.all_records()[k].data matches ResourceRecordData::A(value) ==> (
                first_record_for(
                    response.all_records(),
                    ResourceRecordType::ARecord,
                    target@,
                    k,
                ) ==> ((r matches Ok(o) && o is Continue) && final(self).name_server_ip == value
                    && final(self).pending is Idle && response_cached(
                    &*old(cache),
                    &*final(cache),
                    response,
                )))),
            // awaiting glue with a non-address record under the target's
            // key: the walk fails, the response still cached
            old(self).pending matches Pending::AwaitGlue { target } ==> (forall|k: int|
                #![trigger response.all_records()[k]]
                (first_record_for(
                    response.all_records(),
                    ResourceRecordType::ARecord,
                    target@,
                    k,
                ) && !(response.all_records()[k].data is A)) ==> ((r matches Err(e) && e
                    == RecurseError::NoARecordError) && response_cached(
                    &*old(cache),
                    &*final(cache),
                    response,
                ))),
    {
        match &self.pending {
            Pending::Idle => {
                // excluded by the caller's obligation
                Ok(ResolveOutcome::Continue)
            },
            Pending::AwaitAnswer => Ok(ResolveOutcome::Finished),
            Pending::AwaitNameServer => {
                let ns_record = match response.get_record(
                    &ResourceRecordType::NSRecord,
                    self.search_domain.as_str(),
                ) {
                    Some(rec) => rec,
                    None => {
                        return Err(RecurseError::NoNameServerError);
                    },
                };
                let target: String = match &ns_record.data {
                    ResourceRecordData::NS(domain) => domain.clone(),
                    _ => {
                        return Err(RecurseError::NoNameServerError);
                    },
                };
                cache_message_records(cache, response, now);
                match response.get_record(&ResourceRecordType::ARecord, target.as_str()) {
                    Some(a_record) => {
                        match &a_record.data {
                            ResourceRecordData::A(value) => {
                                self.name_server_ip = *value;
                                self.pending = Pending::Idle;
                                Ok(ResolveOutcome::Continue)
                            },
                            _ => Err(RecurseError::NoARecordError),
                        }
                    },
                    None => {
                        let follow = ResolveOutcome::FollowUp {
                            ip: self.name_server_ip,
                            domain: target.clone(),
                            qtype: ResourceRecordType::ARecord,
                        };
                        self.pending = Pending::AwaitGlue { target };
                        Ok(follow)
                    },
                }
            },
            Pending::AwaitGlue { target } => {
                let target = target.clone();
                let a_record = match response.get_record(
                    &ResourceRecordType::ARecord,
                    target.as_str(),
                ) {
                    Some(rec) => rec,
                    None => {
                        return Err(RecurseError::NoARecordError);
                    },
                };
                cache_message_records(cache, response, now);
                match &a_record.data {
                    ResourceRecordData::A(value) => {
                        self.name_server_ip = *value;
                        self.pending = Pending::Idle;
                        Ok(ResolveOutcome::Continue)
                    },
                    _ => Err(RecurseError::NoARecordError),
                }
            },
        }
    }
}

/// Appends the label separator.
fn push_dot(s: &mut String)
    ensures
        final(s)@ == old(s)@.push('.'),
{
    crate::coding::push_char(s, '.');
}

/// Looks up a cached NS record for the suffix and a cached address for that
/// name server; the address, when both are fresh.
fn cached_name_server(cache: &HashCache, suffix: &str, now: i64) -> (r: Option<u32>)
    requires
        cache.wf(),
    ensures
        r == cached_glue(cache, suffix@, now),
{
    let ns_records = match cache.get(ResourceRecordType::NSRecord, suffix, now) {
        Some(records) => records,
        None => {
            return None;
        },
    };
    if ns_records.len() == 0 {
        return None;
    }
    let target: String = match &ns_records[0].data {
        ResourceRecordData::NS(domain) => domain.clone(),
        _ => {
            return None;
        },
    };
    let a_records = match cache.get(ResourceRecordType::ARecord, target.as_str(), now) {
        Some(records) => records,
        None => {
            return None;
        },
    };
    if a_records.len() == 0 {
        return None;
    }
    match &a_records[0].data {
        ResourceRecordData::A(value) => Some(*value),
        _ => None,
    }
}

/// Stores every record of a response: answers, authorities, and additional
/// records alike. Afterwards each of those records is present, data-equal,
/// under its own (name, type) key; keys the message does not carry keep
/// their lists, and every previously stored entry survives.
fn cache_message_records(cache: &mut HashCache, message: &Message, now: i64)
    requires
        old(cache).wf(),
    ensures
        final(cache).wf(),
        forall|n: Seq<char>, t: ResourceRecordType|
            !message_touches(message, n, t) ==> #[trigger] final(cache).lookup(n, t) == old(
                cache,
            ).lookup(n, t),
        lists_survive(old(cache), final(cache)),
        forall|i: int|
            0 <= i < message.answers@.len() ==> stored_data_equiv(
                final(cache),
                #[trigger] message.answers@[i],
            ),
        forall|i: int|
            0 <= i < message.authorities@.len() ==> stored_data_equiv(
                final(cache),
                #[trigger] message.authorities@[i],
            ),
        forall|i: int|
            0 <= i < message.additional_records@.len() ==> stored_data_equiv(
                final(cache),
                #[trigger] message.additional_records@[i],
            ),
{
    let ghost c0 = *old(cache);
    cache.put_resource_records(&message.answers, now);
    let ghost c1 = *cache;
    cache.put_resource_records(&message.authorities, now);
    let ghost c2 = *cache;
    cache.put_resource_records(&message.additional_records, now);
    proof {
        lemma_survival_trans(&c0, &c1, &c2);
        lemma_survival_trans(&c0, &c2, cache);
        assert forall|i: int|
            0 <= i < message.answers@.len() implies stored_data_equiv(
            cache,
            #[trigger] message.answers@[i],
        ) by {
            assert(stored_data_equiv(&c1, message.answers@[i]));
            lemma_survival_trans(&c1, &c2, cache);
            lemma_membership_survives(&c1, cache, message.answers@[i]);
        }
        assert forall|i: int|
            0 <= i < message.authorities@.len() implies stored_data_equiv(
            cache,
            #[trigger] message.authorities@[i],
        ) by {
            assert(stored_data_equiv(&c2, message.authorities@[i]));
            lemma_membership_survives(&c2, cache, message.authorities@[i]);
        }
    }
}

/// Splits a dotted name into its labels, trailing label first, skipping
/// empty labels.
fn split_labels_reversed(name: &str) -> (r: Vec<String>)
    ensures
        r@.len() == labels_from(name@, Seq::empty()).len(),
        forall|i: int|
            0 <= i < r@.len() ==> (#[trigger] r@[i])@ == labels_from(name@, Seq::empty())[r@.len()
                - 1 - i],
        forall|i: int| 0 <= i < r.len() ==> (#[trigger] r@[i])@.len() > 0,
{
    let ghost all = labels_from(name@, Seq::empty());
    let total = name.unicode_len();
    let mut forward: Vec<String> = Vec::new();
    let mut start: usize = 0;
    let mut i: usize = 0;
    proof {
        assert(name@.subrange(0, total as int) =~= name@);
        assert(name@.subrange(0, 0) =~= Seq::<char>::empty());
    }
    while i < total
        invariant
            start <= i <= total,
            total == name@.len(),
            all == labels_from(name@, Seq::empty()),
            forall|j: int| start <= j < i ==> name@[j] != '.',
            all =~= string_views(forward@) + labels_from(
                name@.subrange(i as int, total as int),
                name@.subrange(start as int, i as int),
            ),
        decreases total - i,
    {
        let ghost rest = name@.subrange(i as int, total as int);
        let ghost cur = name@.subrange(start as int, i as int);
        proof {
            assert(rest[0] == name@[i as int]);
            assert(rest.drop_first() =~= name@.subrange(i + 1, total as int));
        }
        let c: char = name.get_char(i);
        if c == '.' {
            if start < i {
                forward.push(name.substring_char(start, i).to_owned());
                proof {
                    assert(string_views(forward@) =~= string_views(
                        forward@.drop_last(),
                    ).push(cur));
                    assert((string_views(forward@.drop_last()).push(cur) + labels_from(
                        name@.subrange(i + 1, total as int),
                        Seq::empty(),
                    )) =~= string_views(forward@.drop_last()) + (seq![cur] + labels_from(
                        name@.subrange(i + 1, total as int),
                        Seq::empty(),
                    )));
                }
            } else {
                proof {
                    assert(labels_from(rest, cur) =~= Seq::<Seq<char>>::empty() + labels_from(
                        rest.drop_first(),
                        Seq::empty(),
                    ));
                    assert(labels_from(rest, cur) =~= labels_from(
                        name@.subrange(i + 1, total as int),
                        Seq::empty(),
                    ));
                }
            }
            proof {
                assert(name@.subrange(i + 1, i + 1) =~= Seq::<char>::empty());
            }
            start = i + 1;
            i = i + 1;
        } else {
            proof {
                assert(cur.push(name@[i as int]) =~= name@.subrange(start as int, i + 1));
                assert(labels_from(rest, cur) == labels_from(
                    rest.drop_first(),
                    cur.push(rest[0]),
                ));
            }
            i = i + 1;
        }
    }
    let ghost cur = name@.subrange(start as int, total as int);
    proof {
        assert(name@.subrange(total as int, total as int) =~= Seq::<char>::empty());
    }
    if start < total {
        forward.push(name.substring_char(start, total).to_owned());
        proof {
            assert(labels_from(Seq::<char>::empty(), cur) == seq![cur]);
            assert(string_views(forward@) =~= string_views(forward@.drop_last()).push(cur));
            assert(all =~= string_views(forward@));
        }
    } else {
        proof {
            assert(labels_from(Seq::<char>::empty(), cur) =~= Seq::<Seq<char>>::empty());
            assert(all =~= string_views(forward@));
        }
    }
    let mut reversed: Vec<String> = Vec::new();
    let mut k: usize = forward.len();
    while k > 0
        invariant
            k <= forward@.len(),
            all == labels_from(name@, Seq::empty()),
            all =~= string_views(forward@),
            reversed@.len() == forward@.len() - k,
            forall|j: int|
                0 <= j < reversed@.len() ==> (#[trigger] reversed@[j])@ == all[all.len() - 1 - j],
        decreases k,
    {
        k = k - 1;
        reversed.push(forward[k].clone());
        proof {
            assert(reversed@.last()@ == string_views(forward@)[k as int]);
        }
    }
    proof {
        lemma_labels_nonempty(name@, Seq::empty());
    }
    reversed
}

/// Every label the split yields is nonempty: a label is only emitted once
/// at least one character has been read into it.
proof fn lemma_labels_nonempty(s: Seq<char>, cur: Seq<char>)
    ensures
        forall|i: int| 0 <= i < labels_from(s, cur).len() ==> (#[trigger] labels_from(s, cur)[i]).len() > 0,
    decreases s.len(),
{
    if s.len() == 0 {
    } else if s[0] == '.' {
        lemma_labels_nonempty(s.drop_first(), Seq::empty());
        let head = if cur.len() > 0 {
            seq![cur]
        } else {
            Seq::<Seq<char>>::empty()
        };
        let rest = labels_from(s.drop_first(), Seq::empty());
        assert forall|i: int|
            0 <= i < labels_from(s, cur).len() implies (#[trigger] labels_from(s, cur)[i]).len()
            > 0 by {
            if i < head.len() {
                assert(labels_from(s, cur)[i] == cur);
            } else {
                assert(labels_from(s, cur)[i] == rest[i - head.len()]);
            }
        }
    } else {
        lemma_labels_nonempty(s.drop_first(), cur.push(s[0]));
        assert forall|i: int|
            0 <= i < labels_from(s, cur).len() implies (#[trigger] labels_from(s, cur)[i]).len()
            > 0 by {
            assert(labels_from(s, cur)[i] == labels_from(s.drop_first(), cur.push(s[0]))[i]);
        }
    }
}

/// How a request is answered once the cache has been consulted.
#[derive(Debug)]
pub enum HandleOutcome {
    /// The response is complete: either answered from the cache, or there
    /// was nothing to do.
    Respond(Response),
    /// The cache had no fresh answer and the client asked for recursion:
    /// resolve this name and type, then answer.
    Resolve { response: Response, domain: String, qtype: ResourceRecordType },
}

/// The handler at the end of the dispatcher's chain: answers from the cache
/// when it can, and otherwise asks for an iterative resolution.
#[derive(Debug)]
pub struct BaseHandler {
    pub cache: HashCache,
}

impl BaseHandler {
    /// A handler over an empty cache.
    pub fn new() -> (r: BaseHandler)
        ensures
            r.cache.wf(),
            r.cache.entries@.len() == 0,
    {
        BaseHandler { cache: HashCache::new() }
    }

    /// Stores every record of a message in the handler's cache: afterwards
    /// each record of its three sections is present, data-equal, under its
    /// own (name, type) key; untouched keys keep their lists.
    pub fn cache_records(&mut self, message: &Message, now: i64)
        requires
            old(self).cache.wf(),
        ensures
            final(self).cache.wf(),
            forall|n: Seq<char>, t: ResourceRecordType|
                !message_touches(message, n, t) ==> #[trigger] final(self).cache.lookup(n, t)
                    == old(self).cache.lookup(n, t),
            lists_survive(&old(self).cache, &final(self).cache),
            forall|i: int|
                0 <= i < message.answers@.len() ==> stored_data_equiv(
                    &final(self).cache,
                    #[trigger] message.answers@[i],
                ),
            forall|i: int|
                0 <= i < message.authorities@.len() ==> stored_data_equiv(
                    &final(self).cache,
                    #[trigger] message.authorities@[i],
                ),
            forall|i: int|
                0 <= i < message.additional_records@.len() ==> stored_data_equiv(
                    &final(self).cache,
                    #[trigger] message.additional_records@[i],
                ),
    {
        cache_message_records(&mut self.cache, message, now);
    }

    /// Answers a request from the cache when a fresh answer for its first
    /// question exists; otherwise reports whether recursion should run.
    /// A request with no question is answered as it stands.
    pub fn handle(&self, request: &Request, response: Response, now: i64) -> (r: HandleOutcome)
        requires
            self.cache.wf(),
        ensures
            // no question: the response goes back exactly as it came
            request.message.questions@.len() == 0 ==> (r matches HandleOutcome::Respond(resp)
                && resp == response),
            // a fresh cached answer for the first question is served: the
            // response's answers become the reconstituted fresh entries
            (request.message.questions@.len() > 0 && self.cache.lookup(
                request.message.questions@[0].domain@,
                request.message.questions@[0].question_type,
            ) is Some && fresh_values(
                self.cache.lookup(
                    request.message.questions@[0].domain@,
                    request.message.questions@[0].question_type,
                ).unwrap(),
                now,
            ).len() > 0) ==> (r matches HandleOutcome::Respond(resp) && ({
                let q = request.message.questions@[0];
                let fresh = fresh_values(
                    self.cache.lookup(q.domain@, q.question_type).unwrap(),
                    now,
                );
                &&& resp.message.answers@.len() == fresh.len()
                &&& (forall|i: int|
                    0 <= i < fresh.len() ==> {
                        &&& (#[trigger] resp.message.answers@[i]).domain@ == q.domain@
                        &&& resp.message.answers@[i].record_type == fresh[i].data.spec_type()
                        &&& resp.message.answers@[i].class
                            == ResourceRecordClass::InternetAddress
                        &&& resp.message.answers@[i].time_to_live == fresh[i].time_to_live
                        &&& resp.message.answers@[i].data == fresh[i].data
                    })
                &&& resp.message.id == response.message.id
                &&& resp.message.packet_type == response.message.packet_type
                &&& resp.message.response_code == response.message.response_code
                &&& resp.message.questions@ == response.message.questions@
                &&& resp.message.authorities@ == response.message.authorities@
                &&& resp.message.additional_records@ == response.message.additional_records@
            })),
            // no fresh cached answer: hand the question over for recursion
            // when it is desired, else answer as it stands
            (request.message.questions@.len() > 0 && !(self.cache.lookup(
                request.message.questions@[0].domain@,
                request.message.questions@[0].question_type,
            ) is Some && fresh_values(
                self.cache.lookup(
                    request.message.questions@[0].domain@,
                    request.message.questions@[0].question_type,
                ).unwrap(),
                now,
            ).len() > 0)) ==> (if request.message.recursion_desired {
                r matches HandleOutcome::Resolve { response: resp, domain, qtype } && resp
                    == response
            } else {
                r matches HandleOutcome::Respond(resp) && resp == response
            }),
            r matches HandleOutcome::Resolve { response: resp, domain, qtype } ==> {
                &&& request.message.questions@.len() > 0
                &&& request.message.recursion_desired
                &&& domain@ == request.message.questions@[0].domain@
                &&& qtype == request.message.questions@[0].question_type
            },
    {
        let mut response = response;
        if request.questions().len() == 0 {
            return HandleOutcome::Respond(response);
        }
        let question_domain = request.message.questions[0].domain.clone();
        let question_type = request.message.questions[0].question_type;
        match self.cache.get(question_type, question_domain.as_str(), now) {
            Some(records) => {
                response.set_answers(records);
                HandleOutcome::Respond(response)
            },
            None => {
                if request.recursion_desired() {
                    HandleOutcome::Resolve {
                        response,
                        domain: question_domain,
                        qtype: question_type,
                    }
                } else {
                    HandleOutcome::Respond(response)
                }
            },
        }
    }
}

} // verus!

//! The TTL-aware record cache, keyed by (name, record type).
//!
//! Each entry keeps the record data, its original time to live, and the
//! absolute expiry computed when it was stored. A lookup never returns an
//! expired entry, and a stored list never holds two entries with the same
//! data.

use vstd::prelude::*;

use crate::packets::{
    str_equal, ResourceRecord, ResourceRecordClass, ResourceRecordData, ResourceRecordType,
};

verus! {

/// One cached record body with its expiry bookkeeping.
#[derive(Debug)]
pub struct CacheValue {
    pub data: ResourceRecordData,
    pub time_to_live: u32,
    pub expiration: i64,
}

impl CacheValue {
    /// Whether the entry has passed its absolute expiry at time `now`.
    pub fn is_expired(&self, now: i64) -> (r: bool)
        ensures
            r == (now > self.expiration),
    {
        now > self.expiration
    }

    /// Captures a record at time `now`; it expires `time_to_live` seconds
    /// later, clamped to the largest representable instant.
    pub fn from_resource_record(record: &ResourceRecord, now: i64) -> (r: CacheValue)
        ensures
            r.data == record.data,
            r.time_to_live == record.time_to_live,
            r.expiration == expiry_at(now, record.time_to_live),
            r == stored_value(*record, now),
    {
        let ttl: i64 = record.time_to_live as i64;
        let expiration: i64 = if now <= i64::MAX - ttl {
            now + ttl
        } else {
            i64::MAX
        };
        CacheValue { data: record.data.clone(), time_to_live: record.time_to_live, expiration }
    }

    /// Reconstitutes a record under the given name, with the Internet class
    /// and the original (not the remaining) time to live.
    pub fn to_resource_record(&self, domain: &str) -> (r: ResourceRecord)
        ensures
            r.domain@ == domain@,
            r.record_type == self.data.spec_type(),
            r.class == ResourceRecordClass::InternetAddress,
            r.time_to_live == self.time_to_live,
            r.data == self.data,
    {
        ResourceRecord {
            domain: domain.to_owned(),
            record_type: self.data.get_type(),
            class: ResourceRecordClass::InternetAddress,
            time_to_live: self.time_to_live,
            data: self.data.clone(),
        }
    }
}

/// The value list stored last for the given key, if any.
pub open spec fn cache_lookup(
    entries: Seq<((String, ResourceRecordType), Vec<CacheValue>)>,
    domain: Seq<char>,
    record_type: ResourceRecordType,
) -> Option<Seq<CacheValue>>
    decreases entries.len(),
{
    if entries.len() == 0 {
        None
    } else if entries.last().0.0@ == domain && entries.last().0.1 == record_type {
        Some(entries.last().1@)
    } else {
        cache_lookup(entries.drop_last(), domain, record_type)
    }
}

/// The entries of `values` that are still fresh at `now`.
pub open spec fn fresh_values(values: Seq<CacheValue>, now: i64) -> Seq<CacheValue> {
    values.filter(|v: CacheValue| now <= v.expiration)
}

/// The absolute expiry an entry stored at `now` with the given time to
/// live receives, clamped to the largest representable instant.
pub open spec fn expiry_at(now: i64, ttl: u32) -> i64 {
    if now + ttl <= i64::MAX {
        (now + ttl) as i64
    } else {
        i64::MAX
    }
}

/// The cache value a record stored at `now` becomes.
pub open spec fn stored_value(record: ResourceRecord, now: i64) -> CacheValue {
    CacheValue { data: record.data, time_to_live: record.time_to_live, expiration: expiry_at(now, record.time_to_live) }
}

/// How many entries the cache already held under the key; none when the
/// key is unknown.
pub open spec fn prior_len(cache: &HashCache, n: Seq<char>, t: ResourceRecordType) -> int {
    match cache.lookup(n, t) {
        Option::Some(vs) => vs.len() as int,
        Option::None => 0,
    }
}

/// Whether one of the first `upto` records carries the given key.
pub open spec fn batch_touches(
    records: Seq<ResourceRecord>,
    upto: int,
    n: Seq<char>,
    t: ResourceRecordType,
) -> bool {
    exists|i: int|
        0 <= i < upto && (#[trigger] records[i]).domain@ == n && records[i].record_type == t
}

/// Whether no other record of the batch shares record `i`'s key.
pub open spec fn key_unique_in(records: Seq<ResourceRecord>, i: int) -> bool {
    forall|i2: int|
        0 <= i2 < records.len() && i2 != i ==> !((#[trigger] records[i2]).domain@
            == records[i].domain@ && records[i2].record_type == records[i].record_type)
}

/// An in-memory record cache keyed by (name, type).
#[derive(Debug)]
pub struct HashCache {
    pub entries: Vec<((String, ResourceRecordType), Vec<CacheValue>)>,
}

impl HashCache {
    /// No key occurs twice, and no stored list holds two entries with the
    /// same data: the duplicate-suppression rule, as an invariant.
    pub open spec fn wf(&self) -> bool {
        &&& forall|i: int, j: int|
            0 <= i < j < self.entries@.len() ==> !((#[trigger] self.entries@[i]).0.0@
                == (#[trigger] self.entries@[j]).0.0@ && self.entries@[i].0.1
                == self.entries@[j].0.1)
        &&& forall|i: int, v: int, w: int|
            #![trigger self.entries@[i].1@[v], self.entries@[i].1@[w]]
            0 <= i < self.entries@.len() && 0 <= v < w < self.entries@[i].1@.len()
                ==> !self.entries@[i].1@[v].data.equiv(&self.entries@[i].1@[w].data)
    }

    /// The stored list for a key.
    pub open spec fn lookup(
        &self,
        domain: Seq<char>,
        record_type: ResourceRecordType,
    ) -> Option<Seq<CacheValue>> {
        cache_lookup(self.entries@, domain, record_type)
    }

    /// A fresh, empty cache.
    pub fn new() -> (r: HashCache)
        ensures
            r.wf(),
            r.entries@.len() == 0,
    {
        HashCache { entries: Vec::new() }
    }

    /// The index of the entry for a key, if present.
    fn find_index(&self, domain: &str, record_type: &ResourceRecordType) -> (r: Option<usize>)
        requires
            self.wf(),
        ensures
            match r {
                Some(i) => {
                    &&& i < self.entries@.len()
                    &&& self.entries@[i as int].0.0@ == domain@
                    &&& self.entries@[i as int].0.1 == *record_type
                    &&& self.lookup(domain@, *record_type) == Some(self.entries@[i as int].1@)
                },
                None => self.lookup(domain@, *record_type) is None,
            },
    {
        let mut i: usize = self.entries.len();
        proof {
            assert(self.entries@.take(i as int) =~= self.entries@);
        }
        while i > 0
            invariant
                i <= self.entries@.len(),
                cache_lookup(self.entries@.take(i as int), domain@, *record_type) == self.lookup(
                    domain@,
                    *record_type,
                ),
            decreases i,
        {
            i = i - 1;
            proof {
                assert(self.entries@.take(i + 1).last() == self.entries@[i as int]);
                assert(self.entries@.take(i + 1).drop_last() =~= self.entries@.take(i as int));
            }
            let entry = &self.entries[i];
            if str_equal(entry.0.0.as_str(), domain) && entry.0.1 == *record_type {
                return Some(i);
            }
        }
        None
    }

    /// Answers a lookup at time `now`: the stored records under the key that
    /// are still fresh, reconstituted with their original time to live, or
    /// nothing when the key is unknown or every entry has expired.
    ///
    /// A stored entry appears in the answer exactly when `now` is at or
    /// before its absolute expiry.
    pub fn get(&self, record_type: ResourceRecordType, domain: &str, now: i64) -> (r: Option<
        Vec<ResourceRecord>,
    >)
        requires
            self.wf(),
        ensures
            self.lookup(domain@, record_type) is None ==> r is None,
            self.lookup(domain@, record_type) matches Some(values) ==> ({
                let fresh = fresh_values(values, now);
                &&& fresh.len() == 0 ==> r is None
                &&& fresh.len() > 0 ==> (r matches Some(list) && list@.len() == fresh.len()
                    && (forall|i: int|
                    0 <= i < fresh.len() ==> {
                        &&& (#[trigger] list@[i]).domain@ == domain@
                        &&& list@[i].record_type == fresh[i].data.spec_type()
                        &&& list@[i].class == ResourceRecordClass::InternetAddress
                        &&& list@[i].time_to_live == fresh[i].time_to_live
                        &&& list@[i].data == fresh[i].data
                    }))
            }),
    {
        let index = match self.find_index(domain, &record_type) {
            Some(i) => i,
            None => {
                return None;
            },
        };
        let values = &self.entries[index].1;
        let ghost all = values@;
        let mut results: Vec<ResourceRecord> = Vec::new();
        let mut i: usize = 0;
        while i < values.len()
            invariant
                i <= values@.len(),
                all == values@,
                results@.len() == fresh_values(all.take(i as int), now).len(),
                forall|j: int|
                    0 <= j < results@.len() ==> {
                        &&& (#[trigger] results@[j]).domain@ == domain@
                        &&& results@[j].record_type == fresh_values(all.take(i as int), now)[j].data.spec_type()
                        &&& results@[j].class == ResourceRecordClass::InternetAddress
                        &&& results@[j].time_to_live == fresh_values(
                            all.take(i as int),
                            now,
                        )[j].time_to_live
                        &&& results@[j].data == fresh_values(all.take(i as int), now)[j].data
                    },
            decreases values@.len() - i,
        {
            proof {
                assert(all.take(i + 1).drop_last() =~= all.take(i as int));
                assert(all.take(i + 1).last() == all[i as int]);
            }
            let value = &values[i];
            if !value.is_expired(now) {
                results.push(value.to_resource_record(domain));
            }
            proof {
                reveal_filter_step(all, now, i as int);
            }
            i = i + 1;
        }
        proof {
            assert(all.take(values@.len() as int) =~= all);
        }
        if results.is_empty() {
            return None;
        }
        Some(results)
    }

    /// Stores every given record at time `now` under its own (name, type)
    /// key. A record whose data already sits under its key is suppressed;
    /// records with different data under one key coexist.
    #[verifier::rlimit(100)]
    #[verifier::spinoff_prover]
    pub fn put_resource_records(&mut self, resource_records: &Vec<ResourceRecord>, now: i64)
        requires
            old(self).wf(),
        ensures
            final(self).wf(),
            // untouched keys keep their lists
            forall|n: Seq<char>, t: ResourceRecordType|
                !batch_touches(resource_records@, resource_records@.len() as int, n, t)
                    ==> #[trigger] final(self).lookup(n, t) == old(self).lookup(n, t),
            // stored lists only grow at the end, so earlier entries survive
            forall|n: Seq<char>, t: ResourceRecordType|
                old(self).lookup(n, t) matches Some(vs) ==> (#[trigger] final(self).lookup(n, t)
                    matches Some(vs2) && vs2.len() >= vs.len() && vs2.take(vs.len() as int)
                    == vs),
            // a record whose key is new to the cache and unique in the batch
            // ends in a one-entry list carrying its time to live and expiry
            forall|i: int|
                (0 <= i < resource_records@.len() && old(self).lookup(
                    (#[trigger] resource_records@[i]).domain@,
                    resource_records@[i].record_type,
                ) is None && key_unique_in(resource_records@, i)) ==> final(self).lookup(
                    resource_records@[i].domain@,
                    resource_records@[i].record_type,
                ) == Some(seq![(stored_value(resource_records@[i], now))]),
            // every entry a list gained is the stored value of some batch
            // record bearing that key
            forall|n: Seq<char>, t: ResourceRecordType, j: int|
                #![trigger final(self).lookup(n, t).unwrap()[j]]
                (final(self).lookup(n, t) is Some && prior_len(old(self), n, t) <= j
                    < final(self).lookup(n, t).unwrap().len()) ==> (exists|i: int|
                    0 <= i < resource_records@.len() && (#[trigger] resource_records@[i]).domain@
                        == n && resource_records@[i].record_type == t && final(self).lookup(
                        n,
                        t,
                    ).unwrap()[j] == stored_value(resource_records@[i], now)),
            // every stored record is found under its key
            forall|i: int|
                0 <= i < resource_records@.len() ==> ({
                    let rec = #[trigger] resource_records@[i];
                    &&& final(self).lookup(rec.domain@, rec.record_type) is Some
                    &&& exists|j: int|
                        {
                            &&& 0 <= j < final(self).lookup(rec.domain@, rec.record_type).unwrap().len()
                            &&& (#[trigger] final(self).lookup(
                                rec.domain@,
                                rec.record_type,
                            ).unwrap()[j]).data.equiv(&rec.data)
                        }
                }),
    {
        let mut k: usize = 0;
        while k < resource_records.len()
            invariant
                k <= resource_records@.len(),
                self.wf(),
                forall|n: Seq<char>, t: ResourceRecordType|
                    !batch_touches(resource_records@, k as int, n, t) ==> #[trigger] self.lookup(
                        n,
                        t,
                    ) == old(self).lookup(n, t),
                forall|n: Seq<char>, t: ResourceRecordType|
                    old(self).lookup(n, t) matches Some(vs) ==> (#[trigger] self.lookup(n, t)
                        matches Some(vs2) && vs2.len() >= vs.len() && vs2.take(vs.len() as int)
                        == vs),
                forall|i: int|
                    (0 <= i < k && old(self).lookup(
                        (#[trigger] resource_records@[i]).domain@,
                        resource_records@[i].record_type,
                    ) is None && key_unique_in(resource_records@, i)) ==> self.lookup(
                        resource_records@[i].domain@,
                        resource_records@[i].record_type,
                    ) == Some(seq![(stored_value(resource_records@[i], now))]),
                forall|n: Seq<char>, t: ResourceRecordType, j: int|
                    #![trigger self.lookup(n, t).unwrap()[j]]
                    (self.lookup(n, t) is Some && prior_len(old(self), n, t) <= j < self.lookup(
                        n,
                        t,
                    ).unwrap().len()) ==> (exists|i: int|
                        0 <= i < k && (#[trigger] resource_records@[i]).domain@ == n
                            && resource_records@[i].record_type == t && self.lookup(
                            n,
                            t,
                        ).unwrap()[j] == stored_value(resource_records@[i], now)),
                forall|i: int|
                    0 <= i < k ==> ({
                        let rec = #[trigger] resource_records@[i];
                        &&& self.lookup(rec.domain@, rec.record_type) is Some
                        &&& exists|j: int|
                            {
                                &&& 0 <= j < self.lookup(
                                    rec.domain@,
                                    rec.record_type,
                                ).unwrap().len()
                                &&& (#[trigger] self.lookup(
                                    rec.domain@,
                                    rec.record_type,
                                ).unwrap()[j]).data.equiv(&rec.data)
                            }
                    }),
            decreases resource_records@.len() - k,
        {
            let record = &resource_records[k];
            let ghost prev = *self;
            self.put_one(record, now);
            proof {
                assert forall|n: Seq<char>, t: ResourceRecordType, j: int|
                    #![trigger self.lookup(n, t).unwrap()[j]]
                    (self.lookup(n, t) is Some && prior_len(old(self), n, t) <= j < self.lookup(
                    n,
                    t,
                ).unwrap().len()) implies (exists|i: int|
                    0 <= i < k + 1 && (#[trigger] resource_records@[i]).domain@ == n
                        && resource_records@[i].record_type == t && self.lookup(
                        n,
                        t,
                    ).unwrap()[j] == stored_value(resource_records@[i], now)) by {
                    if record.domain@ == n && record.record_type == t {
                        if prev.lookup(n, t) is None {
                            assert(self.lookup(n, t) == Some(
                                seq![(stored_value(*record, now))],
                            ));
                            assert(resource_records@[k as int].domain@ == n);
                            assert(self.lookup(n, t).unwrap()[j] == stored_value(
                                resource_records@[k as int],
                                now,
                            ));
                        } else {
                            let vsm = prev.lookup(n, t).unwrap();
                            if j < vsm.len() {
                                assert(self.lookup(n, t).unwrap().take(vsm.len() as int)[j]
                                    == self.lookup(n, t).unwrap()[j]);
                                assert(vsm[j] == self.lookup(n, t).unwrap()[j]);
                            } else {
                                assert(self.lookup(n, t).unwrap()[j] == stored_value(
                                    resource_records@[k as int],
                                    now,
                                ));
                            }
                        }
                    } else {
                        assert(self.lookup(n, t) == prev.lookup(n, t));
                    }
                }
                assert forall|n: Seq<char>, t: ResourceRecordType|
                    !batch_touches(resource_records@, k + 1, n, t) implies #[trigger] self.lookup(
                    n,
                    t,
                ) == old(self).lookup(n, t) by {
                    assert(!batch_touches(resource_records@, k as int, n, t));
                    assert(!(resource_records@[k as int].domain@ == n
                        && resource_records@[k as int].record_type == t));
                }
                assert forall|i: int|
                    (0 <= i < k + 1 && old(self).lookup(
                        (#[trigger] resource_records@[i]).domain@,
                        resource_records@[i].record_type,
                    ) is None && key_unique_in(resource_records@, i)) implies self.lookup(
                    resource_records@[i].domain@,
                    resource_records@[i].record_type,
                ) == Some(seq![(stored_value(resource_records@[i], now))]) by {
                    if i < k {
                        assert(!(resource_records@[k as int].domain@
                            == resource_records@[i].domain@
                            && resource_records@[k as int].record_type
                            == resource_records@[i].record_type));
                        assert(self.lookup(
                            resource_records@[i].domain@,
                            resource_records@[i].record_type,
                        ) == prev.lookup(
                            resource_records@[i].domain@,
                            resource_records@[i].record_type,
                        ));
                    } else {
                        assert(!batch_touches(
                            resource_records@,
                            k as int,
                            resource_records@[i].domain@,
                            resource_records@[i].record_type,
                        ));
                        assert(prev.lookup(
                            resource_records@[i].domain@,
                            resource_records@[i].record_type,
                        ) is None);
                    }
                }
                assert forall|n: Seq<char>, t: ResourceRecordType|
                    old(self).lookup(n, t) is Some implies (#[trigger] self.lookup(n, t) is Some
                    && self.lookup(n, t).unwrap().len() >= old(self).lookup(n, t).unwrap().len()
                    && self.lookup(n, t).unwrap().take(
                    old(self).lookup(n, t).unwrap().len() as int,
                ) == old(self).lookup(n, t).unwrap()) by {
                    let vs = old(self).lookup(n, t).unwrap();
                    let vsm = prev.lookup(n, t).unwrap();
                    let vs2 = self.lookup(n, t).unwrap();
                    assert(vsm.take(vs.len() as int) == vs);
                    assert(vs2.take(vsm.len() as int) == vsm);
                    assert forall|j: int| 0 <= j < vs.len() implies #[trigger] vs2.take(
                        vs.len() as int,
                    )[j] == vs[j] by {
                        assert(vs2.take(vsm.len() as int)[j] == vs2[j]);
                        assert(vsm.take(vs.len() as int)[j] == vsm[j]);
                        assert(vs2.take(vs.len() as int)[j] == vs2[j]);
                    }
                    assert(vs2.take(vs.len() as int) =~= vs);
                }
                assert forall|i: int|
                    0 <= i < k implies ({
                        let rec = #[trigger] resource_records@[i];
                        &&& self.lookup(rec.domain@, rec.record_type) is Some
                        &&& exists|j: int|
                            {
                                &&& 0 <= j < self.lookup(
                                    rec.domain@,
                                    rec.record_type,
                                ).unwrap().len()
                                &&& (#[trigger] self.lookup(
                                    rec.domain@,
                                    rec.record_type,
                                ).unwrap()[j]).data.equiv(&rec.data)
                            }
                    }) by {
                    let rec = resource_records@[i];
                    let vs = prev.lookup(rec.domain@, rec.record_type).unwrap();
                    let j = choose|j: int|
                        0 <= j < vs.len() && (#[trigger] vs[j]).data.equiv(&rec.data);
                    let vs2 = self.lookup(rec.domain@, rec.record_type).unwrap();
                    assert(vs2.take(vs.len() as int) == vs);
                    assert(vs2.take(vs.len() as int)[j] == vs2[j]);
                    assert(vs2[j].data.equiv(&rec.data));
                }
            }
            k = k + 1;
        }
    }

    /// Stores one record, suppressing a data duplicate under its key.
    fn put_one(&mut self, record: &ResourceRecord, now: i64)
        requires
            old(self).wf(),
        ensures
            final(self).wf(),
            forall|n: Seq<char>, t: ResourceRecordType|
                !(record.domain@ == n && record.record_type == t) ==> #[trigger] final(self).lookup(
                    n,
                    t,
                ) == old(self).lookup(n, t),
            final(self).lookup(record.domain@, record.record_type) is Some,
            exists|j: int|
                {
                    &&& 0 <= j < final(self).lookup(
                        record.domain@,
                        record.record_type,
                    ).unwrap().len()
                    &&& (#[trigger] final(self).lookup(
                        record.domain@,
                        record.record_type,
                    ).unwrap()[j]).data.equiv(&record.data)
                },
            // a data duplicate is suppressed: the cache does not change
            (old(self).lookup(record.domain@, record.record_type) matches Some(vs) && exists|j: int|
                0 <= j < vs.len() && (#[trigger] vs[j]).data.equiv(&record.data))
                ==> final(self).lookup(record.domain@, record.record_type) == old(self).lookup(
                record.domain@,
                record.record_type,
            ),
            // an unseen key starts a fresh one-entry list with this record's
            // time to live and expiry
            old(self).lookup(record.domain@, record.record_type) is None ==> final(self).lookup(
                record.domain@,
                record.record_type,
            ) == Some(seq![(stored_value(*record, now))]),
            // new data under a known key is appended with this record's
            // time to live and expiry
            (old(self).lookup(record.domain@, record.record_type) matches Some(vs) && (forall|
                j: int,
            |
                0 <= j < vs.len() ==> !(#[trigger] vs[j]).data.equiv(&record.data)))
                ==> final(self).lookup(record.domain@, record.record_type) == Some(
                old(self).lookup(record.domain@, record.record_type).unwrap().push(
                    stored_value(*record, now),
                ),
            ),
            // lists only grow at the end, so every stored entry survives
            forall|n: Seq<char>, t: ResourceRecordType|
                old(self).lookup(n, t) matches Some(vs) ==> (#[trigger] final(self).lookup(n, t)
                    matches Some(vs2) && vs2.len() >= vs.len() && vs2.take(vs.len() as int)
                    == vs),
    {
        let cache_value = CacheValue::from_resource_record(record, now);
        match self.find_index(record.domain.as_str(), &record.record_type) {
            Some(index) => {
                let values = &self.entries[index].1;
                let mut found: bool = false;
                let mut v: usize = 0;
                while v < values.len() && !found
                    invariant
                        v <= values@.len(),
                        index < self.entries@.len(),
                        values == &self.entries@[index as int].1,
                        found ==> exists|j: int|
                            0 <= j < values@.len() && (#[trigger] values@[j]).data.equiv(
                                &record.data,
                            ),
                        !found ==> forall|j: int|
                            0 <= j < v ==> !(#[trigger] values@[j]).data.equiv(&record.data),
                    decreases values@.len() - v + (if found {
                        0int
                    } else {
                        1int
                    }),
                {
                    if values[v].data == record.data {
                        found = true;
                        proof {
                            assert(values@[v as int].data.equiv(&record.data));
                        }
                    } else {
                        v = v + 1;
                    }
                }
                if !found {
                    let ghost old_entries = self.entries@;
                    proof {
                        assert(values@ == old_entries[index as int].1@);
                        assert(forall|j: int|
                            0 <= j < values@.len() ==> !(#[trigger] values@[j]).data.equiv(
                                &record.data,
                            ));
                    }
                    let entry = &mut self.entries[index];
                    entry.1.push(cache_value);
                    proof {
                        assert(self.entries@.len() == old_entries.len());
                        assert(forall|i: int|
                            0 <= i < old_entries.len() && i != index ==> self.entries@[i]
                                == old_entries[i]);
                        assert(self.entries@[index as int].0 == old_entries[index as int].0);
                        assert(self.entries@[index as int].1@ =~= old_entries[index as int].1@.push(
                            cache_value,
                        ));
                        lemma_cache_update(old_entries, self.entries@, index as int);
                        assert(self.entries@[index as int].1@.last().data == record.data);
                        assert(self.entries@[index as int].1@.last().data.equiv(&record.data));
                        assert(self.lookup(record.domain@, record.record_type) == Some(
                            self.entries@[index as int].1@,
                        ));
                        assert(self.lookup(record.domain@, record.record_type).unwrap()[self.entries@[index as int].1@.len()
                            - 1].data.equiv(&record.data));
                        assert forall|i: int, v: int, w: int|
                            #![trigger self.entries@[i].1@[v], self.entries@[i].1@[w]]
                            0 <= i < self.entries@.len() && 0 <= v < w
                                < self.entries@[i].1@.len() implies !self.entries@[i].1@[v].data.equiv(
                            &self.entries@[i].1@[w].data,
                        ) by {
                            if i == index {
                                if w == self.entries@[i].1@.len() - 1 {
                                    assert(self.entries@[i].1@[v] == old_entries[i].1@[v]);
                                } else {
                                    assert(self.entries@[i].1@[v] == old_entries[i].1@[v]);
                                    assert(self.entries@[i].1@[w] == old_entries[i].1@[w]);
                                }
                            }
                        }
                    }
                } else {
                    proof {
                        lemma_cache_self(self.entries@, index as int);
                        let j = choose|j: int|
                            0 <= j < values@.len() && (#[trigger] values@[j]).data.equiv(
                                &record.data,
                            );
                        assert(self.lookup(record.domain@, record.record_type).unwrap()[j].data.equiv(
                            &record.data,
                        ));
                    }
                }
            },
            None => {
                let ghost old_entries = self.entries@;
                proof {
                    lemma_cache_none(old_entries, record.domain@, record.record_type);
                }
                let mut list: Vec<CacheValue> = Vec::new();
                list.push(cache_value);
                self.entries.push(((record.domain.clone(), record.record_type), list));
                proof {
                    assert(self.entries@.drop_last() =~= old_entries);
                    lemma_cache_push(old_entries, self.entries@);
                    assert(self.entries@.last().1@[0].data.equiv(&record.data));
                    assert(self.lookup(record.domain@, record.record_type) == Some(
                        self.entries@.last().1@,
                    ));
                    assert(self.lookup(record.domain@, record.record_type).unwrap()[0].data.equiv(
                        &record.data,
                    ));
                }
            },
        }
    }
}

/// Filtering one more element keeps or extends the filtered prefix.
pub proof fn reveal_filter_step(all: Seq<CacheValue>, now: i64, i: int)
    requires
        0 <= i < all.len(),
    ensures
        now <= all[i].expiration ==> fresh_values(all.take(i + 1), now) == fresh_values(
            all.take(i),
            now,
        ).push(all[i]),
        !(now <= all[i].expiration) ==> fresh_values(all.take(i + 1), now) == fresh_values(
            all.take(i),
            now,
        ),
{
    assert(all.take(i + 1).drop_last() =~= all.take(i));
    assert(all.take(i + 1).last() == all[i]);
    reveal(Seq::filter);
    assert(all.take(i + 1).filter(|v: CacheValue| now <= v.expiration) == (if now
        <= all[i].expiration {
        all.take(i).filter(|v: CacheValue| now <= v.expiration).push(all[i])
    } else {
        all.take(i).filter(|v: CacheValue| now <= v.expiration)
    }));
}

/// After an in-place update of entry `index`, a lookup of its key reaches
/// the updated list, and of any other key the same list as before.
pub proof fn lemma_cache_update(
    old_entries: Seq<((String, ResourceRecordType), Vec<CacheValue>)>,
    new_entries: Seq<((String, ResourceRecordType), Vec<CacheValue>)>,
    index: int,
)
    requires
        old_entries.len() == new_entries.len(),
        0 <= index < old_entries.len(),
        forall|i: int| 0 <= i < old_entries.len() && i != index ==> new_entries[i] == old_entries[i],
        new_entries[index].0 == old_entries[index].0,
        forall|i: int, j: int|
            0 <= i < j < old_entries.len() ==> !((#[trigger] old_entries[i]).0.0@
                == (#[trigger] old_entries[j]).0.0@ && old_entries[i].0.1 == old_entries[j].0.1),
    ensures
        cache_lookup(new_entries, old_entries[index].0.0@, old_entries[index].0.1) == Some(
            new_entries[index].1@,
        ),
        forall|n: Seq<char>, t: ResourceRecordType|
            !(old_entries[index].0.0@ == n && old_entries[index].0.1 == t)
                ==> #[trigger] cache_lookup(new_entries, n, t) == cache_lookup(old_entries, n, t),
    decreases old_entries.len(),
{
    if old_entries.len() == 0 {
    } else if index == old_entries.len() - 1 {
        assert(new_entries.drop_last() =~= old_entries.drop_last());
    } else {
        assert(new_entries.last() == old_entries.last());
        lemma_cache_update(old_entries.drop_last(), new_entries.drop_last(), index);
        assert(old_entries.drop_last()[index] == old_entries[index]);
        assert(new_entries.drop_last()[index] == new_entries[index]);
        assert forall|n: Seq<char>, t: ResourceRecordType|
            !(old_entries[index].0.0@ == n && old_entries[index].0.1 == t) implies #[trigger] cache_lookup(
            new_entries,
            n,
            t,
        ) == cache_lookup(old_entries, n, t) by {
            assert(cache_lookup(new_entries.drop_last(), n, t) == cache_lookup(
                old_entries.drop_last(),
                n,
                t,
            ));
        }
        assert(cache_lookup(new_entries, new_entries[index].0.0@, new_entries[index].0.1) == Some(
            new_entries[index].1@,
        ));
    }
}

/// A lookup of an entry's own key from a well-formed list finds that entry.
pub proof fn lemma_cache_self(
    entries: Seq<((String, ResourceRecordType), Vec<CacheValue>)>,
    index: int,
)
    requires
        0 <= index < entries.len(),
        forall|i: int, j: int|
            0 <= i < j < entries.len() ==> !((#[trigger] entries[i]).0.0@
                == (#[trigger] entries[j]).0.0@ && entries[i].0.1 == entries[j].0.1),
    ensures
        cache_lookup(entries, entries[index].0.0@, entries[index].0.1) == Some(entries[index].1@),
    decreases entries.len(),
{
    if index == entries.len() - 1 {
    } else {
        lemma_cache_self(entries.drop_last(), index);
        assert(entries.drop_last()[index] == entries[index]);
    }
}

/// A key that a lookup does not find occurs in no entry.
pub proof fn lemma_cache_none(
    entries: Seq<((String, ResourceRecordType), Vec<CacheValue>)>,
    n: Seq<char>,
    t: ResourceRecordType,
)
    requires
        cache_lookup(entries, n, t) is None,
    ensures
        forall|i: int|
            0 <= i < entries.len() ==> !((#[trigger] entries[i]).0.0@ == n && entries[i].0.1 == t),
    decreases entries.len(),
{
    if entries.len() > 0 {
        lemma_cache_none(entries.drop_last(), n, t);
        assert(forall|i: int|
            0 <= i < entries.len() - 1 ==> entries[i] == entries.drop_last()[i]);
    }
}

/// After appending a fresh key, a lookup of it reaches the new list, and of
/// any other key the same list as before.
pub proof fn lemma_cache_push(
    old_entries: Seq<((String, ResourceRecordType), Vec<CacheValue>)>,
    new_entries: Seq<((String, ResourceRecordType), Vec<CacheValue>)>,
)
    requires
        new_entries.len() == old_entries.len() + 1,
        new_entries.drop_last() == old_entries,
    ensures
        cache_lookup(new_entries, new_entries.last().0.0@, new_entries.last().0.1) == Some(
            new_entries.last().1@,
        ),
        forall|n: Seq<char>, t: ResourceRecordType|
            !(new_entries.last().0.0@ == n && new_entries.last().0.1 == t)
                ==> #[trigger] cache_lookup(new_entries, n, t) == cache_lookup(old_entries, n, t),
{
}

} // verus!

//! The stateful wire codec: encodes and decodes whole messages with RFC 1035
//! label compression in both directions.
//!
//! A coder is scoped to a single message. It keeps two maps: the offset at
//! which each name was first encoded (so later occurrences become two-byte
//! pointers), and the name decoded at each offset (so pointers into already
//! decoded bytes can be resolved). Offsets are meaningful only within one
//! datagram, which is why each encode or decode gets a fresh coder.

use vstd::prelude::*;

use crate::buffer::{be_u16, be_u32, read_be_u16, read_be_u32, MAX_MESSAGE_SIZE, NetworkBuffer};
use crate::errors::NetworkBufferError;
use crate::packets::{
    str_equal, Message, PacketType, Question, QuestionClass, ResourceRecord, ResourceRecordClass,
    ResourceRecordData, ResourceRecordType, ResponseCode, SOARecord,
};

verus! {

/// The longest name accepted on the wire, in octets.
pub const MAX_NAME_LENGTH: usize = 255;

/// The longest single label accepted on the wire, in octets.
pub const MAX_LABEL_LENGTH: usize = 63;

/// A character that fits in one octet of a wire label.
pub open spec fn byte_chars(s: Seq<char>) -> bool {
    forall|i: int| 0 <= i < s.len() ==> (#[trigger] s[i] as u32) < 256
}

/// The octet a name character is written as.
pub open spec fn char_byte(c: char) -> u8 {
    (c as u32) as u8
}

/// The octets of a label body, one per character.
pub open spec fn str_bytes(s: Seq<char>) -> Seq<u8> {
    Seq::new(s.len(), |i: int| char_byte(s[i]))
}

/// A label as written on the wire: a length octet, then the body.
pub open spec fn label_bytes(l: Seq<char>) -> Seq<u8> {
    seq![l.len() as u8] + str_bytes(l)
}

/// The uncompressed wire form of the part of a name still to be written,
/// given the label characters accumulated so far. A dot closes the current
/// label (empty labels are skipped); the end of the name closes the last
/// label and appends the terminating zero octet.
pub open spec fn wire_name_from(s: Seq<char>, cur: Seq<char>) -> Seq<u8>
    decreases s.len(),
{
    if s.len() == 0 {
        (if cur.len() > 0 {
            label_bytes(cur)
        } else {
            Seq::empty()
        }) + seq![0u8]
    } else if s[0] == '.' {
        (if cur.len() > 0 {
            label_bytes(cur)
        } else {
            Seq::empty()
        }) + wire_name_from(s.drop_first(), Seq::empty())
    } else {
        wire_name_from(s.drop_first(), cur.push(s[0]))
    }
}

/// The uncompressed wire form of a whole name.
pub open spec fn wire_name(s: Seq<char>) -> Seq<u8> {
    wire_name_from(s, Seq::empty())
}

/// The labels of the part of a name still to be read, given the label
/// characters accumulated so far; empty labels are skipped.
pub open spec fn labels_from(s: Seq<char>, cur: Seq<char>) -> Seq<Seq<char>>
    decreases s.len(),
{
    if s.len() == 0 {
        if cur.len() > 0 {
            seq![cur]
        } else {
            Seq::empty()
        }
    } else if s[0] == '.' {
        (if cur.len() > 0 {
            seq![cur]
        } else {
            Seq::empty()
        }) + labels_from(s.drop_first(), Seq::empty())
    } else {
        labels_from(s.drop_first(), cur.push(s[0]))
    }
}

/// The wire form of a label list: each label's octets in order, then the
/// terminating zero octet.
pub open spec fn labels_wire(ls: Seq<Seq<char>>) -> Seq<u8>
    decreases ls.len(),
{
    if ls.len() == 0 {
        seq![0u8]
    } else {
        label_bytes(ls[0]) + labels_wire(ls.drop_first())
    }
}

/// The length of the longest label in the part of a name still to be read,
/// given the length of the label accumulated so far.
pub open spec fn max_label_from(s: Seq<char>, cur: nat) -> nat
    decreases s.len(),
{
    if s.len() == 0 {
        cur
    } else if s[0] == '.' {
        let rest = max_label_from(s.drop_first(), 0);
        if cur >= rest {
            cur
        } else {
            rest
        }
    } else {
        max_label_from(s.drop_first(), cur + 1)
    }
}

/// The length of the longest dot-separated label of a name.
pub open spec fn max_label_len(s: Seq<char>) -> nat {
    max_label_from(s, 0)
}

/// The two octets of a compression pointer to `off`: the top two bits set,
/// then the offset in the remaining fourteen.
pub open spec fn pointer_bytes(off: usize) -> Seq<u8> {
    be_u16(0xc000u16 | off as u16)
}

/// The association list behind the encoder's name map: the offset recorded
/// last for `name`, if any.
pub open spec fn enc_lookup(entries: Seq<(String, usize)>, name: Seq<char>) -> Option<usize>
    decreases entries.len(),
{
    if entries.len() == 0 {
        None
    } else if entries.last().0@ == name {
        Some(entries.last().1)
    } else {
        enc_lookup(entries.drop_last(), name)
    }
}

/// The association list behind the decoder's offset map: the name recorded
/// last for `off`, if any.
pub open spec fn dec_lookup(entries: Seq<(usize, String)>, off: usize) -> Option<Seq<char>>
    decreases entries.len(),
{
    if entries.len() == 0 {
        None
    } else if entries.last().0 == off {
        Some(entries.last().1@)
    } else {
        dec_lookup(entries.drop_last(), off)
    }
}

/// The per-message codec state: both compression maps.
pub struct MessageCoder {
    /// Name to the wire offset of its first occurrence, for the encode side.
    pub encoded_names: Vec<(String, usize)>,
    /// Wire offset to the fully qualified name decoded there, for pointers.
    pub decoded_names: Vec<(usize, String)>,
}

impl MessageCoder {
    /// Every recorded encode-side offset fits in a compression pointer, and
    /// every recorded decoded name is made of octet characters.
    pub open spec fn wf(&self) -> bool {
        &&& forall|i: int|
            0 <= i < self.encoded_names@.len() ==> (#[trigger] self.encoded_names@[i]).1
                < MAX_MESSAGE_SIZE
        &&& forall|i: int|
            0 <= i < self.decoded_names@.len() ==> byte_chars(
                (#[trigger] self.decoded_names@[i]).1@,
            )
    }

    /// The offset recorded for `name`, if it has been encoded before.
    pub open spec fn enc_offset(&self, name: Seq<char>) -> Option<usize> {
        enc_lookup(self.encoded_names@, name)
    }

    /// The name decoded at `off`, if that offset has been seen.
    pub open spec fn dec_name(&self, off: usize) -> Option<Seq<char>> {
        dec_lookup(self.decoded_names@, off)
    }

    /// A fresh coder with both maps empty.
    pub fn new() -> (r: MessageCoder)
        ensures
            r.wf(),
            r.encoded_names@.len() == 0,
            r.decoded_names@.len() == 0,
    {
        MessageCoder { encoded_names: Vec::new(), decoded_names: Vec::new() }
    }

    /// Records that `name` was first written at the buffer's current write
    /// cursor, so that later occurrences can point back to it.
    pub fn set_compressed_name(&mut self, name: &str, buf: &NetworkBuffer)
        requires
            old(self).wf(),
            buf.write_cursor < MAX_MESSAGE_SIZE,
        ensures
            final(self).wf(),
            final(self).encoded_names@.len() == old(self).encoded_names@.len() + 1,
            final(self).encoded_names@.last().0@ == name@,
            final(self).encoded_names@.last().1 == buf.write_cursor,
            final(self).encoded_names@.drop_last() == old(self).encoded_names@,
            final(self).enc_offset(name@) == Some(buf.write_cursor),
            forall|n: Seq<char>|
                n != name@ ==> #[trigger] final(self).enc_offset(n) == old(self).enc_offset(n),
            final(self).decoded_names@ == old(self).decoded_names@,
    {
        let compressed_index = buf.write_count();
        self.encoded_names.push((name.to_owned(), compressed_index));
        proof {
            assert(self.encoded_names@.drop_last() =~= old(self).encoded_names@);
            assert forall|n: Seq<char>| n != name@ implies #[trigger] self.enc_offset(n) == old(
                self,
            ).enc_offset(n) by {
                assert(self.encoded_names@.last().0@ == name@);
            }
        }
    }

    /// The offset under which `domain` was first encoded, if any.
    pub fn get_compressed_name(&self, domain: &str) -> (r: Option<usize>)
        ensures
            r == self.enc_offset(domain@),
    {
        let mut i: usize = self.encoded_names.len();
        proof {
            assert(self.encoded_names@.take(i as int) =~= self.encoded_names@);
        }
        while i > 0
            invariant
                i <= self.encoded_names@.len(),
                enc_lookup(self.encoded_names@.take(i as int), domain@) == self.enc_offset(
                    domain@,
                ),
            decreases i,
        {
            i = i - 1;
            let entry = &self.encoded_names[i];
            proof {
                assert(self.encoded_names@.take(i + 1).last() == self.encoded_names@[i as int]);
                assert(self.encoded_names@.take(i + 1).drop_last() =~= self.encoded_names@.take(
                    i as int,
                ));
            }
            if str_equal(entry.0.as_str(), domain) {
                return Some(entry.1);
            }
        }
        None
    }

    /// Encodes one label: its length octet, then one octet per character.
    ///
    /// A label longer than 63 octets is rejected with
    /// `InvalidLabelLengthError` before anything is written; a label that
    /// does not fit in the buffer fails with `BufferFullError`.
    pub fn encode_label(&mut self, label: &str, buf: &mut NetworkBuffer) -> (r: Result<
        usize,
        NetworkBufferError,
    >)
        requires
            old(buf).wf(),
            byte_chars(label@),
        ensures
            *final(self) == *old(self),
            final(buf).wf(),
            final(buf).read_cursor == old(buf).read_cursor,
            r is Err ==> (r matches Err(e) && (e is InvalidLabelLengthError
                || e is BufferFullError)),
            old(buf).write_cursor < MAX_MESSAGE_SIZE ==> final(buf).write_cursor
                < MAX_MESSAGE_SIZE,
            label@.len() > MAX_LABEL_LENGTH ==> (r matches Err(e) && e is InvalidLabelLengthError)
                && *final(buf) == *old(buf),
            label@.len() <= MAX_LABEL_LENGTH && old(buf).write_cursor + label@.len() + 1
                < MAX_MESSAGE_SIZE ==> {
                &&& r matches Ok(n) && n == label@.len() + 1
                &&& final(buf).write_cursor == old(buf).write_cursor + label@.len() + 1
                &&& final(buf).buf@ =~= splice(
                    old(buf).buf@,
                    old(buf).write_cursor as int,
                    label_bytes(label@),
                )
            },
            label@.len() <= MAX_LABEL_LENGTH && old(buf).write_cursor + label@.len() + 1
                >= MAX_MESSAGE_SIZE ==> (r matches Err(e) && e is BufferFullError),
    {
        let total = label.unicode_len();
        if total > MAX_LABEL_LENGTH {
            return Err(NetworkBufferError::InvalidLabelLengthError(label.to_owned()));
        }
        let res = buf.put_u8(total as u8);
        if res.is_err() {
            return Err(NetworkBufferError::BufferFullError);
        }
        let ghost wc0 = old(buf).write_cursor as int;
        let mut i: usize = 0;
        while i < total
            invariant
                byte_chars(label@),
                total == label@.len() <= MAX_LABEL_LENGTH,
                i <= total,
                old(buf).wf(),
                buf.wf(),
                buf.read_cursor == old(buf).read_cursor,
                wc0 == old(buf).write_cursor,
                wc0 + 1 + i <= MAX_MESSAGE_SIZE - 1,
                buf.write_cursor == wc0 + 1 + i,
                buf.buf@ =~= splice(old(buf).buf@, wc0, label_bytes(label@).take(1 + i)),
            decreases total - i,
        {
            let c: char = label.get_char(i);
            let code: u32 = c as u32;
            let res = buf.put_u8(code as u8);
            if res.is_err() {
                return Err(NetworkBufferError::BufferFullError);
            }
            proof {
                assert(label_bytes(label@)[1 + i] == char_byte(label@[i as int]));
                lemma_splice_extend(old(buf).buf@, wc0, label_bytes(label@), 1 + i, char_byte(label@[i as int]));
            }
            i = i + 1;
        }
        proof {
            assert(label_bytes(label@).take(1 + total) =~= label_bytes(label@));
        }
        Ok(total + 1)
    }

    /// Encodes a whole name: either a two-octet pointer back to its first
    /// occurrence, or its labels followed by the terminating zero octet.
    ///
    /// A name longer than 255 octets is rejected with
    /// `InvalidNameLengthError` before anything is written. A fresh name is
    /// recorded under the current write cursor so that later occurrences
    /// compress to a pointer.
    pub fn encode_name(&mut self, name: &str, buf: &mut NetworkBuffer) -> (r: Result<
        usize,
        NetworkBufferError,
    >)
        requires
            old(self).wf(),
            old(buf).wf(),
            old(buf).write_cursor < MAX_MESSAGE_SIZE,
            byte_chars(name@),
        ensures
            final(self).wf(),
            final(buf).wf(),
            final(buf).read_cursor == old(buf).read_cursor,
            final(self).decoded_names@ == old(self).decoded_names@,
            r is Err ==> (r matches Err(e) && (e is InvalidNameLengthError
                || e is InvalidLabelLengthError || e is BufferFullError)),
            r matches Ok(n) ==> n <= MAX_MESSAGE_SIZE && final(buf).write_cursor
                == old(buf).write_cursor + n,
            final(buf).write_cursor < MAX_MESSAGE_SIZE,
            name@.len() > MAX_NAME_LENGTH ==> (r matches Err(e) && e is InvalidNameLengthError)
                && *final(buf) == *old(buf) && *final(self) == *old(self),
            name@.len() <= MAX_NAME_LENGTH && old(self).enc_offset(name@) is Some ==> {
                &&& *final(self) == *old(self)
                &&& (old(buf).write_cursor + 2 < MAX_MESSAGE_SIZE ==> {
                    &&& r matches Ok(n) && n == 2
                    &&& final(buf).write_cursor == old(buf).write_cursor + 2
                    &&& final(buf).buf@ =~= splice(
                        old(buf).buf@,
                        old(buf).write_cursor as int,
                        pointer_bytes(old(self).enc_offset(name@).unwrap()),
                    )
                })
                &&& (old(buf).write_cursor + 2 >= MAX_MESSAGE_SIZE ==> (r matches Err(e)
                    && e is BufferFullError) && *final(buf) == *old(buf))
            },
            name@.len() <= MAX_NAME_LENGTH && old(self).enc_offset(name@) is None ==> {
                &&& final(self).enc_offset(name@) == Some(old(buf).write_cursor)
                &&& forall|n: Seq<char>|
                    n != name@ ==> #[trigger] final(self).enc_offset(n) == old(self).enc_offset(n)
                &&& (max_label_len(name@) <= MAX_LABEL_LENGTH && old(buf).write_cursor + wire_name(
                    name@,
                ).len() < MAX_MESSAGE_SIZE ==> {
                    &&& r matches Ok(n) && n == wire_name(name@).len()
                    &&& final(buf).write_cursor == old(buf).write_cursor + wire_name(name@).len()
                    &&& final(buf).buf@ =~= splice(
                        old(buf).buf@,
                        old(buf).write_cursor as int,
                        wire_name(name@),
                    )
                })
                &&& (!(max_label_len(name@) <= MAX_LABEL_LENGTH && old(buf).write_cursor
                    + wire_name(name@).len() < MAX_MESSAGE_SIZE) ==> r is Err)
            },
    {
        let total = name.unicode_len();
        if total > MAX_NAME_LENGTH {
            return Err(NetworkBufferError::InvalidNameLengthError(name.to_owned()));
        }
        let starting_index = buf.write_count();
        match self.get_compressed_name(name) {
            Some(index) => {
                proof {
                    lemma_enc_lookup_some_in(self.encoded_names@, name@, index);
                }
                return self.write_compressed_name(index, buf);
            },
            None => {},
        }
        self.set_compressed_name(name, buf);
        let ghost wc0 = old(buf).write_cursor as int;
        let ghost w_all = wire_name(name@);
        let ghost mut pmax: nat = 0;
        let mut start: usize = 0;
        let mut i: usize = 0;
        proof {
            assert(name@.subrange(0, total as int) =~= name@);
            assert(name@.subrange(0, 0) =~= Seq::<char>::empty());
            assert(w_all.take(0) =~= Seq::<u8>::empty());
            assert(buf.buf@ =~= splice(old(buf).buf@, wc0, w_all.take(0)));
        }
        while i < total
            invariant
                old(buf).wf(),
                buf.wf(),
                byte_chars(name@),
                total == name@.len() <= MAX_NAME_LENGTH,
                start <= i <= total,
                wc0 == old(buf).write_cursor,
                0 <= wc0 < MAX_MESSAGE_SIZE,
                buf.read_cursor == old(buf).read_cursor,
                w_all == wire_name(name@),
                self.wf(),
                old(self).enc_offset(name@) is None,
                self.enc_offset(name@) == Some(old(buf).write_cursor),
                forall|n: Seq<char>|
                    n != name@ ==> #[trigger] self.enc_offset(n) == old(self).enc_offset(n),
                self.decoded_names@ == old(self).decoded_names@,
                forall|j: int| start <= j < i ==> name@[j] != '.',
                wc0 <= buf.write_cursor <= MAX_MESSAGE_SIZE - 1,
                buf.write_cursor - wc0 <= w_all.len(),
                w_all =~= w_all.take(buf.write_cursor - wc0) + wire_name_from(
                    name@.subrange(i as int, total as int),
                    name@.subrange(start as int, i as int),
                ),
                buf.buf@ =~= splice(old(buf).buf@, wc0, w_all.take(buf.write_cursor - wc0)),
                pmax <= MAX_LABEL_LENGTH,
                max_label_len(name@) == nat_max(
                    pmax,
                    max_label_from(name@.subrange(i as int, total as int), (i - start) as nat),
                ),
            decreases total - i,
        {
            let ghost rest = name@.subrange(i as int, total as int);
            let ghost cur = name@.subrange(start as int, i as int);
            let ghost w = buf.write_cursor - wc0;
            proof {
                assert(rest[0] == name@[i as int]);
                assert(rest.drop_first() =~= name@.subrange(i + 1, total as int));
            }
            let c: char = name.get_char(i);
            if c == '.' {
                if start < i {
                    let label = name.substring_char(start, i);
                    let res = self.encode_label(label, buf);
                    match res {
                        Ok(_) => {},
                        Err(e) => {
                            proof {
                                if (e is InvalidLabelLengthError) {
                                    lemma_max_from_ge_cur(rest, (i - start) as nat);
                                } else {
                                    lemma_wire_from_len_pos(
                                        name@.subrange(i + 1, total as int),
                                        Seq::empty(),
                                    );
                                }
                            }
                            return Err(e);
                        },
                    }
                    proof {
                        lemma_splice_splice(old(buf).buf@, wc0, w_all.take(w), label_bytes(cur));
                        assert(w_all.take(w + label_bytes(cur).len() as int) =~= w_all.take(w)
                            + label_bytes(cur));
                        assert(w_all =~= w_all.take(buf.write_cursor - wc0) + wire_name_from(
                            name@.subrange(i + 1, total as int),
                            Seq::empty(),
                        ));
                        pmax = nat_max(pmax, (i - start) as nat);
                    }
                } else {
                    proof {
                        assert(wire_name_from(rest, cur) =~= Seq::<u8>::empty() + wire_name_from(
                            rest.drop_first(),
                            Seq::empty(),
                        ));
                        assert(wire_name_from(rest, cur) =~= wire_name_from(
                            name@.subrange(i + 1, total as int),
                            Seq::empty(),
                        ));
                    }
                }
                proof {
                    assert(name@.subrange(i + 1, total as int).subrange(
                        0,
                        0,
                    ) =~= Seq::<char>::empty());
                    assert(name@.subrange(i + 1, i + 1) =~= Seq::<char>::empty());
                }
                start = i + 1;
                i = i + 1;
            } else {
                proof {
                    assert(cur.push(name@[i as int]) =~= name@.subrange(start as int, i + 1));
                    assert(wire_name_from(rest, cur) == wire_name_from(
                        rest.drop_first(),
                        cur.push(rest[0]),
                    ));
                }
                i = i + 1;
            }
        }
        let ghost cur = name@.subrange(start as int, total as int);
        let ghost w = buf.write_cursor - wc0;
        proof {
            assert(name@.subrange(total as int, total as int) =~= Seq::<char>::empty());
        }
        if start < total {
            let label = name.substring_char(start, total);
            let res = self.encode_label(label, buf);
            match res {
                Ok(_) => {},
                Err(e) => {
                    proof {
                        if (e is InvalidLabelLengthError) {
                            lemma_max_from_ge_cur(Seq::<char>::empty(), (total - start) as nat);
                        }
                    }
                    return Err(e);
                },
            }
            proof {
                lemma_splice_splice(old(buf).buf@, wc0, w_all.take(w), label_bytes(cur));
                assert(w_all.take(w + label_bytes(cur).len() as int) =~= w_all.take(w)
                    + label_bytes(cur));
            }
        }
        let ghost w2 = buf.write_cursor - wc0;
        let res = buf.put_u8(0x00);
        if res.is_err() {
            return Err(NetworkBufferError::BufferFullError);
        }
        proof {
            assert(w_all[w2] == 0u8);
            lemma_splice_extend(old(buf).buf@, wc0, w_all, w2, 0u8);
            assert(w_all.take(w2 + 1) =~= w_all);
        }
        let written = buf.write_count() - starting_index;
        Ok(written)
    }

    /// Encodes the twelve-octet header: id, the two flag octets, then the
    /// four section counts taken from the list lengths.
    #[verifier::rlimit(80)]
    #[verifier::spinoff_prover]
    pub fn encode_header(&mut self, message: &Message, buf: &mut NetworkBuffer) -> (r: Result<
        usize,
        NetworkBufferError,
    >)
        requires
            old(buf).wf(),
            old(buf).write_cursor <= MAX_MESSAGE_SIZE,
            message.questions@.len() <= 0xffff,
            message.answers@.len() <= 0xffff,
            message.authorities@.len() <= 0xffff,
            message.additional_records@.len() <= 0xffff,
        ensures
            *final(self) == *old(self),
            final(buf).wf(),
            final(buf).read_cursor == old(buf).read_cursor,
            r is Err ==> (r matches Err(e) && e is BufferFullError),
            old(buf).write_cursor + 12 < MAX_MESSAGE_SIZE ==> {
                &&& r matches Ok(n) && n == 12
                &&& final(buf).write_cursor == old(buf).write_cursor + 12
                &&& final(buf).buf@ =~= splice(
                    old(buf).buf@,
                    old(buf).write_cursor as int,
                    wire_header(message),
                )
            },
            old(buf).write_cursor + 12 >= MAX_MESSAGE_SIZE ==> r is Err,
    {
        let ghost wc0 = old(buf).write_cursor as int;
        let ghost w_all = wire_header(message);
        proof {
            assert(be_u16(message.id).len() == 2);
            assert(seq![flag_byte1(message), flag_byte2(message)].len() == 2);
            assert(be_u16(message.questions@.len() as u16).len() == 2);
            assert(be_u16(message.answers@.len() as u16).len() == 2);
            assert(be_u16(message.authorities@.len() as u16).len() == 2);
            assert(be_u16(message.additional_records@.len() as u16).len() == 2);
            assert(w_all.len() == 12);
            assert(buf.buf@ =~= splice(old(buf).buf@, wc0, w_all.take(0)));
        }
        let res = buf.put_u16(message.id);
        if res.is_err() {
            return Err(NetworkBufferError::BufferFullError);
        }
        proof {
            assert(w_all[0] == be_u16(message.id)[0]);
            assert(w_all[1] == be_u16(message.id)[1]);
            assert(buf.buf@ =~= splice(old(buf).buf@, wc0, w_all.take(2)));
        }
        let mut options: u8 = match message.packet_type {
            PacketType::Query => 0x00,
            PacketType::Response => 0x80,
        };
        options = options | ((message.op_code & 0x0F) << 3u8);
        options = options | (if message.authoritative_answer {
            0x04
        } else {
            0x00
        });
        options = options | (if message.truncation {
            0x02
        } else {
            0x00
        });
        options = options | (if message.recursion_desired {
            0x01
        } else {
            0x00
        });
        proof {
            assert(options == flag_byte1(message));
        }
        let res = buf.put_u8(options);
        if res.is_err() {
            return Err(NetworkBufferError::BufferFullError);
        }
        proof {
            assert(w_all[2] == flag_byte1(message));
            assert(buf.buf@ =~= splice(old(buf).buf@, wc0, w_all.take(3)));
        }
        let mut options2: u8 = if message.recursion_available {
            0x80
        } else {
            0x00
        };
        let code: u8 = match message.response_code {
            ResponseCode::NoError => 0,
            ResponseCode::FormatError => 1,
            ResponseCode::ServerError => 2,
            ResponseCode::NameError => 3,
            ResponseCode::NotImplemented => 4,
            ResponseCode::Refused => 5,
        };
        options2 = options2 | (code & 0x0F);
        proof {
            assert(options2 == flag_byte2(message));
        }
        let res = buf.put_u8(options2);
        if res.is_err() {
            return Err(NetworkBufferError::BufferFullError);
        }
        proof {
            assert(w_all[3] == flag_byte2(message));
            assert(buf.buf@ =~= splice(old(buf).buf@, wc0, w_all.take(4)));
        }
        let res = buf.put_u16(self.len_as_u16(&message.questions));
        if res.is_err() {
            return Err(NetworkBufferError::BufferFullError);
        }
        proof {
            assert(w_all[4] == be_u16(message.questions@.len() as u16)[0]);
            assert(w_all[5] == be_u16(message.questions@.len() as u16)[1]);
            assert(buf.buf@ =~= splice(old(buf).buf@, wc0, w_all.take(6)));
        }
        let res = buf.put_u16(self.rlen_as_u16(&message.answers));
        if res.is_err() {
            return Err(NetworkBufferError::BufferFullError);
        }
        proof {
            assert(w_all[6] == be_u16(message.answers@.len() as u16)[0]);
            assert(w_all[7] == be_u16(message.answers@.len() as u16)[1]);
            assert(buf.buf@ =~= splice(old(buf).buf@, wc0, w_all.take(8)));
        }
        let res = buf.put_u16(self.rlen_as_u16(&message.authorities));
        if res.is_err() {
            return Err(NetworkBufferError::BufferFullError);
        }
        proof {
            assert(w_all[8] == be_u16(message.authorities@.len() as u16)[0]);
            assert(w_all[9] == be_u16(message.authorities@.len() as u16)[1]);
            assert(buf.buf@ =~= splice(old(buf).buf@, wc0, w_all.take(10)));
        }
        let res = buf.put_u16(self.rlen_as_u16(&message.additional_records));
        if res.is_err() {
            return Err(NetworkBufferError::BufferFullError);
        }
        proof {
            assert(w_all[10] == be_u16(message.additional_records@.len() as u16)[0]);
            assert(w_all[11] == be_u16(message.additional_records@.len() as u16)[1]);
            assert(buf.buf@ =~= splice(old(buf).buf@, wc0, w_all.take(12)));
            assert(w_all.take(12) =~= w_all);
        }
        Ok(12)
    }

    /// Encodes one question: its name, then the type and class fields.
    pub fn encode_question(&mut self, question: &Question, buf: &mut NetworkBuffer) -> (r: Result<
        (),
        NetworkBufferError,
    >)
        requires
            old(self).wf(),
            old(buf).wf(),
            old(buf).write_cursor < MAX_MESSAGE_SIZE,
            byte_chars(question.domain@),
        ensures
            final(self).wf(),
            final(buf).wf(),
            final(buf).read_cursor == old(buf).read_cursor,
            final(self).decoded_names@ == old(self).decoded_names@,
            forall|n: Seq<char>|
                n != question.domain@ ==> #[trigger] final(self).enc_offset(n) == old(
                    self,
                ).enc_offset(n),
            r is Err ==> (r matches Err(e) && (e is InvalidNameLengthError
                || e is InvalidLabelLengthError || e is BufferFullError || e is InvalidPacket)),
            final(buf).write_cursor < MAX_MESSAGE_SIZE,
            question.class is Unimplemented ==> (r matches Err(e) && e is InvalidPacket)
                && *final(buf) == *old(buf) && *final(self) == *old(self),
            !(question.class is Unimplemented) && question.question_type is Unimplemented ==> (
            r matches Err(e) && e is InvalidPacket) && *final(buf) == *old(buf) && *final(self)
                == *old(self),
            ({
                &&& question.class is InternetAddress
                &&& !(question.question_type is Unimplemented)
                &&& old(self).enc_offset(question.domain@) is None
                &&& question.domain@.len() <= MAX_NAME_LENGTH
                &&& max_label_len(question.domain@) <= MAX_LABEL_LENGTH
                &&& old(buf).write_cursor + wire_question(question).len() < MAX_MESSAGE_SIZE
            }) ==> {
                &&& r is Ok
                &&& final(buf).write_cursor == old(buf).write_cursor + wire_question(question).len()
                &&& final(buf).buf@ =~= splice(
                    old(buf).buf@,
                    old(buf).write_cursor as int,
                    wire_question(question),
                )
                &&& final(self).enc_offset(question.domain@) == Some(old(buf).write_cursor)
            },
            // a name already recorded is written as its two-octet pointer,
            // followed by the type and class fields
            ({
                &&& question.class is InternetAddress
                &&& !(question.question_type is Unimplemented)
                &&& question.domain@.len() <= MAX_NAME_LENGTH
                &&& old(self).enc_offset(question.domain@) is Some
                &&& old(buf).write_cursor + 6 < MAX_MESSAGE_SIZE
            }) ==> {
                &&& r is Ok
                &&& *final(self) == *old(self)
                &&& final(buf).write_cursor == old(buf).write_cursor + 6
                &&& final(buf).buf@ =~= splice(
                    old(buf).buf@,
                    old(buf).write_cursor as int,
                    pointer_bytes(old(self).enc_offset(question.domain@).unwrap()) + be_u16(
                        qtype_code(question.question_type),
                    ) + be_u16(1u16),
                )
            },
    {
        match question.class {
            QuestionClass::InternetAddress => {},
            QuestionClass::Unimplemented => {
                return Err(NetworkBufferError::InvalidPacket);
            },
        }
        if question.question_type == ResourceRecordType::Unimplemented {
            return Err(NetworkBufferError::InvalidPacket);
        }
        let ghost wc0 = old(buf).write_cursor as int;
        let ghost na = wire_name(question.domain@);
        let res = self.encode_name(question.domain.as_str(), buf);
        match res {
            Ok(_) => {},
            Err(e) => {
                return Err(e);
            },
        }
        let type_bytes: u16 = match question.question_type {
            ResourceRecordType::ARecord => 0x0001,
            ResourceRecordType::AAAARecord => 0x001C,
            ResourceRecordType::NSRecord => 0x0002,
            ResourceRecordType::CNameRecord => 0x0005,
            ResourceRecordType::MXRecord => 0x000f,
            ResourceRecordType::SOARecord => 0x0006,
            ResourceRecordType::PTRRecord => 0x000c,
            ResourceRecordType::SRVRecord => 0x0021,
            ResourceRecordType::TXTRecord => 0x0010,
            ResourceRecordType::Unimplemented => 0x0000,
        };
        proof {
            assert(type_bytes == qtype_code(question.question_type));
        }
        let ghost fresh_path = old(self).enc_offset(question.domain@) is None
            && question.domain@.len() <= MAX_NAME_LENGTH && max_label_len(question.domain@)
            <= MAX_LABEL_LENGTH && old(buf).write_cursor + wire_question(question).len()
            < MAX_MESSAGE_SIZE;
        let ghost ptr_path = old(self).enc_offset(question.domain@) is Some
            && question.domain@.len() <= MAX_NAME_LENGTH && old(buf).write_cursor + 6
            < MAX_MESSAGE_SIZE;
        let ghost pb = if old(self).enc_offset(question.domain@) is Some {
            pointer_bytes(old(self).enc_offset(question.domain@).unwrap())
        } else {
            Seq::<u8>::empty()
        };
        proof {
            if fresh_path {
                assert(wire_question(question).len() == na.len() + 4);
            }
        }
        let ghost buf1 = buf.buf@;
        let res = buf.put_u16(type_bytes);
        if res.is_err() {
            return Err(NetworkBufferError::BufferFullError);
        }
        proof {
            if fresh_path {
                assert(buf.buf@ =~= splice(
                    buf1,
                    wc0 + na.len(),
                    be_u16(qtype_code(question.question_type)),
                ));
                lemma_splice_splice(
                    old(buf).buf@,
                    wc0,
                    na,
                    be_u16(qtype_code(question.question_type)),
                );
            }
            if ptr_path {
                assert(buf.buf@ =~= splice(
                    buf1,
                    wc0 + 2,
                    be_u16(qtype_code(question.question_type)),
                ));
                lemma_splice_splice(
                    old(buf).buf@,
                    wc0,
                    pb,
                    be_u16(qtype_code(question.question_type)),
                );
            }
        }
        let ghost buf2 = buf.buf@;
        let res = buf.put_u16(1);
        if res.is_err() {
            return Err(NetworkBufferError::BufferFullError);
        }
        proof {
            if fresh_path {
                assert(buf.buf@ =~= splice(
                    buf2,
                    wc0 + na.len() + 2,
                    be_u16(1u16),
                ));
                lemma_splice_splice(
                    old(buf).buf@,
                    wc0,
                    na + be_u16(qtype_code(question.question_type)),
                    be_u16(1u16),
                );
                assert((na + be_u16(qtype_code(question.question_type)) + be_u16(1u16))
                    =~= wire_question(question));
            }
            if ptr_path {
                assert(buf.buf@ =~= splice(buf2, wc0 + 4, be_u16(1u16)));
                lemma_splice_splice(
                    old(buf).buf@,
                    wc0,
                    pb + be_u16(qtype_code(question.question_type)),
                    be_u16(1u16),
                );
            }
        }
        Ok(())
    }

    /// Encodes a start-of-authority payload: the two names, then the five
    /// thirty-two-bit fields. Returns how many octets were written.
    #[verifier::rlimit(60)]
    pub fn encode_soa_record(&mut self, soa_record: &SOARecord, buf: &mut NetworkBuffer) -> (r:
        Result<usize, NetworkBufferError>)
        requires
            old(self).wf(),
            old(buf).wf(),
            old(buf).write_cursor < MAX_MESSAGE_SIZE,
            byte_chars(soa_record.master_name@),
            byte_chars(soa_record.mail_name@),
        ensures
            final(self).wf(),
            final(buf).wf(),
            final(buf).read_cursor == old(buf).read_cursor,
            final(self).decoded_names@ == old(self).decoded_names@,
            forall|n: Seq<char>|
                n != soa_record.master_name@ && n != soa_record.mail_name@
                    ==> #[trigger] final(self).enc_offset(n) == old(self).enc_offset(n),
            r is Err ==> (r matches Err(e) && (e is InvalidNameLengthError
                || e is InvalidLabelLengthError || e is BufferFullError)),
            final(buf).write_cursor < MAX_MESSAGE_SIZE,
            soa_fresh_path(old(self), old(buf), soa_record) ==> {
                &&& r matches Ok(n) && n == wire_soa(soa_record).len()
                &&& final(buf).write_cursor == old(buf).write_cursor + wire_soa(soa_record).len()
                &&& final(buf).buf@ =~= splice(
                    old(buf).buf@,
                    old(buf).write_cursor as int,
                    wire_soa(soa_record),
                )
            },
    {
        let ghost wc0 = old(buf).write_cursor as int;
        let ghost na = wire_name(soa_record.master_name@);
        let ghost nb = wire_name(soa_record.mail_name@);
        let ghost fresh_path = soa_fresh_path(old(self), old(buf), soa_record);
        proof {
            if fresh_path {
                assert(wire_soa(soa_record).len() == na.len() + nb.len() + 20);
            }
        }
        let mut write_count: usize = 0;
        let res = self.encode_name(soa_record.master_name.as_str(), buf);
        match res {
            Ok(n) => {
                write_count = n;
            },
            Err(e) => {
                return Err(e);
            },
        }
        let res = self.encode_name(soa_record.mail_name.as_str(), buf);
        match res {
            Ok(n) => {
                write_count = write_count + n;
            },
            Err(e) => {
                return Err(e);
            },
        }
        proof {
            if fresh_path {
                lemma_splice_splice(old(buf).buf@, wc0, na, nb);
            }
        }
        let ghost buf2 = buf.buf@;
        let res = buf.put_u32(soa_record.serial);
        if res.is_err() {
            return Err(NetworkBufferError::BufferFullError);
        }
        proof {
            if fresh_path {
                assert(buf.buf@ =~= splice(buf2, wc0 + na.len() + nb.len(), be_u32(
                    soa_record.serial,
                )));
                lemma_splice_splice(old(buf).buf@, wc0, na + nb, be_u32(soa_record.serial));
            }
        }
        let ghost buf3 = buf.buf@;
        let res = buf.put_u32(soa_record.refresh);
        if res.is_err() {
            return Err(NetworkBufferError::BufferFullError);
        }
        proof {
            if fresh_path {
                assert(buf.buf@ =~= splice(buf3, wc0 + na.len() + nb.len() + 4, be_u32(
                    soa_record.refresh,
                )));
                lemma_splice_splice(
                    old(buf).buf@,
                    wc0,
                    na + nb + be_u32(soa_record.serial),
                    be_u32(soa_record.refresh),
                );
            }
        }
        let ghost buf4 = buf.buf@;
        let res = buf.put_u32(soa_record.retry);
        if res.is_err() {
            return Err(NetworkBufferError::BufferFullError);
        }
        proof {
            if fresh_path {
                assert(buf.buf@ =~= splice(buf4, wc0 + na.len() + nb.len() + 8, be_u32(
                    soa_record.retry,
                )));
                lemma_splice_splice(
                    old(buf).buf@,
                    wc0,
                    na + nb + be_u32(soa_record.serial) + be_u32(soa_record.refresh),
                    be_u32(soa_record.retry),
                );
            }
        }
        let ghost buf5 = buf.buf@;
        let res = buf.put_u32(soa_record.expire);
        if res.is_err() {
            return Err(NetworkBufferError::BufferFullError);
        }
        proof {
            if fresh_path {
                assert(buf.buf@ =~= splice(buf5, wc0 + na.len() + nb.len() + 12, be_u32(
                    soa_record.expire,
                )));
                lemma_splice_splice(
                    old(buf).buf@,
                    wc0,
                    na + nb + be_u32(soa_record.serial) + be_u32(soa_record.refresh) + be_u32(
                        soa_record.retry,
                    ),
                    be_u32(soa_record.expire),
                );
            }
        }
        let ghost buf6 = buf.buf@;
        let res = buf.put_u32(soa_record.minimum);
        if res.is_err() {
            return Err(NetworkBufferError::BufferFullError);
        }
        proof {
            if fresh_path {
                assert(buf.buf@ =~= splice(buf6, wc0 + na.len() + nb.len() + 16, be_u32(
                    soa_record.minimum,
                )));
                lemma_splice_splice(
                    old(buf).buf@,
                    wc0,
                    na + nb + be_u32(soa_record.serial) + be_u32(soa_record.refresh) + be_u32(
                        soa_record.retry,
                    ) + be_u32(soa_record.expire),
                    be_u32(soa_record.minimum),
                );
                assert((na + nb + be_u32(soa_record.serial) + be_u32(soa_record.refresh) + be_u32(
                    soa_record.retry,
                ) + be_u32(soa_record.expire) + be_u32(soa_record.minimum)) =~= wire_soa(
                    soa_record,
                ));
            }
        }
        let final_count = write_count + 20;
        Ok(final_count)
    }

    /// Writes one character string of a TXT payload: a length octet, then
    /// the characters from `from` to `to`.
    fn put_text_chunk(&self, text: &str, from: usize, to: usize, buf: &mut NetworkBuffer) -> (r:
        Result<(), NetworkBufferError>)
        requires
            old(buf).wf(),
            byte_chars(text@),
            from <= to <= text@.len(),
            to - from <= 255,
        ensures
            final(buf).wf(),
            final(buf).read_cursor == old(buf).read_cursor,
            r is Err ==> (r matches Err(e) && e is BufferFullError),
            final(buf).write_cursor >= old(buf).write_cursor,
            old(buf).write_cursor < MAX_MESSAGE_SIZE ==> final(buf).write_cursor
                < MAX_MESSAGE_SIZE,
            r is Ok ==> final(buf).write_cursor == old(buf).write_cursor + (to - from) + 1 && old(
                buf,
            ).write_cursor + (to - from) + 1 < MAX_MESSAGE_SIZE,
            old(buf).write_cursor + (to - from) + 1 < MAX_MESSAGE_SIZE ==> {
                &&& r is Ok
                &&& final(buf).write_cursor == old(buf).write_cursor + (to - from) + 1
                &&& final(buf).buf@ =~= splice(
                    old(buf).buf@,
                    old(buf).write_cursor as int,
                    seq![(to - from) as u8] + str_bytes(text@.subrange(from as int, to as int)),
                )
            },
    {
        let ghost chunk = seq![(to - from) as u8] + str_bytes(
            text@.subrange(from as int, to as int),
        );
        let len: usize = to - from;
        let res = buf.put_u8(len as u8);
        if res.is_err() {
            return Err(NetworkBufferError::BufferFullError);
        }
        let ghost wc0 = old(buf).write_cursor as int;
        proof {
            assert(chunk[0] == len as u8);
            assert(buf.buf@ =~= splice(old(buf).buf@, wc0, chunk.take(1)));
        }
        let mut i: usize = 0;
        while i < len
            invariant
                byte_chars(text@),
                from <= to <= text@.len(),
                len == to - from <= 255,
                i <= len,
                old(buf).wf(),
                buf.wf(),
                buf.read_cursor == old(buf).read_cursor,
                wc0 == old(buf).write_cursor,
                chunk == seq![(to - from) as u8] + str_bytes(
                    text@.subrange(from as int, to as int),
                ),
                wc0 + 1 + i <= MAX_MESSAGE_SIZE - 1,
                buf.write_cursor == wc0 + 1 + i,
                buf.buf@ =~= splice(old(buf).buf@, wc0, chunk.take(1 + i)),
            decreases len - i,
        {
            let c: char = text.get_char(from + i);
            let code: u32 = c as u32;
            let res = buf.put_u8(code as u8);
            if res.is_err() {
                return Err(NetworkBufferError::BufferFullError);
            }
            proof {
                assert(chunk[1 + i] == char_byte(text@[from + i]));
                lemma_splice_extend(old(buf).buf@, wc0, chunk, 1 + i, char_byte(text@[from + i]));
            }
            i = i + 1;
        }
        proof {
            assert(chunk.take(1 + len) =~= chunk);
        }
        Ok(())
    }

    /// Encodes one resource record: name, type, class, time to live, then
    /// the length-prefixed RDATA. Variable-length payloads reserve the two
    /// length octets, write the payload, and patch the length afterwards.
    #[verifier::rlimit(100)]
    #[verifier::spinoff_prover]
    pub fn encode_resource_record(
        &mut self,
        resource_record: &ResourceRecord,
        buf: &mut NetworkBuffer,
    ) -> (r: Result<(), NetworkBufferError>)
        requires
            old(self).wf(),
            old(buf).wf(),
            old(buf).write_cursor < MAX_MESSAGE_SIZE,
            rr_chars_ok(resource_record),
        ensures
            final(self).wf(),
            final(buf).wf(),
            final(buf).read_cursor == old(buf).read_cursor,
            final(self).decoded_names@ == old(self).decoded_names@,
            forall|n: Seq<char>|
                !contains_name(rr_names(resource_record), n) ==> #[trigger] final(self).enc_offset(
                    n,
                ) == old(self).enc_offset(n),
            r is Err ==> (r matches Err(e) && (e is InvalidNameLengthError
                || e is InvalidLabelLengthError || e is BufferFullError)),
            final(buf).write_cursor < MAX_MESSAGE_SIZE,
            rr_fresh_path(old(self), old(buf), resource_record) ==> {
                &&& r is Ok
                &&& final(buf).write_cursor == old(buf).write_cursor + wire_rr(
                    resource_record,
                ).len()
                &&& final(buf).buf@ =~= splice(
                    old(buf).buf@,
                    old(buf).write_cursor as int,
                    wire_rr(resource_record),
                )
            },
    {
        let ghost wc0 = old(buf).write_cursor as int;
        let ghost fresh = rr_fresh_path(old(self), old(buf), resource_record);
        let ghost na = wire_name(resource_record.domain@);
        let ghost rd = rdata_wire(&resource_record.data);
        proof {
            if fresh {
                assert(rr_names(resource_record)[0] == resource_record.domain@);
                assert(wire_rr(resource_record).len() == na.len() + 8 + 2 + rd.len());
            }
        }
        let res = self.encode_name(resource_record.domain.as_str(), buf);
        match res {
            Ok(_) => {},
            Err(e) => {
                proof {
                    assert forall|n: Seq<char>|
                        !contains_name(rr_names(resource_record), n) implies #[trigger] self.enc_offset(n)
                        == old(self).enc_offset(n) by {
                        assert(rr_names(resource_record)[0] == resource_record.domain@);
                    }
                }
                return Err(e);
            },
        }
        proof {
            assert forall|n: Seq<char>|
                !contains_name(rr_names(resource_record), n) implies #[trigger] self.enc_offset(n)
                == old(self).enc_offset(n) by {
                assert(rr_names(resource_record)[0] == resource_record.domain@);
            }
        }
        let type_bytes: u16 = match resource_record.record_type {
            ResourceRecordType::ARecord => 0x0001,
            ResourceRecordType::AAAARecord => 0x001C,
            ResourceRecordType::NSRecord => 0x0002,
            ResourceRecordType::CNameRecord => 0x0005,
            ResourceRecordType::MXRecord => 0x000f,
            ResourceRecordType::SOARecord => 0x0006,
            ResourceRecordType::TXTRecord => 0x0010,
            _ => 0x0000,
        };
        proof {
            assert(type_bytes == rtype_code(resource_record.record_type));
        }
        let ghost buf1 = buf.buf@;
        let res = buf.put_u16(type_bytes);
        if res.is_err() {
            return Err(NetworkBufferError::BufferFullError);
        }
        proof {
            if fresh {
                assert(buf.buf@ =~= splice(buf1, wc0 + na.len(), be_u16(rtype_code(
                    resource_record.record_type,
                ))));
                lemma_splice_splice(
                    old(buf).buf@,
                    wc0,
                    na,
                    be_u16(rtype_code(resource_record.record_type)),
                );
            }
        }
        let ghost buf2 = buf.buf@;
        let res = buf.put_u16(1);
        if res.is_err() {
            return Err(NetworkBufferError::BufferFullError);
        }
        proof {
            if fresh {
                assert(buf.buf@ =~= splice(buf2, wc0 + na.len() + 2, be_u16(1u16)));
                lemma_splice_splice(
                    old(buf).buf@,
                    wc0,
                    na + be_u16(rtype_code(resource_record.record_type)),
                    be_u16(1u16),
                );
            }
        }
        let ghost buf3 = buf.buf@;
        let res = buf.put_u32(resource_record.time_to_live);
        if res.is_err() {
            return Err(NetworkBufferError::BufferFullError);
        }
        let ghost pre = na + be_u16(rtype_code(resource_record.record_type)) + be_u16(1u16)
            + be_u32(resource_record.time_to_live);
        proof {
            if fresh {
                assert(buf.buf@ =~= splice(buf3, wc0 + na.len() + 4, be_u32(
                    resource_record.time_to_live,
                )));
                lemma_splice_splice(
                    old(buf).buf@,
                    wc0,
                    na + be_u16(rtype_code(resource_record.record_type)) + be_u16(1u16),
                    be_u32(resource_record.time_to_live),
                );
                assert(pre.len() == na.len() + 8);
            }
        }
        let ghost base = *old(self);
        let ghost o0 = old(buf).buf@;
        proof {
            if fresh {
                assert(buf.buf@ == splice(o0, wc0, rr_prefix(resource_record)));
                assert(buf.write_cursor == wc0 + rr_prefix(resource_record).len());
            }
        }
        self.encode_record_data(resource_record, buf, Ghost(o0), Ghost(wc0), Ghost(base), Ghost(
            fresh,
        ))
    }


    /// Writes the RDLENGTH field and the RDATA payload of one record, using
    /// the reserve-and-patch pattern for the variable-length payloads.
    #[verifier::rlimit(100)]
    #[verifier::spinoff_prover]
    fn encode_record_data(
        &mut self,
        resource_record: &ResourceRecord,
        buf: &mut NetworkBuffer,
        Ghost(o0): Ghost<Seq<u8>>,
        Ghost(wc0): Ghost<int>,
        Ghost(base): Ghost<MessageCoder>,
        Ghost(fresh): Ghost<bool>,
    ) -> (r: Result<(), NetworkBufferError>)
        requires
            old(self).wf(),
            old(buf).wf(),
            rr_chars_ok(resource_record),
            old(buf).write_cursor < MAX_MESSAGE_SIZE,
            forall|n: Seq<char>|
                n != resource_record.domain@ ==> #[trigger] old(self).enc_offset(n)
                    == base.enc_offset(n),
            old(self).decoded_names@ == base.decoded_names@,
            fresh ==> {
                &&& distinct_names(rr_names(resource_record))
                &&& names_valid(rr_names(resource_record))
                &&& names_fresh(&base, rr_names(resource_record))
                &&& txt_short(&resource_record.data)
                &&& o0.len() == MAX_MESSAGE_SIZE
                &&& 0 <= wc0
                &&& wc0 + wire_rr(resource_record).len() < MAX_MESSAGE_SIZE
                &&& old(buf).write_cursor == wc0 + rr_prefix(resource_record).len()
                &&& old(buf).buf@ == splice(o0, wc0, rr_prefix(resource_record))
            },
        ensures
            final(self).wf(),
            final(buf).wf(),
            final(buf).read_cursor == old(buf).read_cursor,
            final(self).decoded_names@ == old(self).decoded_names@,
            forall|n: Seq<char>|
                !contains_name(rr_names(resource_record), n) ==> #[trigger] final(self).enc_offset(
                    n,
                ) == base.enc_offset(n),
            r is Err ==> (r matches Err(e) && (e is InvalidNameLengthError
                || e is InvalidLabelLengthError || e is BufferFullError)),
            final(buf).write_cursor < MAX_MESSAGE_SIZE,
            fresh ==> {
                &&& r is Ok
                &&& final(buf).write_cursor == wc0 + wire_rr(resource_record).len()
                &&& final(buf).buf@ =~= splice(o0, wc0, wire_rr(resource_record))
            },
    {
        proof {
            if fresh {
                assert(rr_names(resource_record)[0] == resource_record.domain@);
                assert(wire_rr(resource_record).len() == rr_prefix(resource_record).len() + 2
                    + rdata_wire(&resource_record.data).len());
            }
            assert forall|n: Seq<char>|
                !contains_name(rr_names(resource_record), n) implies #[trigger] self.enc_offset(n)
                == base.enc_offset(n) by {
                assert(rr_names(resource_record)[0] == resource_record.domain@);
            }
        }
        match &resource_record.data {
            ResourceRecordData::A(record) => {
                let ghost buf4 = buf.buf@;
                let res = buf.put_u16(4);
                if res.is_err() {
                    return Err(NetworkBufferError::BufferFullError);
                }
                proof {
                    if fresh {
                        assert(buf.buf@ =~= splice(buf4, wc0 + rr_prefix(resource_record).len(), be_u16(4u16)));
                        lemma_splice_splice(o0, wc0, rr_prefix(resource_record), be_u16(4u16));
                    }
                }
                let ghost buf5 = buf.buf@;
                let res = buf.put_u32(*record);
                if res.is_err() {
                    return Err(NetworkBufferError::BufferFullError);
                }
                proof {
                    if fresh {
                        assert(buf.buf@ =~= splice(buf5, wc0 + rr_prefix(resource_record).len() + 2, be_u32(*record)));
                        lemma_splice_splice(o0, wc0, rr_prefix(resource_record) + be_u16(4u16), be_u32(*record));
                        assert((rr_prefix(resource_record) + be_u16(4u16) + be_u32(*record)) =~= wire_rr(resource_record));
                    }
                }
                Ok(())
            },
            ResourceRecordData::AAAA(record) => {
                let ghost buf4 = buf.buf@;
                let res = buf.put_u16(16);
                if res.is_err() {
                    return Err(NetworkBufferError::BufferFullError);
                }
                proof {
                    if fresh {
                        assert(buf.buf@ =~= splice(buf4, wc0 + rr_prefix(resource_record).len(), be_u16(16u16)));
                        lemma_splice_splice(o0, wc0, rr_prefix(resource_record), be_u16(16u16));
                    }
                }
                let ghost buf5 = buf.buf@;
                let res = buf.put_u128(*record);
                if res.is_err() {
                    return Err(NetworkBufferError::BufferFullError);
                }
                proof {
                    if fresh {
                        assert(buf.buf@ =~= splice(buf5, wc0 + rr_prefix(resource_record).len() + 2, crate::buffer::be_u128(
                            *record,
                        )));
                        lemma_splice_splice(
                            o0,
                            wc0,
                            rr_prefix(resource_record) + be_u16(16u16),
                            crate::buffer::be_u128(*record),
                        );
                        assert((rr_prefix(resource_record) + be_u16(16u16) + crate::buffer::be_u128(*record)) =~= wire_rr(
                            resource_record,
                        ));
                    }
                }
                Ok(())
            },
            ResourceRecordData::CName(domain) => {
                let length_index = buf.write_count();
                let ghost buf4 = buf.buf@;
                let res = buf.put_u16(0);
                if res.is_err() {
                    return Err(NetworkBufferError::BufferFullError);
                }
                proof {
                    if fresh {
                        assert(buf.buf@ =~= splice(buf4, wc0 + rr_prefix(resource_record).len(), be_u16(0u16)));
                        lemma_splice_splice(o0, wc0, rr_prefix(resource_record), be_u16(0u16));
                        assert(rr_names(resource_record)[1] == domain@);
                    }
                }
                let ghost self_mid = *self;
                let res = self.encode_name(domain.as_str(), buf);
                proof {
                    assert forall|n: Seq<char>|
                        !contains_name(rr_names(resource_record), n) implies #[trigger] self.enc_offset(
                        n,
                    ) == base.enc_offset(n) by {
                        assert(rr_names(resource_record)[0] == resource_record.domain@);
                        assert(rr_names(resource_record)[1] == domain@);
                        assert(self.enc_offset(n) == self_mid.enc_offset(n));
                    }
                }
                let length: usize = match res {
                    Ok(n) => n,
                    Err(e) => {
                        return Err(e);
                    },
                };
                proof {
                    if fresh {
                        lemma_splice_splice(
                            o0,
                            wc0,
                            rr_prefix(resource_record) + be_u16(0u16),
                            wire_name(domain@),
                        );
                    }
                }
                let res = buf.set_u16(length_index, length as u16);
                if res.is_err() {
                    return Err(NetworkBufferError::BufferFullError);
                }
                proof {
                    if fresh {
                        lemma_splice_patch2(
                            o0,
                            wc0,
                            rr_prefix(resource_record),
                            be_u16(0u16),
                            wire_name(domain@),
                            be_u16(length as u16)[0],
                            be_u16(length as u16)[1],
                        );
                        assert((rr_prefix(resource_record) + seq![be_u16(length as u16)[0], be_u16(length as u16)[1]]
                            + wire_name(domain@)) =~= wire_rr(resource_record));
                    }
                }
                Ok(())
            },
            ResourceRecordData::NS(domain) => {
                let length_index = buf.write_count();
                let ghost buf4 = buf.buf@;
                let res = buf.put_u16(0);
                if res.is_err() {
                    return Err(NetworkBufferError::BufferFullError);
                }
                proof {
                    if fresh {
                        assert(buf.buf@ =~= splice(buf4, wc0 + rr_prefix(resource_record).len(), be_u16(0u16)));
                        lemma_splice_splice(o0, wc0, rr_prefix(resource_record), be_u16(0u16));
                        assert(rr_names(resource_record)[1] == domain@);
                    }
                }
                let ghost self_mid = *self;
                let res = self.encode_name(domain.as_str(), buf);
                proof {
                    assert forall|n: Seq<char>|
                        !contains_name(rr_names(resource_record), n) implies #[trigger] self.enc_offset(
                        n,
                    ) == base.enc_offset(n) by {
                        assert(rr_names(resource_record)[0] == resource_record.domain@);
                        assert(rr_names(resource_record)[1] == domain@);
                        assert(self.enc_offset(n) == self_mid.enc_offset(n));
                    }
                }
                let length: usize = match res {
                    Ok(n) => n,
                    Err(e) => {
                        return Err(e);
                    },
                };
                proof {
                    if fresh {
                        lemma_splice_splice(
                            o0,
                            wc0,
                            rr_prefix(resource_record) + be_u16(0u16),
                            wire_name(domain@),
                        );
                    }
                }
                let res = buf.set_u16(length_index, length as u16);
                if res.is_err() {
                    return Err(NetworkBufferError::BufferFullError);
                }
                proof {
                    if fresh {
                        lemma_splice_patch2(
                            o0,
                            wc0,
                            rr_prefix(resource_record),
                            be_u16(0u16),
                            wire_name(domain@),
                            be_u16(length as u16)[0],
                            be_u16(length as u16)[1],
                        );
                        assert((rr_prefix(resource_record) + seq![be_u16(length as u16)[0], be_u16(length as u16)[1]]
                            + wire_name(domain@)) =~= wire_rr(resource_record));
                    }
                }
                Ok(())
            },
            ResourceRecordData::SOA(record) => {
                let length_index = buf.write_count();
                let ghost buf4 = buf.buf@;
                let res = buf.put_u16(0);
                if res.is_err() {
                    return Err(NetworkBufferError::BufferFullError);
                }
                proof {
                    if fresh {
                        assert(buf.buf@ =~= splice(buf4, wc0 + rr_prefix(resource_record).len(), be_u16(0u16)));
                        lemma_splice_splice(o0, wc0, rr_prefix(resource_record), be_u16(0u16));
                        assert(rr_names(resource_record)[1] == record.master_name@);
                        assert(rr_names(resource_record)[2] == record.mail_name@);
                        assert(soa_fresh_path(self, buf, record));
                    }
                }
                let ghost self_mid = *self;
                let res = self.encode_soa_record(record, buf);
                proof {
                    assert forall|n: Seq<char>|
                        !contains_name(rr_names(resource_record), n) implies #[trigger] self.enc_offset(
                        n,
                    ) == base.enc_offset(n) by {
                        assert(rr_names(resource_record)[0] == resource_record.domain@);
                        assert(rr_names(resource_record)[1] == record.master_name@);
                        assert(rr_names(resource_record)[2] == record.mail_name@);
                        assert(self.enc_offset(n) == self_mid.enc_offset(n));
                    }
                }
                let length: usize = match res {
                    Ok(n) => n,
                    Err(e) => {
                        return Err(e);
                    },
                };
                let res = buf.set_u16(length_index, length as u16);
                if res.is_err() {
                    return Err(NetworkBufferError::BufferFullError);
                }
                proof {
                    if fresh {
                        lemma_splice_patch2(
                            o0,
                            wc0,
                            rr_prefix(resource_record),
                            be_u16(0u16),
                            wire_soa(record),
                            be_u16(length as u16)[0],
                            be_u16(length as u16)[1],
                        );
                        assert((rr_prefix(resource_record) + seq![be_u16(length as u16)[0], be_u16(length as u16)[1]]
                            + wire_soa(record)) =~= wire_rr(resource_record));
                    }
                }
                Ok(())
            },
            ResourceRecordData::MX(preference, exchange) => {
                let length_index = buf.write_count();
                let ghost buf4 = buf.buf@;
                let res = buf.put_u16(0);
                if res.is_err() {
                    return Err(NetworkBufferError::BufferFullError);
                }
                proof {
                    if fresh {
                        assert(buf.buf@ =~= splice(buf4, wc0 + rr_prefix(resource_record).len(), be_u16(0u16)));
                        lemma_splice_splice(o0, wc0, rr_prefix(resource_record), be_u16(0u16));
                    }
                }
                let ghost buf5 = buf.buf@;
                let res = buf.put_u16(*preference);
                let mut length: usize = match res {
                    Ok(n) => n,
                    Err(_) => {
                        return Err(NetworkBufferError::BufferFullError);
                    },
                };
                proof {
                    if fresh {
                        assert(buf.buf@ =~= splice(buf5, wc0 + rr_prefix(resource_record).len() + 2, be_u16(*preference)));
                        lemma_splice_splice(
                            o0,
                            wc0,
                            rr_prefix(resource_record) + be_u16(0u16),
                            be_u16(*preference),
                        );
                        assert(rr_names(resource_record)[1] == exchange@);
                    }
                }
                let ghost self_mid = *self;
                let res = self.encode_name(exchange.as_str(), buf);
                proof {
                    assert forall|n: Seq<char>|
                        !contains_name(rr_names(resource_record), n) implies #[trigger] self.enc_offset(
                        n,
                    ) == base.enc_offset(n) by {
                        assert(rr_names(resource_record)[0] == resource_record.domain@);
                        assert(rr_names(resource_record)[1] == exchange@);
                        assert(self.enc_offset(n) == self_mid.enc_offset(n));
                    }
                }
                match res {
                    Ok(n) => {
                        length = length + n;
                    },
                    Err(e) => {
                        return Err(e);
                    },
                }
                proof {
                    if fresh {
                        lemma_splice_splice(
                            o0,
                            wc0,
                            rr_prefix(resource_record) + be_u16(0u16) + be_u16(*preference),
                            wire_name(exchange@),
                        );
                    }
                }
                let res = buf.set_u16(length_index, length as u16);
                if res.is_err() {
                    return Err(NetworkBufferError::BufferFullError);
                }
                proof {
                    if fresh {
                        lemma_splice_patch2(
                            o0,
                            wc0,
                            rr_prefix(resource_record),
                            be_u16(0u16),
                            be_u16(*preference) + wire_name(exchange@),
                            be_u16(length as u16)[0],
                            be_u16(length as u16)[1],
                        );
                        assert((rr_prefix(resource_record) + seq![be_u16(length as u16)[0], be_u16(length as u16)[1]]
                            + (be_u16(*preference) + wire_name(exchange@))) =~= wire_rr(
                            resource_record,
                        ));
                    }
                }
                Ok(())
            },
            ResourceRecordData::TXT(value) => {
                let length_index = buf.write_count();
                let ghost buf4 = buf.buf@;
                let res = buf.put_u16(0);
                if res.is_err() {
                    return Err(NetworkBufferError::BufferFullError);
                }
                proof {
                    if fresh {
                        assert(buf.buf@ =~= splice(buf4, wc0 + rr_prefix(resource_record).len(), be_u16(0u16)));
                        lemma_splice_splice(o0, wc0, rr_prefix(resource_record), be_u16(0u16));
                    }
                }
                let total = value.unicode_len();
                let mut length: usize = 0;
                if total <= 255 {
                    let res = self.put_text_chunk(value.as_str(), 0, total, buf);
                    if res.is_err() {
                        return Err(NetworkBufferError::BufferFullError);
                    }
                    length = total + 1;
                    proof {
                        if fresh {
                            assert(value@.subrange(0, total as int) =~= value@);
                            assert((seq![total as u8] + str_bytes(value@)) =~= txt_wire(value@));
                            lemma_splice_splice(
                                o0,
                                wc0,
                                rr_prefix(resource_record) + be_u16(0u16),
                                txt_wire(value@),
                            );
                        }
                    }
                } else {
                    proof {
                        assert(!fresh);
                    }
                    let ghost self_snap = *self;
                    let mut pos: usize = 0;
                    while total - pos > 255
                        invariant
                            !fresh,
                            buf.wf(),
                            byte_chars(value@),
                            total == value@.len(),
                            pos <= total,
                            buf.read_cursor == old(buf).read_cursor,
                            length_index + 2 <= buf.write_cursor,
                            buf.write_cursor <= MAX_MESSAGE_SIZE - 1,
                            *self == self_snap,
                            self.wf(),
                            self.decoded_names@ == old(self).decoded_names@,
                            forall|n: Seq<char>|
                                !contains_name(rr_names(resource_record), n)
                                    ==> #[trigger] self.enc_offset(n) == base.enc_offset(n),
                        decreases total - pos,
                    {
                        let res = self.put_text_chunk(value.as_str(), pos, pos + 255, buf);
                        if res.is_err() {
                            return Err(NetworkBufferError::BufferFullError);
                        }
                        pos = pos + 255;
                    }
                    let res = self.put_text_chunk(value.as_str(), pos, total, buf);
                    if res.is_err() {
                        return Err(NetworkBufferError::BufferFullError);
                    }
                    length = buf.write_count() - length_index - 2;
                }
                let res = buf.set_u16(length_index, length as u16);
                if res.is_err() {
                    return Err(NetworkBufferError::BufferFullError);
                }
                proof {
                    if fresh {
                        lemma_splice_patch2(
                            o0,
                            wc0,
                            rr_prefix(resource_record),
                            be_u16(0u16),
                            txt_wire(value@),
                            be_u16(length as u16)[0],
                            be_u16(length as u16)[1],
                        );
                        assert((rr_prefix(resource_record) + seq![be_u16(length as u16)[0], be_u16(length as u16)[1]]
                            + txt_wire(value@)) =~= wire_rr(resource_record));
                    }
                }
                Ok(())
            },
        }
    }

    /// Encodes one section's records in order. `tail_bytes` and `tail_names`
    /// describe what the sections after this one will contribute, so that
    /// freshness and the byte image can be threaded through the whole
    /// message.
    #[verifier::rlimit(100)]
    #[verifier::spinoff_prover]
    fn encode_record_list(
        &mut self,
        records: &Vec<ResourceRecord>,
        buf: &mut NetworkBuffer,
        Ghost(o0): Ghost<Seq<u8>>,
        Ghost(wc0): Ghost<int>,
        Ghost(w_all): Ghost<Seq<u8>>,
        Ghost(tail_bytes): Ghost<Seq<u8>>,
        Ghost(tail_names): Ghost<Seq<Seq<char>>>,
        Ghost(fresh): Ghost<bool>,
    ) -> (r: Result<(), NetworkBufferError>)
        requires
            old(self).wf(),
            old(buf).wf(),
            rrs_chars_ok(records@),
            old(buf).write_cursor < MAX_MESSAGE_SIZE,
        ensures
            final(self).wf(),
            final(buf).wf(),
            final(buf).read_cursor == old(buf).read_cursor,
            final(self).decoded_names@ == old(self).decoded_names@,
            final(buf).write_cursor < MAX_MESSAGE_SIZE,
            r is Err ==> (r matches Err(e) && (e is InvalidNameLengthError
                || e is InvalidLabelLengthError || e is BufferFullError)),
            (fresh && record_list_pre(old(self), old(buf), records@, o0, wc0, w_all, tail_bytes,
                tail_names)) ==> {
                &&& r is Ok
                &&& final(buf).write_cursor == old(buf).write_cursor + wire_rrs(records@).len()
                &&& final(buf).buf@ =~= splice(
                    o0,
                    wc0,
                    w_all.take(final(buf).write_cursor - wc0),
                )
                &&& w_all =~= w_all.take(final(buf).write_cursor - wc0) + tail_bytes
                &&& distinct_names(tail_names)
                &&& names_valid(tail_names)
                &&& names_fresh(final(self), tail_names)
            },
    {
        let ghost pre_ok = fresh && record_list_pre(
            old(self),
            old(buf),
            records@,
            o0,
            wc0,
            w_all,
            tail_bytes,
            tail_names,
        );
        let mut k: usize = 0;
        proof {
            assert(records@.skip(0) =~= records@);
        }
        while k < records.len()
            invariant
                k <= records@.len(),
                rrs_chars_ok(records@),
                self.wf(),
                buf.wf(),
                buf.read_cursor == old(buf).read_cursor,
                self.decoded_names@ == old(self).decoded_names@,
                buf.write_cursor < MAX_MESSAGE_SIZE,
                pre_ok == (fresh && record_list_pre(old(self), old(buf), records@, o0, wc0, w_all,
                    tail_bytes, tail_names)),
                pre_ok ==> {
                    &&& o0.len() == MAX_MESSAGE_SIZE
                    &&& 0 <= wc0 <= buf.write_cursor
                    &&& wc0 + w_all.len() < MAX_MESSAGE_SIZE
                    &&& buf.write_cursor - wc0 <= w_all.len()
                    &&& w_all =~= w_all.take(buf.write_cursor - wc0) + wire_rrs(records@.skip(
                        k as int,
                    )) + tail_bytes
                    &&& buf.buf@ =~= splice(o0, wc0, w_all.take(buf.write_cursor - wc0))
                    &&& distinct_names(rrs_names(records@.skip(k as int)) + tail_names)
                    &&& names_valid(rrs_names(records@.skip(k as int)) + tail_names)
                    &&& names_fresh(self, rrs_names(records@.skip(k as int)) + tail_names)
                    &&& rrs_txt_short(records@.skip(k as int))
                },
            decreases records@.len() - k,
        {
            let ghost rest_rs = records@.skip(k as int);
            let ghost rest_rs2 = records@.skip(k + 1);
            let ghost rk = records@[k as int];
            let ghost w = buf.write_cursor - wc0;
            proof {
                assert(rest_rs[0] == rk);
                assert(rest_rs.drop_first() =~= rest_rs2);
                if pre_ok {
                    assert(wire_rrs(rest_rs) == wire_rr(&rest_rs[0]) + wire_rrs(rest_rs2));
                    assert(rrs_names(rest_rs) == rr_names(&rest_rs[0]) + rrs_names(rest_rs2));
                    assert((rr_names(&rk) + rrs_names(rest_rs2)) + tail_names =~= rr_names(&rk) + (
                    rrs_names(rest_rs2) + tail_names));
                    lemma_names_concat_parts(rr_names(&rk), rrs_names(rest_rs2) + tail_names);
                    lemma_names_fresh_parts(self, rr_names(&rk), rrs_names(rest_rs2) + tail_names);
                    assert(w + wire_rr(&rk).len() + wire_rrs(rest_rs2).len() + tail_bytes.len()
                        == w_all.len());
                    assert(rest_rs[0].data == rk.data);
                    assert(txt_short(&rk.data));
                    assert(rr_fresh_path(self, buf, &rk));
                }
            }
            let ghost self_before = *self;
            let ghost buf_before = *buf;
            let res = self.encode_resource_record(&records[k], buf);
            match res {
                Ok(_) => {},
                Err(e) => {
                    return Err(e);
                },
            }
            proof {
                if pre_ok {
                    assert(w_all.take(w + wire_rr(&rk).len() as int) =~= w_all.take(w) + wire_rr(
                        &rk,
                    ));
                    lemma_splice_splice(o0, wc0, w_all.take(w), wire_rr(&rk));
                    assert(buf.buf@ =~= splice(o0, wc0, w_all.take(buf.write_cursor - wc0)));
                    assert(w_all =~= w_all.take(buf.write_cursor - wc0) + wire_rrs(rest_rs2)
                        + tail_bytes);
                    assert forall|i: int|
                        0 <= i < (rrs_names(rest_rs2) + tail_names).len() implies (
                    #[trigger] self.enc_offset((rrs_names(rest_rs2) + tail_names)[i])) is None by {
                        let n = (rrs_names(rest_rs2) + tail_names)[i];
                        assert(contains_name(rrs_names(rest_rs2) + tail_names, n));
                        assert(!contains_name(rr_names(&rk), n));
                        assert(self.enc_offset(n) == self_before.enc_offset(n));
                    }
                    lemma_names_concat_parts(rr_names(&rk), rrs_names(rest_rs2) + tail_names);
                }
            }
            k = k + 1;
        }
        proof {
            if pre_ok {
                assert(records@.skip(records@.len() as int) =~= Seq::<ResourceRecord>::empty());
                assert(rrs_names(records@.skip(records@.len() as int))
                    =~= Seq::<Seq<char>>::empty());
                assert((Seq::<Seq<char>>::empty() + tail_names) =~= tail_names);
                lemma_names_concat_parts(Seq::<Seq<char>>::empty(), tail_names);
                assert(wire_rrs(records@.skip(records@.len() as int)) =~= Seq::<u8>::empty());
                assert(w_all.len() == (buf.write_cursor - wc0) + tail_bytes.len());
                assert(w_all.len() == (old(buf).write_cursor - wc0) + wire_rrs(records@).len()
                    + tail_bytes.len());
                assert(buf.write_cursor == old(buf).write_cursor + wire_rrs(records@).len());
            }
        }
        Ok(())
    }

    /// Encodes a whole message: the header, then every question, then the
    /// answer, authority, and additional records in order.
    ///
    /// When every name in the message is distinct, valid, and new to this
    /// coder, the buffer receives exactly the uncompressed wire image of the
    /// message.
    #[verifier::rlimit(100)]
    #[verifier::spinoff_prover]
    pub fn encode_message(&mut self, message: &Message, buf: &mut NetworkBuffer) -> (r: Result<
        (),
        NetworkBufferError,
    >)
        requires
            old(self).wf(),
            old(buf).wf(),
            old(buf).write_cursor <= MAX_MESSAGE_SIZE,
            message_chars_ok(message),
            message.questions@.len() <= 0xffff,
            message.answers@.len() <= 0xffff,
            message.authorities@.len() <= 0xffff,
            message.additional_records@.len() <= 0xffff,
        ensures
            final(self).wf(),
            final(buf).wf(),
            final(buf).read_cursor == old(buf).read_cursor,
            final(self).decoded_names@ == old(self).decoded_names@,
            r is Err ==> (r matches Err(e) && (e is InvalidNameLengthError
                || e is InvalidLabelLengthError || e is BufferFullError || e is InvalidPacket)),
            message_fresh_path(old(self), old(buf), message) ==> {
                &&& r is Ok
                &&& final(buf).write_cursor == old(buf).write_cursor + wire_message(message).len()
                &&& final(buf).buf@ =~= splice(
                    old(buf).buf@,
                    old(buf).write_cursor as int,
                    wire_message(message),
                )
            },
    {
        let ghost o0 = old(buf).buf@;
        let ghost wc0 = old(buf).write_cursor as int;
        let ghost w_all = wire_message(message);
        let ghost fresh = message_fresh_path(old(self), old(buf), message);
        let ghost tail_q_bytes = wire_rrs(message.answers@) + wire_rrs(message.authorities@)
            + wire_rrs(message.additional_records@);
        let ghost tail_q_names = rrs_names(message.answers@) + rrs_names(message.authorities@)
            + rrs_names(message.additional_records@);
        proof {
            if fresh {
                assert(be_u16(message.id).len() == 2);
                assert(seq![flag_byte1(message), flag_byte2(message)].len() == 2);
                assert(be_u16(message.questions@.len() as u16).len() == 2);
                assert(be_u16(message.answers@.len() as u16).len() == 2);
                assert(be_u16(message.authorities@.len() as u16).len() == 2);
                assert(be_u16(message.additional_records@.len() as u16).len() == 2);
                assert(wire_header(message).len() == 12);
                assert(w_all.len() >= 12);
            }
        }
        let res = self.encode_header(message, buf);
        match res {
            Ok(_) => {},
            Err(e) => {
                return Err(e);
            },
        }
        proof {
            if fresh {
                assert(w_all.take(12) =~= wire_header(message));
                assert(buf.buf@ =~= splice(o0, wc0, w_all.take(12)));
                assert(w_all =~= w_all.take(12) + wire_questions(message.questions@)
                    + tail_q_bytes);
                assert(message_names(message) =~= qs_names(message.questions@) + tail_q_names);
            }
        }
        let mut k: usize = 0;
        proof {
            assert(message.questions@.skip(0) =~= message.questions@);
            if fresh {
                assert(qs_names(message.questions@.skip(0)) + tail_q_names =~= message_names(
                    message,
                ));
            }
        }
        while k < message.questions.len()
            invariant
                k <= message.questions@.len(),
                message_chars_ok(message),
                self.wf(),
                buf.wf(),
                buf.read_cursor == old(buf).read_cursor,
                self.decoded_names@ == old(self).decoded_names@,
                buf.write_cursor < MAX_MESSAGE_SIZE,
                o0 == old(buf).buf@,
                wc0 == old(buf).write_cursor,
                w_all == wire_message(message),
                fresh == message_fresh_path(old(self), old(buf), message),
                tail_q_bytes == wire_rrs(message.answers@) + wire_rrs(message.authorities@)
                    + wire_rrs(message.additional_records@),
                tail_q_names == rrs_names(message.answers@) + rrs_names(message.authorities@)
                    + rrs_names(message.additional_records@),
                fresh ==> {
                    &&& o0.len() == MAX_MESSAGE_SIZE
                    &&& 0 <= wc0 <= buf.write_cursor
                    &&& wc0 + w_all.len() < MAX_MESSAGE_SIZE
                    &&& buf.write_cursor - wc0 <= w_all.len()
                    &&& w_all =~= w_all.take(buf.write_cursor - wc0) + wire_questions(
                        message.questions@.skip(k as int),
                    ) + tail_q_bytes
                    &&& buf.buf@ =~= splice(o0, wc0, w_all.take(buf.write_cursor - wc0))
                    &&& distinct_names(qs_names(message.questions@.skip(k as int)) + tail_q_names)
                    &&& names_valid(qs_names(message.questions@.skip(k as int)) + tail_q_names)
                    &&& names_fresh(self, qs_names(message.questions@.skip(k as int))
                        + tail_q_names)
                },
            decreases message.questions@.len() - k,
        {
            let ghost rest_q = message.questions@.skip(k as int);
            let ghost rest_q2 = message.questions@.skip(k + 1);
            let ghost qk = message.questions@[k as int];
            let ghost w = buf.write_cursor - wc0;
            proof {
                assert(rest_q[0] == qk);
                assert(rest_q.drop_first() =~= rest_q2);
                if fresh {
                    assert(wire_questions(rest_q) == wire_question(&rest_q[0]) + wire_questions(
                        rest_q2,
                    ));
                    assert(qs_names(rest_q) == seq![qk.domain@] + qs_names(rest_q2));
                    assert((seq![qk.domain@] + qs_names(rest_q2)) + tail_q_names
                        =~= seq![qk.domain@] + (qs_names(rest_q2) + tail_q_names));
                    lemma_names_concat_parts(seq![qk.domain@], qs_names(rest_q2) + tail_q_names);
                    lemma_names_fresh_parts(
                        self,
                        seq![qk.domain@],
                        qs_names(rest_q2) + tail_q_names,
                    );
                    assert(names_fresh(self, seq![qk.domain@]));
                    assert(self.enc_offset(seq![qk.domain@][0]) is None);
                    assert(names_valid(seq![qk.domain@]));
                    assert(seq![qk.domain@][0] == qk.domain@);
                    assert(w + wire_question(&qk).len() + wire_questions(rest_q2).len()
                        + tail_q_bytes.len() == w_all.len());
                }
            }
            let ghost self_before = *self;
            let res = self.encode_question(&message.questions[k], buf);
            match res {
                Ok(_) => {},
                Err(e) => {
                    return Err(e);
                },
            }
            proof {
                if fresh {
                    assert(w_all.take(w + wire_question(&qk).len() as int) =~= w_all.take(w)
                        + wire_question(&qk));
                    lemma_splice_splice(o0, wc0, w_all.take(w), wire_question(&qk));
                    assert(buf.buf@ =~= splice(o0, wc0, w_all.take(buf.write_cursor - wc0)));
                    assert(w_all =~= w_all.take(buf.write_cursor - wc0) + wire_questions(rest_q2)
                        + tail_q_bytes);
                    lemma_names_concat_parts(seq![qk.domain@], qs_names(rest_q2) + tail_q_names);
                    assert forall|i: int|
                        0 <= i < (qs_names(rest_q2) + tail_q_names).len() implies (
                    #[trigger] self.enc_offset((qs_names(rest_q2) + tail_q_names)[i])) is None by {
                        let n = (qs_names(rest_q2) + tail_q_names)[i];
                        assert(contains_name(qs_names(rest_q2) + tail_q_names, n));
                        assert(!contains_name(seq![qk.domain@], n));
                        assert(n != qk.domain@);
                        assert(self.enc_offset(n) == self_before.enc_offset(n));
                    }
                }
            }
            k = k + 1;
        }
        proof {
            if fresh {
                assert(message.questions@.skip(message.questions@.len() as int)
                    =~= Seq::<Question>::empty());
                assert(qs_names(message.questions@.skip(message.questions@.len() as int))
                    =~= Seq::<Seq<char>>::empty());
                assert(wire_questions(message.questions@.skip(message.questions@.len() as int))
                    =~= Seq::<u8>::empty());
                assert((Seq::<Seq<char>>::empty() + tail_q_names) =~= tail_q_names);
                assert((w_all.take(buf.write_cursor - wc0) + Seq::<u8>::empty() + tail_q_bytes)
                    =~= w_all.take(buf.write_cursor - wc0) + tail_q_bytes);
                lemma_names_concat_parts(Seq::<Seq<char>>::empty(), tail_q_names);
                // reshape for the answer section
                assert((w_all.take(buf.write_cursor - wc0) + wire_rrs(message.answers@) + (
                wire_rrs(message.authorities@) + wire_rrs(message.additional_records@))) =~= w_all.take(
                    buf.write_cursor - wc0,
                ) + tail_q_bytes);
                assert((rrs_names(message.answers@) + (rrs_names(message.authorities@) + rrs_names(
                    message.additional_records@,
                ))) =~= tail_q_names);
                assert(record_list_pre(
                    self,
                    buf,
                    message.answers@,
                    o0,
                    wc0,
                    w_all,
                    wire_rrs(message.authorities@) + wire_rrs(message.additional_records@),
                    rrs_names(message.authorities@) + rrs_names(message.additional_records@),
                ));
            }
        }
        let res = self.encode_record_list(
            &message.answers,
            buf,
            Ghost(o0),
            Ghost(wc0),
            Ghost(w_all),
            Ghost(wire_rrs(message.authorities@) + wire_rrs(message.additional_records@)),
            Ghost(rrs_names(message.authorities@) + rrs_names(message.additional_records@)),
            Ghost(fresh),
        );
        match res {
            Ok(_) => {},
            Err(e) => {
                return Err(e);
            },
        }
        proof {
            if fresh {
                assert((w_all.take(buf.write_cursor - wc0) + wire_rrs(message.authorities@)
                    + wire_rrs(message.additional_records@)) =~= w_all.take(
                    buf.write_cursor - wc0,
                ) + (wire_rrs(message.authorities@) + wire_rrs(message.additional_records@)));
                assert((rrs_names(message.authorities@) + rrs_names(message.additional_records@))
                    =~= rrs_names(message.authorities@) + rrs_names(message.additional_records@));
                assert(w_all.len() == (buf.write_cursor - wc0) + (wire_rrs(message.authorities@)
                    + wire_rrs(message.additional_records@)).len());
                assert(record_list_pre(
                    self,
                    buf,
                    message.authorities@,
                    o0,
                    wc0,
                    w_all,
                    wire_rrs(message.additional_records@),
                    rrs_names(message.additional_records@),
                ));
            }
        }
        let res = self.encode_record_list(
            &message.authorities,
            buf,
            Ghost(o0),
            Ghost(wc0),
            Ghost(w_all),
            Ghost(wire_rrs(message.additional_records@)),
            Ghost(rrs_names(message.additional_records@)),
            Ghost(fresh),
        );
        match res {
            Ok(_) => {},
            Err(e) => {
                return Err(e);
            },
        }
        proof {
            if fresh {
                assert((w_all.take(buf.write_cursor - wc0) + wire_rrs(
                    message.additional_records@,
                ) + Seq::<u8>::empty()) =~= w_all.take(buf.write_cursor - wc0) + wire_rrs(
                    message.additional_records@,
                ));
                assert(w_all.len() == (buf.write_cursor - wc0) + wire_rrs(
                    message.additional_records@,
                ).len());
                assert(record_list_pre(
                    self,
                    buf,
                    message.additional_records@,
                    o0,
                    wc0,
                    w_all,
                    Seq::<u8>::empty(),
                    Seq::<Seq<char>>::empty(),
                ));
            }
        }
        let res = self.encode_record_list(
            &message.additional_records,
            buf,
            Ghost(o0),
            Ghost(wc0),
            Ghost(w_all),
            Ghost(Seq::<u8>::empty()),
            Ghost(Seq::<Seq<char>>::empty()),
            Ghost(fresh),
        );
        match res {
            Ok(_) => {},
            Err(e) => {
                return Err(e);
            },
        }
        proof {
            if fresh {
                assert((w_all.take(buf.write_cursor - wc0) + Seq::<u8>::empty()) =~= w_all.take(
                    buf.write_cursor - wc0,
                ));
                assert(w_all =~= w_all.take(buf.write_cursor - wc0));
                assert(buf.write_cursor - wc0 == w_all.len());
                assert(buf.buf@ =~= splice(o0, wc0, w_all));
            }
        }
        Ok(())
    }

    /// A question count as the sixteen-bit wire field.
    fn len_as_u16(&self, v: &Vec<Question>) -> (r: u16)
        requires
            v@.len() <= 0xffff,
        ensures
            r == v@.len() as u16,
    {
        v.len() as u16
    }

    /// A record count as the sixteen-bit wire field.
    fn rlen_as_u16(&self, v: &Vec<ResourceRecord>) -> (r: u16)
        requires
            v@.len() <= 0xffff,
        ensures
            r == v@.len() as u16,
    {
        v.len() as u16
    }

    /// Reads one label body of `length` octets, each becoming one character.
    pub fn decode_label(&mut self, length: usize, buf: &mut NetworkBuffer) -> (r: Result<
        String,
        NetworkBufferError,
    >)
        requires
            old(buf).wf(),
        ensures
            *final(self) == *old(self),
            final(buf).wf(),
            final(buf).buf@ == old(buf).buf@,
            final(buf).write_cursor == old(buf).write_cursor,
            r is Err ==> (r matches Err(e) && e is BufferEmptyError),
            old(buf).read_cursor + length < MAX_MESSAGE_SIZE ==> {
                &&& r matches Ok(label) && label@ == bytes_chars(
                    old(buf).buf@.subrange(
                        old(buf).read_cursor as int,
                        old(buf).read_cursor + length,
                    ),
                )
                &&& final(buf).read_cursor == old(buf).read_cursor + length
            },
            r matches Ok(label) ==> byte_chars(label@) && label@.len() == length,
            r is Ok ==> final(buf).read_cursor == old(buf).read_cursor + length,
            (r is Ok && length > 0) ==> old(buf).read_cursor + length < MAX_MESSAGE_SIZE,
    {
        let mut label = String::new();
        let mut n: usize = 0;
        while n < length
            invariant
                old(buf).wf(),
                buf.wf(),
                n <= length,
                buf.buf@ == old(buf).buf@,
                buf.write_cursor == old(buf).write_cursor,
                buf.read_cursor == old(buf).read_cursor + n,
                n > 0 ==> old(buf).read_cursor + n < MAX_MESSAGE_SIZE,
                label@.len() == n,
                forall|j: int|
                    0 <= j < n ==> label@[j] == old(buf).buf@[old(buf).read_cursor + j] as char,
                byte_chars(label@),
            decreases length - n,
        {
            let res = buf.get_u8();
            let byte: u8 = match res {
                Ok(b) => b,
                Err(_) => {
                    return Err(NetworkBufferError::BufferEmptyError);
                },
            };
            push_char(&mut label, byte as char);
            n = n + 1;
        }
        proof {
            if old(buf).read_cursor + length < MAX_MESSAGE_SIZE {
                assert(label@ =~= bytes_chars(
                    old(buf).buf@.subrange(
                        old(buf).read_cursor as int,
                        old(buf).read_cursor + length,
                    ),
                ));
            }
        }
        Ok(label)
    }

    /// The buffer offset a two-octet compression pointer refers to.
    pub fn get_pointer_location(&self, left: u8, right: u8) -> (r: usize)
        ensures
            r == spec_pointer_target(left, right),
            r < 0x4000,
    {
        let r: usize = (((0x3F & left) as u16) << 8u16 | right as u16) as usize;
        proof {
            assert((((0x3fu8 & left) as u16) << 8u16 | right as u16) < 0x4000) by (bit_vector);
        }
        r
    }

    /// The name previously decoded at `location`, if any.
    fn lookup_decoded(&self, location: usize) -> (r: Option<String>)
        requires
            self.wf(),
        ensures
            match r {
                Some(name) => self.dec_name(location) == Some(name@) && byte_chars(name@),
                None => self.dec_name(location) is None,
            },
    {
        let mut i: usize = self.decoded_names.len();
        proof {
            assert(self.decoded_names@.take(i as int) =~= self.decoded_names@);
        }
        while i > 0
            invariant
                self.wf(),
                i <= self.decoded_names@.len(),
                dec_lookup(self.decoded_names@.take(i as int), location) == self.dec_name(
                    location,
                ),
            decreases i,
        {
            i = i - 1;
            let entry = &self.decoded_names[i];
            proof {
                assert(self.decoded_names@.take(i + 1).last() == self.decoded_names@[i as int]);
                assert(self.decoded_names@.take(i + 1).drop_last() =~= self.decoded_names@.take(
                    i as int,
                ));
            }
            if entry.0 == location {
                proof {
                    assert(byte_chars(self.decoded_names@[i as int].1@));
                }
                return Some(entry.1.clone());
            }
        }
        None
    }

    /// Decodes the two-octet type field of a resource record.
    pub fn decode_type(&mut self, buf: &mut NetworkBuffer) -> (r: Result<
        ResourceRecordType,
        NetworkBufferError,
    >)
        requires
            old(buf).wf(),
        ensures
            *final(self) == *old(self),
            final(buf).wf(),
            final(buf).buf@ == old(buf).buf@,
            final(buf).write_cursor == old(buf).write_cursor,
            old(buf).read_cursor + 2 < MAX_MESSAGE_SIZE ==> {
                &&& r matches Ok(t) && t == type_from_code(
                    read_be_u16(old(buf).buf@, old(buf).read_cursor as int),
                )
                &&& final(buf).read_cursor == old(buf).read_cursor + 2
            },
            old(buf).read_cursor + 2 >= MAX_MESSAGE_SIZE ==> (r matches Err(e)
                && e is BufferEmptyError) && *final(buf) == *old(buf),
    {
        let value: u16 = match buf.get_u16() {
            Ok(v) => v,
            Err(_) => {
                return Err(NetworkBufferError::BufferEmptyError);
            },
        };
        let record_type = match value {
            0x01 => ResourceRecordType::ARecord,
            0x1C => ResourceRecordType::AAAARecord,
            0x05 => ResourceRecordType::CNameRecord,
            0x0F => ResourceRecordType::MXRecord,
            0x02 => ResourceRecordType::NSRecord,
            0x0C => ResourceRecordType::PTRRecord,
            0x06 => ResourceRecordType::SOARecord,
            0x21 => ResourceRecordType::SRVRecord,
            0x10 => ResourceRecordType::TXTRecord,
            _ => ResourceRecordType::Unimplemented,
        };
        Ok(record_type)
    }

    /// Decodes the two-octet class field of a resource record.
    pub fn decode_class(&mut self, buf: &mut NetworkBuffer) -> (r: Result<
        ResourceRecordClass,
        NetworkBufferError,
    >)
        requires
            old(buf).wf(),
        ensures
            *final(self) == *old(self),
            final(buf).wf(),
            final(buf).buf@ == old(buf).buf@,
            final(buf).write_cursor == old(buf).write_cursor,
            old(buf).read_cursor + 2 < MAX_MESSAGE_SIZE ==> {
                &&& r matches Ok(c) && c == (if read_be_u16(
                    old(buf).buf@,
                    old(buf).read_cursor as int,
                ) == 1 {
                    ResourceRecordClass::InternetAddress
                } else {
                    ResourceRecordClass::Unimplemented
                })
                &&& final(buf).read_cursor == old(buf).read_cursor + 2
            },
            old(buf).read_cursor + 2 >= MAX_MESSAGE_SIZE ==> (r matches Err(e)
                && e is BufferEmptyError) && *final(buf) == *old(buf),
    {
        let value: u16 = match buf.get_u16() {
            Ok(v) => v,
            Err(_) => {
                return Err(NetworkBufferError::BufferEmptyError);
            },
        };
        let class = match value {
            0x001 => ResourceRecordClass::InternetAddress,
            _ => ResourceRecordClass::Unimplemented,
        };
        Ok(class)
    }

    /// Joins the labels from `from` on with dots, with no leading dot.
    fn join_labels_from(&self, parts: &[String], from: usize) -> (r: String)
        requires
            from <= parts@.len(),
        ensures
            r@ == join_dots(string_views(parts@).skip(from as int)),
    {
        let ghost views = string_views(parts@).skip(from as int);
        let mut r = String::new();
        let mut j: usize = from;
        proof {
            assert(views.take(0) =~= Seq::<Seq<char>>::empty());
        }
        while j < parts.len()
            invariant
                from <= j <= parts@.len(),
                views == string_views(parts@).skip(from as int),
                r@ == join_dots(views.take(j - from)),
            decreases parts@.len() - j,
        {
            if j > from {
                push_char(&mut r, '.');
            }
            r.append(parts[j].as_str());
            proof {
                assert(views.take(j - from + 1).drop_last() =~= views.take(j - from));
                assert(views.take(j - from + 1).last() == parts@[j as int]@);
                if j == from {
                    assert(join_dots(views.take(1)) == views.take(1)[0]);
                    assert(views.take(1)[0] == parts@[j as int]@);
                    assert(r@ =~= parts@[j as int]@);
                }
            }
            j = j + 1;
        }
        proof {
            assert(views.take(parts@.len() - from) =~= views);
        }
        r
    }

    /// After a name has been decoded, registers the suffix that starts at
    /// each label position, so that later pointers into this name resolve.
    pub fn save_decoded_names(&mut self, domains: &[String], indexes: &[usize])
        requires
            old(self).wf(),
            forall|i: int| 0 <= i < domains@.len() ==> byte_chars((#[trigger] domains@[i])@),
        ensures
            final(self).wf(),
            final(self).encoded_names@ == old(self).encoded_names@,
            final(self).decoded_names@.len() == old(self).decoded_names@.len() + spec_min(
                domains@.len() as int,
                indexes@.len() as int,
            ),
            final(self).decoded_names@.take(old(self).decoded_names@.len() as int) == old(
                self,
            ).decoded_names@,
            forall|k: int|
                0 <= k < spec_min(domains@.len() as int, indexes@.len() as int) ==> {
                    &&& (#[trigger] final(self).decoded_names@[old(self).decoded_names@.len() + k]).0
                        == indexes@[k]
                    &&& final(self).decoded_names@[old(self).decoded_names@.len() + k].1@
                        == join_dots(string_views(domains@).skip(k))
                },
    {
        let count = if domains.len() <= indexes.len() {
            domains.len()
        } else {
            indexes.len()
        };
        let ghost base = old(self).decoded_names@.len() as int;
        let mut k: usize = 0;
        proof {
            assert(self.decoded_names@.take(base) =~= old(self).decoded_names@);
        }
        while k < count
            invariant
                count == spec_min(domains@.len() as int, indexes@.len() as int),
                k <= count,
                base == old(self).decoded_names@.len(),
                forall|i: int| 0 <= i < domains@.len() ==> byte_chars((#[trigger] domains@[i])@),
                old(self).wf(),
                self.wf(),
                self.encoded_names@ == old(self).encoded_names@,
                self.decoded_names@.len() == base + k,
                self.decoded_names@.take(base) == old(self).decoded_names@,
                forall|i: int|
                    0 <= i < k ==> {
                        &&& (#[trigger] self.decoded_names@[base + i]).0 == indexes@[i]
                        &&& self.decoded_names@[base + i].1@ == join_dots(
                            string_views(domains@).skip(i),
                        )
                    },
            decreases count - k,
        {
            let full_domain = self.join_labels_from(domains, k);
            proof {
                lemma_join_dots_byte_chars(string_views(domains@).skip(k as int));
            }
            self.decoded_names.push((indexes[k], full_domain));
            proof {
                assert(self.decoded_names@.take(base) =~= old(self).decoded_names@);
            }
            k = k + 1;
        }
    }

    /// Decodes a whole name at the read cursor: a run of labels ended by the
    /// zero octet, or cut short by a compression pointer into the part of
    /// the message already decoded.
    ///
    /// The decoded name carries the leading-dot convention. Every suffix
    /// position met along the way is registered, so that later pointers into
    /// the middle of this name resolve. A pointer to an offset not yet seen
    /// fails with `CompressionError`.
    #[verifier::rlimit(100)]
    #[verifier::spinoff_prover]
    pub fn decode_name(&mut self, buf: &mut NetworkBuffer) -> (r: Result<
        String,
        NetworkBufferError,
    >)
        requires
            old(self).wf(),
            old(buf).wf(),
        ensures
            final(self).wf(),
            final(buf).wf(),
            final(buf).buf@ == old(buf).buf@,
            final(buf).write_cursor == old(buf).write_cursor,
            final(self).encoded_names@ == old(self).encoded_names@,
            r is Err ==> (r matches Err(e) && (e is BufferEmptyError || e is CompressionError
                || e is InvalidLabelLengthError || e is InvalidNameLengthError)),
            r matches Ok(name) ==> byte_chars(name@) && 1 <= name@.len() <= MAX_NAME_LENGTH
                && name@[0] == '.',
            ({
                &&& old(buf).read_cursor + 2 < MAX_MESSAGE_SIZE
                &&& old(buf).buf@[old(buf).read_cursor as int] >= 0xc0
                &&& old(self).dec_name(
                    spec_pointer_target(
                        old(buf).buf@[old(buf).read_cursor as int],
                        old(buf).buf@[old(buf).read_cursor + 1],
                    ),
                ) is None
            }) ==> (r matches Err(e) && e is CompressionError),
            // a leading pointer to a registered offset expands to exactly
            // the name registered there, behind the dot sentinel
            ({
                &&& old(buf).read_cursor + 2 < MAX_MESSAGE_SIZE
                &&& old(buf).buf@[old(buf).read_cursor as int] >= 0xc0
                &&& old(self).dec_name(
                    spec_pointer_target(
                        old(buf).buf@[old(buf).read_cursor as int],
                        old(buf).buf@[old(buf).read_cursor + 1],
                    ),
                ) is Some
                &&& 1 + old(self).dec_name(
                    spec_pointer_target(
                        old(buf).buf@[old(buf).read_cursor as int],
                        old(buf).buf@[old(buf).read_cursor + 1],
                    ),
                ).unwrap().len() <= MAX_NAME_LENGTH
            }) ==> (r matches Ok(name) && ({
                let registered = old(self).dec_name(
                    spec_pointer_target(
                        old(buf).buf@[old(buf).read_cursor as int],
                        old(buf).buf@[old(buf).read_cursor + 1],
                    ),
                ).unwrap();
                &&& name@ == seq!['.'] + registered
                &&& final(buf).read_cursor == old(buf).read_cursor + 2
            })),
            // a length octet in the dead band between labels and pointers
            // is rejected
            (old(buf).read_cursor + 1 < MAX_MESSAGE_SIZE && 0x40 <= old(buf).buf@[old(
                buf,
            ).read_cursor as int] < 0xc0) ==> (r matches Err(e)
                && e is InvalidLabelLengthError),
            // a run of labels cut short by a pointer expands to those labels
            // followed by the name registered at the pointer's target, and
            // registers each label's suffix (the expansion included)
            parse_labels_to_pointer(old(buf).buf@, old(buf).read_cursor as int) is Some ==> ({
                let parsed = parse_labels_to_pointer(
                    old(buf).buf@,
                    old(buf).read_cursor as int,
                ).unwrap();
                let loc = spec_pointer_target(
                    old(buf).buf@[parsed.2],
                    old(buf).buf@[parsed.2 + 1],
                );
                &&& (old(self).dec_name(loc) is None ==> (r matches Err(e)
                    && e is CompressionError))
                &&& (old(self).dec_name(loc) matches Some(registered) ==> ({
                    let full = parsed.0.push(registered);
                    &&& (1 + join_dots(full).len() <= MAX_NAME_LENGTH ==> (r matches Ok(name)
                        && name@ == seq!['.'] + join_dots(full) && final(buf).read_cursor
                        == parsed.2 + 2))
                    &&& (1 + join_dots(full).len() > MAX_NAME_LENGTH ==> (r matches Err(e)
                        && e is InvalidNameLengthError))
                    &&& final(self).decoded_names@.len() == old(self).decoded_names@.len()
                        + parsed.0.len()
                    &&& final(self).decoded_names@.take(old(self).decoded_names@.len() as int)
                        == old(self).decoded_names@
                    &&& forall|k: int|
                        0 <= k < parsed.0.len() ==> {
                            &&& (#[trigger] final(self).decoded_names@[old(
                                self,
                            ).decoded_names@.len() + k]).0 as int == parsed.1[k]
                            &&& final(self).decoded_names@[old(self).decoded_names@.len()
                                + k].1@ == join_dots(full.skip(k))
                        }
                }))
            }),
            parse_labels(old(buf).buf@, old(buf).read_cursor as int) is Some ==> ({
                let parsed = parse_labels(old(buf).buf@, old(buf).read_cursor as int).unwrap();
                &&& final(buf).read_cursor == parsed.2
                &&& (1 + join_dots(parsed.0).len() <= MAX_NAME_LENGTH ==> (r matches Ok(name)
                    && name@ == seq!['.'] + join_dots(parsed.0)))
                &&& (1 + join_dots(parsed.0).len() > MAX_NAME_LENGTH ==> (r matches Err(e)
                    && e is InvalidNameLengthError))
                &&& final(self).decoded_names@.len() == old(self).decoded_names@.len()
                    + parsed.0.len()
                &&& final(self).decoded_names@.take(old(self).decoded_names@.len() as int) == old(
                    self,
                ).decoded_names@
                &&& forall|k: int|
                    0 <= k < parsed.0.len() ==> {
                        &&& (#[trigger] final(self).decoded_names@[old(
                            self,
                        ).decoded_names@.len() + k]).0 as int == parsed.1[k]
                        &&& final(self).decoded_names@[old(self).decoded_names@.len() + k].1@
                            == join_dots(parsed.0.skip(k))
                    }
            }),
    {
        let ghost bytes = old(buf).buf@;
        let ghost rc0 = old(buf).read_cursor as int;
        let ghost pr = parse_labels(bytes, rc0);
        let ghost psome = pr is Some;
        let ghost parsed = if pr is Some {
            pr.unwrap()
        } else {
            (Seq::<Seq<char>>::empty(), Seq::<int>::empty(), 0int)
        };
        let ghost hyp_b = old(buf).read_cursor + 2 < MAX_MESSAGE_SIZE && bytes[rc0] >= 0xc0 && old(
            self,
        ).dec_name(spec_pointer_target(bytes[rc0], bytes[rc0 + 1])) is None;
        let ghost hyp_ptr = old(buf).read_cursor + 2 < MAX_MESSAGE_SIZE && bytes[rc0] >= 0xc0
            && old(self).dec_name(spec_pointer_target(bytes[rc0], bytes[rc0 + 1])) is Some && 1
            + old(self).dec_name(
            spec_pointer_target(bytes[rc0], bytes[rc0 + 1]),
        ).unwrap().len() <= MAX_NAME_LENGTH;
        let ghost hyp_dead = old(buf).read_cursor + 1 < MAX_MESSAGE_SIZE && 0x40 <= bytes[rc0]
            < 0xc0;
        let ghost pmix = parse_labels_to_pointer(bytes, rc0) is Some;
        let ghost mixparsed = if pmix {
            parse_labels_to_pointer(bytes, rc0).unwrap()
        } else {
            (Seq::<Seq<char>>::empty(), Seq::<int>::empty(), 0int)
        };
        let mut starting_index = buf.read_cursor;
        let label_res = buf.get_u8();
        let mut label_length: usize = match label_res {
            Ok(b) => b as usize,
            Err(_) => {
                proof {
                    if psome {
                        assert(0 <= rc0 && rc0 + 1 < bytes.len());
                    }
                    if pmix {
                        assert(0 <= rc0 && rc0 + 1 < bytes.len());
                    }
                }
                return Err(NetworkBufferError::BufferEmptyError);
            },
        };
        proof {
            if psome {
                lemma_parse_labels_lens(bytes, rc0);
            }
            if pmix {
                lemma_parse_to_pointer_lens(bytes, rc0);
            }
        }
        let mut decoded_names: Vec<String> = Vec::new();
        let mut decoded_indexes: Vec<usize> = Vec::new();
        while label_length != 0x00
            invariant
                old(self).wf(),
                old(buf).wf(),
                self.wf(),
                buf.wf(),
                bytes == old(buf).buf@,
                rc0 == old(buf).read_cursor,
                buf.buf@ == bytes,
                buf.write_cursor == old(buf).write_cursor,
                *self == *old(self),
                psome == (parse_labels(bytes, rc0) is Some),
                psome ==> parse_labels(bytes, rc0) == Some(parsed),
                hyp_b == (rc0 + 2 < MAX_MESSAGE_SIZE && bytes[rc0] >= 0xc0 && old(self).dec_name(
                    spec_pointer_target(bytes[rc0], bytes[rc0 + 1]),
                ) is None),
                hyp_ptr == (rc0 + 2 < MAX_MESSAGE_SIZE && bytes[rc0] >= 0xc0 && old(
                    self,
                ).dec_name(spec_pointer_target(bytes[rc0], bytes[rc0 + 1])) is Some && 1 + old(
                    self,
                ).dec_name(spec_pointer_target(bytes[rc0], bytes[rc0 + 1])).unwrap().len()
                    <= MAX_NAME_LENGTH),
                hyp_dead == (rc0 + 1 < MAX_MESSAGE_SIZE && 0x40 <= bytes[rc0] < 0xc0),
                decoded_names@.len() == decoded_indexes@.len(),
                forall|i: int|
                    0 <= i < decoded_names@.len() ==> byte_chars((#[trigger] decoded_names@[i])@),
                (hyp_b || hyp_ptr || hyp_dead) ==> decoded_names@.len() == 0 && starting_index
                    == rc0,
                0 <= starting_index,
                starting_index + 1 == buf.read_cursor,
                buf.read_cursor <= MAX_MESSAGE_SIZE - 1,
                label_length == bytes[starting_index as int] && label_length <= 255,
                psome ==> {
                    &&& parsed.0.len() == parsed.1.len()
                    &&& decoded_names@.len() <= parsed.0.len()
                    &&& parse_labels(bytes, starting_index as int) == Some(
                        (
                            parsed.0.skip(decoded_names@.len() as int),
                            parsed.1.skip(decoded_names@.len() as int),
                            parsed.2,
                        ),
                    )
                    &&& forall|i: int|
                        0 <= i < decoded_names@.len() ==> (#[trigger] decoded_names@[i])@
                            == parsed.0[i]
                    &&& forall|i: int|
                        0 <= i < decoded_names@.len() ==> (#[trigger] decoded_indexes@[i]) as int
                            == parsed.1[i]
                },
                pmix == (parse_labels_to_pointer(bytes, rc0) is Some),
                pmix ==> parse_labels_to_pointer(bytes, rc0) == Some(mixparsed),
                pmix ==> {
                    &&& mixparsed.0.len() == mixparsed.1.len()
                    &&& decoded_names@.len() <= mixparsed.0.len()
                    &&& parse_labels_to_pointer(bytes, starting_index as int) == Some(
                        (
                            mixparsed.0.skip(decoded_names@.len() as int),
                            mixparsed.1.skip(decoded_names@.len() as int),
                            mixparsed.2,
                        ),
                    )
                    &&& forall|i: int|
                        0 <= i < decoded_names@.len() ==> (#[trigger] decoded_names@[i])@
                            == mixparsed.0[i]
                    &&& forall|i: int|
                        0 <= i < decoded_names@.len() ==> (#[trigger] decoded_indexes@[i]) as int
                            == mixparsed.1[i]
                },
            decreases MAX_MESSAGE_SIZE - buf.read_cursor,
        {
            let ghost k = decoded_names@.len() as int;
            let ghost cur_p = starting_index as int;
            proof {
                if psome {
                    assert(parse_labels(bytes, cur_p) == Some(
                        (parsed.0.skip(k), parsed.1.skip(k), parsed.2),
                    ));
                    assert(bytes[cur_p] != 0);
                    lemma_parse_labels_unfold(bytes, cur_p);
                    assert(parsed.0.skip(k).len() > 0);
                    assert(k < parsed.0.len());
                    assert(parsed.0.skip(k)[0] == parsed.0[k]);
                    assert(parsed.1.skip(k)[0] == parsed.1[k]);
                }
                if pmix && bytes[cur_p] < 0xc0 {
                    lemma_parse_to_pointer_unfold(bytes, cur_p);
                    assert(mixparsed.0.skip(k).len() > 0);
                    assert(k < mixparsed.0.len());
                    assert(mixparsed.0.skip(k)[0] == mixparsed.0[k]);
                    assert(mixparsed.1.skip(k)[0] == mixparsed.1[k]);
                }
            }
            if label_length >= 0xC0 {
                proof {
                    if psome {
                        assert(parse_labels(bytes, cur_p) is None);
                    }
                    if pmix {
                        assert(mixparsed.0.skip(k) =~= Seq::<Seq<char>>::empty());
                        assert(k == mixparsed.0.len());
                        assert(mixparsed.2 == cur_p);
                        assert(cur_p + 2 < bytes.len());
                    }
                }
                let second = match buf.get_u8() {
                    Ok(b) => b,
                    Err(_) => {
                        return Err(NetworkBufferError::BufferEmptyError);
                    },
                };
                let pointer_location = self.get_pointer_location(label_length as u8, second);
                match self.lookup_decoded(pointer_location) {
                    Some(name) => {
                        decoded_names.push(name);
                        proof {
                            if hyp_ptr {
                                assert(string_views(decoded_names@) =~= seq![name@]);
                                assert(join_dots(seq![name@]) == name@);
                            }
                            if pmix {
                                assert(string_views(decoded_names@) =~= mixparsed.0.push(name@));
                            }
                        }
                        return self.finish_name(decoded_names, decoded_indexes);
                    },
                    None => {
                        return Err(NetworkBufferError::CompressionError);
                    },
                }
            }
            if label_length > MAX_LABEL_LENGTH {
                proof {
                    if psome {
                        assert(parse_labels(bytes, cur_p) is None);
                    }
                }
                return Err(NetworkBufferError::InvalidLabelLengthError(String::new()));
            }
            let label = match self.decode_label(label_length, buf) {
                Ok(l) => l,
                Err(e) => {
                    proof {
                        if psome {
                            assert(cur_p + 1 + label_length < MAX_MESSAGE_SIZE);
                        }
                    }
                    return Err(NetworkBufferError::BufferEmptyError);
                },
            };
            decoded_names.push(label);
            decoded_indexes.push(starting_index);
            starting_index = buf.read_cursor;
            let next_res = buf.get_u8();
            label_length = match next_res {
                Ok(b) => b as usize,
                Err(_) => {
                    proof {
                        if psome {
                            lemma_parse_labels_unfold(bytes, cur_p);
                        }
                    }
                    return Err(NetworkBufferError::BufferEmptyError);
                },
            };
            proof {
                if psome {
                    lemma_parse_labels_unfold(bytes, cur_p);
                    assert(decoded_names@.last()@ == bytes_chars(
                        bytes.subrange(cur_p + 1, cur_p + 1 + bytes[cur_p]),
                    ));
                    assert(parsed.0.skip(k).drop_first() =~= parsed.0.skip(k + 1));
                    assert(parsed.1.skip(k).drop_first() =~= parsed.1.skip(k + 1));
                }
                if pmix {
                    lemma_parse_to_pointer_unfold(bytes, cur_p);
                    assert(decoded_names@.last()@ == bytes_chars(
                        bytes.subrange(cur_p + 1, cur_p + 1 + bytes[cur_p]),
                    ));
                    assert(mixparsed.0.skip(k).drop_first() =~= mixparsed.0.skip(k + 1));
                    assert(mixparsed.1.skip(k).drop_first() =~= mixparsed.1.skip(k + 1));
                }
            }
        }
        proof {
            if psome {
                let k = decoded_names@.len() as int;
                if k < parsed.0.len() {
                    assert(parse_labels(bytes, starting_index as int) == Some(
                        (parsed.0.skip(k), parsed.1.skip(k), parsed.2),
                    ));
                    assert(parsed.0.skip(k).len() > 0);
                    assert(bytes[starting_index as int] != 0);
                    assert(false);
                }
                assert(parsed.0.skip(k) =~= Seq::<Seq<char>>::empty());
                assert(k == parsed.0.len());
                assert(buf.read_cursor == parsed.2);
                assert(string_views(decoded_names@) =~= parsed.0);
                assert(string_views(decoded_names@).skip(0) =~= parsed.0);
            }
        }
        self.finish_name(decoded_names, decoded_indexes)
    }

    /// Registers every decoded suffix and assembles the dotted name with its
    /// leading-dot sentinel, rejecting a name longer than the wire bound.
    fn finish_name(&mut self, decoded_names: Vec<String>, decoded_indexes: Vec<usize>) -> (r:
        Result<String, NetworkBufferError>)
        requires
            old(self).wf(),
            forall|i: int|
                0 <= i < decoded_names@.len() ==> byte_chars((#[trigger] decoded_names@[i])@),
        ensures
            final(self).wf(),
            final(self).encoded_names@ == old(self).encoded_names@,
            final(self).decoded_names@.len() == old(self).decoded_names@.len() + spec_min(
                decoded_names@.len() as int,
                decoded_indexes@.len() as int,
            ),
            final(self).decoded_names@.take(old(self).decoded_names@.len() as int) == old(
                self,
            ).decoded_names@,
            forall|k: int|
                0 <= k < spec_min(decoded_names@.len() as int, decoded_indexes@.len() as int)
                    ==> {
                    &&& (#[trigger] final(self).decoded_names@[old(self).decoded_names@.len()
                        + k]).0 == decoded_indexes@[k]
                    &&& final(self).decoded_names@[old(self).decoded_names@.len() + k].1@
                        == join_dots(string_views(decoded_names@).skip(k))
                },
            1 + join_dots(string_views(decoded_names@)).len() <= MAX_NAME_LENGTH ==> (r matches Ok(
                name,
            ) && name@ == seq!['.'] + join_dots(string_views(decoded_names@))),
            1 + join_dots(string_views(decoded_names@)).len() > MAX_NAME_LENGTH ==> (r matches Err(
                e,
            ) && e is InvalidNameLengthError),
            r matches Ok(name) ==> byte_chars(name@) && 1 <= name@.len() <= MAX_NAME_LENGTH
                && name@[0] == '.',
    {
        self.save_decoded_names(decoded_names.as_slice(), decoded_indexes.as_slice());
        let joined = self.join_labels_from(decoded_names.as_slice(), 0);
        let mut name = String::new();
        push_char(&mut name, '.');
        name.append(joined.as_str());
        proof {
            assert(string_views(decoded_names@).skip(0) =~= string_views(decoded_names@));
            assert(name@ =~= seq!['.'] + join_dots(string_views(decoded_names@)));
            lemma_join_dots_byte_chars(string_views(decoded_names@));
            assert forall|i: int| 0 <= i < name@.len() implies (#[trigger] name@[i] as u32)
                < 256 by {
                if i == 0 {
                    assert(name@[0] == '.');
                    assert(('.' as u32) < 256);
                } else {
                    assert(name@[i] == join_dots(string_views(decoded_names@))[i - 1]);
                }
            }
        }
        if name.unicode_len() > MAX_NAME_LENGTH {
            return Err(NetworkBufferError::InvalidNameLengthError(name));
        }
        Ok(name)
    }

    /// Decodes the character strings of a TXT payload spanning exactly
    /// `length` octets.
    pub fn decode_txt_record(&mut self, buf: &mut NetworkBuffer, length: usize) -> (r: Result<
        String,
        NetworkBufferError,
    >)
        requires
            old(buf).wf(),
        ensures
            *final(self) == *old(self),
            final(buf).wf(),
            final(buf).buf@ == old(buf).buf@,
            final(buf).write_cursor == old(buf).write_cursor,
            r is Err ==> (r matches Err(e) && (e is BufferEmptyError || e is InvalidPacket)),
            parse_txt(old(buf).buf@, old(buf).read_cursor as int, length as int) is Some ==> ({
                let parsed = parse_txt(
                    old(buf).buf@,
                    old(buf).read_cursor as int,
                    length as int,
                ).unwrap();
                &&& r matches Ok(text) && text@ == parsed.0
                &&& final(buf).read_cursor == parsed.1
            }),
            r matches Ok(text) ==> byte_chars(text@),
    {
        let ghost bytes = old(buf).buf@;
        let ghost pr = parse_txt(bytes, old(buf).read_cursor as int, length as int);
        let ghost psome = pr is Some;
        let mut result = String::new();
        let mut consumed: usize = 0;
        while consumed < length
            invariant
                old(buf).wf(),
                buf.wf(),
                bytes == old(buf).buf@,
                buf.buf@ == bytes,
                buf.write_cursor == old(buf).write_cursor,
                consumed <= length,
                byte_chars(result@),
                *self == *old(self),
                psome == (parse_txt(bytes, old(buf).read_cursor as int, length as int) is Some),
                psome ==> {
                    &&& parse_txt(bytes, buf.read_cursor as int, length - consumed) is Some
                    &&& result@ + parse_txt(
                        bytes,
                        buf.read_cursor as int,
                        length - consumed,
                    ).unwrap().0 == pr.unwrap().0
                    &&& parse_txt(bytes, buf.read_cursor as int, length - consumed).unwrap().1
                        == pr.unwrap().1
                },
            decreases length - consumed,
        {
            let ghost rc_cur = buf.read_cursor as int;
            let ghost remaining = (length - consumed) as int;
            let sequence_length: u8 = match buf.get_u8() {
                Ok(b) => b,
                Err(_) => {
                    return Err(NetworkBufferError::BufferEmptyError);
                },
            };
            if (sequence_length as usize) + 1 > length - consumed {
                proof {
                    if psome {
                        assert(parse_txt(bytes, rc_cur, remaining) is None);
                    }
                }
                return Err(NetworkBufferError::InvalidPacket);
            }
            let chunk = match self.decode_label(sequence_length as usize, buf) {
                Ok(c) => c,
                Err(e) => {
                    proof {
                        if psome {
                            assert(parse_txt(bytes, rc_cur, remaining) is None);
                        }
                    }
                    return Err(NetworkBufferError::BufferEmptyError);
                },
            };
            result.append(chunk.as_str());
            consumed = consumed + (sequence_length as usize) + 1;
            proof {
                if psome {
                    assert(parse_txt(bytes, rc_cur, remaining) == Some(
                        (
                            bytes_chars(bytes.subrange(rc_cur + 1, rc_cur + 1 + sequence_length))
                                + parse_txt(
                                bytes,
                                rc_cur + 1 + sequence_length,
                                remaining - sequence_length - 1,
                            ).unwrap().0,
                            parse_txt(
                                bytes,
                                rc_cur + 1 + sequence_length,
                                remaining - sequence_length - 1,
                            ).unwrap().1,
                        ),
                    ));
                }
            }
        }
        proof {
            if psome {
                assert(parse_txt(bytes, buf.read_cursor as int, 0) == Some(
                    (Seq::<char>::empty(), buf.read_cursor as int),
                ));
                assert(result@ =~= result@ + Seq::<char>::empty());
            }
        }
        Ok(result)
    }

    /// Decodes a start-of-authority payload: two names, then the five
    /// thirty-two-bit fields.
    pub fn decode_soa_record(&mut self, buf: &mut NetworkBuffer) -> (r: Result<
        SOARecord,
        NetworkBufferError,
    >)
        requires
            old(self).wf(),
            old(buf).wf(),
        ensures
            final(self).wf(),
            final(buf).wf(),
            final(buf).buf@ == old(buf).buf@,
            final(buf).write_cursor == old(buf).write_cursor,
            final(self).encoded_names@ == old(self).encoded_names@,
            r is Err ==> (r matches Err(e) && (e is BufferEmptyError || e is CompressionError
                || e is InvalidLabelLengthError || e is InvalidNameLengthError)),
            r matches Ok(soa) ==> byte_chars(soa.master_name@) && byte_chars(soa.mail_name@)
                && soa.master_name@.len() <= MAX_NAME_LENGTH && soa.mail_name@.len()
                <= MAX_NAME_LENGTH,
            soa_decode_path(old(buf).buf@, old(buf).read_cursor as int) ==> ({
                let p1 = parse_labels(old(buf).buf@, old(buf).read_cursor as int).unwrap();
                let p2 = parse_labels(old(buf).buf@, p1.2).unwrap();
                &&& r matches Ok(soa)
                &&& soa.master_name@ == seq!['.'] + join_dots(p1.0)
                &&& soa.mail_name@ == seq!['.'] + join_dots(p2.0)
                &&& soa.serial == read_be_u32(old(buf).buf@, p2.2)
                &&& soa.refresh == read_be_u32(old(buf).buf@, p2.2 + 4)
                &&& soa.retry == read_be_u32(old(buf).buf@, p2.2 + 8)
                &&& soa.expire == read_be_u32(old(buf).buf@, p2.2 + 12)
                &&& soa.minimum == read_be_u32(old(buf).buf@, p2.2 + 16)
                &&& final(buf).read_cursor == p2.2 + 20
            }),
    {
        let master_name = match self.decode_name(buf) {
            Ok(n) => n,
            Err(e) => {
                return Err(e);
            },
        };
        let mail_name = match self.decode_name(buf) {
            Ok(n) => n,
            Err(e) => {
                return Err(e);
            },
        };
        let serial: u32 = match buf.get_u32() {
            Ok(v) => v,
            Err(_) => {
                return Err(NetworkBufferError::BufferEmptyError);
            },
        };
        let refresh: u32 = match buf.get_u32() {
            Ok(v) => v,
            Err(_) => {
                return Err(NetworkBufferError::BufferEmptyError);
            },
        };
        let retry: u32 = match buf.get_u32() {
            Ok(v) => v,
            Err(_) => {
                return Err(NetworkBufferError::BufferEmptyError);
            },
        };
        let expire: u32 = match buf.get_u32() {
            Ok(v) => v,
            Err(_) => {
                return Err(NetworkBufferError::BufferEmptyError);
            },
        };
        let minimum: u32 = match buf.get_u32() {
            Ok(v) => v,
            Err(_) => {
                return Err(NetworkBufferError::BufferEmptyError);
            },
        };
        Ok(SOARecord { master_name, mail_name, serial, refresh, retry, expire, minimum })
    }

    /// Decodes one question: its name, then the type and class fields.
    pub fn decode_question(&mut self, buf: &mut NetworkBuffer) -> (r: Result<
        Question,
        NetworkBufferError,
    >)
        requires
            old(self).wf(),
            old(buf).wf(),
        ensures
            final(self).wf(),
            final(buf).wf(),
            final(buf).buf@ == old(buf).buf@,
            final(buf).write_cursor == old(buf).write_cursor,
            final(self).encoded_names@ == old(self).encoded_names@,
            r is Err ==> (r matches Err(e) && (e is BufferEmptyError || e is CompressionError
                || e is InvalidLabelLengthError || e is InvalidNameLengthError)),
            r matches Ok(q) ==> byte_chars(q.domain@) && 1 <= q.domain@.len() <= MAX_NAME_LENGTH,
            ({
                &&& parse_labels(old(buf).buf@, old(buf).read_cursor as int) is Some
                &&& 1 + join_dots(
                    parse_labels(old(buf).buf@, old(buf).read_cursor as int).unwrap().0,
                ).len() <= MAX_NAME_LENGTH
                &&& parse_labels(old(buf).buf@, old(buf).read_cursor as int).unwrap().2 + 4
                    < MAX_MESSAGE_SIZE
            }) ==> ({
                let p = parse_labels(old(buf).buf@, old(buf).read_cursor as int).unwrap();
                &&& r matches Ok(q)
                &&& q.domain@ == seq!['.'] + join_dots(p.0)
                &&& q.question_type == qtype_from_code(read_be_u16(old(buf).buf@, p.2))
                &&& q.class == (if read_be_u16(old(buf).buf@, p.2 + 2) == 1 {
                    QuestionClass::InternetAddress
                } else {
                    QuestionClass::Unimplemented
                })
                &&& final(buf).read_cursor == p.2 + 4
            }),
            // the same, over the one-question framing function
            q_end(old(buf).buf@, old(buf).read_cursor as int) is Some ==> (r matches Ok(q)
                && q_denotes(old(buf).buf@, old(buf).read_cursor as int, q)
                && final(buf).read_cursor == q_end(
                old(buf).buf@,
                old(buf).read_cursor as int,
            ).unwrap()),
    {
        let domain = match self.decode_name(buf) {
            Ok(n) => n,
            Err(e) => {
                return Err(e);
            },
        };
        let type_value: u16 = match buf.get_u16() {
            Ok(v) => v,
            Err(_) => {
                return Err(NetworkBufferError::BufferEmptyError);
            },
        };
        let question_type = match type_value {
            0x0001 => ResourceRecordType::ARecord,
            0x001C => ResourceRecordType::AAAARecord,
            0x0002 => ResourceRecordType::NSRecord,
            0x0005 => ResourceRecordType::CNameRecord,
            0x000f => ResourceRecordType::MXRecord,
            0x0006 => ResourceRecordType::SOARecord,
            0x000C => ResourceRecordType::PTRRecord,
            0x0021 => ResourceRecordType::SRVRecord,
            0x0010 => ResourceRecordType::TXTRecord,
            _ => ResourceRecordType::Unimplemented,
        };
        let class_value: u16 = match buf.get_u16() {
            Ok(v) => v,
            Err(_) => {
                return Err(NetworkBufferError::BufferEmptyError);
            },
        };
        let class = match class_value {
            0x001 => QuestionClass::InternetAddress,
            _ => QuestionClass::Unimplemented,
        };
        Ok(Question { domain, question_type, class })
    }

    /// Decodes one resource record: name, type, class, time to live, the
    /// RDLENGTH field, then the typed payload. An unknown record type fails
    /// with `InvalidPacket`.
    #[verifier::rlimit(100)]
    #[verifier::spinoff_prover]
    pub fn decode_resource_record(&mut self, buf: &mut NetworkBuffer) -> (r: Result<
        ResourceRecord,
        NetworkBufferError,
    >)
        requires
            old(self).wf(),
            old(buf).wf(),
        ensures
            final(self).wf(),
            final(buf).wf(),
            final(buf).buf@ == old(buf).buf@,
            final(buf).write_cursor == old(buf).write_cursor,
            final(self).encoded_names@ == old(self).encoded_names@,
            r is Err ==> (r matches Err(e) && (e is BufferEmptyError || e is CompressionError
                || e is InvalidLabelLengthError || e is InvalidNameLengthError
                || e is InvalidPacket)),
            r matches Ok(rec) ==> byte_chars(rec.domain@) && rr_chars_ok(&rec),
            // a type with no supported RDATA layout fails with InvalidPacket
            (parse_labels(old(buf).buf@, old(buf).read_cursor as int) is Some && 1 + join_dots(
                parse_labels(old(buf).buf@, old(buf).read_cursor as int).unwrap().0,
            ).len() <= MAX_NAME_LENGTH && parse_labels(
                old(buf).buf@,
                old(buf).read_cursor as int,
            ).unwrap().2 + 10 < MAX_MESSAGE_SIZE && ({
                let t = type_from_code(
                    read_be_u16(
                        old(buf).buf@,
                        parse_labels(old(buf).buf@, old(buf).read_cursor as int).unwrap().2,
                    ),
                );
                t is PTRRecord || t is SRVRecord || t is Unimplemented
            })) ==> (r matches Err(e) && e is InvalidPacket),
            // whatever the payload, the fixed fields come from the bytes
            (parse_labels(old(buf).buf@, old(buf).read_cursor as int) is Some && 1 + join_dots(
                parse_labels(old(buf).buf@, old(buf).read_cursor as int).unwrap().0,
            ).len() <= MAX_NAME_LENGTH && parse_labels(
                old(buf).buf@,
                old(buf).read_cursor as int,
            ).unwrap().2 + 10 < MAX_MESSAGE_SIZE && r is Ok) ==> ({
                let p = parse_labels(old(buf).buf@, old(buf).read_cursor as int).unwrap();
                let rec = r.unwrap();
                &&& rec.domain@ == seq!['.'] + join_dots(p.0)
                &&& rec.record_type == type_from_code(read_be_u16(old(buf).buf@, p.2))
                &&& rec.class == (if read_be_u16(old(buf).buf@, p.2 + 2) == 1 {
                    ResourceRecordClass::InternetAddress
                } else {
                    ResourceRecordClass::Unimplemented
                })
                &&& rec.time_to_live == read_be_u32(old(buf).buf@, p.2 + 4)
            }),
            // an address record decodes in full
            (parse_labels(old(buf).buf@, old(buf).read_cursor as int) is Some && 1 + join_dots(
                parse_labels(old(buf).buf@, old(buf).read_cursor as int).unwrap().0,
            ).len() <= MAX_NAME_LENGTH && parse_labels(
                old(buf).buf@,
                old(buf).read_cursor as int,
            ).unwrap().2 + 14 < MAX_MESSAGE_SIZE && read_be_u16(
                old(buf).buf@,
                parse_labels(old(buf).buf@, old(buf).read_cursor as int).unwrap().2,
            ) == 1) ==> ({
                let p = parse_labels(old(buf).buf@, old(buf).read_cursor as int).unwrap();
                &&& r matches Ok(rec)
                &&& rec.data == ResourceRecordData::A(read_be_u32(old(buf).buf@, p.2 + 10))
                &&& final(buf).read_cursor == p.2 + 14
            }),
            // a canonical-name or name-server record whose own name is also
            // pointer-free decodes in full
            (parse_labels(old(buf).buf@, old(buf).read_cursor as int) is Some && 1 + join_dots(
                parse_labels(old(buf).buf@, old(buf).read_cursor as int).unwrap().0,
            ).len() <= MAX_NAME_LENGTH && parse_labels(
                old(buf).buf@,
                old(buf).read_cursor as int,
            ).unwrap().2 + 10 < MAX_MESSAGE_SIZE && (read_be_u16(
                old(buf).buf@,
                parse_labels(old(buf).buf@, old(buf).read_cursor as int).unwrap().2,
            ) == 5 || read_be_u16(
                old(buf).buf@,
                parse_labels(old(buf).buf@, old(buf).read_cursor as int).unwrap().2,
            ) == 2) && parse_labels(
                old(buf).buf@,
                parse_labels(old(buf).buf@, old(buf).read_cursor as int).unwrap().2 + 10,
            ) is Some && 1 + join_dots(
                parse_labels(
                    old(buf).buf@,
                    parse_labels(old(buf).buf@, old(buf).read_cursor as int).unwrap().2 + 10,
                ).unwrap().0,
            ).len() <= MAX_NAME_LENGTH) ==> ({
                let p = parse_labels(old(buf).buf@, old(buf).read_cursor as int).unwrap();
                let pd = parse_labels(old(buf).buf@, p.2 + 10).unwrap();
                let target = seq!['.'] + join_dots(pd.0);
                &&& r matches Ok(rec)
                &&& (read_be_u16(old(buf).buf@, p.2) == 5 ==> (rec.data matches
                    ResourceRecordData::CName(n) && n@ == target))
                &&& (read_be_u16(old(buf).buf@, p.2) == 2 ==> (rec.data matches
                    ResourceRecordData::NS(n) && n@ == target))
                &&& final(buf).read_cursor == pd.2
            }),
            // a canonical-name or name-server record whose payload is a
            // label run cut short by a pointer into bytes decoded before
            // this record decodes in full
            (parse_labels(old(buf).buf@, old(buf).read_cursor as int) is Some && 1 + join_dots(
                parse_labels(old(buf).buf@, old(buf).read_cursor as int).unwrap().0,
            ).len() <= MAX_NAME_LENGTH && parse_labels(
                old(buf).buf@,
                old(buf).read_cursor as int,
            ).unwrap().2 + 10 < MAX_MESSAGE_SIZE && (read_be_u16(
                old(buf).buf@,
                parse_labels(old(buf).buf@, old(buf).read_cursor as int).unwrap().2,
            ) == 5 || read_be_u16(
                old(buf).buf@,
                parse_labels(old(buf).buf@, old(buf).read_cursor as int).unwrap().2,
            ) == 2) && parse_labels_to_pointer(
                old(buf).buf@,
                parse_labels(old(buf).buf@, old(buf).read_cursor as int).unwrap().2 + 10,
            ) is Some && ({
                let s = old(buf).buf@;
                let pl = parse_labels(s, old(buf).read_cursor as int).unwrap();
                let pm = parse_labels_to_pointer(s, pl.2 + 10).unwrap();
                let loc = spec_pointer_target(s[pm.2], s[pm.2 + 1]);
                &&& old(self).dec_name(loc) is Some
                &&& 1 + join_dots(pm.0.push(old(self).dec_name(loc).unwrap())).len()
                    <= MAX_NAME_LENGTH
                &&& (forall|x: int| 0 <= x < pl.1.len() ==> #[trigger] pl.1[x] != loc as int)
            })) ==> ({
                let s = old(buf).buf@;
                let pl = parse_labels(s, old(buf).read_cursor as int).unwrap();
                let pm = parse_labels_to_pointer(s, pl.2 + 10).unwrap();
                let loc = spec_pointer_target(s[pm.2], s[pm.2 + 1]);
                let expanded = seq!['.'] + join_dots(pm.0.push(old(self).dec_name(loc).unwrap()));
                &&& r matches Ok(rec)
                &&& (read_be_u16(s, pl.2) == 5 ==> (rec.data matches ResourceRecordData::CName(n)
                    && n@ == expanded))
                &&& (read_be_u16(s, pl.2) == 2 ==> (rec.data matches ResourceRecordData::NS(n)
                    && n@ == expanded))
                &&& final(buf).read_cursor == pm.2 + 2
            }),
            // a start-of-authority record whose names are pointer-free
            // decodes in full
            (parse_labels(old(buf).buf@, old(buf).read_cursor as int) is Some && 1 + join_dots(
                parse_labels(old(buf).buf@, old(buf).read_cursor as int).unwrap().0,
            ).len() <= MAX_NAME_LENGTH && parse_labels(
                old(buf).buf@,
                old(buf).read_cursor as int,
            ).unwrap().2 + 10 < MAX_MESSAGE_SIZE && read_be_u16(
                old(buf).buf@,
                parse_labels(old(buf).buf@, old(buf).read_cursor as int).unwrap().2,
            ) == 6 && soa_decode_path(
                old(buf).buf@,
                parse_labels(old(buf).buf@, old(buf).read_cursor as int).unwrap().2 + 10,
            )) ==> ({
                let p = parse_labels(old(buf).buf@, old(buf).read_cursor as int).unwrap();
                let p1 = parse_labels(old(buf).buf@, p.2 + 10).unwrap();
                let p2 = parse_labels(old(buf).buf@, p1.2).unwrap();
                &&& r matches Ok(rec)
                &&& (rec.data matches ResourceRecordData::SOA(soa) && {
                    &&& soa.master_name@ == seq!['.'] + join_dots(p1.0)
                    &&& soa.mail_name@ == seq!['.'] + join_dots(p2.0)
                    &&& soa.serial == read_be_u32(old(buf).buf@, p2.2)
                    &&& soa.refresh == read_be_u32(old(buf).buf@, p2.2 + 4)
                    &&& soa.retry == read_be_u32(old(buf).buf@, p2.2 + 8)
                    &&& soa.expire == read_be_u32(old(buf).buf@, p2.2 + 12)
                    &&& soa.minimum == read_be_u32(old(buf).buf@, p2.2 + 16)
                })
                &&& final(buf).read_cursor == p2.2 + 20
            }),
            // a quad-A record decodes in full
            (parse_labels(old(buf).buf@, old(buf).read_cursor as int) is Some && 1 + join_dots(
                parse_labels(old(buf).buf@, old(buf).read_cursor as int).unwrap().0,
            ).len() <= MAX_NAME_LENGTH && parse_labels(
                old(buf).buf@,
                old(buf).read_cursor as int,
            ).unwrap().2 + 26 < MAX_MESSAGE_SIZE && read_be_u16(
                old(buf).buf@,
                parse_labels(old(buf).buf@, old(buf).read_cursor as int).unwrap().2,
            ) == 0x1c) ==> ({
                let p = parse_labels(old(buf).buf@, old(buf).read_cursor as int).unwrap();
                &&& r matches Ok(rec)
                &&& rec.data == ResourceRecordData::AAAA(
                    crate::buffer::read_be_u128(old(buf).buf@, p.2 + 10),
                )
                &&& final(buf).read_cursor == p.2 + 26
            }),
            // a text record whose character strings fill its length field
            // decodes in full
            (parse_labels(old(buf).buf@, old(buf).read_cursor as int) is Some && 1 + join_dots(
                parse_labels(old(buf).buf@, old(buf).read_cursor as int).unwrap().0,
            ).len() <= MAX_NAME_LENGTH && parse_labels(
                old(buf).buf@,
                old(buf).read_cursor as int,
            ).unwrap().2 + 10 < MAX_MESSAGE_SIZE && read_be_u16(
                old(buf).buf@,
                parse_labels(old(buf).buf@, old(buf).read_cursor as int).unwrap().2,
            ) == 0x10 && parse_txt(
                old(buf).buf@,
                parse_labels(old(buf).buf@, old(buf).read_cursor as int).unwrap().2 + 10,
                read_be_u16(
                    old(buf).buf@,
                    parse_labels(old(buf).buf@, old(buf).read_cursor as int).unwrap().2 + 8,
                ) as int,
            ) is Some) ==> ({
                let p = parse_labels(old(buf).buf@, old(buf).read_cursor as int).unwrap();
                let pt = parse_txt(
                    old(buf).buf@,
                    p.2 + 10,
                    read_be_u16(old(buf).buf@, p.2 + 8) as int,
                ).unwrap();
                &&& r matches Ok(rec)
                &&& (rec.data matches ResourceRecordData::TXT(t) && t@ == pt.0)
                &&& final(buf).read_cursor == pt.1
            }),
            // the same facts, over the one-record framing function
            rr_end(old(buf).buf@, old(buf).read_cursor as int) is Some ==> (r matches Ok(rec)
                && rr_denotes(old(buf).buf@, old(buf).read_cursor as int, rec)
                && final(buf).read_cursor == rr_end(
                old(buf).buf@,
                old(buf).read_cursor as int,
            ).unwrap()),
            // a mail-exchanger record whose exchange name is pointer-free
            // decodes in full
            (parse_labels(old(buf).buf@, old(buf).read_cursor as int) is Some && 1 + join_dots(
                parse_labels(old(buf).buf@, old(buf).read_cursor as int).unwrap().0,
            ).len() <= MAX_NAME_LENGTH && parse_labels(
                old(buf).buf@,
                old(buf).read_cursor as int,
            ).unwrap().2 + 12 < MAX_MESSAGE_SIZE && read_be_u16(
                old(buf).buf@,
                parse_labels(old(buf).buf@, old(buf).read_cursor as int).unwrap().2,
            ) == 0x0f && parse_labels(
                old(buf).buf@,
                parse_labels(old(buf).buf@, old(buf).read_cursor as int).unwrap().2 + 12,
            ) is Some && 1 + join_dots(
                parse_labels(
                    old(buf).buf@,
                    parse_labels(old(buf).buf@, old(buf).read_cursor as int).unwrap().2 + 12,
                ).unwrap().0,
            ).len() <= MAX_NAME_LENGTH) ==> ({
                let p = parse_labels(old(buf).buf@, old(buf).read_cursor as int).unwrap();
                let pd = parse_labels(old(buf).buf@, p.2 + 12).unwrap();
                &&& r matches Ok(rec)
                &&& (rec.data matches ResourceRecordData::MX(pref, n) && pref == read_be_u16(
                    old(buf).buf@,
                    p.2 + 10,
                ) && n@ == seq!['.'] + join_dots(pd.0))
                &&& final(buf).read_cursor == pd.2
            }),
    {
        let ghost s0 = old(buf).buf@;
        let ghost rc0 = old(buf).read_cursor as int;
        let ghost mixed_cn = parse_labels(s0, rc0) is Some && 1 + join_dots(
            parse_labels(s0, rc0).unwrap().0,
        ).len() <= MAX_NAME_LENGTH && parse_labels(s0, rc0).unwrap().2 + 10 < MAX_MESSAGE_SIZE
            && (read_be_u16(s0, parse_labels(s0, rc0).unwrap().2) == 5 || read_be_u16(
            s0,
            parse_labels(s0, rc0).unwrap().2,
        ) == 2) && parse_labels_to_pointer(
            s0,
            parse_labels(s0, rc0).unwrap().2 + 10,
        ) is Some && ({
            let pl = parse_labels(s0, rc0).unwrap();
            let pm = parse_labels_to_pointer(s0, pl.2 + 10).unwrap();
            let loc = spec_pointer_target(s0[pm.2], s0[pm.2 + 1]);
            &&& old(self).dec_name(loc) is Some
            &&& 1 + join_dots(pm.0.push(old(self).dec_name(loc).unwrap())).len()
                <= MAX_NAME_LENGTH
            &&& (forall|x: int| 0 <= x < pl.1.len() ==> #[trigger] pl.1[x] != loc as int)
        });
        let domain = match self.decode_name(buf) {
            Ok(n) => n,
            Err(e) => {
                return Err(e);
            },
        };
        proof {
            if mixed_cn {
                let pl = parse_labels(s0, rc0).unwrap();
                let pm = parse_labels_to_pointer(s0, pl.2 + 10).unwrap();
                let loc = spec_pointer_target(s0[pm.2], s0[pm.2 + 1]);
                lemma_parse_labels_lens(s0, rc0);
                assert forall|j: int|
                    old(self).decoded_names@.len() <= j < self.decoded_names@.len() implies (
                #[trigger] self.decoded_names@[j]).0 != loc by {
                    let k = j - old(self).decoded_names@.len();
                    assert(0 <= k < pl.0.len());
                    assert(pl.0.len() == pl.1.len());
                    assert(self.decoded_names@[old(self).decoded_names@.len() + k].0 as int
                        == pl.1[k]);
                    assert(pl.1[k] != loc as int);
                }
                lemma_dec_lookup_preserved(
                    old(self).decoded_names@,
                    self.decoded_names@,
                    loc,
                );
                assert(self.dec_name(loc) == old(self).dec_name(loc));
            }
        }
        let record_type = match self.decode_type(buf) {
            Ok(t) => t,
            Err(e) => {
                return Err(e);
            },
        };
        let class = match self.decode_class(buf) {
            Ok(c) => c,
            Err(e) => {
                return Err(e);
            },
        };
        let time_to_live: u32 = match buf.get_u32() {
            Ok(v) => v,
            Err(_) => {
                return Err(NetworkBufferError::BufferEmptyError);
            },
        };
        let data_length: u16 = match buf.get_u16() {
            Ok(v) => v,
            Err(_) => {
                return Err(NetworkBufferError::BufferEmptyError);
            },
        };
        let record_data: ResourceRecordData = match record_type {
            ResourceRecordType::ARecord => {
                match buf.get_u32() {
                    Ok(v) => ResourceRecordData::A(v),
                    Err(_) => {
                        return Err(NetworkBufferError::BufferEmptyError);
                    },
                }
            },
            ResourceRecordType::CNameRecord => {
                match self.decode_name(buf) {
                    Ok(n) => ResourceRecordData::CName(n),
                    Err(e) => {
                        return Err(e);
                    },
                }
            },
            ResourceRecordType::NSRecord => {
                match self.decode_name(buf) {
                    Ok(n) => ResourceRecordData::NS(n),
                    Err(e) => {
                        return Err(e);
                    },
                }
            },
            ResourceRecordType::AAAARecord => {
                match buf.get_u128() {
                    Ok(v) => ResourceRecordData::AAAA(v),
                    Err(_) => {
                        return Err(NetworkBufferError::BufferEmptyError);
                    },
                }
            },
            ResourceRecordType::SOARecord => {
                match self.decode_soa_record(buf) {
                    Ok(soa) => ResourceRecordData::SOA(soa),
                    Err(e) => {
                        return Err(e);
                    },
                }
            },
            ResourceRecordType::MXRecord => {
                let preference: u16 = match buf.get_u16() {
                    Ok(v) => v,
                    Err(_) => {
                        return Err(NetworkBufferError::BufferEmptyError);
                    },
                };
                match self.decode_name(buf) {
                    Ok(n) => ResourceRecordData::MX(preference, n),
                    Err(e) => {
                        return Err(e);
                    },
                }
            },
            ResourceRecordType::TXTRecord => {
                match self.decode_txt_record(buf, data_length as usize) {
                    Ok(t) => ResourceRecordData::TXT(t),
                    Err(e) => {
                        return Err(e);
                    },
                }
            },
            _ => {
                return Err(NetworkBufferError::InvalidPacket);
            },
        };
        Ok(ResourceRecord { domain, record_type, class, time_to_live, data: record_data })
    }

    /// Decodes a whole message: the header, then as many questions and
    /// records as the four counts announce.
    pub fn decode_message(&mut self, buf: &mut NetworkBuffer) -> (r: Result<
        Message,
        NetworkBufferError,
    >)
        requires
            old(self).wf(),
            old(buf).wf(),
        ensures
            final(self).wf(),
            final(buf).wf(),
            final(buf).buf@ == old(buf).buf@,
            final(buf).write_cursor == old(buf).write_cursor,
            final(self).encoded_names@ == old(self).encoded_names@,
            r is Err ==> (r matches Err(e) && (e is BufferEmptyError || e is CompressionError
                || e is InvalidLabelLengthError || e is InvalidNameLengthError
                || e is InvalidPacket)),
            r matches Ok(m) ==> ({
                let s = old(buf).buf@;
                let rc = old(buf).read_cursor as int;
                &&& m.id == read_be_u16(s, rc)
                &&& m.packet_type == (if s[rc + 2] & 0x80 == 0x80 {
                    PacketType::Response
                } else {
                    PacketType::Query
                })
                &&& m.op_code == (s[rc + 2] >> 3) & 0x0f
                &&& m.authoritative_answer == ((s[rc + 2] >> 2) & 0x01 == 1)
                &&& m.truncation == ((s[rc + 2] >> 1) & 0x01 == 1)
                &&& m.recursion_desired == (s[rc + 2] & 0x01 == 1)
                &&& m.recursion_available == ((s[rc + 3] >> 7) & 0x01 == 1)
                &&& (s[rc + 3] & 0x0f) <= 5
                &&& m.response_code == rcode_from_num(s[rc + 3] & 0x0f)
                &&& m.questions@.len() == read_be_u16(s, rc + 4)
                &&& m.answers@.len() == read_be_u16(s, rc + 6)
                &&& m.authorities@.len() == read_be_u16(s, rc + 8)
                &&& m.additional_records@.len() == read_be_u16(s, rc + 10)
            }),
            // a readable header with a response code past the known range
            // fails with exactly InvalidPacket
            (old(buf).read_cursor + 4 < MAX_MESSAGE_SIZE && (old(buf).buf@[old(
                buf,
            ).read_cursor + 3] & 0x0f) >= 6) ==> (r matches Err(e) && e is InvalidPacket),
            // a pointer-free message decodes in full: the result's four
            // sections denote their bytes exactly, up to the framed
            // boundaries, and the cursor ends at the last boundary
            message_frame(old(buf).buf@, old(buf).read_cursor as int) is Some ==> ({
                let bounds = message_frame(old(buf).buf@, old(buf).read_cursor as int).unwrap();
                &&& r matches Ok(m)
                &&& qs_denote_upto(
                    old(buf).buf@,
                    old(buf).read_cursor + 12,
                    m.questions@,
                    bounds.0,
                )
                &&& rrs_denote_upto(old(buf).buf@, bounds.0, m.answers@, bounds.1)
                &&& rrs_denote_upto(old(buf).buf@, bounds.1, m.authorities@, bounds.2)
                &&& rrs_denote_upto(old(buf).buf@, bounds.2, m.additional_records@, bounds.3)
                &&& final(buf).read_cursor == bounds.3
            }),
            // a message with four zero counts always decodes from its header
            (old(buf).read_cursor + 12 < MAX_MESSAGE_SIZE && (old(buf).buf@[old(
                buf,
            ).read_cursor + 3] & 0x0f) <= 5 && read_be_u16(old(buf).buf@, old(buf).read_cursor + 4)
                == 0 && read_be_u16(old(buf).buf@, old(buf).read_cursor + 6) == 0 && read_be_u16(
                old(buf).buf@,
                old(buf).read_cursor + 8,
            ) == 0 && read_be_u16(old(buf).buf@, old(buf).read_cursor + 10) == 0) ==> (r is Ok
                && final(buf).read_cursor == old(buf).read_cursor + 12),
    {
        let id: u16 = match buf.get_u16() {
            Ok(v) => v,
            Err(_) => {
                return Err(NetworkBufferError::BufferEmptyError);
            },
        };
        let flag_byte: u8 = match buf.get_u8() {
            Ok(v) => v,
            Err(_) => {
                return Err(NetworkBufferError::BufferEmptyError);
            },
        };
        let packet_type = if flag_byte & 0x80 == 0x80 {
            PacketType::Response
        } else {
            PacketType::Query
        };
        let op_code: u8 = (flag_byte >> 3) & 0x0F;
        let authoritative_answer = (flag_byte >> 2) & 0x01 == 1;
        let truncation = (flag_byte >> 1) & 0x01 == 1;
        let recursion_desired = flag_byte & 0x01 == 1;
        let flag_byte2: u8 = match buf.get_u8() {
            Ok(v) => v,
            Err(_) => {
                return Err(NetworkBufferError::BufferEmptyError);
            },
        };
        let recursion_available = (flag_byte2 >> 7) & 0x01 == 1;
        let response_code = match flag_byte2 & 0x0F {
            0 => ResponseCode::NoError,
            1 => ResponseCode::FormatError,
            2 => ResponseCode::ServerError,
            3 => ResponseCode::NameError,
            4 => ResponseCode::NotImplemented,
            5 => ResponseCode::Refused,
            _ => {
                return Err(NetworkBufferError::InvalidPacket);
            },
        };
        let question_count: u16 = match buf.get_u16() {
            Ok(v) => v,
            Err(_) => {
                return Err(NetworkBufferError::BufferEmptyError);
            },
        };
        let answer_count: u16 = match buf.get_u16() {
            Ok(v) => v,
            Err(_) => {
                return Err(NetworkBufferError::BufferEmptyError);
            },
        };
        let name_server_count: u16 = match buf.get_u16() {
            Ok(v) => v,
            Err(_) => {
                return Err(NetworkBufferError::BufferEmptyError);
            },
        };
        let additional_records_count: u16 = match buf.get_u16() {
            Ok(v) => v,
            Err(_) => {
                return Err(NetworkBufferError::BufferEmptyError);
            },
        };
        let ghost zero_case = old(buf).read_cursor + 12 < MAX_MESSAGE_SIZE && (old(buf).buf@[old(
            buf,
        ).read_cursor + 3] & 0x0f) <= 5 && read_be_u16(old(buf).buf@, old(buf).read_cursor + 4)
            == 0 && read_be_u16(old(buf).buf@, old(buf).read_cursor + 6) == 0 && read_be_u16(
            old(buf).buf@,
            old(buf).read_cursor + 8,
        ) == 0 && read_be_u16(old(buf).buf@, old(buf).read_cursor + 10) == 0;
        let ghost bytes = old(buf).buf@;
        let ghost rc0 = old(buf).read_cursor as int;
        let ghost framed = message_frame(bytes, rc0) is Some;
        let ghost bounds = if framed {
            message_frame(bytes, rc0).unwrap()
        } else {
            (0int, 0int, 0int, 0int)
        };
        let mut questions: Vec<Question> = Vec::new();
        let mut answers: Vec<ResourceRecord> = Vec::new();
        let mut name_servers: Vec<ResourceRecord> = Vec::new();
        let mut additional_records: Vec<ResourceRecord> = Vec::new();
        proof {
            if framed {
                assert(message_frame(bytes, rc0) == Some(bounds));
                assert(qs_frame(bytes, rc0 + 12, read_be_u16(bytes, rc0 + 4) as int) == Some(
                    bounds.0,
                ));
            }
        }
        let mut i: usize = 0;
        while i < question_count as usize
            invariant
                self.wf(),
                buf.wf(),
                buf.buf@ == old(buf).buf@,
                buf.write_cursor == old(buf).write_cursor,
                self.encoded_names@ == old(self).encoded_names@,
                i <= question_count as usize,
                questions@.len() == i,
                question_count == read_be_u16(old(buf).buf@, old(buf).read_cursor + 4),
                answer_count == read_be_u16(old(buf).buf@, old(buf).read_cursor + 6),
                name_server_count == read_be_u16(old(buf).buf@, old(buf).read_cursor + 8),
                additional_records_count == read_be_u16(old(buf).buf@, old(buf).read_cursor + 10),
                zero_case == (old(buf).read_cursor + 12 < MAX_MESSAGE_SIZE && (old(buf).buf@[old(
                    buf,
                ).read_cursor + 3] & 0x0f) <= 5 && read_be_u16(
                    old(buf).buf@,
                    old(buf).read_cursor + 4,
                ) == 0 && read_be_u16(old(buf).buf@, old(buf).read_cursor + 6) == 0 && read_be_u16(
                    old(buf).buf@,
                    old(buf).read_cursor + 8,
                ) == 0 && read_be_u16(old(buf).buf@, old(buf).read_cursor + 10) == 0),
                zero_case ==> buf.read_cursor == old(buf).read_cursor + 12,
                !(old(buf).read_cursor + 4 < MAX_MESSAGE_SIZE && (old(buf).buf@[old(
                    buf,
                ).read_cursor + 3] & 0x0f) >= 6),
                framed == (message_frame(bytes, rc0) is Some),
                bytes == old(buf).buf@,
                rc0 == old(buf).read_cursor,
                framed ==> message_frame(bytes, rc0) == Some(bounds),
                framed ==> qs_denote_upto(bytes, rc0 + 12, questions@, buf.read_cursor as int)
                    && qs_frame(
                    bytes,
                    buf.read_cursor as int,
                    question_count as int - i as int,
                ) == Some(bounds.0),
            decreases question_count as usize - i,
        {
            let ghost rc_before = buf.read_cursor as int;
            let ghost qs_before = questions@;
            proof {
                if framed {
                    assert(q_end(bytes, rc_before) is Some);
                }
            }
            let question = match self.decode_question(buf) {
                Ok(q) => q,
                Err(e) => {
                    return Err(e);
                },
            };
            questions.push(question);
            i = i + 1;
            proof {
                if framed {
                    lemma_qs_denote_snoc(bytes, rc0 + 12, qs_before, question, rc_before);
                    assert(questions@ =~= qs_before.push(question));
                }
            }
        }
        proof {
            if framed {
                assert(buf.read_cursor == bounds.0);
            }
        }
        let mut i: usize = 0;
        while i < answer_count as usize
            invariant
                self.wf(),
                buf.wf(),
                buf.buf@ == old(buf).buf@,
                buf.write_cursor == old(buf).write_cursor,
                self.encoded_names@ == old(self).encoded_names@,
                i <= answer_count as usize,
                answers@.len() == i,
                question_count == read_be_u16(old(buf).buf@, old(buf).read_cursor + 4),
                answer_count == read_be_u16(old(buf).buf@, old(buf).read_cursor + 6),
                name_server_count == read_be_u16(old(buf).buf@, old(buf).read_cursor + 8),
                additional_records_count == read_be_u16(old(buf).buf@, old(buf).read_cursor + 10),
                zero_case == (old(buf).read_cursor + 12 < MAX_MESSAGE_SIZE && (old(buf).buf@[old(
                    buf,
                ).read_cursor + 3] & 0x0f) <= 5 && read_be_u16(
                    old(buf).buf@,
                    old(buf).read_cursor + 4,
                ) == 0 && read_be_u16(old(buf).buf@, old(buf).read_cursor + 6) == 0 && read_be_u16(
                    old(buf).buf@,
                    old(buf).read_cursor + 8,
                ) == 0 && read_be_u16(old(buf).buf@, old(buf).read_cursor + 10) == 0),
                zero_case ==> buf.read_cursor == old(buf).read_cursor + 12,
                !(old(buf).read_cursor + 4 < MAX_MESSAGE_SIZE && (old(buf).buf@[old(
                    buf,
                ).read_cursor + 3] & 0x0f) >= 6),
                framed == (message_frame(bytes, rc0) is Some),
                bytes == old(buf).buf@,
                rc0 == old(buf).read_cursor,
                framed ==> message_frame(bytes, rc0) == Some(bounds),
                framed ==> rrs_denote_upto(bytes, bounds.0, answers@, buf.read_cursor as int)
                    && rrs_frame(
                    bytes,
                    buf.read_cursor as int,
                    answer_count as int - i as int,
                ) == Some(bounds.1),
            decreases answer_count as usize - i,
        {
            let ghost rc_before = buf.read_cursor as int;
            let ghost rs_before = answers@;
            proof {
                if framed {
                    assert(rr_end(bytes, rc_before) is Some);
                }
            }
            let answer = match self.decode_resource_record(buf) {
                Ok(a) => a,
                Err(e) => {
                    return Err(e);
                },
            };
            answers.push(answer);
            i = i + 1;
            proof {
                if framed {
                    lemma_rrs_denote_snoc(bytes, bounds.0, rs_before, answer, rc_before);
                    assert(answers@ =~= rs_before.push(answer));
                }
            }
        }
        proof {
            if framed {
                assert(buf.read_cursor == bounds.1);
            }
        }
        let mut i: usize = 0;
        while i < name_server_count as usize
            invariant
                self.wf(),
                buf.wf(),
                buf.buf@ == old(buf).buf@,
                buf.write_cursor == old(buf).write_cursor,
                self.encoded_names@ == old(self).encoded_names@,
                i <= name_server_count as usize,
                name_servers@.len() == i,
                question_count == read_be_u16(old(buf).buf@, old(buf).read_cursor + 4),
                answer_count == read_be_u16(old(buf).buf@, old(buf).read_cursor + 6),
                name_server_count == read_be_u16(old(buf).buf@, old(buf).read_cursor + 8),
                additional_records_count == read_be_u16(old(buf).buf@, old(buf).read_cursor + 10),
                zero_case == (old(buf).read_cursor + 12 < MAX_MESSAGE_SIZE && (old(buf).buf@[old(
                    buf,
                ).read_cursor + 3] & 0x0f) <= 5 && read_be_u16(
                    old(buf).buf@,
                    old(buf).read_cursor + 4,
                ) == 0 && read_be_u16(old(buf).buf@, old(buf).read_cursor + 6) == 0 && read_be_u16(
                    old(buf).buf@,
                    old(buf).read_cursor + 8,
                ) == 0 && read_be_u16(old(buf).buf@, old(buf).read_cursor + 10) == 0),
                zero_case ==> buf.read_cursor == old(buf).read_cursor + 12,
                !(old(buf).read_cursor + 4 < MAX_MESSAGE_SIZE && (old(buf).buf@[old(
                    buf,
                ).read_cursor + 3] & 0x0f) >= 6),
                framed == (message_frame(bytes, rc0) is Some),
                bytes == old(buf).buf@,
                rc0 == old(buf).read_cursor,
                framed ==> message_frame(bytes, rc0) == Some(bounds),
                framed ==> rrs_denote_upto(
                    bytes,
                    bounds.1,
                    name_servers@,
                    buf.read_cursor as int,
                ) && rrs_frame(
                    bytes,
                    buf.read_cursor as int,
                    name_server_count as int - i as int,
                ) == Some(bounds.2),
            decreases name_server_count as usize - i,
        {
            let ghost rc_before = buf.read_cursor as int;
            let ghost rs_before = name_servers@;
            proof {
                if framed {
                    assert(rr_end(bytes, rc_before) is Some);
                }
            }
            let authority = match self.decode_resource_record(buf) {
                Ok(a) => a,
                Err(e) => {
                    return Err(e);
                },
            };
            name_servers.push(authority);
            i = i + 1;
            proof {
                if framed {
                    lemma_rrs_denote_snoc(bytes, bounds.1, rs_before, authority, rc_before);
                    assert(name_servers@ =~= rs_before.push(authority));
                }
            }
        }
        proof {
            if framed {
                assert(buf.read_cursor == bounds.2);
            }
        }
        let mut i: usize = 0;
        while i < additional_records_count as usize
            invariant
                self.wf(),
                buf.wf(),
                buf.buf@ == old(buf).buf@,
                buf.write_cursor == old(buf).write_cursor,
                self.encoded_names@ == old(self).encoded_names@,
                i <= additional_records_count as usize,
                additional_records@.len() == i,
                question_count == read_be_u16(old(buf).buf@, old(buf).read_cursor + 4),
                answer_count == read_be_u16(old(buf).buf@, old(buf).read_cursor + 6),
                name_server_count == read_be_u16(old(buf).buf@, old(buf).read_cursor + 8),
                additional_records_count == read_be_u16(old(buf).buf@, old(buf).read_cursor + 10),
                zero_case == (old(buf).read_cursor + 12 < MAX_MESSAGE_SIZE && (old(buf).buf@[old(
                    buf,
                ).read_cursor + 3] & 0x0f) <= 5 && read_be_u16(
                    old(buf).buf@,
                    old(buf).read_cursor + 4,
                ) == 0 && read_be_u16(old(buf).buf@, old(buf).read_cursor + 6) == 0 && read_be_u16(
                    old(buf).buf@,
                    old(buf).read_cursor + 8,
                ) == 0 && read_be_u16(old(buf).buf@, old(buf).read_cursor + 10) == 0),
                zero_case ==> buf.read_cursor == old(buf).read_cursor + 12,
                !(old(buf).read_cursor + 4 < MAX_MESSAGE_SIZE && (old(buf).buf@[old(
                    buf,
                ).read_cursor + 3] & 0x0f) >= 6),
                framed == (message_frame(bytes, rc0) is Some),
                bytes == old(buf).buf@,
                rc0 == old(buf).read_cursor,
                framed ==> message_frame(bytes, rc0) == Some(bounds),
                framed ==> rrs_denote_upto(
                    bytes,
                    bounds.2,
                    additional_records@,
                    buf.read_cursor as int,
                ) && rrs_frame(
                    bytes,
                    buf.read_cursor as int,
                    additional_records_count as int - i as int,
                ) == Some(bounds.3),
            decreases additional_records_count as usize - i,
        {
            let ghost rc_before = buf.read_cursor as int;
            let ghost rs_before = additional_records@;
            proof {
                if framed {
                    assert(rr_end(bytes, rc_before) is Some);
                }
            }
            let additional_record = match self.decode_resource_record(buf) {
                Ok(a) => a,
                Err(e) => {
                    return Err(e);
                },
            };
            additional_records.push(additional_record);
            i = i + 1;
            proof {
                if framed {
                    lemma_rrs_denote_snoc(bytes, bounds.2, rs_before, additional_record, rc_before);
                    assert(additional_records@ =~= rs_before.push(additional_record));
                }
            }
        }
        Ok(
            Message {
                id,
                packet_type,
                op_code,
                authoritative_answer,
                truncation,
                recursion_desired,
                recursion_available,
                response_code,
                questions,
                answers,
                authorities: name_servers,
                additional_records,
            },
        )
    }

    /// Writes the two-octet compression pointer for `offset`.
    pub fn write_compressed_name(&self, offset: usize, buf: &mut NetworkBuffer) -> (r: Result<
        usize,
        NetworkBufferError,
    >)
        requires
            old(buf).wf(),
            offset < MAX_MESSAGE_SIZE,
        ensures
            final(buf).wf(),
            final(buf).read_cursor == old(buf).read_cursor,
            old(buf).write_cursor + 2 < MAX_MESSAGE_SIZE ==> {
                &&& r matches Ok(n) && n == 2
                &&& final(buf).write_cursor == old(buf).write_cursor + 2
                &&& final(buf).buf@ =~= splice(
                    old(buf).buf@,
                    old(buf).write_cursor as int,
                    pointer_bytes(offset),
                )
            },
            old(buf).write_cursor + 2 >= MAX_MESSAGE_SIZE ==> {
                &&& r matches Err(e) && e is BufferFullError
                &&& *final(buf) == *old(buf)
            },
    {
        let compressed_offset: u16 = 0xC000u16 | offset as u16;
        let r = buf.put_u16(compressed_offset);
        proof {
            if old(buf).write_cursor + 2 < MAX_MESSAGE_SIZE {
                assert(buf.buf@ =~= splice(
                    old(buf).buf@,
                    old(buf).write_cursor as int,
                    pointer_bytes(offset),
                ));
            }
        }
        r
    }
}

/// The wire code a question's type is written as.
pub open spec fn qtype_code(t: ResourceRecordType) -> u16 {
    match t {
        ResourceRecordType::ARecord => 0x0001u16,
        ResourceRecordType::AAAARecord => 0x001cu16,
        ResourceRecordType::NSRecord => 0x0002u16,
        ResourceRecordType::CNameRecord => 0x0005u16,
        ResourceRecordType::MXRecord => 0x000fu16,
        ResourceRecordType::SOARecord => 0x0006u16,
        ResourceRecordType::PTRRecord => 0x000cu16,
        ResourceRecordType::SRVRecord => 0x0021u16,
        ResourceRecordType::TXTRecord => 0x0010u16,
        ResourceRecordType::Unimplemented => 0x0000u16,
    }
}

/// The wire code a resource record's type is written as.
pub open spec fn rtype_code(t: ResourceRecordType) -> u16 {
    match t {
        ResourceRecordType::ARecord => 0x0001u16,
        ResourceRecordType::AAAARecord => 0x001cu16,
        ResourceRecordType::NSRecord => 0x0002u16,
        ResourceRecordType::CNameRecord => 0x0005u16,
        ResourceRecordType::MXRecord => 0x000fu16,
        ResourceRecordType::SOARecord => 0x0006u16,
        ResourceRecordType::TXTRecord => 0x0010u16,
        _ => 0x0000u16,
    }
}

/// The numeric value of a response code.
pub open spec fn rcode_num(c: ResponseCode) -> u8 {
    match c {
        ResponseCode::NoError => 0u8,
        ResponseCode::FormatError => 1u8,
        ResponseCode::ServerError => 2u8,
        ResponseCode::NameError => 3u8,
        ResponseCode::NotImplemented => 4u8,
        ResponseCode::Refused => 5u8,
    }
}

/// The first flag octet: QR, OPCODE, AA, TC, RD.
pub open spec fn flag_byte1(m: &Message) -> u8 {
    (match m.packet_type {
        PacketType::Query => 0x00u8,
        PacketType::Response => 0x80u8,
    }) | ((m.op_code & 0x0f) << 3) | (if m.authoritative_answer {
        0x04u8
    } else {
        0x00u8
    }) | (if m.truncation {
        0x02u8
    } else {
        0x00u8
    }) | (if m.recursion_desired {
        0x01u8
    } else {
        0x00u8
    })
}

/// The second flag octet: RA, Z (always zero), RCODE.
pub open spec fn flag_byte2(m: &Message) -> u8 {
    (if m.recursion_available {
        0x80u8
    } else {
        0x00u8
    }) | (rcode_num(m.response_code) & 0x0f)
}

/// The twelve header octets of a message.
pub open spec fn wire_header(m: &Message) -> Seq<u8> {
    be_u16(m.id) + seq![flag_byte1(m), flag_byte2(m)] + be_u16(m.questions@.len() as u16) + be_u16(
        m.answers@.len() as u16,
    ) + be_u16(m.authorities@.len() as u16) + be_u16(m.additional_records@.len() as u16)
}

/// The wire octets of one question, with its name uncompressed.
pub open spec fn wire_question(q: &Question) -> Seq<u8> {
    wire_name(q.domain@) + be_u16(qtype_code(q.question_type)) + be_u16(1u16)
}

/// The wire octets of a start-of-authority payload, names uncompressed.
pub open spec fn wire_soa(s: &SOARecord) -> Seq<u8> {
    wire_name(s.master_name@) + wire_name(s.mail_name@) + be_u32(s.serial) + be_u32(s.refresh)
        + be_u32(s.retry) + be_u32(s.expire) + be_u32(s.minimum)
}

/// A TXT payload as length-prefixed character strings of at most 255 octets.
pub open spec fn txt_wire(s: Seq<char>) -> Seq<u8>
    decreases s.len(),
{
    if s.len() <= 255 {
        seq![s.len() as u8] + str_bytes(s)
    } else {
        seq![255u8] + str_bytes(s.take(255)) + txt_wire(s.skip(255))
    }
}

/// The RDATA octets of a record payload, names uncompressed.
pub open spec fn rdata_wire(d: &ResourceRecordData) -> Seq<u8> {
    match d {
        ResourceRecordData::A(v) => be_u32(*v),
        ResourceRecordData::AAAA(v) => crate::buffer::be_u128(*v),
        ResourceRecordData::CName(n) => wire_name(n@),
        ResourceRecordData::NS(n) => wire_name(n@),
        ResourceRecordData::SOA(s) => wire_soa(s),
        ResourceRecordData::MX(p, e) => be_u16(*p) + wire_name(e@),
        ResourceRecordData::TXT(t) => txt_wire(t@),
    }
}

/// The octets of a record up to and excluding the RDLENGTH field.
pub open spec fn rr_prefix(r: &ResourceRecord) -> Seq<u8> {
    wire_name(r.domain@) + be_u16(rtype_code(r.record_type)) + be_u16(1u16) + be_u32(
        r.time_to_live,
    )
}

/// The wire octets of one resource record, names uncompressed.
pub open spec fn wire_rr(r: &ResourceRecord) -> Seq<u8> {
    wire_name(r.domain@) + be_u16(rtype_code(r.record_type)) + be_u16(1u16) + be_u32(
        r.time_to_live,
    ) + be_u16(rdata_wire(&r.data).len() as u16) + rdata_wire(&r.data)
}

/// The wire octets of a question list, in order.
pub open spec fn wire_questions(qs: Seq<Question>) -> Seq<u8>
    decreases qs.len(),
{
    if qs.len() == 0 {
        Seq::empty()
    } else {
        wire_question(&qs[0]) + wire_questions(qs.drop_first())
    }
}

/// The wire octets of a record list, in order.
pub open spec fn wire_rrs(rs: Seq<ResourceRecord>) -> Seq<u8>
    decreases rs.len(),
{
    if rs.len() == 0 {
        Seq::empty()
    } else {
        wire_rr(&rs[0]) + wire_rrs(rs.drop_first())
    }
}

/// The whole wire image of a message when no name is compressed.
pub open spec fn wire_message(m: &Message) -> Seq<u8> {
    wire_header(m) + wire_questions(m.questions@) + wire_rrs(m.answers@) + wire_rrs(m.authorities@)
        + wire_rrs(m.additional_records@)
}

/// The names a record payload carries, in encode order.
pub open spec fn data_names(d: &ResourceRecordData) -> Seq<Seq<char>> {
    match d {
        ResourceRecordData::CName(n) => seq![n@],
        ResourceRecordData::NS(n) => seq![n@],
        ResourceRecordData::SOA(s) => seq![s.master_name@, s.mail_name@],
        ResourceRecordData::MX(_, e) => seq![e@],
        _ => Seq::empty(),
    }
}

/// The names one resource record carries, in encode order.
pub open spec fn rr_names(r: &ResourceRecord) -> Seq<Seq<char>> {
    seq![r.domain@] + data_names(&r.data)
}

/// The names a record list carries, in encode order.
pub open spec fn rrs_names(rs: Seq<ResourceRecord>) -> Seq<Seq<char>>
    decreases rs.len(),
{
    if rs.len() == 0 {
        Seq::empty()
    } else {
        rr_names(&rs[0]) + rrs_names(rs.drop_first())
    }
}

/// The names a question list carries, in encode order.
pub open spec fn qs_names(qs: Seq<Question>) -> Seq<Seq<char>>
    decreases qs.len(),
{
    if qs.len() == 0 {
        Seq::empty()
    } else {
        seq![qs[0].domain@] + qs_names(qs.drop_first())
    }
}

/// Every name a message carries, in the order the encoder meets them.
pub open spec fn message_names(m: &Message) -> Seq<Seq<char>> {
    qs_names(m.questions@) + rrs_names(m.answers@) + rrs_names(m.authorities@) + rrs_names(
        m.additional_records@,
    )
}

/// No name occurs twice, so no occurrence is ever compressed.
pub open spec fn distinct_names(names: Seq<Seq<char>>) -> bool {
    forall|i: int, j: int| 0 <= i < j < names.len() ==> names[i] != names[j]
}

/// Every listed name is made of octet characters, fits the name length
/// bound, and has no over-long label.
pub open spec fn names_valid(names: Seq<Seq<char>>) -> bool {
    forall|i: int|
        0 <= i < names.len() ==> {
            &&& byte_chars(#[trigger] names[i])
            &&& names[i].len() <= MAX_NAME_LENGTH
            &&& max_label_len(names[i]) <= MAX_LABEL_LENGTH
        }
}

/// The preconditions under which a start-of-authority payload is written
/// uncompressed: both names unrecorded, distinct and valid, and the whole
/// payload fitting in the buffer.
pub open spec fn soa_fresh_path(coder: &MessageCoder, buf: &NetworkBuffer, s: &SOARecord) -> bool {
    &&& coder.enc_offset(s.master_name@) is None
    &&& coder.enc_offset(s.mail_name@) is None
    &&& s.master_name@ != s.mail_name@
    &&& s.master_name@.len() <= MAX_NAME_LENGTH
    &&& max_label_len(s.master_name@) <= MAX_LABEL_LENGTH
    &&& s.mail_name@.len() <= MAX_NAME_LENGTH
    &&& max_label_len(s.mail_name@) <= MAX_LABEL_LENGTH
    &&& buf.write_cursor + wire_soa(s).len() < MAX_MESSAGE_SIZE
}

/// Whether `n` is one of the listed names.
pub open spec fn contains_name(names: Seq<Seq<char>>, n: Seq<char>) -> bool {
    exists|i: int| 0 <= i < names.len() && names[i] == n
}

/// A TXT payload short enough for a single character string.
pub open spec fn txt_short(d: &ResourceRecordData) -> bool {
    match d {
        ResourceRecordData::TXT(t) => t@.len() <= 255,
        _ => true,
    }
}

/// Every character of every name (and TXT text) in the record fits an octet.
pub open spec fn rr_chars_ok(r: &ResourceRecord) -> bool {
    &&& byte_chars(r.domain@)
    &&& match &r.data {
        ResourceRecordData::CName(n) => byte_chars(n@),
        ResourceRecordData::NS(n) => byte_chars(n@),
        ResourceRecordData::SOA(s) => byte_chars(s.master_name@) && byte_chars(s.mail_name@),
        ResourceRecordData::MX(_, e) => byte_chars(e@),
        ResourceRecordData::TXT(t) => byte_chars(t@),
        _ => true,
    }
}

/// The preconditions under which a resource record is written uncompressed:
/// its names unrecorded, pairwise distinct and valid, its payload within the
/// field bounds, and the whole record fitting in the buffer.
pub open spec fn rr_fresh_path(coder: &MessageCoder, buf: &NetworkBuffer, r: &ResourceRecord) -> bool {
    &&& distinct_names(rr_names(r))
    &&& names_valid(rr_names(r))
    &&& names_fresh(coder, rr_names(r))
    &&& txt_short(&r.data)
    &&& buf.write_cursor + wire_rr(r).len() < MAX_MESSAGE_SIZE
}

/// Overwriting the two reserved octets inside a spliced image patches just
/// that field.
pub proof fn lemma_splice_patch2(
    o: Seq<u8>,
    at: int,
    a: Seq<u8>,
    m: Seq<u8>,
    b: Seq<u8>,
    x0: u8,
    x1: u8,
)
    requires
        0 <= at,
        m.len() == 2,
        at + a.len() + 2 + b.len() <= o.len(),
    ensures
        splice(o, at, a + m + b).update(at + a.len(), x0).update(at + a.len() + 1, x1) =~= splice(
            o,
            at,
            a + seq![x0, x1] + b,
        ),
{
    let lhs = splice(o, at, a + m + b).update(at + a.len(), x0).update(at + a.len() + 1, x1);
    let rhs = splice(o, at, a + seq![x0, x1] + b);
    assert forall|j: int| 0 <= j < o.len() implies lhs[j] == rhs[j] by {
        if j < at {
        } else if j < at + a.len() {
            assert(lhs[j] == (a + m + b)[j - at]);
            assert(rhs[j] == (a + seq![x0, x1] + b)[j - at]);
        } else if j == at + a.len() {
            assert(rhs[j] == (a + seq![x0, x1] + b)[j - at]);
        } else if j == at + a.len() + 1 {
            assert(rhs[j] == (a + seq![x0, x1] + b)[j - at]);
        } else if j < at + a.len() + 2 + b.len() {
            assert(lhs[j] == (a + m + b)[j - at]);
            assert(rhs[j] == (a + seq![x0, x1] + b)[j - at]);
        } else {
        }
    }
}

/// None of the listed names has been recorded by the coder yet.
pub open spec fn names_fresh(coder: &MessageCoder, names: Seq<Seq<char>>) -> bool {
    forall|i: int| 0 <= i < names.len() ==> (#[trigger] coder.enc_offset(names[i])) is None
}

/// Every character of every name in every listed question fits an octet.
pub open spec fn qs_chars_ok(qs: Seq<Question>) -> bool {
    forall|i: int| 0 <= i < qs.len() ==> byte_chars((#[trigger] qs[i]).domain@)
}

/// Every character of every name in every listed record fits an octet.
pub open spec fn rrs_chars_ok(rs: Seq<ResourceRecord>) -> bool {
    forall|i: int| 0 <= i < rs.len() ==> rr_chars_ok(#[trigger] &rs[i])
}

/// Every TXT payload in the list is short enough for one character string.
pub open spec fn rrs_txt_short(rs: Seq<ResourceRecord>) -> bool {
    forall|i: int| 0 <= i < rs.len() ==> txt_short(#[trigger] &rs[i].data)
}

/// Every character of every name anywhere in the message fits an octet.
pub open spec fn message_chars_ok(m: &Message) -> bool {
    &&& qs_chars_ok(m.questions@)
    &&& rrs_chars_ok(m.answers@)
    &&& rrs_chars_ok(m.authorities@)
    &&& rrs_chars_ok(m.additional_records@)
}

/// The preconditions under which a whole message is written with every name
/// in full: all names pairwise distinct, valid and unrecorded, every TXT
/// payload short, the section counts within their fields, and the whole
/// image fitting in the buffer.
pub open spec fn message_fresh_path(coder: &MessageCoder, buf: &NetworkBuffer, m: &Message) -> bool {
    &&& distinct_names(message_names(m))
    &&& names_valid(message_names(m))
    &&& names_fresh(coder, message_names(m))
    &&& rrs_txt_short(m.answers@)
    &&& rrs_txt_short(m.authorities@)
    &&& rrs_txt_short(m.additional_records@)
    &&& forall|i: int|
        0 <= i < m.questions@.len() ==> (#[trigger] m.questions@[i]).class is InternetAddress
            && !(m.questions@[i].question_type is Unimplemented)
    &&& m.questions@.len() <= 0xffff
    &&& m.answers@.len() <= 0xffff
    &&& m.authorities@.len() <= 0xffff
    &&& m.additional_records@.len() <= 0xffff
    &&& buf.write_cursor + wire_message(m).len() < MAX_MESSAGE_SIZE
}

/// Distinctness, validity and membership distribute over a split name list.
pub proof fn lemma_names_concat_parts(a: Seq<Seq<char>>, b: Seq<Seq<char>>)
    ensures
        distinct_names(a + b) ==> distinct_names(a),
        distinct_names(a + b) ==> distinct_names(b),
        names_valid(a + b) ==> names_valid(a) && names_valid(b),
        forall|n: Seq<char>| contains_name(a, n) ==> #[trigger] contains_name(a + b, n),
        forall|n: Seq<char>| contains_name(b, n) ==> #[trigger] contains_name(a + b, n),
        forall|n: Seq<char>|
            #[trigger] contains_name(a + b, n) ==> contains_name(a, n) || contains_name(b, n),
        distinct_names(a + b) ==> forall|n: Seq<char>|
            contains_name(a, n) ==> !(#[trigger] contains_name(b, n)),
{
    let c = a + b;
    if distinct_names(c) {
        assert forall|i: int, j: int| 0 <= i < j < a.len() implies a[i] != a[j] by {
            assert(c[i] == a[i]);
            assert(c[j] == a[j]);
        }
        assert forall|i: int, j: int| 0 <= i < j < b.len() implies b[i] != b[j] by {
            assert(c[a.len() + i] == b[i]);
            assert(c[a.len() + j] == b[j]);
        }
    }
    if names_valid(c) {
        assert forall|i: int|
            0 <= i < a.len() implies byte_chars(#[trigger] a[i]) && a[i].len() <= MAX_NAME_LENGTH
            && max_label_len(a[i]) <= MAX_LABEL_LENGTH by {
            assert(c[i] == a[i]);
        }
        assert forall|i: int|
            0 <= i < b.len() implies byte_chars(#[trigger] b[i]) && b[i].len() <= MAX_NAME_LENGTH
            && max_label_len(b[i]) <= MAX_LABEL_LENGTH by {
            assert(c[a.len() + i] == b[i]);
        }
    }
    assert forall|n: Seq<char>| contains_name(a, n) implies #[trigger] contains_name(c, n) by {
        let i = choose|i: int| 0 <= i < a.len() && a[i] == n;
        assert(c[i] == n);
    }
    assert forall|n: Seq<char>| contains_name(b, n) implies #[trigger] contains_name(c, n) by {
        let i = choose|i: int| 0 <= i < b.len() && b[i] == n;
        assert(c[a.len() + i] == n);
    }
    assert forall|n: Seq<char>|
        #[trigger] contains_name(c, n) implies contains_name(a, n) || contains_name(b, n) by {
        let i = choose|i: int| 0 <= i < c.len() && c[i] == n;
        if i < a.len() {
            assert(a[i] == n);
        } else {
            assert(b[i - a.len()] == n);
        }
    }
    if distinct_names(c) {
        assert forall|n: Seq<char>|
            contains_name(a, n) implies !(#[trigger] contains_name(b, n)) by {
            if contains_name(b, n) {
                let i = choose|i: int| 0 <= i < a.len() && a[i] == n;
                let j = choose|j: int| 0 <= j < b.len() && b[j] == n;
                assert(c[i] == n);
                assert(c[a.len() + j] == n);
            }
        }
    }
}

/// Freshness distributes over a split name list.
pub proof fn lemma_names_fresh_parts(coder: &MessageCoder, a: Seq<Seq<char>>, b: Seq<Seq<char>>)
    requires
        names_fresh(coder, a + b),
    ensures
        names_fresh(coder, a),
        names_fresh(coder, b),
{
    let c = a + b;
    assert forall|i: int| 0 <= i < a.len() implies (#[trigger] coder.enc_offset(a[i])) is None by {
        assert(c[i] == a[i]);
        assert(coder.enc_offset(c[i]) is None);
    }
    assert forall|i: int| 0 <= i < b.len() implies (#[trigger] coder.enc_offset(b[i])) is None by {
        assert(c[a.len() + i] == b[i]);
        assert(coder.enc_offset(c[a.len() + i]) is None);
    }
}

/// What must hold when a section's records start to be encoded, so that the
/// whole section lands uncompressed in the message image `w_all`.
pub open spec fn record_list_pre(
    coder: &MessageCoder,
    buf: &NetworkBuffer,
    rs: Seq<ResourceRecord>,
    o0: Seq<u8>,
    wc0: int,
    w_all: Seq<u8>,
    tail_bytes: Seq<u8>,
    tail_names: Seq<Seq<char>>,
) -> bool {
    &&& o0.len() == MAX_MESSAGE_SIZE
    &&& 0 <= wc0 <= buf.write_cursor
    &&& wc0 + w_all.len() < MAX_MESSAGE_SIZE
    &&& buf.write_cursor - wc0 <= w_all.len()
    &&& w_all == w_all.take(buf.write_cursor - wc0) + wire_rrs(rs) + tail_bytes
    &&& buf.buf@ == splice(o0, wc0, w_all.take(buf.write_cursor - wc0))
    &&& distinct_names(rrs_names(rs) + tail_names)
    &&& names_valid(rrs_names(rs) + tail_names)
    &&& names_fresh(coder, rrs_names(rs) + tail_names)
    &&& rrs_txt_short(rs)
}

/// Relies on String::push: appends exactly one character at the end.
#[verifier::external_body]
pub(crate) fn push_char(s: &mut String, c: char)
    ensures
        final(s)@ == old(s)@.push(c),
{
    s.push(c);
}

/// The smaller of two lengths.
pub open spec fn spec_min(a: int, b: int) -> int {
    if a <= b {
        a
    } else {
        b
    }
}

/// The character views of a list of strings.
pub open spec fn string_views(parts: Seq<String>) -> Seq<Seq<char>> {
    Seq::new(parts.len(), |i: int| parts[i]@)
}

/// A dot-joined list of octet-character labels is octet characters itself.
pub proof fn lemma_join_dots_byte_chars(parts: Seq<Seq<char>>)
    requires
        forall|i: int| 0 <= i < parts.len() ==> byte_chars(#[trigger] parts[i]),
    ensures
        byte_chars(join_dots(parts)),
    decreases parts.len(),
{
    if parts.len() == 0 {
    } else if parts.len() == 1 {
        assert(byte_chars(parts[0]));
    } else {
        lemma_join_dots_byte_chars(parts.drop_last());
        assert(byte_chars(parts.last()));
        assert(('.' as u32) < 256);
        let j = join_dots(parts.drop_last()) + seq!['.'] + parts.last();
        assert forall|i: int| 0 <= i < j.len() implies (#[trigger] j[i] as u32) < 256 by {
            if i < join_dots(parts.drop_last()).len() {
                assert(j[i] == join_dots(parts.drop_last())[i]);
            } else if i == join_dots(parts.drop_last()).len() {
                assert(j[i] == '.');
            } else {
                assert(j[i] == parts.last()[i - join_dots(parts.drop_last()).len() - 1]);
            }
        }
    }
}

/// The characters the listed octets decode to, one per octet.
pub open spec fn bytes_chars(s: Seq<u8>) -> Seq<char> {
    Seq::new(s.len(), |i: int| s[i] as char)
}

/// The dot-joined form of a label list, with no leading dot: the parts in
/// order with one dot between each pair.
pub open spec fn join_dots(parts: Seq<Seq<char>>) -> Seq<char>
    decreases parts.len(),
{
    if parts.len() == 0 {
        Seq::empty()
    } else if parts.len() == 1 {
        parts[0]
    } else {
        join_dots(parts.drop_last()) + seq!['.'] + parts.last()
    }
}

/// The offset a compression pointer refers to: the low six bits of the
/// first octet and all of the second.
pub open spec fn spec_pointer_target(left: u8, right: u8) -> usize {
    ((((0x3f & left) as u16) << 8 | right as u16) as usize)
}

/// Reads a run of labels with no compression pointer, starting at `p`:
/// the label texts, the offset at which each label starts, and the position
/// after the terminating zero octet. `None` when the run is malformed,
/// crosses the readable bounds, or meets a pointer or over-long length.
pub open spec fn parse_labels(s: Seq<u8>, p: int) -> Option<(Seq<Seq<char>>, Seq<int>, int)>
    decreases s.len() - p,
{
    if !(0 <= p && p + 1 < s.len()) {
        None
    } else {
        let l = s[p] as int;
        if l == 0 {
            Some((Seq::empty(), Seq::empty(), p + 1))
        } else if l >= 0x40 {
            None
        } else if p + 1 + l >= s.len() {
            None
        } else {
            match parse_labels(s, p + 1 + l) {
                None => None,
                Some((labels, starts, end)) => Some(
                    (
                        seq![bytes_chars(s.subrange(p + 1, p + 1 + l))] + labels,
                        seq![p] + starts,
                        end,
                    ),
                ),
            }
        }
    }
}

/// Reads the plain labels before a compression pointer, starting at `p`:
/// the label texts, the offset each starts at, and the position of the
/// pointer's first octet (whose second octet must be readable). `None` when
/// the run ends at a terminator instead, is malformed, or crosses the
/// readable bounds.
pub open spec fn parse_labels_to_pointer(s: Seq<u8>, p: int) -> Option<
    (Seq<Seq<char>>, Seq<int>, int),
>
    decreases s.len() - p,
{
    if !(0 <= p && p + 1 < s.len()) {
        None
    } else {
        let l = s[p] as int;
        if s[p] >= 0xc0 {
            if p + 2 < s.len() {
                Some((Seq::empty(), Seq::empty(), p))
            } else {
                None
            }
        } else if l == 0 {
            None
        } else if l >= 0x40 {
            None
        } else if p + 1 + l >= s.len() {
            None
        } else {
            match parse_labels_to_pointer(s, p + 1 + l) {
                None => None,
                Some((labels, starts, pp)) => Some(
                    (
                        seq![bytes_chars(s.subrange(p + 1, p + 1 + l))] + labels,
                        seq![p] + starts,
                        pp,
                    ),
                ),
            }
        }
    }
}

/// Unfolds one step of `parse_labels_to_pointer` at a plain label octet.
pub proof fn lemma_parse_to_pointer_unfold(s: Seq<u8>, p: int)
    requires
        parse_labels_to_pointer(s, p) is Some,
        0 <= p < s.len(),
        s[p] < 0xc0,
    ensures
        p + 1 < s.len(),
        s[p] != 0,
        s[p] < 0x40,
        p + 1 + s[p] < s.len(),
        parse_labels_to_pointer(s, p + 1 + s[p]) is Some,
        parse_labels_to_pointer(s, p).unwrap().0 == seq![
            bytes_chars(s.subrange(p + 1, p + 1 + s[p])),
        ] + parse_labels_to_pointer(s, p + 1 + s[p]).unwrap().0,
        parse_labels_to_pointer(s, p).unwrap().1 == seq![p] + parse_labels_to_pointer(
            s,
            p + 1 + s[p],
        ).unwrap().1,
        parse_labels_to_pointer(s, p).unwrap().2 == parse_labels_to_pointer(
            s,
            p + 1 + s[p],
        ).unwrap().2,
{
}

/// A successful pointer-bound parse yields as many start offsets as labels.
pub proof fn lemma_parse_to_pointer_lens(s: Seq<u8>, p: int)
    requires
        parse_labels_to_pointer(s, p) is Some,
    ensures
        parse_labels_to_pointer(s, p).unwrap().0.len() == parse_labels_to_pointer(
            s,
            p,
        ).unwrap().1.len(),
    decreases s.len() - p,
{
    if 0 <= p && p + 1 < s.len() {
        let l = s[p] as int;
        if s[p] >= 0xc0 {
        } else if l == 0 {
        } else if l >= 0x40 {
        } else if p + 1 + l >= s.len() {
        } else {
            if parse_labels_to_pointer(s, p + 1 + l) is Some {
                lemma_parse_to_pointer_lens(s, p + 1 + l);
            }
        }
    }
}

/// A lookup is unchanged by appended entries that carry other offsets.
pub proof fn lemma_dec_lookup_preserved(
    entries1: Seq<(usize, String)>,
    entries2: Seq<(usize, String)>,
    off: usize,
)
    requires
        entries2.len() >= entries1.len(),
        entries2.take(entries1.len() as int) == entries1,
        forall|j: int| entries1.len() <= j < entries2.len() ==> (#[trigger] entries2[j]).0 != off,
    ensures
        dec_lookup(entries2, off) == dec_lookup(entries1, off),
    decreases entries2.len(),
{
    if entries2.len() == entries1.len() {
        assert(entries2 =~= entries1);
    } else {
        assert(entries2.last().0 != off);
        assert(entries2.drop_last().take(entries1.len() as int) =~= entries1) by {
            assert(forall|j: int|
                0 <= j < entries1.len() ==> entries2.drop_last()[j] == entries2[j]);
            assert(forall|j: int|
                0 <= j < entries1.len() ==> #[trigger] entries2.take(entries1.len() as int)[j]
                    == entries2[j]);
        }
        lemma_dec_lookup_preserved(entries1, entries2.drop_last(), off);
    }
}

/// Reads the character strings of a TXT payload occupying exactly
/// `remaining` octets from `p`: the concatenated text and the position after
/// the payload.
pub open spec fn parse_txt(s: Seq<u8>, p: int, remaining: int) -> Option<(Seq<char>, int)>
    decreases remaining,
{
    if remaining == 0 {
        Some((Seq::empty(), p))
    } else if remaining < 0 {
        None
    } else if !(0 <= p && p + 1 < s.len()) {
        None
    } else {
        let l = s[p] as int;
        if l + 1 > remaining {
            None
        } else if p + 1 + l >= s.len() {
            None
        } else {
            match parse_txt(s, p + 1 + l, remaining - l - 1) {
                None => None,
                Some((text, end)) => Some((bytes_chars(s.subrange(p + 1, p + 1 + l)) + text, end)),
            }
        }
    }
}

/// Unfolds one successful step of `parse_labels` at a non-terminator octet.
pub proof fn lemma_parse_labels_unfold(s: Seq<u8>, p: int)
    requires
        parse_labels(s, p) is Some,
        0 <= p < s.len(),
        s[p] != 0,
    ensures
        p + 1 < s.len(),
        s[p] < 0x40,
        p + 1 + s[p] < s.len(),
        parse_labels(s, p + 1 + s[p]) is Some,
        parse_labels(s, p).unwrap().0 == seq![
            bytes_chars(s.subrange(p + 1, p + 1 + s[p])),
        ] + parse_labels(s, p + 1 + s[p]).unwrap().0,
        parse_labels(s, p).unwrap().1 == seq![p] + parse_labels(s, p + 1 + s[p]).unwrap().1,
        parse_labels(s, p).unwrap().2 == parse_labels(s, p + 1 + s[p]).unwrap().2,
{
}

/// A successful label parse yields as many start offsets as labels.
pub proof fn lemma_parse_labels_lens(s: Seq<u8>, p: int)
    requires
        parse_labels(s, p) is Some,
    ensures
        parse_labels(s, p).unwrap().0.len() == parse_labels(s, p).unwrap().1.len(),
    decreases s.len() - p,
{
    if 0 <= p && p + 1 < s.len() {
        let l = s[p] as int;
        if l == 0 {
        } else if l >= 0x40 {
        } else if p + 1 + l >= s.len() {
        } else {
            if parse_labels(s, p + 1 + l) is Some {
                lemma_parse_labels_lens(s, p + 1 + l);
            }
        }
    }
}

/// The readable-bytes conditions under which a start-of-authority payload
/// decodes in full: both names parse pointer-free and fit the name bound,
/// and the five fields that follow are readable.
pub open spec fn soa_decode_path(s: Seq<u8>, p: int) -> bool {
    &&& parse_labels(s, p) is Some
    &&& 1 + join_dots(parse_labels(s, p).unwrap().0).len() <= MAX_NAME_LENGTH
    &&& parse_labels(s, parse_labels(s, p).unwrap().2) is Some
    &&& 1 + join_dots(parse_labels(s, parse_labels(s, p).unwrap().2).unwrap().0).len()
        <= MAX_NAME_LENGTH
    &&& parse_labels(s, parse_labels(s, p).unwrap().2).unwrap().2 + 20 < MAX_MESSAGE_SIZE
}

/// Frames one pointer-free question at `p`: the position after it, when
/// its name parses, fits the name bound, and its two fields are readable.
pub open spec fn q_end(s: Seq<u8>, p: int) -> Option<int> {
    if parse_labels(s, p) is Some && 1 + join_dots(parse_labels(s, p).unwrap().0).len()
        <= MAX_NAME_LENGTH && parse_labels(s, p).unwrap().2 + 4 < MAX_MESSAGE_SIZE {
        Some(parse_labels(s, p).unwrap().2 + 4)
    } else {
        None
    }
}

/// The question the pointer-free bytes at `p` denote.
pub open spec fn q_denotes(s: Seq<u8>, p: int, q: Question) -> bool {
    let pl = parse_labels(s, p).unwrap();
    &&& q.domain@ == seq!['.'] + join_dots(pl.0)
    &&& q.question_type == qtype_from_code(read_be_u16(s, pl.2))
    &&& q.class == (if read_be_u16(s, pl.2 + 2) == 1 {
        QuestionClass::InternetAddress
    } else {
        QuestionClass::Unimplemented
    })
}

/// Frames one pointer-free resource record at `p`: the position after it,
/// when its name parses, its fixed fields are readable, and its payload has
/// a supported layout that is itself readable and pointer-free.
pub open spec fn rr_end(s: Seq<u8>, p: int) -> Option<int> {
    if !(parse_labels(s, p) is Some && 1 + join_dots(parse_labels(s, p).unwrap().0).len()
        <= MAX_NAME_LENGTH && parse_labels(s, p).unwrap().2 + 10 < MAX_MESSAGE_SIZE) {
        None
    } else {
        let p2 = parse_labels(s, p).unwrap().2;
        let code = read_be_u16(s, p2);
        if code == 1 {
            if p2 + 14 < MAX_MESSAGE_SIZE {
                Some(p2 + 14)
            } else {
                None
            }
        } else if code == 0x1c {
            if p2 + 26 < MAX_MESSAGE_SIZE {
                Some(p2 + 26)
            } else {
                None
            }
        } else if code == 5 || code == 2 {
            if parse_labels(s, p2 + 10) is Some && 1 + join_dots(
                parse_labels(s, p2 + 10).unwrap().0,
            ).len() <= MAX_NAME_LENGTH {
                Some(parse_labels(s, p2 + 10).unwrap().2)
            } else {
                None
            }
        } else if code == 6 {
            if soa_decode_path(s, p2 + 10) {
                Some(parse_labels(s, parse_labels(s, p2 + 10).unwrap().2).unwrap().2 + 20)
            } else {
                None
            }
        } else if code == 0x0f {
            if p2 + 12 < MAX_MESSAGE_SIZE && parse_labels(s, p2 + 12) is Some && 1 + join_dots(
                parse_labels(s, p2 + 12).unwrap().0,
            ).len() <= MAX_NAME_LENGTH {
                Some(parse_labels(s, p2 + 12).unwrap().2)
            } else {
                None
            }
        } else if code == 0x10 {
            if parse_txt(s, p2 + 10, read_be_u16(s, p2 + 8) as int) is Some {
                Some(parse_txt(s, p2 + 10, read_be_u16(s, p2 + 8) as int).unwrap().1)
            } else {
                None
            }
        } else {
            None
        }
    }
}

/// The resource record the pointer-free bytes at `p` denote.
pub open spec fn rr_denotes(s: Seq<u8>, p: int, rec: ResourceRecord) -> bool {
    let pl = parse_labels(s, p).unwrap();
    let p2 = pl.2;
    let code = read_be_u16(s, p2);
    &&& rec.domain@ == seq!['.'] + join_dots(pl.0)
    &&& rec.record_type == type_from_code(code)
    &&& rec.class == (if read_be_u16(s, p2 + 2) == 1 {
        ResourceRecordClass::InternetAddress
    } else {
        ResourceRecordClass::Unimplemented
    })
    &&& rec.time_to_live == read_be_u32(s, p2 + 4)
    &&& (code == 1 ==> rec.data == ResourceRecordData::A(read_be_u32(s, p2 + 10)))
    &&& (code == 0x1c ==> rec.data == ResourceRecordData::AAAA(
        crate::buffer::read_be_u128(s, p2 + 10),
    ))
    &&& (code == 5 ==> (rec.data matches ResourceRecordData::CName(n) && n@ == seq!['.']
        + join_dots(parse_labels(s, p2 + 10).unwrap().0)))
    &&& (code == 2 ==> (rec.data matches ResourceRecordData::NS(n) && n@ == seq!['.'] + join_dots(
        parse_labels(s, p2 + 10).unwrap().0,
    )))
    &&& (code == 6 ==> (rec.data matches ResourceRecordData::SOA(soa) && ({
        let p1s = parse_labels(s, p2 + 10).unwrap();
        let p2s = parse_labels(s, p1s.2).unwrap();
        &&& soa.master_name@ == seq!['.'] + join_dots(p1s.0)
        &&& soa.mail_name@ == seq!['.'] + join_dots(p2s.0)
        &&& soa.serial == read_be_u32(s, p2s.2)
        &&& soa.refresh == read_be_u32(s, p2s.2 + 4)
        &&& soa.retry == read_be_u32(s, p2s.2 + 8)
        &&& soa.expire == read_be_u32(s, p2s.2 + 12)
        &&& soa.minimum == read_be_u32(s, p2s.2 + 16)
    })))
    &&& (code == 0x0f ==> (rec.data matches ResourceRecordData::MX(pref, n) && pref
        == read_be_u16(s, p2 + 10) && n@ == seq!['.'] + join_dots(
        parse_labels(s, p2 + 12).unwrap().0,
    )))
    &&& (code == 0x10 ==> (rec.data matches ResourceRecordData::TXT(t) && t@ == parse_txt(
        s,
        p2 + 10,
        read_be_u16(s, p2 + 8) as int,
    ).unwrap().0))
}

/// Frames `n` consecutive pointer-free questions from `p`.
pub open spec fn qs_frame(s: Seq<u8>, p: int, n: int) -> Option<int>
    decreases n,
{
    if n <= 0 {
        Some(p)
    } else {
        match q_end(s, p) {
            None => None,
            Some(mid) => qs_frame(s, mid, n - 1),
        }
    }
}

/// Frames `n` consecutive pointer-free resource records from `p`.
pub open spec fn rrs_frame(s: Seq<u8>, p: int, n: int) -> Option<int>
    decreases n,
{
    if n <= 0 {
        Some(p)
    } else {
        match rr_end(s, p) {
            None => None,
            Some(mid) => rrs_frame(s, mid, n - 1),
        }
    }
}

/// The question list denoted by the pointer-free bytes from `p` to `end`.
pub open spec fn qs_denote_upto(s: Seq<u8>, p: int, qs: Seq<Question>, end: int) -> bool
    decreases qs.len(),
{
    if qs.len() == 0 {
        end == p
    } else {
        &&& q_end(s, p) is Some
        &&& q_denotes(s, p, qs[0])
        &&& qs_denote_upto(s, q_end(s, p).unwrap(), qs.drop_first(), end)
    }
}

/// The record list denoted by the pointer-free bytes from `p` to `end`.
pub open spec fn rrs_denote_upto(s: Seq<u8>, p: int, rs: Seq<ResourceRecord>, end: int) -> bool
    decreases rs.len(),
{
    if rs.len() == 0 {
        end == p
    } else {
        &&& rr_end(s, p) is Some
        &&& rr_denotes(s, p, rs[0])
        &&& rrs_denote_upto(s, rr_end(s, p).unwrap(), rs.drop_first(), end)
    }
}

/// Frames a whole pointer-free message at `rc`: the boundary after each of
/// the question, answer, authority, and additional sections.
pub open spec fn message_frame(s: Seq<u8>, rc: int) -> Option<(int, int, int, int)> {
    if !(rc + 12 < MAX_MESSAGE_SIZE && (s[rc + 3] & 0x0f) <= 5) {
        None
    } else {
        match qs_frame(s, rc + 12, read_be_u16(s, rc + 4) as int) {
            None => None,
            Some(p1) => match rrs_frame(s, p1, read_be_u16(s, rc + 6) as int) {
                None => None,
                Some(p2) => match rrs_frame(s, p2, read_be_u16(s, rc + 8) as int) {
                    None => None,
                    Some(p3) => match rrs_frame(s, p3, read_be_u16(s, rc + 10) as int) {
                        None => None,
                        Some(p4) => Some((p1, p2, p3, p4)),
                    },
                },
            },
        }
    }
}

/// Appending one more denoted question extends the denoted list.
pub proof fn lemma_qs_denote_snoc(s: Seq<u8>, p: int, qs: Seq<Question>, q: Question, mid: int)
    requires
        qs_denote_upto(s, p, qs, mid),
        q_end(s, mid) is Some,
        q_denotes(s, mid, q),
    ensures
        qs_denote_upto(s, p, qs.push(q), q_end(s, mid).unwrap()),
    decreases qs.len(),
{
    if qs.len() == 0 {
        assert(qs.push(q) =~= seq![q]);
        assert(qs.push(q)[0] == q);
        assert(qs.push(q).drop_first() =~= Seq::<Question>::empty());
        assert(qs_denote_upto(
            s,
            q_end(s, p).unwrap(),
            qs.push(q).drop_first(),
            q_end(s, mid).unwrap(),
        ));
    } else {
        assert(qs.push(q)[0] == qs[0]);
        assert(qs.push(q).drop_first() =~= qs.drop_first().push(q));
        lemma_qs_denote_snoc(s, q_end(s, p).unwrap(), qs.drop_first(), q, mid);
        assert(qs_denote_upto(
            s,
            q_end(s, p).unwrap(),
            qs.push(q).drop_first(),
            q_end(s, mid).unwrap(),
        ));
    }
}

/// Appending one more denoted record extends the denoted list.
pub proof fn lemma_rrs_denote_snoc(
    s: Seq<u8>,
    p: int,
    rs: Seq<ResourceRecord>,
    rec: ResourceRecord,
    mid: int,
)
    requires
        rrs_denote_upto(s, p, rs, mid),
        rr_end(s, mid) is Some,
        rr_denotes(s, mid, rec),
    ensures
        rrs_denote_upto(s, p, rs.push(rec), rr_end(s, mid).unwrap()),
    decreases rs.len(),
{
    if rs.len() == 0 {
        assert(rs.push(rec) =~= seq![rec]);
        assert(rs.push(rec)[0] == rec);
        assert(rs.push(rec).drop_first() =~= Seq::<ResourceRecord>::empty());
        assert(rrs_denote_upto(
            s,
            rr_end(s, p).unwrap(),
            rs.push(rec).drop_first(),
            rr_end(s, mid).unwrap(),
        ));
    } else {
        assert(rs.push(rec)[0] == rs[0]);
        assert(rs.push(rec).drop_first() =~= rs.drop_first().push(rec));
        lemma_rrs_denote_snoc(s, rr_end(s, p).unwrap(), rs.drop_first(), rec, mid);
        assert(rrs_denote_upto(
            s,
            rr_end(s, p).unwrap(),
            rs.push(rec).drop_first(),
            rr_end(s, mid).unwrap(),
        ));
    }
}

/// The response code each in-range numeric value decodes to.
pub open spec fn rcode_from_num(v: u8) -> ResponseCode {
    if v == 0 {
        ResponseCode::NoError
    } else if v == 1 {
        ResponseCode::FormatError
    } else if v == 2 {
        ResponseCode::ServerError
    } else if v == 3 {
        ResponseCode::NameError
    } else if v == 4 {
        ResponseCode::NotImplemented
    } else {
        ResponseCode::Refused
    }
}

/// The record type each wire code decodes to.
pub open spec fn type_from_code(v: u16) -> ResourceRecordType {
    if v == 0x01 {
        ResourceRecordType::ARecord
    } else if v == 0x1c {
        ResourceRecordType::AAAARecord
    } else if v == 0x05 {
        ResourceRecordType::CNameRecord
    } else if v == 0x0f {
        ResourceRecordType::MXRecord
    } else if v == 0x02 {
        ResourceRecordType::NSRecord
    } else if v == 0x0c {
        ResourceRecordType::PTRRecord
    } else if v == 0x06 {
        ResourceRecordType::SOARecord
    } else if v == 0x21 {
        ResourceRecordType::SRVRecord
    } else if v == 0x10 {
        ResourceRecordType::TXTRecord
    } else {
        ResourceRecordType::Unimplemented
    }
}

/// The question type each wire code decodes to; the question decoder knows
/// fewer codes than the record decoder.
pub open spec fn qtype_from_code(v: u16) -> ResourceRecordType {
    if v == 0x01 {
        ResourceRecordType::ARecord
    } else if v == 0x1c {
        ResourceRecordType::AAAARecord
    } else if v == 0x02 {
        ResourceRecordType::NSRecord
    } else if v == 0x05 {
        ResourceRecordType::CNameRecord
    } else if v == 0x0f {
        ResourceRecordType::MXRecord
    } else if v == 0x06 {
        ResourceRecordType::SOARecord
    } else if v == 0x0c {
        ResourceRecordType::PTRRecord
    } else if v == 0x21 {
        ResourceRecordType::SRVRecord
    } else if v == 0x10 {
        ResourceRecordType::TXTRecord
    } else {
        ResourceRecordType::Unimplemented
    }
}

/// `s` with `bytes` written over the positions starting at `at`.
pub open spec fn splice(s: Seq<u8>, at: int, bytes: Seq<u8>) -> Seq<u8> {
    s.subrange(0, at) + bytes + s.subrange(at + bytes.len(), s.len() as int)
}

/// The larger of two lengths.
pub open spec fn nat_max(a: nat, b: nat) -> nat {
    if a >= b {
        a
    } else {
        b
    }
}

/// A name's wire form always holds at least the terminating octet.
pub proof fn lemma_wire_from_len_pos(s: Seq<char>, cur: Seq<char>)
    ensures
        wire_name_from(s, cur).len() >= 1,
    decreases s.len(),
{
    if s.len() == 0 {
    } else if s[0] == '.' {
        lemma_wire_from_len_pos(s.drop_first(), Seq::empty());
    } else {
        lemma_wire_from_len_pos(s.drop_first(), cur.push(s[0]));
    }
}

/// The longest label is at least as long as the label read so far.
pub proof fn lemma_max_from_ge_cur(s: Seq<char>, cur: nat)
    ensures
        max_label_from(s, cur) >= cur,
    decreases s.len(),
{
    if s.len() == 0 {
    } else if s[0] == '.' {
    } else {
        lemma_max_from_ge_cur(s.drop_first(), cur + 1);
    }
}

/// A found offset was recorded in some entry of the list.
pub proof fn lemma_enc_lookup_some_in(entries: Seq<(String, usize)>, name: Seq<char>, v: usize)
    requires
        enc_lookup(entries, name) == Some(v),
    ensures
        exists|i: int| 0 <= i < entries.len() && (#[trigger] entries[i]).1 == v,
    decreases entries.len(),
{
    if entries.len() == 0 {
    } else if entries.last().0@ == name {
        assert(entries[entries.len() - 1].1 == v);
    } else {
        lemma_enc_lookup_some_in(entries.drop_last(), name, v);
        let i = choose|i: int|
            0 <= i < entries.drop_last().len() && (#[trigger] entries.drop_last()[i]).1 == v;
        assert(entries[i].1 == v);
    }
}

/// Splicing `a` and then `b` right after it equals splicing `a + b` at once.
pub proof fn lemma_splice_splice(o: Seq<u8>, at: int, a: Seq<u8>, b: Seq<u8>)
    requires
        0 <= at,
        at + a.len() + b.len() <= o.len(),
    ensures
        splice(splice(o, at, a), at + a.len(), b) =~= splice(o, at, a + b),
{
    let lhs = splice(splice(o, at, a), at + a.len(), b);
    let rhs = splice(o, at, a + b);
    assert forall|j: int| 0 <= j < o.len() implies lhs[j] == rhs[j] by {
        if j < at {
        } else if j < at + a.len() {
            assert(lhs[j] == a[j - at]);
            assert(rhs[j] == (a + b)[j - at]);
        } else if j < at + a.len() + b.len() {
            assert(lhs[j] == b[j - at - a.len()]);
            assert(rhs[j] == (a + b)[j - at]);
        } else {
        }
    }
}

/// Writing one more byte of `b` extends the spliced prefix by one.
pub proof fn lemma_splice_extend(o: Seq<u8>, at: int, b: Seq<u8>, n: int, x: u8)
    requires
        0 <= at,
        at + n + 1 <= o.len(),
        0 <= n < b.len(),
        x == b[n],
    ensures
        splice(o, at, b.take(n)).update(at + n, x) =~= splice(o, at, b.take(n + 1)),
{
    let lhs = splice(o, at, b.take(n)).update(at + n, x);
    let rhs = splice(o, at, b.take(n + 1));
    assert forall|j: int| 0 <= j < o.len() implies lhs[j] == rhs[j] by {
        if j < at {
        } else if j < at + n {
            assert(lhs[j] == b.take(n)[j - at]);
            assert(rhs[j] == b.take(n + 1)[j - at]);
        } else if j == at + n {
            assert(rhs[j] == b.take(n + 1)[n]);
        } else {
        }
    }
}

} // verus!

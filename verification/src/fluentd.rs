//! Size-tracked builder for the binary message format.
//!
//! A batch is serialized as a three-element array `[tag, entries, option]`:
//! a text tag, an array of entries (each a two-element array of a time and
//! a map from short text keys to byte strings), and an optional map of text
//! options.  The builder keeps a running byte count that always equals the
//! length of the bytes `serialize_into` would emit.

use vstd::prelude::*;
use vstd::string::StrSliceExecFns;
use vstd::string::StringSliceAdditionalSpecFns;
use vstd::utf8::encode_utf8;

verus! {

/// Error of the builder: a piece does not fit the format.
#[derive(Debug, Clone, Copy, PartialEq, Eq, Structural)]
pub enum SerializationError {
    TooLong,
}

/// Mathematical model of one entry: a time and a key-to-value record.
pub ghost struct EntryV {
    pub time: u64,
    pub record: Seq<(Seq<u8>, Seq<u8>)>,
}

/// Mathematical model of a whole batch.
pub ghost struct MessageV {
    pub tag: Seq<u8>,
    pub entries: Seq<EntryV>,
    pub option: Option<Seq<(Seq<u8>, Seq<u8>)>>,
}

/// Serialized length of an unsigned integer: one marker byte for values
/// below `2^7`, otherwise a marker byte followed by 1, 2, 4 or 8 bytes.
pub open spec fn spec_uint_len(n: u64) -> nat {
    if n < 0x80 {
        1
    } else if n < 0x100 {
        2
    } else if n < 0x1_0000 {
        3
    } else if n < 0x1_0000_0000 {
        5
    } else {
        9
    }
}

/// Serialized length of a byte string of length `l` (meaningful for
/// `l < 2^32`): the payload plus a 2, 3 or 5-byte header.
pub open spec fn spec_bin_len(l: nat) -> nat {
    if l < 0x100 {
        2 + l
    } else if l < 0x1_0000 {
        3 + l
    } else {
        5 + l
    }
}

/// Serialized length of a text string of length `l` (meaningful for
/// `l < 2^32`): strings shorter than 32 bytes get a one-byte header.
pub open spec fn spec_str_len(l: nat) -> nat {
    if l < 32 {
        1 + l
    } else {
        spec_bin_len(l)
    }
}

/// A byte-string length that the format can represent and whose serialized
/// length fits the machine word.
pub open spec fn bin_len_ok(l: nat) -> bool {
    l < 0x1_0000_0000 && spec_bin_len(l) <= usize::MAX
}

/// A text-string length that the format can represent and whose serialized
/// length fits the machine word.
pub open spec fn str_len_ok(l: nat) -> bool {
    l < 0x1_0000_0000 && spec_str_len(l) <= usize::MAX
}

/// The two big-endian bytes of a value below `2^16`.
pub open spec fn spec_be16(n: nat) -> Seq<u8> {
    seq![((n / 0x100) % 0x100) as u8, (n % 0x100) as u8]
}

/// The four big-endian bytes of a value below `2^32`.
pub open spec fn spec_be32(n: nat) -> Seq<u8> {
    seq![
        ((n / 0x100_0000) % 0x100) as u8,
        ((n / 0x1_0000) % 0x100) as u8,
        ((n / 0x100) % 0x100) as u8,
        (n % 0x100) as u8,
    ]
}

/// The eight big-endian bytes of a value below `2^64`.
pub open spec fn spec_be64(n: nat) -> Seq<u8> {
    seq![
        ((n / 0x100_0000_0000_0000) % 0x100) as u8,
        ((n / 0x1_0000_0000_0000) % 0x100) as u8,
        ((n / 0x100_0000_0000) % 0x100) as u8,
        ((n / 0x1_0000_0000) % 0x100) as u8,
        ((n / 0x100_0000) % 0x100) as u8,
        ((n / 0x1_0000) % 0x100) as u8,
        ((n / 0x100) % 0x100) as u8,
        (n % 0x100) as u8,
    ]
}

/// Serialized bytes of an unsigned integer.
pub open spec fn spec_uint_bytes(n: u64) -> Seq<u8> {
    if n < 0x80 {
        seq![n as u8]
    } else if n < 0x100 {
        seq![0xccu8, n as u8]
    } else if n < 0x1_0000 {
        seq![0xcdu8] + spec_be16(n as nat)
    } else if n < 0x1_0000_0000 {
        seq![0xceu8] + spec_be32(n as nat)
    } else {
        seq![0xcfu8] + spec_be64(n as nat)
    }
}

/// Header bytes announcing a text string of length `l`.
pub open spec fn spec_str_hdr(l: nat) -> Seq<u8> {
    if l < 32 {
        seq![(0xa0 + l) as u8]
    } else if l < 0x100 {
        seq![0xd9u8, l as u8]
    } else if l < 0x1_0000 {
        seq![0xdau8] + spec_be16(l)
    } else {
        seq![0xdbu8] + spec_be32(l)
    }
}

/// Header bytes announcing a byte string of length `l`.
pub open spec fn spec_bin_hdr(l: nat) -> Seq<u8> {
    if l < 0x100 {
        seq![0xc4u8, l as u8]
    } else if l < 0x1_0000 {
        seq![0xc5u8] + spec_be16(l)
    } else {
        seq![0xc6u8] + spec_be32(l)
    }
}

/// Header bytes announcing an array of `n` elements.
pub open spec fn spec_array_hdr(n: nat) -> Seq<u8> {
    if n < 16 {
        seq![(0x90 + n) as u8]
    } else if n < 0x1_0000 {
        seq![0xdcu8] + spec_be16(n)
    } else {
        seq![0xddu8] + spec_be32(n)
    }
}

/// Header bytes announcing a map of `n` pairs.
pub open spec fn spec_map_hdr(n: nat) -> Seq<u8> {
    if n < 16 {
        seq![(0x80 + n) as u8]
    } else if n < 0x1_0000 {
        seq![0xdeu8] + spec_be16(n)
    } else {
        seq![0xdfu8] + spec_be32(n)
    }
}

/// Serialized bytes of one record pair: text key, then byte-string value.
pub open spec fn spec_pair_bytes(p: (Seq<u8>, Seq<u8>)) -> Seq<u8> {
    spec_str_hdr(p.0.len()) + p.0 + spec_bin_hdr(p.1.len()) + p.1
}

/// Serialized bytes of the pairs of a record, in order.
pub open spec fn spec_pairs_bytes(ps: Seq<(Seq<u8>, Seq<u8>)>) -> Seq<u8>
    decreases ps.len(),
{
    if ps.len() == 0 {
        Seq::empty()
    } else {
        spec_pairs_bytes(ps.drop_last()) + spec_pair_bytes(ps.last())
    }
}

/// Serialized bytes of one entry: a two-element array of time and record.
pub open spec fn spec_entry_bytes(e: EntryV) -> Seq<u8> {
    seq![0x92u8] + spec_uint_bytes(e.time) + spec_map_hdr(e.record.len()) + spec_pairs_bytes(
        e.record,
    )
}

/// Serialized bytes of a list of entries, in order, without the array header.
pub open spec fn spec_entries_bytes(es: Seq<EntryV>) -> Seq<u8>
    decreases es.len(),
{
    if es.len() == 0 {
        Seq::empty()
    } else {
        spec_entries_bytes(es.drop_last()) + spec_entry_bytes(es.last())
    }
}

/// Serialized bytes of one option pair: text key, then text value.
pub open spec fn spec_opt_pair_bytes(p: (Seq<u8>, Seq<u8>)) -> Seq<u8> {
    spec_str_hdr(p.0.len()) + p.0 + spec_str_hdr(p.1.len()) + p.1
}

/// Serialized bytes of the pairs of the option map, in order.
pub open spec fn spec_opt_pairs_bytes(ps: Seq<(Seq<u8>, Seq<u8>)>) -> Seq<u8>
    decreases ps.len(),
{
    if ps.len() == 0 {
        Seq::empty()
    } else {
        spec_opt_pairs_bytes(ps.drop_last()) + spec_opt_pair_bytes(ps.last())
    }
}

/// Serialized bytes of the option slot: nil, or a map of text pairs.
pub open spec fn spec_option_bytes(o: Option<Seq<(Seq<u8>, Seq<u8>)>>) -> Seq<u8> {
    match o {
        Option::None => seq![0xc0u8],
        Option::Some(m) => spec_map_hdr(m.len()) + spec_opt_pairs_bytes(m),
    }
}

/// Serialized bytes of a whole batch.
pub open spec fn spec_message_bytes(m: MessageV) -> Seq<u8> {
    seq![0x93u8] + spec_str_hdr(m.tag.len()) + m.tag + spec_array_hdr(m.entries.len())
        + spec_entries_bytes(m.entries) + spec_option_bytes(m.option)
}

/// One entry of a batch.
pub struct Entry {
    pub time: u64,
    pub record: Vec<(Vec<u8>, Vec<u8>)>,
}

impl View for Entry {
    type V = EntryV;

    open spec fn view(&self) -> EntryV {
        EntryV {
            time: self.time,
            record: self.record@.map_values(|p: (Vec<u8>, Vec<u8>)| (p.0@, p.1@)),
        }
    }
}

/// The data of a batch: tag, entries, and the optional option map.
pub struct ForwardMode {
    pub tag: Vec<u8>,
    pub entries: Vec<Entry>,
    pub option: Option<Vec<(Vec<u8>, Vec<u8>)>>,
}

impl View for ForwardMode {
    type V = MessageV;

    open spec fn view(&self) -> MessageV {
        MessageV {
            tag: self.tag@,
            entries: self.entries@.map_values(|e: Entry| e@),
            option: match self.option {
                Option::None => Option::None,
                Option::Some(v) => Option::Some(
                    v@.map_values(|p: (Vec<u8>, Vec<u8>)| (p.0@, p.1@)),
                ),
            },
        }
    }
}

/// A well-formed entry: a record of 1 to 15 pairs whose keys and values the
/// format can represent.
pub open spec fn wf_entry(e: EntryV) -> bool {
    &&& 1 <= e.record.len() <= 15
    &&& forall|i: int|
        0 <= i < e.record.len() ==> str_len_ok(#[trigger] e.record[i].0.len()) && bin_len_ok(
            e.record[i].1.len(),
        )
}

/// A well-formed batch model: every piece representable, and option keys
/// unique.
pub open spec fn wf_message(m: MessageV) -> bool {
    &&& str_len_ok(m.tag.len())
    &&& m.entries.len() < 0x1_0000_0000
    &&& forall|i: int| 0 <= i < m.entries.len() ==> wf_entry(#[trigger] m.entries[i])
    &&& match m.option {
        Option::None => true,
        Option::Some(ps) => {
            &&& ps.len() < 0x1_0000_0000
            &&& forall|i: int|
                0 <= i < ps.len() ==> str_len_ok(#[trigger] ps[i].0.len()) && str_len_ok(
                    ps[i].1.len(),
                )
            &&& forall|i: int, j: int| 0 <= i < j < ps.len() ==> ps[i].0 != ps[j].0
        },
    }
}

/// A batch builder whose `size` field always equals the exact length of the
/// serialization of `message`.
pub struct SizedForwardMode {
    message: ForwardMode,
    size: usize,
}

impl View for SizedForwardMode {
    type V = MessageV;

    closed spec fn view(&self) -> MessageV {
        self.message@
    }
}

/// The model of the empty batch.
pub open spec fn empty_message() -> MessageV {
    MessageV { tag: Seq::empty(), entries: Seq::empty(), option: Option::None }
}

impl SizedForwardMode {
    /// The builder invariant: the model is well formed and the cached size
    /// is the exact serialized length.
    pub closed spec fn wf(&self) -> bool {
        &&& wf_message(self@)
        &&& self.size == spec_message_bytes(self@).len()
    }

    /// The number of entries of the batch.
    pub fn len(&self) -> (r: usize)
        ensures
            r == self@.entries.len(),
    {
        self.message.entries.len()
    }

    /// True when the batch holds no entry.
    pub fn is_empty(&self) -> (r: bool)
        ensures
            r == (self@.entries.len() == 0),
    {
        self.len() == 0
    }

    /// The exact byte length of the serialization of the batch.
    pub fn serialized_len(&self) -> (r: usize)
        requires
            self.wf(),
        ensures
            r == spec_message_bytes(self@).len(),
    {
        self.size
    }

    /// Resets the batch to the empty one, whose serialization has 4 bytes.
    pub fn clear(&mut self)
        ensures
            final(self).wf(),
            final(self)@ == empty_message(),
            spec_message_bytes(final(self)@).len() == 4,
    {
        self.message.tag.clear();
        self.message.entries.clear();
        self.message.option = Option::None;
        self.size = 4;
        proof {
            assert(self@.entries =~= Seq::<EntryV>::empty());
            assert(self@ == empty_message());
            lemma_empty_message_len();
        }
    }

    /// Replaces the tag.  Fails, leaving the batch unchanged, when the new
    /// tag cannot be represented or the batch would outgrow the machine
    /// word.
    pub fn set_tag(&mut self, tag: String) -> (r: Result<(), SerializationError>)
        requires
            old(self).wf(),
        ensures
            final(self).wf(),
            r is Ok <==> can_set_tag(old(self)@, encode_utf8(tag@)),
            r is Ok ==> final(self)@ == with_tag(old(self)@, encode_utf8(tag@)),
            r !is Ok ==> *final(self) == *old(self),
    {
        let tag_bytes = tag.as_str().as_bytes_vec();
        let new_len = match msgpack_str_len(tag_bytes.len()) {
            Some(l) => l,
            None => {
                proof {
                    lemma_message_len(with_tag(self@, encode_utf8(tag@)));
                }
                return Err(SerializationError::TooLong);
            },
        };
        let old_len = match msgpack_str_len(self.message.tag.len()) {
            Some(l) => l,
            None => {
                return Err(SerializationError::TooLong);
            },
        };
        proof {
            lemma_message_len(self@);
        }
        let base = self.size - old_len;
        if (new_len as u64) > (usize::MAX as u64) - (base as u64) {
            proof {
                lemma_message_len(with_tag(self@, encode_utf8(tag@)));
            }
            return Err(SerializationError::TooLong);
        }
        self.size = base + new_len;
        self.message.tag = tag_bytes;
        proof {
            assert(self@ == with_tag(old(self)@, encode_utf8(tag@)));
            lemma_message_len(self@);
        }
        Ok(())
    }

    /// Appends an entry holding one key-to-value pair.  Fails, leaving the
    /// batch unchanged, when a piece cannot be represented, the entry count
    /// is exhausted, or the batch would outgrow the machine word.
    pub fn push_raw(&mut self, time: u64, key: &str, value: &[u8]) -> (r: Result<
        (),
        SerializationError,
    >)
        requires
            old(self).wf(),
        ensures
            final(self).wf(),
            r is Ok <==> can_push_raw(old(self)@, time, key.spec_bytes(), value@),
            r is Ok ==> final(self)@ == with_entry(
                old(self)@,
                raw_entry(time, key.spec_bytes(), value@),
            ),
            r !is Ok ==> *final(self) == *old(self),
    {
        proof {
            lemma_push_raw_len(self@, time, key.spec_bytes(), value@);
        }
        let key_bytes = key.as_bytes_vec();
        let key_len = match msgpack_str_len(key_bytes.len()) {
            Some(l) => l,
            None => {
                return Err(SerializationError::TooLong);
            },
        };
        let value_len = match msgpack_bin_len(value.len()) {
            Some(l) => l,
            None => {
                return Err(SerializationError::TooLong);
            },
        };
        let n = self.message.entries.len();
        if (n as u64) == 0xFFFF_FFFF {
            return Err(SerializationError::TooLong);
        }
        let hdr_delta: u64 = if (n as u64) == 15 || (n as u64) == 0xFFFF {
            2
        } else {
            0
        };
        let delta: u64 = msgpack_uint_len(time) as u64 + 2 + key_len as u64 + value_len as u64
            + hdr_delta;
        if delta > (usize::MAX as u64) - (self.size as u64) {
            return Err(SerializationError::TooLong);
        }
        let mut record: Vec<(Vec<u8>, Vec<u8>)> = Vec::new();
        record.push((key_bytes, vstd::slice::slice_to_vec(value)));
        let entry = Entry { time: time, record: record };
        proof {
            assert(entry@.record =~= seq![(key.spec_bytes(), value@)]);
            assert(entry@ == raw_entry(time, key.spec_bytes(), value@));
        }
        self.message.entries.push(entry);
        self.size = self.size + delta as usize;
        proof {
            assert(self@.entries =~= old(self)@.entries.push(
                raw_entry(time, key.spec_bytes(), value@),
            ));
            assert(self@ == with_entry(old(self)@, raw_entry(time, key.spec_bytes(), value@)));
        }
        Ok(())
    }

    /// Appends a packet entry: the payload under the caller's key, and the
    /// flow's addresses, ports and protocol as five fixed sub-records.
    /// Fails, leaving the batch unchanged, when a piece cannot be
    /// represented, the entry count is exhausted, or the batch would
    /// outgrow the machine word.
    pub fn push_packet(
        &mut self,
        time: u64,
        key: &str,
        payload: &[u8],
        src_addr: u32,
        dst_addr: u32,
        src_port: u16,
        dst_port: u16,
        proto: u8,
    ) -> (r: Result<(), SerializationError>)
        requires
            old(self).wf(),
        ensures
            final(self).wf(),
            r is Ok <==> can_push_packet(
                old(self)@,
                time,
                key.spec_bytes(),
                payload@,
                src_addr,
                dst_addr,
                src_port,
                dst_port,
                proto,
            ),
            r is Ok ==> final(self)@ == with_entry(
                old(self)@,
                packet_entry(
                    time,
                    key.spec_bytes(),
                    payload@,
                    src_addr,
                    dst_addr,
                    src_port,
                    dst_port,
                    proto,
                ),
            ),
            r !is Ok ==> *final(self) == *old(self),
    {
        proof {
            lemma_push_packet_len(
                self@,
                time,
                key.spec_bytes(),
                payload@,
                src_addr,
                dst_addr,
                src_port,
                dst_port,
                proto,
            );
        }
        let key_bytes = key.as_bytes_vec();
        let key_len = match msgpack_str_len(key_bytes.len()) {
            Some(l) => l,
            None => {
                return Err(SerializationError::TooLong);
            },
        };
        let payload_len = match msgpack_bin_len(payload.len()) {
            Some(l) => l,
            None => {
                return Err(SerializationError::TooLong);
            },
        };
        let n = self.message.entries.len();
        if (n as u64) == 0xFFFF_FFFF {
            return Err(SerializationError::TooLong);
        }
        let hdr_delta: u64 = if (n as u64) == 15 || (n as u64) == 0xFFFF {
            2
        } else {
            0
        };
        let delta: u64 = msgpack_uint_len(time) as u64 + 2 + key_len as u64 + payload_len as u64
            + 49 + hdr_delta;
        if delta > (usize::MAX as u64) - (self.size as u64) {
            return Err(SerializationError::TooLong);
        }
        let mut record: Vec<(Vec<u8>, Vec<u8>)> = Vec::new();
        record.push((vec![0x64u8, 0x70u8, 0x6fu8, 0x72u8, 0x74u8], be16_vec(dst_port)));
        record.push((vec![0x64u8, 0x73u8, 0x74u8], be32_vec(dst_addr)));
        record.push((key_bytes, vstd::slice::slice_to_vec(payload)));
        record.push((vec![0x70u8, 0x72u8, 0x6fu8, 0x74u8, 0x6fu8], vec![proto]));
        record.push((vec![0x73u8, 0x70u8, 0x6fu8, 0x72u8, 0x74u8], be16_vec(src_port)));
        record.push((vec![0x73u8, 0x72u8, 0x63u8], be32_vec(src_addr)));
        let entry = Entry { time: time, record: record };
        let ghost pe = packet_entry(
            time,
            key.spec_bytes(),
            payload@,
            src_addr,
            dst_addr,
            src_port,
            dst_port,
            proto,
        );
        proof {
            assert(entry@.record =~~= pe.record);
            assert(entry@ == pe);
        }
        self.message.entries.push(entry);
        self.size = self.size + delta as usize;
        proof {
            assert(self@.entries =~= old(self)@.entries.push(pe));
            assert(self@ == with_entry(old(self)@, pe));
        }
        Ok(())
    }

    /// Writes a pair into the option map, replacing the value when the key
    /// is already present.  Fails, leaving the batch unchanged, when a
    /// piece cannot be represented or the batch would outgrow the machine
    /// word.
    pub fn push_option(&mut self, key: &str, value: &str) -> (r: Result<(), SerializationError>)
        requires
            old(self).wf(),
        ensures
            final(self).wf(),
            r is Ok <==> can_push_option(old(self)@, key.spec_bytes(), value.spec_bytes()),
            r is Ok ==> final(self)@ == with_option(
                old(self)@,
                key.spec_bytes(),
                value.spec_bytes(),
            ),
            r !is Ok ==> *final(self) == *old(self),
    {
        let key_bytes = key.as_bytes_vec();
        let value_bytes = value.as_bytes_vec();
        proof {
            lemma_push_option_len(self@, key_bytes@, value_bytes@);
        }
        let value_len = match msgpack_str_len(value_bytes.len()) {
            Some(l) => l,
            None => {
                return Err(SerializationError::TooLong);
            },
        };
        let ghost vps = opt_pairs(self@);
        let (found, new_size): (Option<usize>, usize) = match &self.message.option {
            None => {
                let key_len = match msgpack_str_len(key_bytes.len()) {
                    Some(l) => l,
                    None => {
                        return Err(SerializationError::TooLong);
                    },
                };
                let d: u64 = key_len as u64 + value_len as u64;
                if d > (usize::MAX as u64) - (self.size as u64) {
                    return Err(SerializationError::TooLong);
                }
                (None, self.size + d as usize)
            },
            Some(ps) => {
                match find_key(ps, &key_bytes) {
                    Some(i) => {
                        proof {
                            assert(vps[i as int].0 == key_bytes@);
                            assert(opt_has_key(vps, key_bytes@));
                            let j = opt_key_index(vps, key_bytes@);
                            assert(vps[j].0 == key_bytes@);
                            assert(wf_message(self@));
                            assert(i == j);
                            assert(str_len_ok(vps[j].1.len()));
                            assert(ps@[i as int].1@ == vps[i as int].1);
                        }
                        let old_len = match msgpack_str_len(ps[i].1.len()) {
                            Some(l) => l,
                            None => {
                                return Err(SerializationError::TooLong);
                            },
                        };
                        if value_len >= old_len {
                            let d: u64 = (value_len - old_len) as u64;
                            if d > (usize::MAX as u64) - (self.size as u64) {
                                return Err(SerializationError::TooLong);
                            }
                            (Some(i), self.size + d as usize)
                        } else {
                            (Some(i), self.size - (old_len - value_len))
                        }
                    },
                    None => {
                        proof {
                            assert(forall|j: int|
                                0 <= j < vps.len() ==> (#[trigger] vps[j]).0 != key_bytes@);
                            assert(!opt_has_key(vps, key_bytes@));
                        }
                        let key_len = match msgpack_str_len(key_bytes.len()) {
                            Some(l) => l,
                            None => {
                                return Err(SerializationError::TooLong);
                            },
                        };
                        if (ps.len() as u64) == 0xFFFF_FFFF {
                            return Err(SerializationError::TooLong);
                        }
                        let hdr: u64 = if (ps.len() as u64) == 15 || (ps.len() as u64) == 0xFFFF {
                            2
                        } else {
                            0
                        };
                        let d: u64 = key_len as u64 + value_len as u64 + hdr;
                        if d > (usize::MAX as u64) - (self.size as u64) {
                            return Err(SerializationError::TooLong);
                        }
                        (None, self.size + d as usize)
                    },
                }
            },
        };
        let mut taken: Option<Vec<(Vec<u8>, Vec<u8>)>> = None;
        core::mem::swap(&mut taken, &mut self.message.option);
        let mut ps = match taken {
            None => Vec::new(),
            Some(p) => p,
        };
        match found {
            Some(i) => {
                ps.remove(i);
                ps.insert(i, (key_bytes, value_bytes));
                proof {
                    assert(ps@.map_values(|p: (Vec<u8>, Vec<u8>)| (p.0@, p.1@)) =~= opt_written(
                        vps,
                        key_bytes@,
                        value_bytes@,
                    ));
                }
            },
            None => {
                ps.push((key_bytes, value_bytes));
                proof {
                    assert(ps@.map_values(|p: (Vec<u8>, Vec<u8>)| (p.0@, p.1@)) =~= opt_written(
                        vps,
                        key_bytes@,
                        value_bytes@,
                    ));
                }
            },
        }
        self.message.option = Some(ps);
        self.size = new_size;
        proof {
            assert(self@ == with_option(old(self)@, key.spec_bytes(), value.spec_bytes()));
        }
        Ok(())
    }

    /// Emits the canonical serialization of the batch into `buf`, replacing
    /// its contents.  The emitted byte count is exactly `serialized_len()`.
    pub fn serialize_into(&self, buf: &mut Vec<u8>)
        requires
            self.wf(),
        ensures
            final(buf)@ == spec_message_bytes(self@),
            final(buf)@.len() == spec_message_bytes(self@).len(),
    {
        buf.clear();
        buf.push(0x93);
        write_str_hdr(buf, self.message.tag.len());
        buf.extend_from_slice(self.message.tag.as_slice());
        write_array_hdr(buf, self.message.entries.len());
        let ghost entries_v = self@.entries;
        let ghost pre_entries = buf@;
        let n = self.message.entries.len();
        let mut i: usize = 0;
        proof {
            assert(entries_v.take(0) =~= Seq::<EntryV>::empty());
        }
        while i < n
            invariant
                self.wf(),
                n == self.message.entries@.len(),
                entries_v == self@.entries,
                0 <= i <= n,
                buf@ == pre_entries + spec_entries_bytes(entries_v.take(i as int)),
            decreases n - i,
        {
            let ghost pre_entry = buf@;
            let e = &self.message.entries[i];
            proof {
                assert(e@ == entries_v[i as int]);
                assert(wf_entry(entries_v[i as int]));
            }
            buf.push(0x92);
            write_uint(buf, e.time);
            write_map_hdr(buf, e.record.len());
            let ghost rec_v = e@.record;
            let ghost pre_pairs = buf@;
            let m = e.record.len();
            let mut j: usize = 0;
            proof {
                assert(rec_v.take(0) =~= Seq::<(Seq<u8>, Seq<u8>)>::empty());
            }
            while j < m
                invariant
                    m == e.record@.len(),
                    rec_v == e@.record,
                    wf_entry(e@),
                    0 <= j <= m,
                    buf@ == pre_pairs + spec_pairs_bytes(rec_v.take(j as int)),
                decreases m - j,
            {
                let p = &e.record[j];
                proof {
                    assert((p.0@, p.1@) == rec_v[j as int]);
                    assert(str_len_ok(rec_v[j as int].0.len()));
                    assert(bin_len_ok(rec_v[j as int].1.len()));
                }
                write_str_hdr(buf, p.0.len());
                buf.extend_from_slice(p.0.as_slice());
                write_bin_hdr(buf, p.1.len());
                buf.extend_from_slice(p.1.as_slice());
                proof {
                    lemma_pairs_bytes_take_step(rec_v, j as int);
                    assert(buf@ =~= pre_pairs + spec_pairs_bytes(rec_v.take(j as int + 1)));
                }
                j += 1;
            }
            proof {
                assert(rec_v.take(m as int) =~= rec_v);
                lemma_entries_bytes_take_step(entries_v, i as int);
                assert(buf@ =~= pre_entry + spec_entry_bytes(entries_v[i as int]));
                assert(buf@ =~= pre_entries + spec_entries_bytes(entries_v.take(i as int + 1)));
            }
            i += 1;
        }
        proof {
            assert(entries_v.take(n as int) =~= entries_v);
        }
        match &self.message.option {
            None => {
                buf.push(0xc0);
            },
            Some(ps) => {
                write_map_hdr(buf, ps.len());
                let ghost ps_v = opt_pairs(self@);
                let ghost pre_opts = buf@;
                let k = ps.len();
                let mut j: usize = 0;
                proof {
                    assert(ps_v.take(0) =~= Seq::<(Seq<u8>, Seq<u8>)>::empty());
                }
                while j < k
                    invariant
                        self.wf(),
                        self@.option == Option::Some(ps_v),
                        k == ps@.len(),
                        ps@.map_values(|p: (Vec<u8>, Vec<u8>)| (p.0@, p.1@)) == ps_v,
                        0 <= j <= k,
                        buf@ == pre_opts + spec_opt_pairs_bytes(ps_v.take(j as int)),
                    decreases k - j,
                {
                    let p = &ps[j];
                    proof {
                        assert((p.0@, p.1@) == ps_v[j as int]);
                        assert(str_len_ok(ps_v[j as int].0.len()));
                        assert(str_len_ok(ps_v[j as int].1.len()));
                    }
                    write_str_hdr(buf, p.0.len());
                    buf.extend_from_slice(p.0.as_slice());
                    write_str_hdr(buf, p.1.len());
                    buf.extend_from_slice(p.1.as_slice());
                    proof {
                        lemma_opt_pairs_bytes_take_step(ps_v, j as int);
                        assert(buf@ =~= pre_opts + spec_opt_pairs_bytes(ps_v.take(j as int + 1)));
                    }
                    j += 1;
                }
                proof {
                    assert(ps_v.take(k as int) =~= ps_v);
                }
            },
        }
        proof {
            assert(buf@ =~= spec_message_bytes(self@));
        }
    }
}

/// Whether the option map holds the given key.
pub open spec fn opt_has_key(ps: Seq<(Seq<u8>, Seq<u8>)>, key: Seq<u8>) -> bool {
    exists|i: int| 0 <= i < ps.len() && ps[i].0 == key
}

/// The index of the given key in the option map.
pub open spec fn opt_key_index(ps: Seq<(Seq<u8>, Seq<u8>)>, key: Seq<u8>) -> int {
    choose|i: int| 0 <= i < ps.len() && ps[i].0 == key
}

/// The option map after writing a key-to-value pair: replacement when the
/// key is present, otherwise appending.
pub open spec fn opt_written(ps: Seq<(Seq<u8>, Seq<u8>)>, key: Seq<u8>, value: Seq<u8>) -> Seq<
    (Seq<u8>, Seq<u8>),
> {
    if opt_has_key(ps, key) {
        ps.update(opt_key_index(ps, key), (key, value))
    } else {
        ps.push((key, value))
    }
}

/// The pairs of the option map of a model, empty when there is none.
pub open spec fn opt_pairs(m: MessageV) -> Seq<(Seq<u8>, Seq<u8>)> {
    match m.option {
        Option::None => Seq::empty(),
        Option::Some(ps) => ps,
    }
}

/// The model after writing an option pair.
pub open spec fn with_option(m: MessageV, key: Seq<u8>, value: Seq<u8>) -> MessageV {
    MessageV {
        tag: m.tag,
        entries: m.entries,
        option: Option::Some(opt_written(opt_pairs(m), key, value)),
    }
}

/// Whether an option pair of the given bytes can be written.
pub open spec fn can_push_option(m: MessageV, key: Seq<u8>, value: Seq<u8>) -> bool {
    &&& str_len_ok(value.len())
    &&& (opt_has_key(opt_pairs(m), key) || (str_len_ok(key.len()) && opt_pairs(m).len()
        < 0xFFFF_FFFF))
    &&& spec_message_bytes(with_option(m, key, value)).len() <= usize::MAX
}

/// The bytes of the label "dport".
pub open spec fn label_dport() -> Seq<u8> {
    seq![0x64u8, 0x70u8, 0x6fu8, 0x72u8, 0x74u8]
}

/// The bytes of the label "dst".
pub open spec fn label_dst() -> Seq<u8> {
    seq![0x64u8, 0x73u8, 0x74u8]
}

/// The bytes of the label "proto".
pub open spec fn label_proto() -> Seq<u8> {
    seq![0x70u8, 0x72u8, 0x6fu8, 0x74u8, 0x6fu8]
}

/// The bytes of the label "sport".
pub open spec fn label_sport() -> Seq<u8> {
    seq![0x73u8, 0x70u8, 0x6fu8, 0x72u8, 0x74u8]
}

/// The bytes of the label "src".
pub open spec fn label_src() -> Seq<u8> {
    seq![0x73u8, 0x72u8, 0x63u8]
}

/// The model of a packet entry: the payload under the caller's key, and
/// the five fixed sub-records of the flow's addresses, ports and protocol,
/// with the keys in ascending byte order.
pub open spec fn packet_entry(
    time: u64,
    key: Seq<u8>,
    payload: Seq<u8>,
    src_addr: u32,
    dst_addr: u32,
    src_port: u16,
    dst_port: u16,
    proto: u8,
) -> EntryV {
    EntryV {
        time: time,
        record: seq![
            (label_dport(), spec_be16(dst_port as nat)),
            (label_dst(), spec_be32(dst_addr as nat)),
            (key, payload),
            (label_proto(), seq![proto]),
            (label_sport(), spec_be16(src_port as nat)),
            (label_src(), spec_be32(src_addr as nat)),
        ],
    }
}

/// Serialized length of the five fixed sub-records of a packet entry.
pub open spec fn packet_extra_len() -> nat {
    49
}

/// Whether a packet entry of the given pieces can be appended.
pub open spec fn can_push_packet(
    m: MessageV,
    time: u64,
    key: Seq<u8>,
    payload: Seq<u8>,
    src_addr: u32,
    dst_addr: u32,
    src_port: u16,
    dst_port: u16,
    proto: u8,
) -> bool {
    &&& str_len_ok(key.len())
    &&& bin_len_ok(payload.len())
    &&& m.entries.len() < 0xFFFF_FFFF
    &&& spec_message_bytes(
        with_entry(
            m,
            packet_entry(time, key, payload, src_addr, dst_addr, src_port, dst_port, proto),
        ),
    ).len() <= usize::MAX
}

/// Whether a tag of the given bytes can replace the current one.
pub open spec fn can_set_tag(m: MessageV, tag: Seq<u8>) -> bool {
    &&& str_len_ok(tag.len())
    &&& spec_message_bytes(with_tag(m, tag)).len() <= usize::MAX
}

/// Whether an entry of the given pieces can be appended.
pub open spec fn can_push_raw(m: MessageV, time: u64, key: Seq<u8>, value: Seq<u8>) -> bool {
    &&& str_len_ok(key.len())
    &&& bin_len_ok(value.len())
    &&& m.entries.len() < 0xFFFF_FFFF
    &&& spec_message_bytes(with_entry(m, raw_entry(time, key, value))).len() <= usize::MAX
}

/// Writing an option pair appends its bytes when the key is fresh.
pub proof fn lemma_opt_pairs_bytes_push(ps: Seq<(Seq<u8>, Seq<u8>)>, p: (Seq<u8>, Seq<u8>))
    ensures
        spec_opt_pairs_bytes(ps.push(p)) == spec_opt_pairs_bytes(ps) + spec_opt_pair_bytes(p),
{
    assert(ps.push(p).drop_last() =~= ps);
    assert(ps.push(p).last() == p);
}

/// Replacing the value at one index changes the pair list's serialized
/// length by the difference of the value lengths.
pub proof fn lemma_opt_pairs_bytes_update(ps: Seq<(Seq<u8>, Seq<u8>)>, i: int, v: Seq<u8>)
    requires
        0 <= i < ps.len(),
    ensures
        spec_opt_pairs_bytes(ps.update(i, (ps[i].0, v))).len() + spec_str_len(ps[i].1.len())
            == spec_opt_pairs_bytes(ps).len() + spec_str_len(v.len()),
    decreases ps.len(),
{
    let q = ps.update(i, (ps[i].0, v));
    lemma_str_hdr_len(ps[i].1.len());
    lemma_str_hdr_len(v.len());
    if i == ps.len() - 1 {
        assert(q.drop_last() =~= ps.drop_last());
        assert(q.last() == (ps[i].0, v));
        lemma_str_hdr_len(ps[i].0.len());
    } else {
        assert(q.last() == ps.last());
        assert(q.drop_last() =~= ps.drop_last().update(i, (ps[i].0, v)));
        assert(ps.drop_last()[i] == ps[i]);
        lemma_opt_pairs_bytes_update(ps.drop_last(), i, v);
    }
}

/// Growth of a map header when one pair is added: two more bytes exactly
/// when the count crosses 15 or `2^16 - 1`.
pub proof fn lemma_map_hdr_grow(n: nat)
    ensures
        spec_map_hdr(n + 1).len() == spec_map_hdr(n).len() + (
        if n == 15 || n == 0xFFFF {
            2int
        } else {
            0int
        }),
{
}

/// Serialization of a prefix grows entry by entry.
pub proof fn lemma_entries_bytes_take_step(es: Seq<EntryV>, i: int)
    requires
        0 <= i < es.len(),
    ensures
        spec_entries_bytes(es.take(i + 1)) == spec_entries_bytes(es.take(i)) + spec_entry_bytes(
            es[i],
        ),
{
    assert(es.take(i + 1).drop_last() =~= es.take(i));
    assert(es.take(i + 1).last() == es[i]);
}

/// Serialization of a prefix grows record pair by record pair.
pub proof fn lemma_pairs_bytes_take_step(ps: Seq<(Seq<u8>, Seq<u8>)>, i: int)
    requires
        0 <= i < ps.len(),
    ensures
        spec_pairs_bytes(ps.take(i + 1)) == spec_pairs_bytes(ps.take(i)) + spec_pair_bytes(ps[i]),
{
    assert(ps.take(i + 1).drop_last() =~= ps.take(i));
    assert(ps.take(i + 1).last() == ps[i]);
}

/// Serialization of a prefix grows option pair by option pair.
pub proof fn lemma_opt_pairs_bytes_take_step(ps: Seq<(Seq<u8>, Seq<u8>)>, i: int)
    requires
        0 <= i < ps.len(),
    ensures
        spec_opt_pairs_bytes(ps.take(i + 1)) == spec_opt_pairs_bytes(ps.take(i))
            + spec_opt_pair_bytes(ps[i]),
{
    assert(ps.take(i + 1).drop_last() =~= ps.take(i));
    assert(ps.take(i + 1).last() == ps[i]);
}

/// Appends the two big-endian bytes of a value below `2^16`.
fn write_be16(buf: &mut Vec<u8>, n: u64)
    requires
        n < 0x1_0000,
    ensures
        final(buf)@ == old(buf)@ + spec_be16(n as nat),
{
    buf.push(((n / 0x100) % 0x100) as u8);
    buf.push((n % 0x100) as u8);
    proof {
        assert(buf@ =~= old(buf)@ + spec_be16(n as nat));
    }
}

/// Appends the four big-endian bytes of a value below `2^32`.
fn write_be32(buf: &mut Vec<u8>, n: u64)
    requires
        n < 0x1_0000_0000,
    ensures
        final(buf)@ == old(buf)@ + spec_be32(n as nat),
{
    buf.push(((n / 0x100_0000) % 0x100) as u8);
    buf.push(((n / 0x1_0000) % 0x100) as u8);
    buf.push(((n / 0x100) % 0x100) as u8);
    buf.push((n % 0x100) as u8);
    proof {
        assert(buf@ =~= old(buf)@ + spec_be32(n as nat));
    }
}

/// Appends the eight big-endian bytes of a 64-bit value.
fn write_be64(buf: &mut Vec<u8>, n: u64)
    ensures
        final(buf)@ == old(buf)@ + spec_be64(n as nat),
{
    buf.push(((n / 0x100_0000_0000_0000) % 0x100) as u8);
    buf.push(((n / 0x1_0000_0000_0000) % 0x100) as u8);
    buf.push(((n / 0x100_0000_0000) % 0x100) as u8);
    buf.push(((n / 0x1_0000_0000) % 0x100) as u8);
    buf.push(((n / 0x100_0000) % 0x100) as u8);
    buf.push(((n / 0x1_0000) % 0x100) as u8);
    buf.push(((n / 0x100) % 0x100) as u8);
    buf.push((n % 0x100) as u8);
    proof {
        assert(buf@ =~= old(buf)@ + spec_be64(n as nat));
    }
}

/// Appends the serialization of an unsigned integer.
fn write_uint(buf: &mut Vec<u8>, n: u64)
    ensures
        final(buf)@ == old(buf)@ + spec_uint_bytes(n),
{
    if n < 0x80 {
        buf.push(n as u8);
        proof {
            assert(buf@ =~= old(buf)@ + spec_uint_bytes(n));
        }
    } else if n < 0x100 {
        buf.push(0xcc);
        buf.push(n as u8);
        proof {
            assert(buf@ =~= old(buf)@ + spec_uint_bytes(n));
        }
    } else if n < 0x1_0000 {
        buf.push(0xcd);
        write_be16(buf, n);
        proof {
            assert(buf@ =~= old(buf)@ + spec_uint_bytes(n));
        }
    } else if n < 0x1_0000_0000 {
        buf.push(0xce);
        write_be32(buf, n);
        proof {
            assert(buf@ =~= old(buf)@ + spec_uint_bytes(n));
        }
    } else {
        buf.push(0xcf);
        write_be64(buf, n);
        proof {
            assert(buf@ =~= old(buf)@ + spec_uint_bytes(n));
        }
    }
}

/// Appends the header announcing a text string of length `l`.
fn write_str_hdr(buf: &mut Vec<u8>, l: usize)
    requires
        (l as nat) < 0x1_0000_0000,
    ensures
        final(buf)@ == old(buf)@ + spec_str_hdr(l as nat),
{
    if l < 32 {
        buf.push(0xa0 + l as u8);
        proof {
            assert(buf@ =~= old(buf)@ + spec_str_hdr(l as nat));
        }
    } else if l < 0x100 {
        buf.push(0xd9);
        buf.push(l as u8);
        proof {
            assert(buf@ =~= old(buf)@ + spec_str_hdr(l as nat));
        }
    } else if l < 0x1_0000 {
        buf.push(0xda);
        write_be16(buf, l as u64);
        proof {
            assert(buf@ =~= old(buf)@ + spec_str_hdr(l as nat));
        }
    } else {
        buf.push(0xdb);
        write_be32(buf, l as u64);
        proof {
            assert(buf@ =~= old(buf)@ + spec_str_hdr(l as nat));
        }
    }
}

/// Appends the header announcing a byte string of length `l`.
fn write_bin_hdr(buf: &mut Vec<u8>, l: usize)
    requires
        (l as nat) < 0x1_0000_0000,
    ensures
        final(buf)@ == old(buf)@ + spec_bin_hdr(l as nat),
{
    if l < 0x100 {
        buf.push(0xc4);
        buf.push(l as u8);
        proof {
            assert(buf@ =~= old(buf)@ + spec_bin_hdr(l as nat));
        }
    } else if l < 0x1_0000 {
        buf.push(0xc5);
        write_be16(buf, l as u64);
        proof {
            assert(buf@ =~= old(buf)@ + spec_bin_hdr(l as nat));
        }
    } else {
        buf.push(0xc6);
        write_be32(buf, l as u64);
        proof {
            assert(buf@ =~= old(buf)@ + spec_bin_hdr(l as nat));
        }
    }
}

/// Appends the header announcing an array of `n` elements.
fn write_array_hdr(buf: &mut Vec<u8>, n: usize)
    requires
        (n as nat) < 0x1_0000_0000,
    ensures
        final(buf)@ == old(buf)@ + spec_array_hdr(n as nat),
{
    if n < 16 {
        buf.push(0x90 + n as u8);
        proof {
            assert(buf@ =~= old(buf)@ + spec_array_hdr(n as nat));
        }
    } else if n < 0x1_0000 {
        buf.push(0xdc);
        write_be16(buf, n as u64);
        proof {
            assert(buf@ =~= old(buf)@ + spec_array_hdr(n as nat));
        }
    } else {
        buf.push(0xdd);
        write_be32(buf, n as u64);
        proof {
            assert(buf@ =~= old(buf)@ + spec_array_hdr(n as nat));
        }
    }
}

/// Appends the header announcing a map of `n` pairs.
fn write_map_hdr(buf: &mut Vec<u8>, n: usize)
    requires
        (n as nat) < 0x1_0000_0000,
    ensures
        final(buf)@ == old(buf)@ + spec_map_hdr(n as nat),
{
    if n < 16 {
        buf.push(0x80 + n as u8);
        proof {
            assert(buf@ =~= old(buf)@ + spec_map_hdr(n as nat));
        }
    } else if n < 0x1_0000 {
        buf.push(0xde);
        write_be16(buf, n as u64);
        proof {
            assert(buf@ =~= old(buf)@ + spec_map_hdr(n as nat));
        }
    } else {
        buf.push(0xdf);
        write_be32(buf, n as u64);
        proof {
            assert(buf@ =~= old(buf)@ + spec_map_hdr(n as nat));
        }
    }
}

/// The two big-endian bytes of a 16-bit value.
fn be16_vec(n: u16) -> (r: Vec<u8>)
    ensures
        r@ == spec_be16(n as nat),
{
    let v = vec![(n / 0x100) as u8, (n % 0x100) as u8];
    proof {
        assert(v@ =~= spec_be16(n as nat));
    }
    v
}

/// The four big-endian bytes of a 32-bit value.
fn be32_vec(n: u32) -> (r: Vec<u8>)
    ensures
        r@ == spec_be32(n as nat),
{
    let v = vec![
        (n / 0x100_0000) as u8,
        ((n / 0x1_0000) % 0x100) as u8,
        ((n / 0x100) % 0x100) as u8,
        (n % 0x100) as u8,
    ];
    proof {
        assert(v@ =~= spec_be32(n as nat));
    }
    v
}

/// Two byte vectors hold the same bytes.
fn bytes_eq(a: &Vec<u8>, b: &Vec<u8>) -> (r: bool)
    ensures
        r == (a@ == b@),
{
    if a.len() != b.len() {
        proof {
            assert(a@ != b@);
        }
        return false;
    }
    let n = a.len();
    let mut i: usize = 0;
    while i < n
        invariant
            n == a@.len() == b@.len(),
            0 <= i <= n,
            forall|j: int| 0 <= j < i ==> a@[j] == b@[j],
        decreases n - i,
    {
        if a[i] != b[i] {
            proof {
                assert(a@[i as int] != b@[i as int]);
            }
            return false;
        }
        i += 1;
    }
    proof {
        assert(a@ =~= b@);
    }
    true
}

/// The index of the first pair holding the key, if any.
fn find_key(ps: &Vec<(Vec<u8>, Vec<u8>)>, key: &Vec<u8>) -> (r: Option<usize>)
    ensures
        match r {
            Some(i) => i < ps@.len() && ps@[i as int].0@ == key@,
            None => forall|j: int| 0 <= j < ps@.len() ==> (#[trigger] ps@[j]).0@ != key@,
        },
{
    let n = ps.len();
    let mut i: usize = 0;
    while i < n
        invariant
            n == ps@.len(),
            0 <= i <= n,
            forall|j: int| 0 <= j < i ==> (#[trigger] ps@[j]).0@ != key@,
        decreases n - i,
    {
        if bytes_eq(&ps[i].0, key) {
            return Some(i);
        }
        i += 1;
    }
    None
}

/// Two batch models differing only in the option slot differ in length
/// exactly by the option slots' lengths.
pub proof fn lemma_message_opt_len(m1: MessageV, m2: MessageV)
    requires
        m1.tag == m2.tag,
        m1.entries == m2.entries,
    ensures
        spec_message_bytes(m1).len() + spec_option_bytes(m2.option).len() == spec_message_bytes(
            m2,
        ).len() + spec_option_bytes(m1.option).len(),
{
}

/// Serialized length change of a batch when an option pair is written.
pub proof fn lemma_push_option_len(m: MessageV, key: Seq<u8>, value: Seq<u8>)
    ensures
        m.option is None ==> spec_message_bytes(with_option(m, key, value)).len()
            == spec_message_bytes(m).len() + spec_str_len(key.len()) + spec_str_len(value.len()),
        m.option is Some && opt_has_key(opt_pairs(m), key) ==> spec_message_bytes(
            with_option(m, key, value),
        ).len() + spec_str_len(opt_pairs(m)[opt_key_index(opt_pairs(m), key)].1.len())
            == spec_message_bytes(m).len() + spec_str_len(value.len()),
        m.option is Some && !opt_has_key(opt_pairs(m), key) ==> spec_message_bytes(
            with_option(m, key, value),
        ).len() == spec_message_bytes(m).len() + spec_str_len(key.len()) + spec_str_len(
            value.len(),
        ) + (
        if opt_pairs(m).len() == 15 || opt_pairs(m).len() == 0xFFFF {
            2int
        } else {
            0int
        }),
{
    let m2 = with_option(m, key, value);
    lemma_message_opt_len(m, m2);
    lemma_str_hdr_len(key.len());
    lemma_str_hdr_len(value.len());
    let ps = opt_pairs(m);
    if m.option is None {
        let single = Seq::<(Seq<u8>, Seq<u8>)>::empty().push((key, value));
        assert(opt_written(ps, key, value) =~= single);
        lemma_opt_pairs_bytes_push(Seq::empty(), (key, value));
        assert(spec_opt_pairs_bytes(Seq::empty()) =~= Seq::<u8>::empty());
    } else if opt_has_key(ps, key) {
        let i = opt_key_index(ps, key);
        assert(opt_written(ps, key, value) == ps.update(i, (key, value)));
        assert(ps.update(i, (key, value)) =~= ps.update(i, (ps[i].0, value)));
        lemma_opt_pairs_bytes_update(ps, i, value);
    } else {
        lemma_opt_pairs_bytes_push(ps, (key, value));
        lemma_map_hdr_grow(ps.len());
    }
}

/// Serialized length of a packet entry: the payload pair plus a fixed 49
/// bytes for the five sub-records.
pub proof fn lemma_packet_entry_len(
    time: u64,
    key: Seq<u8>,
    payload: Seq<u8>,
    src_addr: u32,
    dst_addr: u32,
    src_port: u16,
    dst_port: u16,
    proto: u8,
)
    ensures
        spec_entry_bytes(
            packet_entry(time, key, payload, src_addr, dst_addr, src_port, dst_port, proto),
        ).len() == spec_uint_len(time) + 2 + spec_str_len(key.len()) + spec_bin_len(payload.len())
            + packet_extra_len(),
{
    let p0 = (label_dport(), spec_be16(dst_port as nat));
    let p1 = (label_dst(), spec_be32(dst_addr as nat));
    let p2 = (key, payload);
    let p3 = (label_proto(), seq![proto]);
    let p4 = (label_sport(), spec_be16(src_port as nat));
    let p5 = (label_src(), spec_be32(src_addr as nat));
    let r6 = seq![p0, p1, p2, p3, p4, p5];
    let r5 = seq![p0, p1, p2, p3, p4];
    let r4 = seq![p0, p1, p2, p3];
    let r3 = seq![p0, p1, p2];
    let r2 = seq![p0, p1];
    let r1 = seq![p0];
    let r0 = Seq::<(Seq<u8>, Seq<u8>)>::empty();
    assert(r6.drop_last() =~= r5);
    assert(r5.drop_last() =~= r4);
    assert(r4.drop_last() =~= r3);
    assert(r3.drop_last() =~= r2);
    assert(r2.drop_last() =~= r1);
    assert(r1.drop_last() =~= r0);
    lemma_str_hdr_len(3);
    lemma_str_hdr_len(5);
    lemma_str_hdr_len(key.len());
    lemma_str_hdr_len(payload.len());
    assert(spec_pair_bytes(p0).len() == 10);
    assert(spec_pair_bytes(p1).len() == 10);
    assert(spec_pair_bytes(p2).len() == spec_str_len(key.len()) + spec_bin_len(payload.len()));
    assert(spec_pair_bytes(p3).len() == 9);
    assert(spec_pair_bytes(p4).len() == 10);
    assert(spec_pair_bytes(p5).len() == 10);
    assert(spec_pairs_bytes(r6).len() == spec_pairs_bytes(r5).len() + 10);
    assert(spec_pairs_bytes(r5).len() == spec_pairs_bytes(r4).len() + 10);
    assert(spec_pairs_bytes(r4).len() == spec_pairs_bytes(r3).len() + 9);
    assert(spec_pairs_bytes(r3).len() == spec_pairs_bytes(r2).len() + spec_str_len(key.len())
        + spec_bin_len(payload.len()));
    assert(spec_pairs_bytes(r2).len() == spec_pairs_bytes(r1).len() + 10);
    assert(spec_pairs_bytes(r1).len() == spec_pairs_bytes(r0).len() + 10);
    assert(spec_pairs_bytes(r0).len() == 0);
}

/// Serialized length of a batch after appending a packet entry.
pub proof fn lemma_push_packet_len(
    m: MessageV,
    time: u64,
    key: Seq<u8>,
    payload: Seq<u8>,
    src_addr: u32,
    dst_addr: u32,
    src_port: u16,
    dst_port: u16,
    proto: u8,
)
    ensures
        spec_message_bytes(
            with_entry(
                m,
                packet_entry(time, key, payload, src_addr, dst_addr, src_port, dst_port, proto),
            ),
        ).len() == spec_message_bytes(m).len() + spec_uint_len(time) + 2 + spec_str_len(key.len())
            + spec_bin_len(payload.len()) + packet_extra_len() + (
        if m.entries.len() == 15 || m.entries.len() == 0xFFFF {
            2int
        } else {
            0int
        }),
{
    let e = packet_entry(time, key, payload, src_addr, dst_addr, src_port, dst_port, proto);
    lemma_entries_bytes_push(m.entries, e);
    lemma_packet_entry_len(time, key, payload, src_addr, dst_addr, src_port, dst_port, proto);
    lemma_array_hdr_grow(m.entries.len());
    lemma_message_len(m);
    lemma_message_len(with_entry(m, e));
}

/// Serialized length of a batch after appending a single-pair entry.
pub proof fn lemma_push_raw_len(m: MessageV, time: u64, key: Seq<u8>, value: Seq<u8>)
    ensures
        spec_message_bytes(with_entry(m, raw_entry(time, key, value))).len()
            == spec_message_bytes(m).len() + spec_uint_len(time) + 2 + spec_str_len(key.len())
            + spec_bin_len(value.len()) + (
        if m.entries.len() == 15 || m.entries.len() == 0xFFFF {
            2int
        } else {
            0int
        }),
{
    let e = raw_entry(time, key, value);
    lemma_entries_bytes_push(m.entries, e);
    lemma_raw_entry_len(time, key, value);
    lemma_array_hdr_grow(m.entries.len());
    lemma_message_len(m);
    lemma_message_len(with_entry(m, e));
}

/// The model after replacing the tag.
pub open spec fn with_tag(m: MessageV, tag: Seq<u8>) -> MessageV {
    MessageV { tag: tag, entries: m.entries, option: m.option }
}

/// The model after appending one entry.
pub open spec fn with_entry(m: MessageV, e: EntryV) -> MessageV {
    MessageV { tag: m.tag, entries: m.entries.push(e), option: m.option }
}

/// The model of an entry holding a single key-to-value pair.
pub open spec fn raw_entry(time: u64, key: Seq<u8>, value: Seq<u8>) -> EntryV {
    EntryV { time: time, record: seq![(key, value)] }
}

/// Everything of a batch's serialization that does not involve the tag.
pub open spec fn spec_tail_len(m: MessageV) -> nat {
    spec_array_hdr(m.entries.len()).len() + spec_entries_bytes(m.entries).len()
        + spec_option_bytes(m.option).len()
}

/// A string header together with its payload spans exactly the length the
/// length functions give.
pub proof fn lemma_str_hdr_len(l: nat)
    ensures
        spec_str_hdr(l).len() + l == spec_str_len(l),
        spec_bin_hdr(l).len() + l == spec_bin_len(l),
{
}

/// Decomposition of a batch's serialized length into tag part and tail.
pub proof fn lemma_message_len(m: MessageV)
    ensures
        spec_message_bytes(m).len() == 1 + spec_str_len(m.tag.len()) + spec_tail_len(m),
{
    lemma_str_hdr_len(m.tag.len());
}

/// Appending an entry appends its bytes to the entry list's serialization.
pub proof fn lemma_entries_bytes_push(es: Seq<EntryV>, e: EntryV)
    ensures
        spec_entries_bytes(es.push(e)) == spec_entries_bytes(es) + spec_entry_bytes(e),
{
    assert(es.push(e).drop_last() =~= es);
    assert(es.push(e).last() == e);
}

/// Serialized length of a single-pair entry.
pub proof fn lemma_raw_entry_len(time: u64, key: Seq<u8>, value: Seq<u8>)
    ensures
        spec_entry_bytes(raw_entry(time, key, value)).len() == spec_uint_len(time) + 2
            + spec_str_len(key.len()) + spec_bin_len(value.len()),
{
    let rec = seq![(key, value)];
    assert(rec.drop_last() =~= Seq::<(Seq<u8>, Seq<u8>)>::empty());
    assert(spec_pairs_bytes(rec) == spec_pairs_bytes(rec.drop_last()) + spec_pair_bytes(
        rec.last(),
    ));
    lemma_str_hdr_len(key.len());
    lemma_str_hdr_len(value.len());
}

/// Growth of the entries-array header when one entry is appended: two more
/// bytes exactly when the count crosses 15 or `2^16 - 1`.
pub proof fn lemma_array_hdr_grow(n: nat)
    ensures
        spec_array_hdr(n + 1).len() == spec_array_hdr(n).len() + (
        if n == 15 || n == 0xFFFF {
            2int
        } else {
            0int
        }),
{
}

/// The empty batch serializes to exactly 4 bytes.
pub proof fn lemma_empty_message_len()
    ensures
        spec_message_bytes(empty_message()).len() == 4,
{
    assert(spec_message_bytes(empty_message()).len() == 4) by {
        assert(spec_entries_bytes(Seq::<EntryV>::empty()) =~= Seq::<u8>::empty());
    }
}

impl Default for SizedForwardMode {
    /// The empty batch: no tag, no entries, no option map.
    fn default() -> (r: Self)
        ensures
            r.wf(),
            r@ == empty_message(),
    {
        let m = SizedForwardMode {
            message: ForwardMode { tag: Vec::new(), entries: Vec::new(), option: Option::None },
            size: 4,
        };
        proof {
            assert(m@.entries =~= Seq::<EntryV>::empty());
            assert(m@.tag =~= Seq::<u8>::empty());
            assert(m@ == empty_message());
            lemma_empty_message_len();
        }
        m
    }
}

/// Length monotonicity: appending an entry never shrinks the
/// serialization.
pub proof fn lemma_append_monotonic(m: MessageV, e: EntryV)
    ensures
        spec_message_bytes(with_entry(m, e)).len() >= spec_message_bytes(m).len(),
{
    lemma_entries_bytes_push(m.entries, e);
    lemma_array_hdr_grow(m.entries.len());
    lemma_message_len(m);
    lemma_message_len(with_entry(m, e));
}

/// Length stability under re-tagging: replacing the tag changes the
/// serialized length exactly by the difference of the tags' serialized
/// lengths; re-tagging with the same tag changes nothing.
pub proof fn lemma_retag_len(m: MessageV, tag: Seq<u8>)
    ensures
        spec_message_bytes(with_tag(m, tag)).len() + spec_str_len(m.tag.len())
            == spec_message_bytes(m).len() + spec_str_len(tag.len()),
        with_tag(m, m.tag) == m,
{
    lemma_message_len(m);
    lemma_message_len(with_tag(m, tag));
}

/// The value stored under the key in a record, first match.
pub open spec fn record_get(rec: Seq<(Seq<u8>, Seq<u8>)>, key: Seq<u8>) -> Option<Seq<u8>>
    decreases rec.len(),
{
    if rec.len() == 0 {
        Option::None
    } else if rec[0].0 == key {
        Option::Some(rec[0].1)
    } else {
        record_get(rec.drop_first(), key)
    }
}

impl SizedForwardMode {
    /// The time of the entry at the index.
    pub fn entry_time(&self, i: usize) -> (r: u64)
        requires
            i < self@.entries.len(),
        ensures
            r == self@.entries[i as int].time,
    {
        self.message.entries[i].time
    }

    /// The value stored under the key in the entry at the index.
    pub fn entry_value(&self, i: usize, key: &str) -> (r: Option<&Vec<u8>>)
        requires
            i < self@.entries.len(),
        ensures
            match r {
                Some(v) => record_get(self@.entries[i as int].record, key.spec_bytes())
                    == Option::Some(v@),
                None => record_get(self@.entries[i as int].record, key.spec_bytes()) is None,
            },
    {
        let key_bytes = key.as_bytes_vec();
        let rec = &self.message.entries[i].record;
        let ghost rv = self@.entries[i as int].record;
        let n = rec.len();
        let mut j: usize = 0;
        proof {
            assert(rv.skip(0) =~= rv);
        }
        while j < n
            invariant
                n == rec@.len(),
                rv == self@.entries[i as int].record,
                i < self@.entries.len(),
                rec@ == self.message.entries@[i as int].record@,
                rv == rec@.map_values(|p: (Vec<u8>, Vec<u8>)| (p.0@, p.1@)),
                key_bytes@ == key.spec_bytes(),
                0 <= j <= n,
                record_get(rv, key.spec_bytes()) == record_get(
                    rv.skip(j as int),
                    key.spec_bytes(),
                ),
            decreases n - j,
        {
            if bytes_eq(&rec[j].0, &key_bytes) {
                proof {
                    assert(rv.skip(j as int)[0] == rv[j as int]);
                }
                return Some(&rec[j].1);
            }
            proof {
                assert(rv.skip(j as int)[0] == rv[j as int]);
                assert(rv.skip(j as int).drop_first() =~= rv.skip(j as int + 1));
            }
            j += 1;
        }
        proof {
            assert(rv.skip(n as int) =~= Seq::<(Seq<u8>, Seq<u8>)>::empty());
        }
        None
    }
}

/// Exact serialized length of an unsigned integer.
pub fn msgpack_uint_len(i: u64) -> (r: usize)
    ensures
        r == spec_uint_len(i),
{
    if i < 0x80 {
        1
    } else if i < 0x100 {
        2
    } else if i < 0x1_0000 {
        3
    } else if i < 0x1_0000_0000 {
        5
    } else {
        9
    }
}

/// Exact serialized length of a byte string, or `None` when the format
/// cannot represent it (length of `2^32` or more, or a result that would
/// not fit the machine word).
pub fn msgpack_bin_len(len: usize) -> (r: Option<usize>)
    ensures
        bin_len_ok(len as nat) ==> r == Some((spec_bin_len(len as nat)) as usize),
        !bin_len_ok(len as nat) ==> r is None,
{
    if len < 0x100 {
        Some(2 + len)
    } else if len < 0x1_0000 {
        Some(3 + len)
    } else if (len as u64) < 0x1_0000_0000 && len <= usize::MAX - 5 {
        Some(5 + len)
    } else {
        None
    }
}

/// Exact serialized length of a text string, or `None` when the format
/// cannot represent it.
pub fn msgpack_str_len(len: usize) -> (r: Option<usize>)
    ensures
        str_len_ok(len as nat) ==> r == Some((spec_str_len(len as nat)) as usize),
        !str_len_ok(len as nat) ==> r is None,
{
    if len < 32 {
        Some(1 + len)
    } else {
        msgpack_bin_len(len)
    }
}

} // verus!

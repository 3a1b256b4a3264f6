//! The reproduction controller's decision logic.
//!
//! The controller drives one run: it decides when a batch must be closed
//! so that it stays under the sink's ceiling, stamps each unit with an
//! event id carrying a rolling 24-bit sequence, and resumes from a
//! persisted offset.  The surrounding loop — reading units, sending
//! batches, sleeping, watching for the shutdown signal — lives with the
//! caller, which feeds units into `step` and carries out its decisions.

use crate::config::Config;
use crate::config::InputType;
use crate::config::OutputType;
use crate::converter::ConvertError;
use crate::converter::Converter;
use crate::converter::convert_expect;
use crate::fluentd::MessageV;
use crate::fluentd::SizedForwardMode;
use crate::fluentd::can_set_tag;
use crate::fluentd::empty_message;
use crate::fluentd::lemma_message_len;
use crate::fluentd::spec_message_bytes;
use crate::fluentd::with_tag;
use crate::matcher::spec_find;
use crate::producer::DEFAULT_MAX_BYTES;
use crate::producer::Producer;
use vstd::prelude::*;
use vstd::string::StrSliceExecFns;
use vstd::string::StringExecFns;
use vstd::string::StringSliceAdditionalSpecFns;
use vstd::utf8::is_ascii_chars;
use vstd::utf8::is_ascii_chars_encode_utf8;

verus! {

/// Margin under the sink's ceiling absorbing per-entry overhead.
pub const KAFKA_BUFFER_SAFETY_GAP: usize = 1024;

/// The batch tag of every run.
pub open spec fn reproduce_tag() -> Seq<u8> {
    "REproduce".spec_bytes()
}

/// The tag is the nine ASCII bytes of "REproduce".
pub proof fn lemma_reproduce_tag_len()
    ensures
        reproduce_tag().len() == 9,
{
    reveal_strlit("REproduce");
    assert(is_ascii_chars("REproduce"@));
    is_ascii_chars_encode_utf8("REproduce"@);
}

/// The model of a freshly tagged empty batch.
pub open spec fn tagged_empty() -> MessageV {
    with_tag(empty_message(), reproduce_tag())
}

/// A batch the controller may be building: below the flush ceiling plus
/// one entry's worst-case overhead, unless it holds a single oversized
/// entry.
pub open spec fn batch_admissible(m: MessageV) -> bool {
    ||| spec_message_bytes(m).len() < DEFAULT_MAX_BYTES - KAFKA_BUFFER_SAFETY_GAP + 26
    ||| m.entries.len() <= 1
}

/// Packing ceiling: an admissible batch of more than one entry is
/// strictly below the sink's hard ceiling, gap included but for the one
/// entry's overhead.
pub proof fn lemma_packing_ceiling(m: MessageV)
    requires
        batch_admissible(m),
        m.entries.len() > 1,
    ensures
        spec_message_bytes(m).len() < DEFAULT_MAX_BYTES,
{
}

/// The kind of sink a run writes to: a broker when no output is named,
/// the discard sink when it is "none", else a file.
pub fn output_type(output: &str) -> (r: OutputType)
    ensures
        r == (if output.spec_bytes().len() == 0 {
            OutputType::Kafka
        } else if output.spec_bytes() == "none".spec_bytes() {
            OutputType::Discard
        } else {
            OutputType::File
        }),
{
    let b = output.as_bytes_vec();
    if b.len() == 0 {
        OutputType::Kafka
    } else if bytes_eq_slice(b.as_slice(), "none".as_bytes_vec().as_slice()) {
        OutputType::Discard
    } else {
        OutputType::File
    }
}

/// The kind of input a path names, given what probing found: a
/// directory; an existing file that the capture library accepts, or a
/// log file; anything else is opened as a live device.
pub fn input_type_from_probe(is_dir: bool, is_file: bool, pcap_ok: bool) -> (r: InputType)
    ensures
        r == (if is_dir {
            InputType::Dir
        } else if !is_file {
            InputType::Nic
        } else if pcap_ok {
            InputType::Pcap
        } else {
            InputType::Log
        }),
{
    if is_dir {
        InputType::Dir
    } else if !is_file {
        InputType::Nic
    } else if pcap_ok {
        InputType::Pcap
    } else {
        InputType::Log
    }
}

/// Two byte slices hold the same bytes.
fn bytes_eq_slice(a: &[u8], b: &[u8]) -> (r: bool)
    ensures
        r == (a@ == b@),
{
    if a.len() != b.len() {
        proof {
            assert(a@ != b@);
        }
        return false;
    }
    let n = a.len();
    let mut i: usize = 0;
    while i < n
        invariant
            n == a@.len() == b@.len(),
            0 <= i <= n,
            forall|j: int| 0 <= j < i ==> a@[j] == b@[j],
        decreases n - i,
    {
        if a[i] != b[i] {
            proof {
                assert(a@[i as int] != b@[i as int]);
            }
            return false;
        }
        i += 1;
    }
    proof {
        assert(a@ =~= b@);
    }
    true
}

/// Whether the file name begins with the configured prefix.
pub fn name_has_prefix(name: &[u8], prefix: &[u8]) -> (r: bool)
    ensures
        r == (prefix@.len() <= name@.len() && name@.take(prefix@.len() as int) == prefix@),
{
    if prefix.len() > name.len() {
        return false;
    }
    let head = &name[0..prefix.len()];
    proof {
        assert(head@ =~= name@.take(prefix@.len() as int));
    }
    bytes_eq_slice(head, prefix)
}

/// Whether the list already holds the given path.
pub fn list_contains_bytes(list: &Vec<Vec<u8>>, item: &[u8]) -> (r: bool)
    ensures
        r == (exists|i: int| 0 <= i < list@.len() && (#[trigger] list@[i])@ == item@),
{
    let n = list.len();
    let mut i: usize = 0;
    while i < n
        invariant
            n == list@.len(),
            0 <= i <= n,
            forall|j: int| 0 <= j < i ==> (#[trigger] list@[j])@ != item@,
        decreases n - i,
    {
        if bytes_eq_slice(list[i].as_slice(), item) {
            return true;
        }
        i += 1;
    }
    false
}

/// An ASCII digit.
pub open spec fn is_digit(b: u8) -> bool {
    48 <= b <= 57
}

/// The value of a digit string, most significant first.
pub open spec fn spec_digits_val(s: Seq<u8>) -> int
    decreases s.len(),
{
    if s.len() == 0 {
        0
    } else {
        spec_digits_val(s.drop_last()) * 10 + (s.last() - 48)
    }
}

/// A well-formed decimal: an optional leading plus sign, then at least
/// one digit and nothing else.
pub open spec fn spec_offset_digits(s: Seq<u8>) -> Seq<u8> {
    if s.len() > 0 && s[0] == 43 {
        s.drop_first()
    } else {
        s
    }
}

/// The stored offset a side-file's bytes denote, when they parse as an
/// unsigned decimal that fits 64 bits.
pub open spec fn spec_parse_offset(s: Seq<u8>) -> Option<u64> {
    let d = spec_offset_digits(s);
    if d.len() > 0 && (forall|i: int| 0 <= i < d.len() ==> is_digit(#[trigger] d[i]))
        && spec_digits_val(d) <= u64::MAX {
        Some(spec_digits_val(d) as u64)
    } else {
        None
    }
}

/// A longer digit string never denotes a smaller value.
proof fn lemma_digits_val_bounds(s: Seq<u8>, i: int)
    requires
        0 <= i <= s.len(),
        forall|j: int| 0 <= j < s.len() ==> is_digit(#[trigger] s[j]),
    ensures
        spec_digits_val(s) >= spec_digits_val(s.take(i)),
        spec_digits_val(s.take(i)) >= 0,
    decreases s.len() - i,
{
    if i == s.len() {
        assert(s.take(i) =~= s);
        lemma_digits_val_nonneg(s);
    } else {
        lemma_digits_val_bounds(s, i + 1);
        assert(s.take(i + 1).drop_last() =~= s.take(i));
        assert(s.take(i + 1).last() == s[i]);
        lemma_digits_val_nonneg(s.take(i));
    }
}

/// Digit strings denote non-negative values.
proof fn lemma_digits_val_nonneg(s: Seq<u8>)
    requires
        forall|j: int| 0 <= j < s.len() ==> is_digit(#[trigger] s[j]),
    ensures
        spec_digits_val(s) >= 0,
    decreases s.len(),
{
    if s.len() > 0 {
        assert(forall|j: int|
            0 <= j < s.drop_last().len() ==> is_digit(#[trigger] s.drop_last()[j]));
        lemma_digits_val_nonneg(s.drop_last());
    }
}

/// Parses the decimal text of an offset side-file: an optional plus
/// sign, then digits.  Returns nothing on any other content or on a
/// value that does not fit.
pub fn parse_offset(data: &[u8]) -> (r: Option<u64>)
    ensures
        r == spec_parse_offset(data@),
{
    let start: usize = if data.len() > 0 && data[0] == 43 {
        1
    } else {
        0
    };
    let ghost d = spec_offset_digits(data@);
    proof {
        assert(d =~= data@.skip(start as int));
    }
    let n = data.len();
    if start >= n {
        proof {
            assert(d.len() == 0);
        }
        return None;
    }
    let mut val: u64 = 0;
    let mut i = start;
    proof {
        assert(d.take(0) =~= Seq::<u8>::empty());
    }
    while i < n
        invariant
            start <= i <= n,
            n == data@.len(),
            d == spec_offset_digits(data@),
            d =~= data@.skip(start as int),
            forall|j: int| 0 <= j < i - start ==> is_digit(#[trigger] d[j]),
            val == spec_digits_val(d.take(i - start)),
        decreases n - i,
    {
        let b = data[i];
        if b < 48 || b > 57 {
            proof {
                assert(!is_digit(d[i - start]));
            }
            return None;
        }
        let digit = (b - 48) as u64;
        if val > (u64::MAX - digit) / 10 {
            proof {
                assert(d.take(i - start + 1).drop_last() =~= d.take(i - start));
                assert(d.take(i - start + 1).last() == d[i - start]);
                assert(spec_digits_val(d.take(i - start + 1)) > u64::MAX);
                assert(forall|j: int| 0 <= j < d.len() ==> is_digit(#[trigger] d[j]) ==> true);
                if forall|j: int| 0 <= j < d.len() ==> is_digit(#[trigger] d[j]) {
                    lemma_digits_val_bounds(d, i - start + 1);
                }
            }
            return None;
        }
        val = val * 10 + digit;
        proof {
            assert(d.take(i - start + 1).drop_last() =~= d.take(i - start));
            assert(d.take(i - start + 1).last() == d[i - start]);
        }
        i += 1;
    }
    proof {
        assert(d.take(n - start) =~= d);
    }
    Some(val)
}

/// The decimal digits of a value, most significant first.
pub open spec fn spec_decimal(n: int) -> Seq<u8>
    decreases n,
{
    if n < 10 {
        seq![(48 + if n >= 0 {
            n
        } else {
            0
        }) as u8]
    } else {
        spec_decimal(n / 10).push((48 + n % 10) as u8)
    }
}

/// Writes a value as decimal text, for the offset side-file.
pub fn format_decimal(n: u64) -> (r: Vec<u8>)
    ensures
        r@ == spec_decimal(n as int),
    decreases n,
{
    if n < 10 {
        let v = vec![(48 + n) as u8];
        proof {
            assert(v@ =~= spec_decimal(n as int));
        }
        v
    } else {
        let mut v = format_decimal(n / 10);
        v.push((48 + n % 10) as u8);
        v
    }
}

/// The initial skip of a run: an explicit skip count wins; otherwise the
/// stored offset, except for live captures or when no side-file prefix
/// is configured.
pub fn initial_offset(count_skip: usize, has_prefix: bool, is_nic: bool, stored: usize) -> (r:
    usize)
    ensures
        r == (if count_skip > 0 {
            count_skip
        } else if !has_prefix || is_nic {
            0usize
        } else {
            stored
        }),
{
    if count_skip > 0 {
        count_skip
    } else if !has_prefix || is_nic {
        0
    } else {
        stored
    }
}

/// The first sequence number of a run: a configured one wins; otherwise
/// the run continues after the stored offset, or starts at one.
pub fn first_seq_no(initial_seq_no: usize, offset: usize) -> (r: usize)
    requires
        offset < usize::MAX,
    ensures
        r == (if initial_seq_no > 0 {
            initial_seq_no
        } else if offset > 0 {
            (offset + 1) as usize
        } else {
            1usize
        }),
{
    if initial_seq_no > 0 {
        initial_seq_no
    } else if offset > 0 {
        offset + 1
    } else {
        1
    }
}

/// Whether an exhausted source is retried after a pause: only in grow
/// mode, and not when the run polls a directory instead.
pub fn retry_at_eof(mode_grow: bool, mode_polling_dir: bool) -> (r: bool)
    ensures
        r == (mode_grow && !mode_polling_dir),
{
    mode_grow && !mode_polling_dir
}

/// Relies on std::time::SystemTime::now, via duration_since: the seconds
/// since the Unix epoch, or zero on a clock before it.
#[verifier::external_body]
fn unix_seconds_now() -> u64 {
    match std::time::SystemTime::now().duration_since(std::time::UNIX_EPOCH) {
        Ok(d) => d.as_secs(),
        Err(_) => 0,
    }
}

/// The event id composed of a time, a sequence number and a data source:
/// the seconds in the upper half, advanced by one when the 24-bit
/// sequence has just wrapped to keep ids monotone; the masked sequence;
/// and the data source id in the low byte.
pub open spec fn spec_event_id(base_time: u64, seq_no: u64, datasource_id: u8) -> u64 {
    let t = if seq_no & 0x00ff_ffff == 0 {
        if base_time == u64::MAX {
            0u64
        } else {
            (base_time + 1) as u64
        }
    } else {
        base_time
    };
    (t << 32u64) | ((seq_no & 0x00ff_ffff) << 8u64) | (datasource_id as u64)
}

/// Composes an event id.  The low byte is the data source id and the
/// next 24 bits are the masked sequence number.
pub fn event_id_from(base_time: u64, seq_no: u64, datasource_id: u8) -> (r: u64)
    ensures
        r == spec_event_id(base_time, seq_no, datasource_id),
        r & 0xFF == datasource_id,
        (r >> 8u64) & 0x00ff_ffff == seq_no & 0x00ff_ffff,
{
    let t: u64 = if seq_no & 0x00ff_ffff == 0 {
        if base_time == u64::MAX {
            0
        } else {
            base_time + 1
        }
    } else {
        base_time
    };
    let r: u64 = (t << 32u64) | ((seq_no & 0x00ff_ffff) << 8u64) | (datasource_id as u64);
    proof {
        let s = seq_no;
        let d = datasource_id;
        assert(((t << 32u64) | ((s & 0x00ff_ffff) << 8u64) | (d as u64)) & 0xFF == d as u64)
            by (bit_vector);
        assert((((t << 32u64) | ((s & 0x00ff_ffff) << 8u64) | (d as u64)) >> 8u64) & 0x00ff_ffff
            == s & 0x00ff_ffff) by (bit_vector);
    }
    r
}

/// The state of one run: its configuration and the sequence counter.
pub struct Controller {
    pub config: Config,
    pub seq_no: usize,
}

impl Controller {
    /// A controller at the start of a run.
    pub fn new(config: Config) -> (r: Self)
        ensures
            r.seq_no == 1,
            r.config == config,
    {
        Self { config, seq_no: 1 }
    }

    /// The current masked sequence number, advanced by `num`.
    pub fn get_seq_no(&self, num: usize) -> (r: usize)
        requires
            self.seq_no + num <= usize::MAX,
        ensures
            r == (self.seq_no + num) as usize & 0x00ff_ffff,
    {
        (self.seq_no + num) & 0x00ff_ffff
    }

    /// The event id of the current unit, stamped with the clock.
    pub fn event_id(&self) -> (r: u64)
        ensures
            r & 0xFF == self.config.datasource_id,
            (r >> 8u64) & 0x00ff_ffff == (self.seq_no as u64) & 0x00ff_ffff,
    {
        let base = unix_seconds_now();
        event_id_from(base, self.seq_no as u64, self.config.datasource_id)
    }

    /// One unit of the main loop: when the batch, together with the
    /// unit, would reach the sink's ceiling minus the safety gap, the
    /// batch is serialized into `out` to be produced, and a fresh tagged
    /// batch is started; then the sequence advances and the unit is
    /// converted into the batch.  Returns whether `out` was filled, the
    /// unit's event id, and the conversion's outcome.
    pub fn step(
        &mut self,
        conv: &mut Converter,
        msg: &mut SizedForwardMode,
        unit: &[u8],
        out: &mut Vec<u8>,
    ) -> (r: (bool, u64, Result<bool, ConvertError>))
        requires
            old(self).seq_no < usize::MAX,
            old(msg).wf(),
            batch_admissible(old(msg)@),
        ensures
            final (msg).wf(),
            batch_admissible(final (msg)@),
            final (self).config == old(self).config,
            final (self).seq_no == old(self).seq_no + 1,
            final (conv).spec_matcher() == old(conv).spec_matcher(),
            final (conv).spec_packet_link() == old(conv).spec_packet_link(),
            r.0 == (spec_message_bytes(old(msg)@).len() + unit@.len() >= DEFAULT_MAX_BYTES
                - KAFKA_BUFFER_SAFETY_GAP),
            r.0 ==> final (out)@ == spec_message_bytes(old(msg)@),
            !r.0 ==> final (out)@ == old(out)@,
            r.1 & 0xFF == old(self).config.datasource_id,
            (r.1 >> 8u64) & 0x00ff_ffff == ((old(self).seq_no + 1) as u64) & 0x00ff_ffff,
            ({
                let m1 = if r.0 {
                    tagged_empty()
                } else {
                    old(msg)@
                };
                let (er, em) = convert_expect(
                    old(conv).spec_matcher(),
                    old(conv).spec_packet_link(),
                    r.1,
                    unit@,
                    m1,
                );
                r.2 == er && final (msg)@ == em
            }),
    {
        let limit = Producer::max_bytes() - KAFKA_BUFFER_SAFETY_GAP;
        let msg_len = msg.serialized_len();
        let flushed = msg_len >= limit || unit.len() >= limit - msg_len;
        if flushed {
            msg.serialize_into(out);
            msg.clear();
            proof {
                lemma_reproduce_tag_len();
                lemma_message_len(with_tag(empty_message(), reproduce_tag()));
                crate::fluentd::lemma_empty_message_len();
                lemma_message_len(empty_message());
                assert(can_set_tag(empty_message(), reproduce_tag()));
            }
            let _ = msg.set_tag(String::from_str("REproduce"));
            proof {
                assert(msg@ == tagged_empty());
            }
        }
        self.seq_no = self.seq_no + 1;
        let eid = self.event_id();
        let cres = conv.convert(eid, unit, msg);
        proof {
            crate::converter::lemma_convert_len(
                old(conv).spec_matcher(),
                old(conv).spec_packet_link(),
                eid,
                unit@,
                if flushed {
                    tagged_empty()
                } else {
                    old(msg)@
                },
            );
            if flushed {
                lemma_reproduce_tag_len();
                lemma_message_len(tagged_empty());
                lemma_message_len(empty_message());
                crate::fluentd::lemma_empty_message_len();
            }
        }
        (flushed, eid, cres)
    }
}

/// The state of the log-line splitter: the buffered bytes and the read
/// position.
pub struct BinaryLines {
    data: Vec<u8>,
    pos: usize,
}

/// The end of the line starting at `pos`: the position of the next
/// newline, or the end of the data.
pub open spec fn spec_line_end(data: Seq<u8>, pos: int) -> int {
    pos + spec_find(data.skip(pos), 10)
}

/// The line starting at `pos`, with a trailing newline dropped, and a
/// carriage return before it dropped too.
pub open spec fn spec_line_at(data: Seq<u8>, pos: int) -> Seq<u8> {
    let e = spec_line_end(data, pos);
    let raw = if e < data.len() {
        data.subrange(pos, e + 1)
    } else {
        data.subrange(pos, e)
    };
    let no_nl = if raw.len() > 0 && raw.last() == 10 {
        raw.drop_last()
    } else {
        raw
    };
    if no_nl.len() > 0 && no_nl.last() == 13 && raw.len() > no_nl.len() {
        no_nl.drop_last()
    } else {
        no_nl
    }
}

impl BinaryLines {
    /// The buffered bytes, for contracts.
    pub closed spec fn spec_data(&self) -> Seq<u8> {
        self.data@
    }

    /// The read position, for contracts.
    pub closed spec fn spec_pos(&self) -> int {
        self.pos as int
    }

    /// The splitter's position is within its data.
    pub closed spec fn wf(&self) -> bool {
        self.pos <= self.data@.len()
    }

    /// A splitter over buffered bytes, at the start.
    pub fn new(data: Vec<u8>) -> (r: Self)
        ensures
            r.wf(),
            r.spec_data() == data@,
            r.spec_pos() == 0,
    {
        Self { data, pos: 0 }
    }

    /// The next line: the bytes up to the next newline, which is
    /// dropped, with a carriage return before it dropped too; or nothing
    /// at the end of the data.
    pub fn next(&mut self) -> (r: Option<Vec<u8>>)
        requires
            old(self).wf(),
        ensures
            final (self).wf(),
            final (self).spec_data() == old(self).spec_data(),
            old(self).spec_pos() >= old(self).spec_data().len() ==> r is None,
            old(self).spec_pos() >= old(self).spec_data().len() ==> final (self).spec_pos() == old(
                self,
            ).spec_pos(),
            old(self).spec_pos() < old(self).spec_data().len() ==> {
                let e = spec_line_end(old(self).spec_data(), old(self).spec_pos());
                &&& match r {
                    Some(v) => v@ == spec_line_at(old(self).spec_data(), old(self).spec_pos()),
                    None => false,
                }
                &&& final (self).spec_pos() == (if e < old(self).spec_data().len() {
                    e + 1
                } else {
                    e
                })
            },
    {
        let n = self.data.len();
        if self.pos >= n {
            return None;
        }
        let e = crate::matcher::find_byte(self.data.as_slice(), 10, self.pos);
        let stop = if e < n {
            e + 1
        } else {
            e
        };
        let mut line = vstd::slice::slice_to_vec(&self.data.as_slice()[self.pos..stop]);
        proof {
            assert(line@ =~= self.data@.subrange(self.spec_pos(), stop as int));
        }
        let ghost raw = line@;
        if line.len() > 0 && line[line.len() - 1] == 10 {
            line.pop();
            proof {
                assert(line@ =~= raw.drop_last());
            }
            if line.len() > 0 && line[line.len() - 1] == 13 {
                line.pop();
                proof {
                    assert(line@ =~= raw.drop_last().drop_last());
                }
            }
        }
        self.pos = stop;
        Some(line)
    }
}

} // verus!

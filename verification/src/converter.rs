//! Conversion of input units into batch entries.
//!
//! A log line is appended as a `"message"` entry unless a pattern matches
//! it.  An Ethernet frame is decoded down to its transport payload
//! (IPv4 only, with an optional 802.1Q tag; ICMP, TCP and UDP), and the
//! payload is appended the same way.

use crate::fluentd::SizedForwardMode;
use crate::fluentd::can_push_raw;
use crate::fluentd::raw_entry;
use crate::fluentd::with_entry;
use crate::matcher::Matcher;
use crate::matcher::regex_any_match;
use crate::session::label_message;
use vstd::prelude::*;

verus! {

/// Why a unit could not be converted.
#[derive(Debug, Clone, Copy, PartialEq, Eq, Structural)]
pub enum ConvertError {
    /// The builder cannot represent the entry.
    TooLong,
    /// The capture is not Ethernet.
    InvalidLinkType,
    /// The frame is too short for an Ethernet header.
    InvalidEthernetFrame,
    /// The packet is too short for an IPv4 header.
    InvalidIpv4Packet,
    /// The segment is too short or announces a bad data offset.
    InvalidTcpPacket,
    /// The datagram is too short for a UDP header.
    InvalidUdpPacket,
    /// The message is too short for an ICMP header.
    InvalidIcmpPacket,
}

/// The addresses, ports and protocol of a decoded packet.
#[derive(Debug, Clone, Copy, PartialEq, Eq, Structural)]
pub struct FlowKey {
    pub src_addr: u32,
    pub dst_addr: u32,
    pub src_port: u16,
    pub dst_port: u16,
    pub proto: u8,
}

/// What decoding a frame yields: a skip, or a transport payload starting
/// at the given offset, with its flow.
#[derive(Debug, Clone, Copy, PartialEq, Eq, Structural)]
pub enum Decoded {
    /// Not IPv4: the frame is skipped as filtered.
    Filtered,
    /// An unhandled transport protocol: the frame is passed over.
    Pass,
    /// The payload of the frame, from the offset to the end.
    Payload(FlowKey, usize),
}

/// The big-endian 16-bit value at the position.
pub open spec fn spec_be16_at(s: Seq<u8>, i: int) -> int {
    s[i] * 0x100 + s[i + 1]
}

/// The big-endian 32-bit value at the position.
pub open spec fn spec_be32_at(s: Seq<u8>, i: int) -> int {
    s[i] * 0x100_0000 + s[i + 1] * 0x1_0000 + s[i + 2] * 0x100 + s[i + 3]
}

/// The exact decoding of an Ethernet frame down to its transport payload:
/// a 14-byte Ethernet header with an optional 4-byte 802.1Q tag; only
/// IPv4 is accepted; the 20-byte IPv4 header names the protocol; ICMP and
/// UDP payloads start 8 bytes into the transport header, TCP payloads at
/// the announced data offset.
pub open spec fn spec_decode(s: Seq<u8>) -> Result<Decoded, ConvertError> {
    if s.len() < 14 {
        Err(ConvertError::InvalidEthernetFrame)
    } else {
        let ethertype = spec_be16_at(s, 12);
        if ethertype == 0x8100 && s.len() < 18 {
            Err(ConvertError::InvalidEthernetFrame)
        } else {
            let ip_off: int = if ethertype == 0x8100 {
                18
            } else {
                14
            };
            let inner = if ethertype == 0x8100 {
                spec_be16_at(s, 16)
            } else {
                ethertype
            };
            if inner != 0x0800 {
                Ok(Decoded::Filtered)
            } else if s.len() < ip_off + 20 {
                Err(ConvertError::InvalidIpv4Packet)
            } else {
                let proto = s[ip_off + 9];
                let l4 = ip_off + 20;
                let key = FlowKey {
                    src_addr: spec_be32_at(s, ip_off + 12) as u32,
                    dst_addr: spec_be32_at(s, ip_off + 16) as u32,
                    src_port: 0,
                    dst_port: 0,
                    proto: proto,
                };
                if proto == 1 {
                    if s.len() < l4 + 8 {
                        Err(ConvertError::InvalidIcmpPacket)
                    } else {
                        Ok(Decoded::Payload(key, (l4 + 8) as usize))
                    }
                } else if proto == 6 {
                    if s.len() < l4 + 20 {
                        Err(ConvertError::InvalidTcpPacket)
                    } else {
                        let data_off = s[l4 + 12] / 16;
                        if data_off < 5 || s.len() < l4 + data_off * 4 {
                            Err(ConvertError::InvalidTcpPacket)
                        } else {
                            Ok(
                                Decoded::Payload(
                                    FlowKey {
                                        src_port: spec_be16_at(s, l4) as u16,
                                        dst_port: spec_be16_at(s, l4 + 2) as u16,
                                        ..key
                                    },
                                    (l4 + data_off * 4) as usize,
                                ),
                            )
                        }
                    }
                } else if proto == 17 {
                    if s.len() < l4 + 8 {
                        Err(ConvertError::InvalidUdpPacket)
                    } else {
                        Ok(
                            Decoded::Payload(
                                FlowKey {
                                    src_port: spec_be16_at(s, l4) as u16,
                                    dst_port: spec_be16_at(s, l4 + 2) as u16,
                                    ..key
                                },
                                (l4 + 8) as usize,
                            ),
                        )
                    }
                } else {
                    Ok(Decoded::Pass)
                }
            }
        }
    }
}

/// The big-endian 16-bit value at the position.
fn be16_at(s: &[u8], i: usize) -> (r: u16)
    requires
        i + 2 <= s@.len(),
    ensures
        r == spec_be16_at(s@, i as int),
{
    (s[i] as u16) * 0x100 + (s[i + 1] as u16)
}

/// The big-endian 32-bit value at the position.
fn be32_at(s: &[u8], i: usize) -> (r: u32)
    requires
        i + 4 <= s@.len(),
    ensures
        r == spec_be32_at(s@, i as int),
{
    (s[i] as u32) * 0x100_0000 + (s[i + 1] as u32) * 0x1_0000 + (s[i + 2] as u32) * 0x100 + (s[i
        + 3] as u32)
}

/// Decodes an Ethernet frame down to its transport payload.
pub fn decode_frame(data: &[u8]) -> (r: Result<Decoded, ConvertError>)
    ensures
        r == spec_decode(data@),
        match r {
            Ok(Decoded::Payload(_k, off)) => off <= data@.len(),
            _ => true,
        },
{
    let n = data.len();
    if n < 14 {
        return Err(ConvertError::InvalidEthernetFrame);
    }
    let ethertype = be16_at(data, 12);
    if ethertype == 0x8100 && n < 18 {
        return Err(ConvertError::InvalidEthernetFrame);
    }
    let ip_off: usize = if ethertype == 0x8100 {
        18
    } else {
        14
    };
    let inner: u16 = if ethertype == 0x8100 {
        be16_at(data, 16)
    } else {
        ethertype
    };
    if inner != 0x0800 {
        return Ok(Decoded::Filtered);
    }
    if n < ip_off + 20 {
        return Err(ConvertError::InvalidIpv4Packet);
    }
    let proto = data[ip_off + 9];
    let l4 = ip_off + 20;
    let key = FlowKey {
        src_addr: be32_at(data, ip_off + 12),
        dst_addr: be32_at(data, ip_off + 16),
        src_port: 0,
        dst_port: 0,
        proto: proto,
    };
    if proto == 1 {
        if n < l4 + 8 {
            Err(ConvertError::InvalidIcmpPacket)
        } else {
            Ok(Decoded::Payload(key, l4 + 8))
        }
    } else if proto == 6 {
        if n < l4 + 20 {
            return Err(ConvertError::InvalidTcpPacket);
        }
        let data_off = data[l4 + 12] / 16;
        if data_off < 5 || n < l4 + (data_off as usize) * 4 {
            Err(ConvertError::InvalidTcpPacket)
        } else {
            Ok(
                Decoded::Payload(
                    FlowKey {
                        src_port: be16_at(data, l4),
                        dst_port: be16_at(data, l4 + 2),
                        ..key
                    },
                    l4 + (data_off as usize) * 4,
                ),
            )
        }
    } else if proto == 17 {
        if n < l4 + 8 {
            Err(ConvertError::InvalidUdpPacket)
        } else {
            Ok(
                Decoded::Payload(
                    FlowKey {
                        src_port: be16_at(data, l4),
                        dst_port: be16_at(data, l4 + 2),
                        ..key
                    },
                    l4 + 8,
                ),
            )
        }
    } else {
        Ok(Decoded::Pass)
    }
}

/// Converts input units into batch entries, with an optional pattern
/// filter.
pub struct Converter {
    matcher: Option<Matcher>,
    packet_link: Option<u32>,
}

/// The Ethernet link type of a capture.
pub const LINKTYPE_ETHERNET: u32 = 1;

impl Converter {
    /// The patterns of the filter, when one is set.
    pub closed spec fn spec_matcher(&self) -> Option<Seq<Seq<u8>>> {
        match self.matcher {
            Option::None => Option::None,
            Option::Some(m) => Option::Some(m.spec_patterns()),
        }
    }

    /// The link type, when the converter decodes packets.
    pub closed spec fn spec_packet_link(&self) -> Option<u32> {
        self.packet_link
    }

    /// A converter for log lines.
    pub fn new(matcher: Option<Matcher>) -> (r: Self)
        ensures
            r.spec_matcher() == match matcher {
                Option::None => Option::<Seq<Seq<u8>>>::None,
                Option::Some(m) => Option::Some(m.spec_patterns()),
            },
            r.spec_packet_link() is None,
    {
        Self { matcher, packet_link: None }
    }

    /// A converter for log lines.
    pub fn with_log(matcher: Option<Matcher>) -> (r: Self)
        ensures
            r.spec_matcher() == match matcher {
                Option::None => Option::<Seq<Seq<u8>>>::None,
                Option::Some(m) => Option::Some(m.spec_patterns()),
            },
            r.spec_packet_link() is None,
    {
        Self { matcher, packet_link: None }
    }

    /// A converter for captured frames of the given link type.
    pub fn with_packet(l2_type: u32, matcher: Option<Matcher>) -> (r: Self)
        ensures
            r.spec_matcher() == match matcher {
                Option::None => Option::<Seq<Seq<u8>>>::None,
                Option::Some(m) => Option::Some(m.spec_patterns()),
            },
            r.spec_packet_link() == Some(l2_type),
    {
        Self { matcher, packet_link: Some(l2_type) }
    }

    /// Whether a pattern filter is set.
    pub fn has_matcher(&self) -> (r: bool)
        ensures
            r == (self.spec_matcher() is Some),
    {
        self.matcher.is_some()
    }

    /// Appends the data as a `"message"` entry unless a pattern matches
    /// it.
    fn append_filtered(&mut self, event_id: u64, data: &[u8], msg: &mut SizedForwardMode) -> (r:
        Result<bool, ConvertError>)
        requires
            old(msg).wf(),
        ensures
            final(msg).wf(),
            final(self).spec_matcher() == old(self).spec_matcher(),
            final(self).spec_packet_link() == old(self).spec_packet_link(),
            ({
                let (er, em) = append_expect(old(self).spec_matcher(), event_id, data@, old(msg)@);
                r == er && final(msg)@ == em
            }),
    {
        if let Some(m) = &mut self.matcher {
            match m.scan(data) {
                Ok(true) => {
                    return Ok(false);
                },
                _ => {},
            }
        }
        match msg.push_raw(event_id, "message", data) {
            Ok(()) => Ok(true),
            Err(_) => Err(ConvertError::TooLong),
        }
    }

    /// Converts one input unit.  A log line, or for packet converters the
    /// decoded transport payload, is appended as a `"message"` entry;
    /// returns `Ok(true)` when it was appended, `Ok(false)` when the unit
    /// was filtered or skipped, and an error when the frame cannot be
    /// parsed or the entry cannot be represented.
    pub fn convert(&mut self, event_id: u64, input: &[u8], msg: &mut SizedForwardMode) -> (r:
        Result<bool, ConvertError>)
        requires
            old(msg).wf(),
        ensures
            final(msg).wf(),
            final(self).spec_matcher() == old(self).spec_matcher(),
            final(self).spec_packet_link() == old(self).spec_packet_link(),
            ({
                let (er, em) = convert_expect(
                    old(self).spec_matcher(),
                    old(self).spec_packet_link(),
                    event_id,
                    input@,
                    old(msg)@,
                );
                r == er && final(msg)@ == em
            }),
    {
        let link = self.packet_link;
        if let Some(l) = link {
            if l != LINKTYPE_ETHERNET {
                return Err(ConvertError::InvalidLinkType);
            }
            match decode_frame(input) {
                Err(e) => Err(e),
                Ok(Decoded::Filtered) => Ok(false),
                Ok(Decoded::Pass) => Ok(false),
                Ok(Decoded::Payload(_key, off)) => {
                    let payload = &input[off..input.len()];
                    proof {
                        assert(payload@ =~= input@.skip(off as int));
                    }
                    self.append_filtered(event_id, payload, msg)
                },
            }
        } else {
            self.append_filtered(event_id, input, msg)
        }
    }
}

/// A longer byte string never has a shorter serialization.
pub proof fn lemma_bin_len_mono(l1: nat, l2: nat)
    requires
        l1 <= l2,
    ensures
        crate::fluentd::spec_bin_len(l1) <= crate::fluentd::spec_bin_len(l2),
{
}

/// A conversion either leaves the batch alone or appends one entry whose
/// serialized size is the unit's payload plus a bounded overhead.
pub proof fn lemma_convert_len(
    pats: Option<Seq<Seq<u8>>>,
    link: Option<u32>,
    event_id: u64,
    input: Seq<u8>,
    m: crate::fluentd::MessageV,
)
    ensures
        ({
            let (er, em) = convert_expect(pats, link, event_id, input, m);
            em == m || (em.entries.len() == m.entries.len() + 1 && em.tag == m.tag
                && crate::fluentd::spec_message_bytes(em).len()
                <= crate::fluentd::spec_message_bytes(m).len() + 21
                + crate::fluentd::spec_bin_len(input.len()))
        }),
{
    let (er, em) = convert_expect(pats, link, event_id, input, m);
    crate::session::lemma_message_label_len();
    if em != m {
        let data: Seq<u8> = match link {
            Option::None => input,
            Option::Some(_l) => match spec_decode(input) {
                Ok(Decoded::Payload(_k, off)) => input.skip(off as int),
                _ => input,
            },
        };
        assert(em == with_entry(m, raw_entry(event_id, label_message(), data)));
        crate::fluentd::lemma_push_raw_len(m, event_id, label_message(), data);
        lemma_bin_len_mono(data.len(), input.len());
    }
}

/// What appending data under the pattern filter does to the batch: a
/// match skips; otherwise a `"message"` entry is appended when the
/// builder can represent it.
pub open spec fn append_expect(
    pats: Option<Seq<Seq<u8>>>,
    event_id: u64,
    data: Seq<u8>,
    m: crate::fluentd::MessageV,
) -> (Result<bool, ConvertError>, crate::fluentd::MessageV) {
    if pats is Some && regex_any_match(pats.unwrap(), data) {
        (Ok(false), m)
    } else if can_push_raw(m, event_id, label_message(), data) {
        (Ok(true), with_entry(m, raw_entry(event_id, label_message(), data)))
    } else {
        (Err(ConvertError::TooLong), m)
    }
}

/// What converting one unit does to the batch, for both converter kinds.
pub open spec fn convert_expect(
    pats: Option<Seq<Seq<u8>>>,
    link: Option<u32>,
    event_id: u64,
    input: Seq<u8>,
    m: crate::fluentd::MessageV,
) -> (Result<bool, ConvertError>, crate::fluentd::MessageV) {
    match link {
        Option::None => append_expect(pats, event_id, input, m),
        Option::Some(l) => {
            if l != LINKTYPE_ETHERNET {
                (Err(ConvertError::InvalidLinkType), m)
            } else {
                match spec_decode(input) {
                    Err(e) => (Err(e), m),
                    Ok(Decoded::Filtered) => (Ok(false), m),
                    Ok(Decoded::Pass) => (Ok(false), m),
                    Ok(Decoded::Payload(_k, off)) => append_expect(
                        pats,
                        event_id,
                        input.skip(off as int),
                        m,
                    ),
                }
            }
        },
    }
}

} // verus!

//! Tests of the size-tracked batch builder and its serializer.

use reproduce::fluentd::{SizedForwardMode, msgpack_bin_len, msgpack_str_len, msgpack_uint_len};
use serde::Serialize;
use serde_bytes::ByteBuf;
use std::collections::BTreeMap;

/// Serializes an equivalent batch with the reference msgpack serializer.
fn reference_bytes(
    tag: &str,
    entries: &[(u64, Vec<(&str, Vec<u8>)>)],
    option: Option<Vec<(&str, &str)>>,
) -> Vec<u8> {
    let entries: Vec<(u64, BTreeMap<String, ByteBuf>)> = entries
        .iter()
        .map(|(time, record)| {
            let record: BTreeMap<String, ByteBuf> = record
                .iter()
                .map(|(k, v)| (k.to_string(), ByteBuf::from(v.clone())))
                .collect();
            (*time, record)
        })
        .collect();
    let option: Option<BTreeMap<String, String>> = option.map(|pairs| {
        pairs
            .into_iter()
            .map(|(k, v)| (k.to_string(), v.to_string()))
            .collect()
    });
    let value = (tag.to_string(), entries, option);
    let mut buf = Vec::new();
    value
        .serialize(&mut rmp_serde::Serializer::new(&mut buf))
        .expect("serializable");
    buf
}

#[test]
fn len_empty() {
    let m = SizedForwardMode::default();
    let mut buf = Vec::new();
    m.serialize_into(&mut buf);
    assert_eq!(m.serialized_len(), buf.len());
    assert_eq!(buf.len(), 4);
    assert_eq!(buf, reference_bytes("", &[], None));
}

#[test]
fn len_tag() {
    let mut m = SizedForwardMode::default();
    m.set_tag("1234567890".to_string()).unwrap();
    let mut buf = Vec::new();
    m.serialize_into(&mut buf);
    assert_eq!(m.serialized_len(), buf.len());
    assert_eq!(buf, reference_bytes("1234567890", &[], None));
}

#[test]
fn len_raw() {
    let mut m = SizedForwardMode::default();
    m.push_raw(1, "raw", b"1234567890").unwrap();
    let mut buf = Vec::new();
    m.serialize_into(&mut buf);
    assert_eq!(m.serialized_len(), buf.len());
    assert_eq!(
        buf,
        reference_bytes("", &[(1, vec![("raw", b"1234567890".to_vec())])], None)
    );

    m.push_raw(2, "raw", b"1234567890").unwrap();
    let mut buf = Vec::new();
    m.serialize_into(&mut buf);
    assert_eq!(m.serialized_len(), buf.len());
    assert_eq!(
        buf,
        reference_bytes(
            "",
            &[
                (1, vec![("raw", b"1234567890".to_vec())]),
                (2, vec![("raw", b"1234567890".to_vec())]),
            ],
            None
        )
    );
}

#[test]
fn len_option() {
    let mut m = SizedForwardMode::default();
    m.push_option("test", "option").unwrap();
    let mut buf = Vec::new();
    m.serialize_into(&mut buf);
    assert_eq!(m.serialized_len(), buf.len());
    assert_eq!(buf, reference_bytes("", &[], Some(vec![("test", "option")])));
}

#[test]
fn len_option_replace() {
    let mut m = SizedForwardMode::default();
    m.push_option("test", "option").unwrap();
    let before = m.serialized_len();
    m.push_option("test", "tiny").unwrap();
    assert_eq!(m.serialized_len(), before - 2);
    m.push_option("zz", "pairs").unwrap();
    let mut buf = Vec::new();
    m.serialize_into(&mut buf);
    assert_eq!(m.serialized_len(), buf.len());
    assert_eq!(
        buf,
        reference_bytes("", &[], Some(vec![("test", "tiny"), ("zz", "pairs")]))
    );
}

#[test]
fn len_packet() {
    let mut m = SizedForwardMode::default();
    m.set_tag("t".to_string()).unwrap();
    m.push_packet(
        7,
        "message",
        b"abcdef",
        0x6162_6364,
        0x3132_3334,
        0x4142,
        0x3839,
        0x7a,
    )
    .unwrap();
    let mut buf = Vec::new();
    m.serialize_into(&mut buf);
    assert_eq!(m.serialized_len(), buf.len());
    assert_eq!(
        buf,
        reference_bytes(
            "t",
            &[(
                7,
                vec![
                    ("dport", b"89".to_vec()),
                    ("dst", b"1234".to_vec()),
                    ("message", b"abcdef".to_vec()),
                    ("proto", b"z".to_vec()),
                    ("sport", b"AB".to_vec()),
                    ("src", b"abcd".to_vec()),
                ]
            )],
            None
        )
    );
}

#[test]
fn len_many_entries() {
    // Crossing 15 entries grows the entries-array header by two bytes.
    let mut m = SizedForwardMode::default();
    for i in 0..20u64 {
        let before = m.serialized_len();
        m.push_raw(i, "k", b"v").unwrap();
        let grew = m.serialized_len() - before;
        if i == 15 {
            assert_eq!(grew, 1 + 2 + 2 + 3 + 2);
        } else {
            assert_eq!(grew, 1 + 2 + 2 + 3);
        }
    }
    let mut buf = Vec::new();
    m.serialize_into(&mut buf);
    assert_eq!(m.serialized_len(), buf.len());
}

#[test]
fn clear_resets() {
    let mut m = SizedForwardMode::default();
    m.set_tag("tag".to_string()).unwrap();
    m.push_raw(1, "k", b"data").unwrap();
    assert!(!m.is_empty());
    m.clear();
    assert!(m.is_empty());
    assert_eq!(m.serialized_len(), 4);
    assert_eq!(m.len(), 0);
}

#[test]
fn retag_same_size() {
    let mut m = SizedForwardMode::default();
    m.set_tag("abc".to_string()).unwrap();
    let before = m.serialized_len();
    m.set_tag("abc".to_string()).unwrap();
    assert_eq!(m.serialized_len(), before);
    m.set_tag("abcdef".to_string()).unwrap();
    assert_eq!(m.serialized_len(), before + 3);
}

#[test]
fn uint_len_boundaries() {
    assert_eq!(msgpack_uint_len(0x7f), 1);
    assert_eq!(msgpack_uint_len(0x80), 2);
    assert_eq!(msgpack_uint_len(0xff), 2);
    assert_eq!(msgpack_uint_len(0x100), 3);
    assert_eq!(msgpack_uint_len(0xffff), 3);
    assert_eq!(msgpack_uint_len(0x1_0000), 5);
    assert_eq!(msgpack_uint_len(0xffff_ffff), 5);
    assert_eq!(msgpack_uint_len(0x1_0000_0000), 9);
    assert_eq!(msgpack_bin_len(0xff), Some(2 + 0xff));
    assert_eq!(msgpack_bin_len(0x100), Some(3 + 0x100));
    assert_eq!(msgpack_bin_len(0x1_0000), Some(5 + 0x1_0000));
    assert_eq!(msgpack_str_len(31), Some(32));
    assert_eq!(msgpack_str_len(32), Some(2 + 32));
}

#[test]
fn wide_string_headers() {
    for tag_len in [31usize, 32, 255, 256, 65535, 65536] {
        let tag = "a".repeat(tag_len);
        let mut m = SizedForwardMode::default();
        m.set_tag(tag.clone()).unwrap();
        let mut buf = Vec::new();
        m.serialize_into(&mut buf);
        assert_eq!(m.serialized_len(), buf.len());
        assert_eq!(buf, reference_bytes(&tag, &[], None));
    }
}

#[test]
fn wide_binary_headers() {
    for value_len in [255usize, 256, 65535, 65536] {
        let value = vec![0x5au8; value_len];
        let key = "k".repeat(32);
        let mut m = SizedForwardMode::default();
        m.push_raw(1, &key, &value).unwrap();
        let mut buf = Vec::new();
        m.serialize_into(&mut buf);
        assert_eq!(m.serialized_len(), buf.len());
        assert_eq!(
            buf,
            reference_bytes("", &[(1, vec![(key.as_str(), value.clone())])], None)
        );
    }
}

#[test]
fn wide_time_headers() {
    let times = [0x7fu64, 0x80, 0xff, 0x100, 0xffff, 0x1_0000, 0xffff_ffff, 0x1_0000_0000];
    let mut m = SizedForwardMode::default();
    for t in times {
        m.push_raw(t, "t", b"x").unwrap();
    }
    let mut buf = Vec::new();
    m.serialize_into(&mut buf);
    assert_eq!(m.serialized_len(), buf.len());
    let entries: Vec<(u64, Vec<(&str, Vec<u8>)>)> =
        times.iter().map(|t| (*t, vec![("t", b"x".to_vec())])).collect();
    assert_eq!(buf, reference_bytes("", &entries, None));
}

#[test]
fn array16_transition() {
    let mut m = SizedForwardMode::default();
    let mut entries: Vec<(u64, Vec<(&str, Vec<u8>)>)> = Vec::new();
    for _ in 0..17 {
        m.push_raw(3, "e", b"q").unwrap();
        entries.push((3, vec![("e", b"q".to_vec())]));
    }
    let mut buf = Vec::new();
    m.serialize_into(&mut buf);
    assert_eq!(m.serialized_len(), buf.len());
    assert_eq!(buf, reference_bytes("", &entries, None));
}

#[test]
fn entry_lookup() {
    let mut m = SizedForwardMode::default();
    m.push_raw(1, "raw", b"abc").unwrap();
    assert_eq!(m.entry_time(0), 1);
    assert_eq!(m.entry_value(0, "raw").unwrap(), &b"abc".to_vec());
    assert!(m.entry_value(0, "other").is_none());
}

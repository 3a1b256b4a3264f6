//! Tests of the matcher, the converter, the controller's decisions, the
//! producer, and the configuration.

use reproduce::config::{Config, ConfigError, InputType, OutputType};
use reproduce::controller::{
    BinaryLines, Controller, format_decimal, initial_offset, input_type_from_probe, first_seq_no,
    name_has_prefix, output_type, parse_offset, retry_at_eof,
};
use reproduce::converter::{ConvertError, Converter};
use reproduce::fluentd::SizedForwardMode;
use reproduce::matcher::{Matcher, trim_to_rules};
use reproduce::producer::{KafkaInput, ProduceAction, Producer};
use reproduce::report::RunStats;

#[test]
fn scan() {
    let exps = "abc\nxyz\n";
    let mut matcher = Matcher::from_read(exps.as_bytes()).expect("valid exps");
    assert_eq!(matcher.scan(b"hello").expect("Ok"), false);
    assert_eq!(matcher.scan(b"00xyz00").expect("Ok"), true);
}

#[test]
fn scan_bad_pattern() {
    assert!(Matcher::from_read(b"ab(c\n").is_err());
}

#[test]
fn rules_shorthand() {
    let text = b"# comment\n  id:/ab+c/i\nplain\n/x/\n\n";
    let rules = trim_to_rules(text);
    assert_eq!(rules.len(), 3);
    assert_eq!(rules[0], b"ab+c".to_vec());
    assert_eq!(rules[1], b"plain".to_vec());
    assert_eq!(rules[2], b"x".to_vec());
}

#[test]
fn log_converter() {
    let msg_skip = b"this message contains abc.";
    let msg_send = b"this message doesn't contain it.";
    let mut msg = SizedForwardMode::default();

    let mut conv = Converter::new(None);
    assert_eq!(conv.convert(1, msg_skip, &mut msg).expect("Ok"), true);
    assert_eq!(conv.convert(1, msg_send, &mut msg).expect("Ok"), true);

    let exps = "abc\nxyz\n";
    let matcher = Matcher::from_read(exps.as_bytes()).expect("valid exps");
    let mut conv = Converter::new(Some(matcher));
    assert_eq!(conv.convert(1, msg_skip, &mut msg).expect("Ok"), false);
    assert_eq!(conv.convert(1, msg_send, &mut msg).expect("Ok"), true);
}

/// A minimal Ethernet+IPv4+TCP frame with the given payload.
fn tcp_frame(payload: &[u8], vlan: bool) -> Vec<u8> {
    let mut f = Vec::new();
    f.extend_from_slice(&[0u8; 12]); // MAC addresses
    if vlan {
        f.extend_from_slice(&[0x81, 0x00, 0x00, 0x07]); // 802.1Q tag
    }
    f.extend_from_slice(&[0x08, 0x00]); // IPv4
    let mut ip = [0u8; 20];
    ip[9] = 6; // TCP
    ip[12..16].copy_from_slice(&[10, 0, 0, 1]);
    ip[16..20].copy_from_slice(&[10, 0, 0, 2]);
    f.extend_from_slice(&ip);
    let mut tcp = [0u8; 20];
    tcp[0..2].copy_from_slice(&[0x1f, 0x90]); // source port 8080
    tcp[2..4].copy_from_slice(&[0x00, 0x50]); // destination port 80
    tcp[12] = 5 << 4; // data offset 5
    f.extend_from_slice(&tcp);
    f.extend_from_slice(payload);
    f
}

#[test]
fn packet_converter() {
    let matcher = Matcher::from_read("abc\nxyz\n".as_bytes()).expect("valid exps");
    let mut conv = Converter::with_packet(1, Some(matcher));
    let mut msg = SizedForwardMode::default();

    let hit = tcp_frame(b"abc", false);
    assert_eq!(conv.convert(1, &hit, &mut msg).expect("Ok"), false);
    assert_eq!(msg.len(), 0);

    let miss = tcp_frame(b"123", false);
    assert_eq!(conv.convert(2, &miss, &mut msg).expect("Ok"), true);
    assert_eq!(msg.len(), 1);
    assert_eq!(msg.entry_value(0, "message").unwrap(), &b"123".to_vec());
}

#[test]
fn packet_converter_vlan() {
    let mut conv = Converter::with_packet(1, None);
    let mut msg = SizedForwardMode::default();
    let frame = tcp_frame(b"hello vlan", true);
    assert_eq!(conv.convert(1, &frame, &mut msg).expect("Ok"), true);
    assert_eq!(msg.entry_value(0, "message").unwrap(), &b"hello vlan".to_vec());
}

#[test]
fn packet_converter_errors() {
    let mut conv = Converter::with_packet(1, None);
    let mut msg = SizedForwardMode::default();
    assert!(conv.convert(1, b"short", &mut msg).is_err());

    let mut bad_link = Converter::with_packet(12, None);
    assert!(bad_link.convert(1, &tcp_frame(b"x", false), &mut msg).is_err());

    // A non-IPv4 ethertype is filtered, not an error.
    let mut arp = tcp_frame(b"x", false);
    arp[12] = 0x08;
    arp[13] = 0x06;
    assert_eq!(conv.convert(1, &arp, &mut msg).expect("Ok"), false);

    // Truncations at each layer are errors.
    let truncated_ip = &tcp_frame(b"", false)[0..20];
    assert_eq!(conv.convert(1, truncated_ip, &mut msg), Err(ConvertError::InvalidIpv4Packet));
    let truncated_tcp = &tcp_frame(b"", false)[0..40];
    assert_eq!(conv.convert(1, truncated_tcp, &mut msg), Err(ConvertError::InvalidTcpPacket));
    let mut udp_frame = tcp_frame(b"", false)[0..38].to_vec();
    udp_frame[23] = 17;
    assert_eq!(conv.convert(1, &udp_frame, &mut msg), Err(ConvertError::InvalidUdpPacket));
    let mut icmp_frame = tcp_frame(b"", false)[0..38].to_vec();
    icmp_frame[23] = 1;
    assert_eq!(conv.convert(1, &icmp_frame, &mut msg), Err(ConvertError::InvalidIcmpPacket));
}

/// A minimal Ethernet+IPv4 frame with the given protocol and transport
/// bytes.
fn ip_frame(proto: u8, transport: &[u8]) -> Vec<u8> {
    let mut f = Vec::new();
    f.extend_from_slice(&[0u8; 12]);
    f.extend_from_slice(&[0x08, 0x00]);
    let mut ip = [0u8; 20];
    ip[9] = proto;
    f.extend_from_slice(&ip);
    f.extend_from_slice(transport);
    f
}

#[test]
fn packet_converter_udp_icmp() {
    let mut conv = Converter::with_packet(1, None);
    let mut msg = SizedForwardMode::default();

    let mut udp = vec![0u8; 8];
    udp.extend_from_slice(b"datagram");
    assert_eq!(conv.convert(1, &ip_frame(17, &udp), &mut msg).expect("Ok"), true);
    assert_eq!(msg.entry_value(0, "message").unwrap(), &b"datagram".to_vec());

    let mut icmp = vec![0u8; 8];
    icmp.extend_from_slice(b"ping");
    assert_eq!(conv.convert(2, &ip_frame(1, &icmp), &mut msg).expect("Ok"), true);
    assert_eq!(msg.entry_value(1, "message").unwrap(), &b"ping".to_vec());

    // An unhandled transport protocol is passed over.
    assert_eq!(conv.convert(3, &ip_frame(47, &[0u8; 16]), &mut msg).expect("Ok"), false);
    assert_eq!(msg.len(), 2);
}

#[test]
fn packet_converter_tcp_options() {
    let mut conv = Converter::with_packet(1, None);
    let mut msg = SizedForwardMode::default();
    let mut tcp = vec![0u8; 32];
    tcp[12] = 8 << 4; // data offset 8: a 32-byte header
    tcp.extend_from_slice(b"after options");
    assert_eq!(conv.convert(1, &ip_frame(6, &tcp), &mut msg).expect("Ok"), true);
    assert_eq!(msg.entry_value(0, "message").unwrap(), &b"after options".to_vec());

    // A data offset below five is rejected.
    let mut bad = vec![0u8; 20];
    bad[12] = 4 << 4;
    assert!(conv.convert(2, &ip_frame(6, &bad), &mut msg).is_err());
}

#[test]
fn null() {
    let mut producer = Producer::new_null();
    assert!(matches!(
        producer.produce(b"A message", true, false),
        ProduceAction::Nothing
    ));
}

#[test]
fn kafka_queue_flushes() {
    let mut producer = Producer::new_kafka(KafkaInput::Log, 10, false);
    assert!(matches!(
        producer.produce(b"abcd", false, false),
        ProduceAction::Nothing
    ));
    match producer.produce(b"abcdef", false, false) {
        ProduceAction::SendRecord(v) => assert_eq!(v, b"abcdef".to_vec()),
        other => panic!("expected a send, got {:?}", other),
    }
    match producer.produce(b"x", true, false) {
        ProduceAction::SendRecord(v) => assert_eq!(v, b"x".to_vec()),
        other => panic!("expected a send, got {:?}", other),
    }
}

#[test]
fn kafka_queue_periodic() {
    // The periodic flush applies only to a growing live capture.
    let mut nic = Producer::new_kafka(KafkaInput::Nic, 1000, true);
    assert!(matches!(
        nic.produce(b"a", false, true),
        ProduceAction::SendRecord(_)
    ));
    let mut log = Producer::new_kafka(KafkaInput::Log, 1000, true);
    assert!(matches!(log.produce(b"a", false, true), ProduceAction::Nothing));
}

#[test]
fn output_types() {
    assert_eq!(output_type(""), OutputType::Kafka);
    assert_eq!(output_type("none"), OutputType::Discard);
    assert_eq!(output_type("out.log"), OutputType::File);
}

#[test]
fn input_types() {
    assert_eq!(input_type_from_probe(true, false, false), InputType::Dir);
    assert_eq!(input_type_from_probe(false, false, false), InputType::Nic);
    assert_eq!(input_type_from_probe(false, true, true), InputType::Pcap);
    assert_eq!(input_type_from_probe(false, true, false), InputType::Log);
}

#[test]
fn offset_codec() {
    assert_eq!(parse_offset(b"12345"), Some(12345));
    assert_eq!(parse_offset(b"+7"), Some(7));
    assert_eq!(parse_offset(b"0"), Some(0));
    assert_eq!(parse_offset(b""), None);
    assert_eq!(parse_offset(b"+"), None);
    assert_eq!(parse_offset(b"12a"), None);
    assert_eq!(parse_offset(b"12\n"), None);
    assert_eq!(parse_offset(b"18446744073709551615"), Some(u64::MAX));
    assert_eq!(parse_offset(b"18446744073709551616"), None);
    assert_eq!(format_decimal(0), b"0".to_vec());
    assert_eq!(format_decimal(98760), b"98760".to_vec());
    for n in [1u64, 9, 10, 1234567890123] {
        assert_eq!(parse_offset(&format_decimal(n)), Some(n));
    }
}

#[test]
fn skip_policy() {
    assert_eq!(initial_offset(5, true, false, 100), 5);
    assert_eq!(initial_offset(0, false, false, 100), 0);
    assert_eq!(initial_offset(0, true, true, 100), 0);
    assert_eq!(initial_offset(0, true, false, 100), 100);
    assert_eq!(first_seq_no(7, 100), 7);
    assert_eq!(first_seq_no(0, 100), 101);
    assert_eq!(first_seq_no(0, 0), 1);
    assert!(retry_at_eof(true, false));
    assert!(!retry_at_eof(true, true));
    assert!(!retry_at_eof(false, false));
}

#[test]
fn event_id_format() {
    let mut config = Config::default();
    config.datasource_id = 7;
    let mut controller = Controller::new(config);
    let id = controller.event_id();
    assert_eq!(id & 0xFF, 7);
    assert_eq!((id >> 8) & 0x00ff_ffff, 1);

    let mut conv = Converter::new(None);
    let mut msg = SizedForwardMode::default();
    msg.set_tag("REproduce".to_string()).unwrap();
    let mut out = Vec::new();
    let (flushed, eid, res) = controller.step(&mut conv, &mut msg, b"a line", &mut out);
    assert!(!flushed);
    assert_eq!(eid & 0xFF, 7);
    assert_eq!((eid >> 8) & 0x00ff_ffff, 2);
    assert_eq!(res.expect("Ok"), true);
    assert_eq!(controller.seq_no, 2);
}

#[test]
fn step_packs_batches() {
    let mut controller = Controller::new(Config::default());
    let mut conv = Converter::new(None);
    let mut msg = SizedForwardMode::default();
    msg.set_tag("REproduce".to_string()).unwrap();
    let mut out = Vec::new();

    let unit = vec![0x2au8; 40_000];
    let (flushed, _eid, res) = controller.step(&mut conv, &mut msg, &unit, &mut out);
    assert!(!flushed);
    assert_eq!(res.expect("Ok"), true);
    let (flushed, _eid, res) = controller.step(&mut conv, &mut msg, &unit, &mut out);
    assert!(!flushed);
    assert_eq!(res.expect("Ok"), true);
    let len_before = msg.serialized_len();
    let (flushed, _eid, res) = controller.step(&mut conv, &mut msg, &unit, &mut out);
    assert!(flushed, "a third unit would cross the ceiling");
    assert_eq!(res.expect("Ok"), true);
    assert_eq!(out.len(), len_before);
    assert!(out.len() < 100_000, "the flushed batch is under the hard ceiling");
    assert_eq!(msg.len(), 1);
}

#[test]
fn binary_lines() {
    let mut lines = BinaryLines::new(b"ab\ncd\r\nef".to_vec());
    assert_eq!(lines.next(), Some(b"ab".to_vec()));
    assert_eq!(lines.next(), Some(b"cd".to_vec()));
    assert_eq!(lines.next(), Some(b"ef".to_vec()));
    assert_eq!(lines.next(), None);

    let mut empty = BinaryLines::new(Vec::new());
    assert_eq!(empty.next(), None);

    let mut lone = BinaryLines::new(b"tail\r".to_vec());
    assert_eq!(lone.next(), Some(b"tail\r".to_vec()));
    assert_eq!(lone.next(), None);
}

#[test]
fn prefix_filter() {
    assert!(name_has_prefix(b"log_2024", b"log_"));
    assert!(!name_has_prefix(b"other", b"log_"));
    assert!(name_has_prefix(b"anything", b""));
    assert!(!name_has_prefix(b"lo", b"log_"));
}

#[test]
fn config_validation() {
    let mut config = Config::default();
    assert_eq!(config.validate(), Err(ConfigError::BrokerRequired));
    config.kafka_broker = "localhost:9092".to_string();
    assert_eq!(config.validate(), Err(ConfigError::TopicRequired));
    config.kafka_topic = "events".to_string();
    assert_eq!(config.validate(), Ok(()));

    config.output = "none".to_string();
    assert_eq!(config.validate(), Err(ConfigError::InputRequired));
    config.input = "trace.log".to_string();
    assert_eq!(config.validate(), Ok(()));

    config.queue_size = 900_001;
    assert_eq!(config.validate(), Err(ConfigError::QueueTooLarge));
    config.queue_size = 900_000;
    config.datasource_id = 0;
    assert_eq!(config.validate(), Err(ConfigError::BadDatasourceId));
}

#[test]
fn run_stats() {
    let mut stats = RunStats::new(true);
    stats.start(3);
    stats.process(10);
    stats.process(50);
    stats.process(5);
    stats.skip(7);
    stats.end(6);
    let (start, end, sum, min, max, skip_bytes, skip_cnt, processed) = stats.snapshot();
    assert_eq!(start, 3);
    assert_eq!(end, 6);
    assert_eq!(sum, 65);
    assert_eq!(min, 5);
    assert_eq!(max, 50);
    assert_eq!(skip_bytes, 7);
    assert_eq!(skip_cnt, 1);
    assert_eq!(processed, 3);

    let mut off = RunStats::new(false);
    off.process(10);
    let (_, _, sum, ..) = off.snapshot();
    assert_eq!(sum, 0);
}

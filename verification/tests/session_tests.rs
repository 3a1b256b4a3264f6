//! Tests of the flow hash and the session sampler.

use reproduce::fluentd::SizedForwardMode;
use reproduce::session::{MAX_AGE, MAX_SAMPLE_SIZE, MIN_SAMPLE_SIZE, Traffic};

/// Shannon entropy in bits per symbol of the byte distribution.
fn entropy(data: &[u8], scratch: &mut [usize; 256]) -> f64 {
    for b in data {
        scratch[usize::from(*b)] += 1;
    }
    let denom = data.len() as f64;
    scratch.iter_mut().fold(0., |entropy, freq| {
        if *freq == 0 {
            entropy
        } else {
            let p = *freq as f64 / denom;
            *freq = 0;
            entropy - p * p.log2()
        }
    })
}

/// The largest possible entropy for data of the given length.
fn maximum_entropy(len: usize) -> f64 {
    (len as f64).log2()
}

/// The near-random verdicts of the ripe flows, as the sweep consumes
/// them: a flow is near-random when its entropy ratio strictly exceeds
/// the cutoff.
fn gate_for(tr: &Traffic, ratio: f64) -> Vec<(u64, bool)> {
    let mut scratch = [0usize; 256];
    tr.ripe_flows()
        .into_iter()
        .map(|(h, payload)| {
            let near = entropy(&payload, &mut scratch) / maximum_entropy(payload.len()) > ratio;
            (h, near)
        })
        .collect()
}

#[test]
fn hash() {
    assert_eq!(reproduce::session::hash(1, 2, 4, 5, 3), 6442844169);
    assert_eq!(
        reproduce::session::hash(0xffff_ffff, 0xffff_ffff, 0xffff, 0xffff, 0xff),
        0xffff_ffff_01ff_fffe
    );
    assert_eq!(reproduce::session::hash(0, 0, 0, 0, 0), 0);
    assert_eq!(
        reproduce::session::hash(0x0102_0304, 0x0506_0708, 0x8090, 0x6070, 0x11),
        reproduce::session::hash(0x0506_0708, 0x0102_0304, 0x6070, 0x8090, 0x11)
    );
}

#[test]
fn traffic_update() {
    let mut tr = Traffic::default();
    let mut concat = Vec::new();
    let msg_id = 10u64;
    for i in 1..=9usize {
        let data = format!("my message number: {}", i);
        concat.extend(data.bytes());
        let is_new = tr.update_session(
            0x6162_6364,
            0x3132_3334,
            0x4142,
            0x3839,
            0x7a,
            data.as_bytes(),
            msg_id << 8,
        );
        assert_eq!(is_new, i == 1);
        assert_eq!(tr.message_data(), 20 * i);
    }

    let mut msg = SizedForwardMode::default();
    let gate = gate_for(&tr, 0.9);
    let new_msg_id = tr.make_next_message(msg_id << 8, &mut msg, 0xffff, &gate);
    assert_eq!(new_msg_id, (msg_id + 1) << 8);

    assert_eq!(msg.len(), 1);
    assert_eq!(msg.entry_value(0, "src").unwrap(), &b"abcd".to_vec());
    assert_eq!(msg.entry_value(0, "dst").unwrap(), &b"1234".to_vec());
    assert_eq!(msg.entry_value(0, "sport").unwrap(), &b"AB".to_vec());
    assert_eq!(msg.entry_value(0, "dport").unwrap(), &b"89".to_vec());
    assert_eq!(msg.entry_value(0, "proto").unwrap(), &b"z".to_vec());
    assert_eq!(msg.entry_value(0, "message").unwrap(), &concat);
}

#[test]
fn traffic_delete() {
    let mut tr = Traffic::default();
    let mut event_id = 6u64;
    let content = "traffic_delete";
    tr.update_session(1, 2, 4, 5, 3, content.as_bytes(), event_id);

    let mut msg = SizedForwardMode::default();
    for _ in 0..MAX_AGE {
        assert_eq!(tr.message_data(), content.len());
        let gate = gate_for(&tr, 0.9);
        event_id = tr.make_next_message(0, &mut msg, 0xffff, &gate);
        assert!(tr.session_count() != 0);
    }

    let mut i = 2;
    while tr.message_data() < MIN_SAMPLE_SIZE {
        tr.update_session(1, 2, 4, 5, 3, content.as_bytes(), event_id);
        assert_eq!(tr.message_data(), i * content.len());
        assert!(tr.session_count() != 0);
        i += 1;
    }
    let gate = gate_for(&tr, 0.9);
    event_id = tr.make_next_message(event_id, &mut msg, 0xffff, &gate);
    assert_eq!(event_id >> 8, 1);
    assert_eq!(tr.message_data(), 0);
    i = 1;
    while tr.message_data() < MIN_SAMPLE_SIZE {
        tr.update_session(1, 2, 4, 5, 3, content.as_bytes(), event_id);
        assert_eq!(tr.message_data(), i * content.len());
        assert!(tr.session_count() != 0);
        i += 1;
    }
    let gate = gate_for(&tr, 0.9);
    event_id = tr.make_next_message(event_id, &mut msg, 0xffff, &gate);
    assert_eq!(event_id >> 8, 2);
    assert_eq!(tr.message_data(), 0);
    tr.update_session(1, 2, 4, 5, 3, content.as_bytes(), event_id);
    for _ in 0..MAX_AGE {
        assert_eq!(tr.message_data(), content.len());
        let gate = gate_for(&tr, 0.9);
        event_id = tr.make_next_message(event_id, &mut msg, 0xffff, &gate);
        assert_eq!(event_id >> 8, 2);
        assert!(tr.session_count() != 0);
    }
    let gate = gate_for(&tr, 0.9);
    event_id = tr.make_next_message(event_id, &mut msg, 0xffff, &gate);
    assert_eq!(event_id >> 8, 2);
    assert_eq!(tr.message_data(), 0);
    assert!(tr.session_count() == 0);
}

#[test]
fn entropy_gate_disables_flow() {
    // A ripe flow whose payload is judged near-random is dropped without
    // emission, and stops absorbing payload.
    let mut tr = Traffic::default();
    let payload: Vec<u8> = (0..=255u8).collect();
    tr.update_session(9, 8, 7, 6, 17, &payload, 42);
    assert_eq!(tr.message_data(), 256);

    let gate = gate_for(&tr, 0.9);
    assert_eq!(gate.len(), 1);
    assert!(gate[0].1, "a uniform payload is near-random");

    let mut msg = SizedForwardMode::default();
    let out = tr.make_next_message(0, &mut msg, 0xffff, &gate);
    assert_eq!(out, 0);
    assert_eq!(msg.len(), 0, "nothing was emitted");
    assert_eq!(tr.message_data(), 0, "the buffered payload was dropped");

    let is_new = tr.update_session(9, 8, 7, 6, 17, &payload, 42);
    assert!(!is_new);
    assert_eq!(tr.message_data(), 0, "a disabled flow absorbs nothing");
}

#[test]
fn sampling_budget_caps_flow() {
    // A flow buffers at most MAX_SAMPLE_SIZE bytes over its lifetime.
    let mut tr = Traffic::default();
    let chunk = vec![0x41u8; 1500];
    tr.update_session(1, 2, 3, 4, 6, &chunk, 1);
    assert_eq!(tr.message_data(), 1500);
    tr.update_session(1, 2, 3, 4, 6, &chunk, 1);
    assert_eq!(tr.message_data(), MAX_SAMPLE_SIZE, "absorption stops at the budget");

    let gate = gate_for(&tr, 0.9);
    let mut msg = SizedForwardMode::default();
    tr.make_next_message(0, &mut msg, 0xffff, &gate);
    assert_eq!(msg.len(), 1);
    assert_eq!(
        msg.entry_value(0, "message").unwrap().len(),
        MAX_SAMPLE_SIZE,
        "one full budget was emitted"
    );
    assert_eq!(tr.message_data(), 0);

    // The budget is spent: nothing more is absorbed.
    tr.update_session(1, 2, 3, 4, 6, &chunk, 1);
    assert_eq!(tr.message_data(), 0);
}

#[test]
fn reverse_direction_shares_session() {
    let mut tr = Traffic::default();
    let data = vec![7u8; 64];
    let fresh = tr.update_session(10, 20, 30, 40, 6, &data, 1);
    assert!(fresh);
    let reverse = tr.update_session(20, 10, 40, 30, 6, &data, 2);
    assert!(!reverse, "the reverse direction joins the same session");
    assert_eq!(tr.session_count(), 1);
    assert_eq!(tr.message_data(), 128);
}

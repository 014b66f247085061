use bbg::frame::{
    decode_events, deserialize_intent, frame_lengths_fit, deserialize_signal, encode_finalize, encode_intent, encode_signal,
    events_from_chunks, serialize_intent, serialize_signal, Event, LINK_BYTES,
};
use bbg::signal::{Cyberlink, Signal, UtxoMove};
use bbg::types::IntentRecord;

fn sig() -> Signal {
    Signal {
        neuron: [1u8; 32],
        links: vec![Cyberlink { from: [2u8; 32], to: [3u8; 32], token: [0u8; 32], amount: 4, valence: 1 }],
        utxo_moves: vec![],
        height: 7,
    }
}

#[test]
fn signal_frame_roundtrips() {
    let frame = encode_signal(&sig());
    assert_eq!(frame[0], 0x1F, "tade marker");
    assert_eq!(frame[1], b'!');
    let events = decode_events(&frame);
    assert_eq!(events.len(), 1);
    match &events[0] {
        Event::Signal(s) => {
            assert_eq!(s.neuron, [1u8; 32]);
            assert_eq!(s.height, 7);
            assert_eq!(s.links.len(), 1);
            assert_eq!(s.links[0].amount, 4);
            assert_eq!(s.links[0].to, [3u8; 32]);
        }
        _ => panic!("expected signal"),
    }
}

#[test]
fn intent_frame_roundtrips() {
    let i = IntentRecord { neuron: [9u8; 32], h0: 3, scope_hash: [5u8; 32], signature: [0u8; 64] };
    let events = decode_events(&encode_intent(&i));
    assert!(matches!(&events[0], Event::Intent(r) if r.h0 == 3 && r.neuron == [9u8;32]));
}

#[test]
fn mixed_log_decodes_in_order() {
    let mut log = Vec::new();
    log.extend(encode_signal(&sig()));
    log.extend(encode_finalize());
    log.extend(encode_signal(&sig()));
    let events = decode_events(&log);
    assert_eq!(events.len(), 3);
    assert!(matches!(events[0], Event::Signal(_)));
    assert!(matches!(events[1], Event::Finalize));
    assert!(matches!(events[2], Event::Signal(_)));
}

#[test]
fn rejects_n_links_that_cannot_fit_in_the_payload() {
    let mut buf = Vec::new();
    buf.extend_from_slice(&[0u8; 32]); // neuron
    buf.extend_from_slice(&7u64.to_le_bytes()); // height
    buf.extend_from_slice(&u32::MAX.to_le_bytes()); // n_links: malicious
    assert!(deserialize_signal(&buf).is_none());
}

#[test]
fn rejects_n_links_larger_than_the_records_remaining() {
    let mut buf = Vec::new();
    buf.extend_from_slice(&[0u8; 32]); // neuron
    buf.extend_from_slice(&7u64.to_le_bytes()); // height
    buf.extend_from_slice(&2u32.to_le_bytes()); // claims 2 links
    buf.extend_from_slice(&[0u8; LINK_BYTES]); // room for only 1
    assert!(deserialize_signal(&buf).is_none());
}

#[test]
fn rejects_n_moves_that_cannot_fit_in_the_payload() {
    let mut buf = Vec::new();
    buf.extend_from_slice(&[0u8; 32]); // neuron
    buf.extend_from_slice(&7u64.to_le_bytes()); // height
    buf.extend_from_slice(&0u32.to_le_bytes()); // n_links: 0
    buf.extend_from_slice(&u32::MAX.to_le_bytes()); // n_moves: malicious
    assert!(deserialize_signal(&buf).is_none());
}

#[test]
fn accepts_a_well_formed_signal_with_links_and_moves() {
    let s = Signal {
        neuron: [1u8; 32],
        links: vec![Cyberlink { from: [2u8; 32], to: [3u8; 32], token: [0u8; 32], amount: 4, valence: -1 }],
        utxo_moves: vec![UtxoMove { nullifier: [5u8; 32], commitment: Some(([6u8; 32], 9)) }],
        height: 7,
    };
    let frame = encode_signal(&s);
    let events = decode_events(&frame);
    match &events[0] {
        Event::Signal(decoded) => {
            assert_eq!(decoded.links.len(), 1);
            assert_eq!(decoded.utxo_moves.len(), 1);
            assert_eq!(decoded.utxo_moves[0].nullifier, [5u8; 32]);
            assert_eq!(decoded.utxo_moves[0].commitment, Some(([6u8; 32], 9)));
        }
        _ => panic!("expected signal"),
    }
}

#[test]
fn frame_layout_is_marker_sigil_render_length_payload() {
    let frame = encode_finalize();
    assert_eq!(frame, vec![0x1F, b'.', b'b', 0]);
    let i = IntentRecord { neuron: [9u8; 32], h0: 3, scope_hash: [5u8; 32], signature: [1u8; 64] };
    let frame = encode_intent(&i);
    // 136 = 0x88 -> 0x88 0x01
    assert_eq!(&frame[..5], &[0x1F, b'^', b'b', 0x88, 0x01]);
    assert_eq!(&frame[5..], serialize_intent(&i).as_slice());
}

#[test]
fn long_payload_length_takes_two_leb128_bytes() {
    let s = Signal {
        neuron: [1u8; 32],
        links: vec![Cyberlink { from: [2u8; 32], to: [3u8; 32], token: [4u8; 32], amount: 5, valence: 0 }; 2],
        utxo_moves: vec![],
        height: 1,
    };
    // 44 + 2 * 105 + 4 = 258 = 0x102 -> 0x82 0x02
    let frame = encode_signal(&s);
    assert_eq!(&frame[..5], &[0x1F, b'!', b'b', 0x82, 0x02]);
    assert_eq!(frame.len(), 5 + 258);
}

#[test]
fn signal_payload_roundtrips_every_field() {
    let s = Signal {
        neuron: [7u8; 32],
        links: vec![
            Cyberlink { from: [2u8; 32], to: [3u8; 32], token: [4u8; 32], amount: u64::MAX, valence: -1 },
            Cyberlink { from: [5u8; 32], to: [6u8; 32], token: [7u8; 32], amount: 0, valence: 0 },
        ],
        utxo_moves: vec![
            UtxoMove { nullifier: [8u8; 32], commitment: None },
            UtxoMove { nullifier: [9u8; 32], commitment: Some(([10u8; 32], 11)) },
        ],
        height: 42,
    };
    let bytes = serialize_signal(&s);
    assert_eq!(bytes.len(), 44 + 2 * 105 + 4 + 33 + 73);
    assert_eq!(deserialize_signal(&bytes), Some(s));
}

#[test]
fn unknown_move_tags_read_as_no_commitment() {
    let mut buf = Vec::new();
    buf.extend_from_slice(&[0u8; 32]);
    buf.extend_from_slice(&7u64.to_le_bytes());
    buf.extend_from_slice(&0u32.to_le_bytes());
    buf.extend_from_slice(&1u32.to_le_bytes());
    buf.extend_from_slice(&[3u8; 32]);
    buf.push(2);
    let s = deserialize_signal(&buf).unwrap();
    assert_eq!(s.utxo_moves, vec![UtxoMove { nullifier: [3u8; 32], commitment: None }]);
}

#[test]
fn short_intent_payload_is_refused() {
    assert!(deserialize_intent(&[0u8; 135]).is_none());
    let i = deserialize_intent(&[4u8; 140]).unwrap();
    assert_eq!(i.h0, u64::from_le_bytes([4u8; 8]));
    assert_eq!(i.signature, [4u8; 64]);
}

#[test]
fn unknown_sigils_and_bad_payloads_are_skipped() {
    let chunks = vec![
        (b'#', b'b', vec![1, 2, 3]),
        (b'!', b'b', vec![0u8; 10]),
        (b'.', b'x', vec![]),
    ];
    let events = events_from_chunks(&chunks);
    assert_eq!(events, vec![Event::Finalize]);
    let mut log = vec![0x1F, b'#', b't', 1, b'x'];
    log.extend(encode_finalize());
    assert_eq!(decode_events(&log), vec![Event::Finalize]);
}

#[test]
fn overflowing_frame_length_is_refused_before_reading() {
    let mut bad = vec![0x1F, b'!', b'b'];
    bad.extend_from_slice(&[0xff; 9]);
    bad.push(0x01);
    assert!(!frame_lengths_fit(&bad));
    let mut log = encode_signal(&sig());
    log.extend_from_slice(&encode_finalize());
    assert!(frame_lengths_fit(&log));
    assert_eq!(decode_events(&log).len(), 2);
    // A length that merely runs past the end stops the reader without harm.
    let short = vec![0x1F, b'!', b'b', 0x7f, 1, 2];
    assert!(frame_lengths_fit(&short));
    assert!(decode_events(&short).is_empty());
    // Bytes before a marker are skipped.
    let mut padded = vec![0u8, 7, 9];
    padded.extend_from_slice(&bad);
    assert!(!frame_lengths_fit(&padded));
}

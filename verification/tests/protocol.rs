use flaky_network::protocol::{
    decode_harness_packet, decode_wire_packet, encode_harness_packet, encode_wire_packet,
    PacketKind, RedundancyBudget, SequenceUnwrapper, HARNESS_PACKET_BYTES,
    MAX_OVERHEAD_MULTIPLIER, WIRE_PACKET_BYTES,
};
use flaky_network::PAYLOAD_BYTES;

#[test]
fn wire_round_trip_preserves_kind_sequence_and_payload() {
    let payload = [0x5a; PAYLOAD_BYTES];
    for kind in [PacketKind::Data, PacketKind::Parity] {
        let encoded = encode_wire_packet(kind, 12_345, &payload);
        let decoded = decode_wire_packet(&encoded).unwrap();
        assert_eq!(decoded.kind, kind);
        assert_eq!(decoded.sequence, 12_345);
        assert_eq!(decoded.payload, &payload);
    }
}

#[test]
fn malformed_packet_lengths_are_rejected() {
    assert!(decode_wire_packet(&[0; WIRE_PACKET_BYTES - 1]).is_none());
    assert!(decode_harness_packet(&[0; HARNESS_PACKET_BYTES + 1]).is_none());
}

#[test]
fn sequence_unwrapper_handles_wrap_and_reordering() {
    let mut unwrapper = SequenceUnwrapper::default();
    assert_eq!(unwrapper.unwrap(32_766), 32_766);
    assert_eq!(unwrapper.unwrap(32_767), 32_767);
    assert_eq!(unwrapper.unwrap(0), 32_768);
    assert_eq!(unwrapper.unwrap(2), 32_770);
    assert_eq!(unwrapper.unwrap(32_760), 32_760);
}

#[test]
fn parity_schedule_never_exceeds_bandwidth_cap() {
    let mut budget = RedundancyBudget::default();
    let mut parity_packets = 0;
    for frame_count in 1_u32..=100_000 {
        budget.begin_frame();
        if budget.consume_parity() {
            parity_packets += 1;
        }
        let relay_bytes = (frame_count as usize + parity_packets) * WIRE_PACKET_BYTES;
        let byte_limit = frame_count as usize * PAYLOAD_BYTES * MAX_OVERHEAD_MULTIPLIER;
        assert!(relay_bytes <= byte_limit);
    }
    assert_eq!(parity_packets, 97_530);
}

#[test]
fn unused_redundancy_credit_survives_temporarily_unavailable_equations() {
    let mut budget = RedundancyBudget::default();
    for _ in 0..10 {
        budget.begin_frame();
    }

    let mut sent = 0;
    for _ in 0..10 {
        budget.begin_frame();
        sent += usize::from(budget.consume_parity());
        assert!(!budget.consume_parity());
    }

    assert_eq!(sent, 10);
}

#[test]
fn harness_round_trip_preserves_sequence_and_payload() {
    let mut payload = [0u8; PAYLOAD_BYTES];
    for (offset, byte) in payload.iter_mut().enumerate() {
        *byte = offset as u8;
    }
    let encoded = encode_harness_packet(0x0102_0304, &payload);
    assert_eq!(&encoded[..4], &[1, 2, 3, 4]);
    let (sequence, decoded) = decode_harness_packet(&encoded).unwrap();
    assert_eq!(sequence, 0x0102_0304);
    assert_eq!(decoded, &payload);
}

#[test]
fn harness_packet_of_exact_length_decodes() {
    let mut packet = [0u8; HARNESS_PACKET_BYTES];
    packet[0] = 0xff;
    packet[3] = 0x01;
    packet[4] = 9;
    let (sequence, payload) = decode_harness_packet(&packet).unwrap();
    assert_eq!(sequence, 0xff00_0001);
    assert_eq!(payload[0], 9);
    assert!(decode_harness_packet(&packet[..HARNESS_PACKET_BYTES - 1]).is_none());
}

#[test]
fn wire_header_carries_kind_bit_and_low_fifteen_bits() {
    let payload = [7; PAYLOAD_BYTES];
    let data = encode_wire_packet(PacketKind::Data, 0x1_8001, &payload);
    assert_eq!(&data[..2], &[0x00, 0x01]);
    let parity = encode_wire_packet(PacketKind::Parity, 0x7fff, &payload);
    assert_eq!(&parity[..2], &[0xff, 0xff]);
    let decoded = decode_wire_packet(&parity).unwrap();
    assert_eq!(decoded.kind, PacketKind::Parity);
    assert_eq!(decoded.sequence, 0x7fff);
    assert!(decode_wire_packet(&[0; WIRE_PACKET_BYTES + 1]).is_none());
}

#[test]
fn unwrapper_first_sequence_is_taken_as_is_and_only_newer_raise_newest() {
    let mut unwrapper = SequenceUnwrapper::default();
    assert_eq!(unwrapper.unwrap(100), 100);
    assert_eq!(unwrapper.unwrap(90), 90);
    assert_eq!(unwrapper.unwrap(110), 110);
    // A packet 16384 behind ties between two candidates; the lower one wins.
    let mut far = SequenceUnwrapper::default();
    assert_eq!(far.unwrap(20_000), 20_000);
    assert_eq!(far.unwrap(3_616), 3_616);
}

#[test]
fn unwrapper_does_not_go_negative() {
    let mut unwrapper = SequenceUnwrapper::default();
    assert_eq!(unwrapper.unwrap(5), 5);
    assert_eq!(unwrapper.unwrap(32_760), 32_760);
}

#[test]
fn unwrapper_follows_a_stream_across_the_whole_u32_range() {
    let mut unwrapper = SequenceUnwrapper::default();
    let mut sequence: u64 = 0;
    while sequence <= u32::MAX as u64 {
        assert_eq!(unwrapper.unwrap((sequence % 32_768) as u16) as u64, sequence);
        sequence += 16_000;
    }
    // The next number lies beyond u32 and wraps around.
    assert_eq!(
        unwrapper.unwrap((sequence % 32_768) as u16) as u64,
        sequence % (1u64 << 32)
    );
}

#[test]
fn budget_grants_first_parity_only_after_two_frames_of_credit() {
    let mut budget = RedundancyBudget::default();
    budget.begin_frame();
    assert!(!budget.consume_parity());
    budget.begin_frame();
    assert!(budget.consume_parity());
    assert!(!budget.consume_parity());
}

#[test]
fn rounds_grant_the_floor_of_earned_credit_over_packet_size() {
    let mut budget = RedundancyBudget::default();
    let mut granted: usize = 0;
    for rounds in 1_usize..=2_000 {
        budget.begin_frame();
        granted += usize::from(budget.consume_parity());
        assert_eq!(granted, rounds * 158 / 162);
        assert!((rounds + granted) * WIRE_PACKET_BYTES <= rounds * PAYLOAD_BYTES * MAX_OVERHEAD_MULTIPLIER);
        assert!(
            (rounds + granted + 1) * WIRE_PACKET_BYTES > rounds * PAYLOAD_BYTES * MAX_OVERHEAD_MULTIPLIER
        );
    }
    assert_eq!(granted, 1_950);
}

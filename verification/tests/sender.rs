use flaky_network::protocol::{decode_wire_packet, PacketKind};
use flaky_network::recovery::RecoveryWindow;
use flaky_network::sender::FrameEncoder;
use flaky_network::{xor_payloads, PAYLOAD_BYTES};

#[test]
fn first_frame_gets_no_parity_and_later_frames_do() {
    let mut encoder = FrameEncoder::new(2);
    let frames = [[1; PAYLOAD_BYTES], [2; PAYLOAD_BYTES], [3; PAYLOAD_BYTES]];
    let (data, parity) = encoder.encode_frame(0, &frames[0]);
    let decoded = decode_wire_packet(&data).unwrap();
    assert_eq!(decoded.kind, PacketKind::Data);
    assert_eq!(decoded.payload, &frames[0]);
    assert!(parity.is_none());

    // The second frame has credit for only 316 bytes: enough for one parity packet.
    let (_, parity) = encoder.encode_frame(1, &frames[1]);
    let parity = parity.unwrap();
    let decoded = decode_wire_packet(&parity).unwrap();
    assert_eq!(decoded.kind, PacketKind::Parity);
    assert_eq!(decoded.sequence, 1);
    assert_eq!(decoded.payload, &xor_payloads(&frames[0], &frames[1]));

    // Credit left: 154 + 158 = 312 bytes, still enough.
    let (_, parity) = encoder.encode_frame(2, &frames[2]);
    assert_eq!(
        decode_wire_packet(&parity.unwrap()).unwrap().payload,
        &xor_payloads(&frames[1], &frames[2])
    );
}

#[test]
fn gap_in_history_suppresses_parity() {
    let mut encoder = FrameEncoder::new(3);
    let frame = [8; PAYLOAD_BYTES];
    encoder.encode_frame(0, &frame);
    encoder.encode_frame(1, &frame);
    let (_, parity) = encoder.encode_frame(3, &frame);
    assert!(parity.is_none());
    let (_, parity) = encoder.encode_frame(4, &frame);
    assert!(parity.is_none());
    let (_, parity) = encoder.encode_frame(5, &frame);
    assert!(parity.is_some());
}

#[test]
fn receiver_recovers_every_lost_frame_from_the_encoder_output() {
    let mut frames = [[0u8; PAYLOAD_BYTES]; 40];
    for (sequence, payload) in frames.iter_mut().enumerate() {
        for (offset, byte) in payload.iter_mut().enumerate() {
            *byte = (sequence as u8).wrapping_mul(17) ^ (offset as u8);
        }
    }
    let mut encoder = FrameEncoder::new(3);
    let mut window = RecoveryWindow::new(16, 3);
    let mut delivered = Vec::new();
    for (sequence, frame) in frames.iter().enumerate() {
        let (data, parity) = encoder.encode_frame(sequence as u32, frame);
        if sequence % 7 != 3 {
            let packet = decode_wire_packet(&data).unwrap();
            window.ingest(sequence as u32, packet, &mut delivered);
        }
        if let Some(parity) = parity {
            let packet = decode_wire_packet(&parity).unwrap();
            window.ingest(sequence as u32, packet, &mut delivered);
        }
    }
    delivered.sort_unstable_by_key(|(sequence, _)| *sequence);
    assert_eq!(delivered.len(), 40);
    for (sequence, payload) in delivered {
        assert_eq!(payload, frames[sequence as usize]);
    }
}

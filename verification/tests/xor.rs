use flaky_network::{xor_in_place, xor_payloads, PAYLOAD_BYTES};

#[test]
fn xor_is_byte_wise() {
    let mut left = [0u8; PAYLOAD_BYTES];
    let mut right = [0u8; PAYLOAD_BYTES];
    for i in 0..PAYLOAD_BYTES {
        left[i] = i as u8;
        right[i] = 0xf0;
    }
    let result = xor_payloads(&left, &right);
    for i in 0..PAYLOAD_BYTES {
        assert_eq!(result[i], (i as u8) ^ 0xf0);
    }
}

#[test]
fn xor_in_place_twice_restores_the_frame() {
    let initial = [0x3c; PAYLOAD_BYTES];
    let other = [0xa5; PAYLOAD_BYTES];
    let mut target = initial;
    xor_in_place(&mut target, &other);
    assert_eq!(target, [0x99; PAYLOAD_BYTES]);
    xor_in_place(&mut target, &other);
    assert_eq!(target, initial);
}

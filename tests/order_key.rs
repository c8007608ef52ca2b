use raytracer::order_key::{bits_from_key, order_key, INFINITY_KEY, NEG_INFINITY_KEY};

fn key(x: f32) -> u32 {
    order_key((x + 0.0).to_bits())
}

#[test]
fn keys_follow_float_order() {
    let values = [
        f32::NEG_INFINITY,
        -1.0e30,
        -2.5,
        -1.0,
        -1.0e-30,
        0.0,
        1.0e-30,
        1.0,
        2.5,
        1.0e30,
        f32::INFINITY,
    ];
    for i in 0..values.len() {
        for j in 0..values.len() {
            assert_eq!(values[i] < values[j], key(values[i]) < key(values[j]));
        }
    }
}

#[test]
fn key_of_one_sets_sign_bit() {
    assert_eq!(order_key(0x3F80_0000), 0xBF80_0000);
    assert_eq!(order_key(0xBF80_0000), 0x407F_FFFF);
}

#[test]
fn infinity_keys_match_infinities() {
    assert_eq!(key(f32::INFINITY), INFINITY_KEY);
    assert_eq!(key(f32::NEG_INFINITY), NEG_INFINITY_KEY);
}

#[test]
fn key_round_trip() {
    for bits in [0u32, 1, 0x3F80_0000, 0x8000_0000, 0xBF80_0000, 0x7F80_0000, 0xFFFF_FFFF] {
        assert_eq!(bits_from_key(order_key(bits)), bits);
    }
    assert_eq!(f32::from_bits(bits_from_key(key(-3.25))), -3.25);
}

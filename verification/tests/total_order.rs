use robust_rs::total_order::{bits_of_key, total_order_key};

#[test]
fn keys_order_like_total_cmp() {
    let v = [
        f64::NEG_INFINITY,
        -1e300,
        -2.5,
        -0.0,
        0.0,
        1e-310,
        3.0,
        f64::INFINITY,
        f64::NAN,
        -f64::NAN,
    ];
    for &a in &v {
        for &b in &v {
            let ka = total_order_key(a.to_bits());
            let kb = total_order_key(b.to_bits());
            assert_eq!(ka.cmp(&kb), a.total_cmp(&b), "{a} vs {b}");
        }
    }
}

#[test]
fn keys_round_trip_to_bit_patterns() {
    for &bits in &[0u64, 1, 0x7FF0_0000_0000_0000, 0x8000_0000_0000_0000, u64::MAX, 0x4009_21FB_5444_2D18] {
        assert_eq!(bits_of_key(total_order_key(bits)), bits);
    }
    assert_eq!(total_order_key(0x8000_0000_0000_0000), -1);
    assert_eq!(total_order_key(u64::MAX), i64::MIN);
    assert_eq!(total_order_key(0x7FFF_FFFF_FFFF_FFFF), i64::MAX);
}

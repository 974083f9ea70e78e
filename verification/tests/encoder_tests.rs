use stork_asset::encoder::encode;

#[test]
fn encode_empty_string_golden() {
    assert_eq!(
        encode(""),
        "0xc5d2460186f7233c927e7db2dcc703c0e500b653ca82273b7bfad8045d85a470"
    );
}

#[test]
fn encode_btcusd_golden() {
    assert_eq!(
        encode("BTCUSD"),
        "0x7404e3d104ea7841c3d9e6fd20adfe99b4ad586bc08d8f3bd3afef894cf184de"
    );
}

#[test]
fn encode_ethusd_golden() {
    assert_eq!(
        encode("ETHUSD"),
        "0x59102b37de83bdda9f38ac8254e596f0d9ac61d2035c07936675e87342817160"
    );
}

#[test]
fn encode_single_letters_golden_and_distinct() {
    let a = encode("A");
    let b = encode("B");
    assert_eq!(
        a,
        "0x03783fac2efed8fbc9ad443e592ee30e61d65f471140c10ca155e937b435b760"
    );
    assert_eq!(
        b,
        "0x1f675bff07515f5df96737194ea945c36c41e7b4fcef307b7cd4d0e602a69111"
    );
    assert_ne!(a, b);
}

#[test]
fn encode_shape_for_various_inputs() {
    for s in ["", "BTCUSD", "btcusd", "a b c", "ünïcödé", "0x", "A"] {
        let e = encode(s);
        assert_eq!(e.len(), 66);
        assert!(e.starts_with("0x"));
        assert!(e[2..]
            .chars()
            .all(|c| c.is_ascii_digit() || ('a'..='f').contains(&c)));
    }
}

#[test]
fn encode_is_deterministic() {
    assert_eq!(encode("SOLUSD"), encode("SOLUSD"));
    assert_eq!(encode(""), encode(""));
}

#[test]
fn encode_is_case_sensitive() {
    assert_ne!(encode("BTCUSD"), encode("btcusd"));
}

use sinorag::build_pack::short;

#[test]
fn short_keeps_sixteen_bytes_or_fewer() {
    assert_eq!(short("abc"), "abc");
    assert_eq!(short(""), "");
    assert_eq!(short("0123456789abcdef"), "0123456789abcdef");
}

#[test]
fn short_shows_both_ends_of_a_long_fingerprint() {
    assert_eq!(short("0123456789abcdef0"), "01234567…9abcdef0");
    let fp = "3f9a1c2b7d8e4f6a0b1c2d3e4f5a6b7c8d9e0f1a2b3c4d5e6f7a8b9c0d1e2f3a";
    assert_eq!(short(fp), "3f9a1c2b…0d1e2f3a");
}

#[test]
fn short_cuts_on_character_boundaries() {
    // Two ideographs of three bytes each, then ASCII: bytes 8 and len - 8
    // start characters.
    let s = "經論ab0123456789xy";
    assert_eq!(short(s), "經論ab…456789xy");
}

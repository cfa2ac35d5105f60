use valid8::ext::SimdValidateExt;

#[test]
fn byte_slices_validate_through_the_trait() {
    let ascii: &[u8] = b"plain text";
    let latin: &[u8] = "naïve".as_bytes();
    let broken: &[u8] = &[0x66, 0x80, 0x66];
    assert!(ascii.is_ascii_simd());
    assert!(ascii.is_utf8_simd());
    assert!(!latin.is_ascii_simd());
    assert!(latin.is_utf8_simd());
    assert!(!broken.is_ascii_simd());
    assert!(!broken.is_utf8_simd());
}

#[test]
fn string_slices_validate_through_the_trait() {
    for s in ["", "abc", "naïve", "日本語", "𝄞 music", &"x".repeat(100)] {
        assert_eq!(s.is_ascii(), s.is_ascii_simd(), "{:?}", s);
        assert!(s.is_utf8_simd(), "{:?}", s);
    }
}

use palettefit::color::Rgb8;

#[test]
fn hex_roundtrip_and_short_form() {
    let c = Rgb8::parse("#E63946").unwrap();
    assert_eq!(c, Rgb8::new(0xe6, 0x39, 0x46));
    assert_eq!(c.hex(), "e63946");
    assert_eq!(Rgb8::parse("fff").unwrap(), Rgb8::new(255, 255, 255));
    assert!(Rgb8::parse("12345").is_none());
    assert!(Rgb8::parse("gggggg").is_none());
}

#[test]
fn hex_is_lowercase_and_zero_padded() {
    assert_eq!(Rgb8::new(0, 10, 255).hex(), "000aff");
    assert_eq!(Rgb8::new(1, 2, 3).hex(), "010203");
}

#[test]
fn parse_accepts_short_form_with_hash_and_mixed_case() {
    assert_eq!(Rgb8::parse("#aBc"), Some(Rgb8::new(0xaa, 0xbb, 0xcc)));
    assert_eq!(Rgb8::parse("1D3557"), Some(Rgb8::new(0x1d, 0x35, 0x57)));
}

#[test]
fn parse_rejects_other_lengths_and_stray_characters() {
    assert_eq!(Rgb8::parse(""), None);
    assert_eq!(Rgb8::parse("#"), None);
    assert_eq!(Rgb8::parse("##fff"), None);
    assert_eq!(Rgb8::parse("e63946 "), None);
    assert_eq!(Rgb8::parse("1234567"), None);
    assert_eq!(Rgb8::parse("12x"), None);
}

#[test]
fn parsing_the_hex_of_a_color_gives_it_back() {
    for &(r, g, b) in &[(0u8, 0u8, 0u8), (255, 255, 255), (230, 57, 70), (1, 128, 254)] {
        let c = Rgb8::new(r, g, b);
        assert_eq!(Rgb8::parse(&c.hex()), Some(c));
        assert_eq!(Rgb8::parse(&format!("#{}", c.hex())), Some(c));
    }
}

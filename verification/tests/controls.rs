use watermark_remover::controls::{
    manual_origin, nudge_offset, parse_hex, parse_strength, read_colour, strip_ext, ColourError,
    CornerSel,
};

#[test]
fn corner_codes() {
    assert_eq!(CornerSel::Auto.code(), "auto");
    assert_eq!(CornerSel::Br.code(), "br");
    assert_eq!(CornerSel::Bl.code(), "bl");
    assert_eq!(CornerSel::Tr.code(), "tr");
    assert_eq!(CornerSel::Tl.code(), "tl");
}

#[test]
fn manual_origin_uses_tier_margin() {
    // Large image: 64px margin.
    assert_eq!(manual_origin(CornerSel::Br, 2000, 1500, 96), Some((2000 - 96 - 64, 1500 - 96 - 64)));
    assert_eq!(manual_origin(CornerSel::Bl, 2000, 1500, 96), Some((64, 1500 - 96 - 64)));
    assert_eq!(manual_origin(CornerSel::Tr, 2000, 1500, 96), Some((2000 - 96 - 64, 64)));
    assert_eq!(manual_origin(CornerSel::Tl, 2000, 1500, 96), Some((64, 64)));
    // Small image: 32px margin.
    assert_eq!(manual_origin(CornerSel::Br, 800, 600, 48), Some((800 - 48 - 32, 600 - 48 - 32)));
    assert_eq!(manual_origin(CornerSel::Tl, 1024, 600, 48), Some((32, 32)));
    // Automatic placement has no manual origin.
    assert_eq!(manual_origin(CornerSel::Auto, 800, 600, 48), None);
    // A tile larger than the image goes off the top-left edge.
    assert_eq!(manual_origin(CornerSel::Br, 50, 50, 96), Some((50 - 96 - 32, 50 - 96 - 32)));
}

#[test]
fn parse_hex_reads_six_digits() {
    assert_eq!(parse_hex("#ffffff"), Some([255, 255, 255]));
    assert_eq!(parse_hex("3b82f6"), Some([0x3b, 0x82, 0xf6]));
    assert_eq!(parse_hex("  #3B82F6\n"), Some([0x3b, 0x82, 0xf6]));
    assert_eq!(parse_hex("##000000"), Some([0, 0, 0]));
    // `from_str_radix` accepts a leading '+' in each two-digit field.
    assert_eq!(parse_hex("+f+f+f"), Some([15, 15, 15]));
}

#[test]
fn parse_hex_rejects_other_entries() {
    assert_eq!(parse_hex(""), None);
    assert_eq!(parse_hex("#fff"), None);
    assert_eq!(parse_hex("#fffffff"), None);
    assert_eq!(parse_hex("#gggggg"), None);
    assert_eq!(parse_hex("-fffff"), None);
    assert_eq!(parse_hex("ff ff f"), None);
    // Non-ASCII bytes are not digits; é is two bytes, so "éffff" is six.
    assert_eq!(parse_hex("éffff"), None);
}

#[test]
fn strip_ext_drops_the_last_extension() {
    assert_eq!(strip_ext("photo.png"), "photo");
    assert_eq!(strip_ext("archive.tar.gz"), "archive.tar");
    assert_eq!(strip_ext("noext"), "noext");
    assert_eq!(strip_ext(".hidden"), "");
    assert_eq!(strip_ext("trailing."), "trailing");
    assert_eq!(strip_ext("été.jpg"), "été");
    assert_eq!(strip_ext(""), "");
}

#[test]
fn nudge_offset_reads_a_signed_integer() {
    assert_eq!(nudge_offset("0"), 0);
    assert_eq!(nudge_offset(" 12 "), 12);
    assert_eq!(nudge_offset("-5"), -5);
    assert_eq!(nudge_offset("+7"), 7);
    assert_eq!(nudge_offset("00012"), 12);
    assert_eq!(nudge_offset("9223372036854775807"), i64::MAX);
    assert_eq!(nudge_offset("-9223372036854775808"), i64::MIN);
}

#[test]
fn nudge_offset_is_zero_for_other_entries() {
    assert_eq!(nudge_offset(""), 0);
    assert_eq!(nudge_offset("   "), 0);
    assert_eq!(nudge_offset("-"), 0);
    assert_eq!(nudge_offset("+"), 0);
    assert_eq!(nudge_offset("abc"), 0);
    assert_eq!(nudge_offset("1 2"), 0);
    assert_eq!(nudge_offset("--3"), 0);
    assert_eq!(nudge_offset("3.5"), 0);
    assert_eq!(nudge_offset("\u{663}"), 0);
    assert_eq!(nudge_offset("9223372036854775808"), 0);
    assert_eq!(nudge_offset("-9223372036854775809"), 0);
    assert_eq!(nudge_offset("99999999999999999999999"), 0);
    for s in ["17", " -4", "x", "", "+0", "-0", "12345678901234567890"] {
        assert_eq!(nudge_offset(s), s.trim().parse::<i64>().unwrap_or(0));
    }
}

#[test]
fn parse_strength_reads_the_stored_percent() {
    assert_eq!(parse_strength("100"), Some(100));
    assert_eq!(parse_strength("140\n"), Some(140));
    assert_eq!(parse_strength(" -3 "), Some(-3));
    assert_eq!(parse_strength("2147483647"), Some(i32::MAX));
    assert_eq!(parse_strength("-2147483648"), Some(i32::MIN));
    assert_eq!(parse_strength("2147483648"), None);
    assert_eq!(parse_strength(""), None);
    assert_eq!(parse_strength("1e2"), None);
    for t in ["77", " 0\n", "x", "", "+5", "99999999999"] {
        assert_eq!(parse_strength(t), t.trim().parse::<i32>().ok());
    }
}

#[test]
fn read_colour_refuses_entries_that_cut_a_character() {
    assert_eq!(read_colour(" #3b82f6 "), Ok(Some([0x3b, 0x82, 0xf6])));
    assert_eq!(read_colour("#fff"), Ok(None));
    // é is two bytes: the first field would end inside it.
    assert_eq!(read_colour("a\u{e9}bbb"), Err(ColourError::SplitsChar));
    // The first field reads, then the second would end inside é.
    assert_eq!(read_colour("fff\u{e9}b"), Err(ColourError::SplitsChar));
    // The first field is not hex, so reading stops before the cut.
    assert_eq!(read_colour("\u{e9}ffff"), Ok(None));
    assert_eq!(read_colour("ff\u{e9}bb"), Ok(None));
}

#[test]
fn whitespace_is_the_unicode_set() {
    assert_eq!(nudge_offset("\u{a0}5\u{3000}"), 5);
    assert_eq!(nudge_offset("\u{2028}-5\u{85}"), -5);
    // U+200B is not White_Space, so the entry does not read.
    assert_eq!(nudge_offset("\u{200b}5"), 0);
    assert_eq!(parse_strength("\t\r\n42\u{b}\u{c}"), Some(42));
}

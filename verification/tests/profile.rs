use watermark_remover::controls::parse_usize;
use watermark_remover::profile::{map_size, pick_size, preview_size};

#[test]
fn pick_size_prefers_the_tier_size() {
    assert_eq!(pick_size(&[48, 96], 2000, 1500), Some(96));
    assert_eq!(pick_size(&[48, 96], 2000, 800), Some(48));
    assert_eq!(pick_size(&[48, 96], 1024, 1024), Some(96));
}

#[test]
fn pick_size_falls_back_to_the_smallest_map() {
    assert_eq!(pick_size(&[64, 128], 2000, 1500), Some(64));
    assert_eq!(pick_size(&[96], 600, 800), Some(96));
    assert_eq!(pick_size(&[], 600, 800), None);
}

#[test]
fn preview_shows_the_96px_map_when_present() {
    assert_eq!(preview_size(&[48, 96]), 96);
    assert_eq!(preview_size(&[96]), 96);
    assert_eq!(preview_size(&[64, 48, 128]), 48);
    assert_eq!(preview_size(&[]), 96);
}

#[test]
fn map_size_reads_the_key_and_checks_the_length() {
    assert_eq!(map_size("96", 96 * 96), Some(96));
    assert_eq!(map_size("48", 48 * 48), Some(48));
    assert_eq!(map_size("+48", 48 * 48), Some(48));
    assert_eq!(map_size("96", 96 * 96 - 1), None);
    assert_eq!(map_size("calibration", 0), None);
    assert_eq!(map_size("-48", 48 * 48), None);
    assert_eq!(map_size(" 48", 48 * 48), None);
    assert_eq!(map_size("", 0), None);
    assert_eq!(map_size("0", 0), Some(0));
}

#[test]
fn parse_usize_reads_as_std_does() {
    for s in ["0", "96", "+7", "-1", "", "+", "12a", "007", "18446744073709551615", "18446744073709551616", "99999999999999999999999"] {
        assert_eq!(parse_usize(s), s.parse::<usize>().ok(), "{s:?}");
    }
}

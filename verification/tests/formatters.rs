use verse::formatters::{format_channels, format_optional_u32, format_optional_u8, format_seconds};
use verse::components::{format_time, truncate_text};

#[test]
fn a_present_value_carries_its_unit() {
    assert_eq!(format_optional_u32(Some(320), "kbps"), "320 kbps");
    assert_eq!(format_optional_u8(Some(24), "bit"), "24 bit");
}

#[test]
fn an_absent_value_reads_as_a_dash() {
    assert_eq!(format_optional_u32(None, "kbps"), "-");
    assert_eq!(format_optional_u8(None, "bit"), "-");
    assert_eq!(format_channels(None), "-");
}

#[test]
fn channel_layouts_are_named_where_they_have_a_name() {
    assert_eq!(format_channels(Some(1)), "Mono");
    assert_eq!(format_channels(Some(2)), "Stereo");
    assert_eq!(format_channels(Some(8)), "8 channels");
}

#[test]
fn seconds_read_as_two_digit_minutes_and_seconds() {
    assert_eq!(format_seconds(0), "00:00");
    assert_eq!(format_seconds(187), "03:07");
    assert_eq!(format_seconds(6000), "100:00");
}

#[test]
fn a_position_under_an_hour_reads_as_minutes_and_seconds() {
    assert_eq!(format_time(0), "0:00");
    assert_eq!(format_time(187), "3:07");
    assert_eq!(format_time(3599), "59:59");
}

#[test]
fn a_position_past_an_hour_carries_the_hours() {
    assert_eq!(format_time(3600), "1:00:00");
    assert_eq!(format_time(3723), "1:02:03");
    assert_eq!(format_time(36_000 + 61), "10:01:01");
}

#[test]
fn a_short_title_is_left_whole() {
    assert_eq!(truncate_text("Blue", 10), "Blue");
    assert_eq!(truncate_text("Exactly10!", 10), "Exactly10!");
}

#[test]
fn a_long_title_is_cut_and_marked() {
    assert_eq!(truncate_text("A very long title", 10), "A very ...");
    assert_eq!(truncate_text("Caf\u{e9} au lait", 7), "Caf\u{e9}...");
    assert_eq!(truncate_text("Long", 2), "...");
}

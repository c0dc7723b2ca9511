use witchbooru::table::{hyperlink, name_width, LINK_END, LINK_OPEN};

#[test]
fn a_hyperlink_wraps_the_text_in_escape_sequences() {
    assert_eq!(
        hyperlink("cat", "https://example.org/cat", 3),
        "\x1b]8;;https://example.org/cat\x1b\\cat\x1b]8;;\x1b\\"
    );
    assert_eq!(LINK_OPEN, "\x1b]8;;");
    assert_eq!(LINK_END, "\x1b\\");
}

#[test]
fn a_hyperlink_is_filled_up_to_the_width_of_its_column() {
    assert_eq!(hyperlink("cat", "u", 7), "\x1b]8;;u\x1b\\cat\x1b]8;;\x1b\\    ");
    assert_eq!(hyperlink("", "", 2), "\x1b]8;;\x1b\\\x1b]8;;\x1b\\  ");
}

#[test]
fn a_text_that_is_wider_than_its_column_is_not_cut() {
    assert_eq!(hyperlink("long_hair", "u", 4), "\x1b]8;;u\x1b\\long_hair\x1b]8;;\x1b\\");
    assert_eq!(hyperlink("long_hair", "u", 0), "\x1b]8;;u\x1b\\long_hair\x1b]8;;\x1b\\");
}

#[test]
fn the_width_of_a_text_counts_its_bytes() {
    let link = hyperlink("猫", "u", 5);
    assert_eq!(link, "\x1b]8;;u\x1b\\猫\x1b]8;;\x1b\\  ");
}

#[test]
fn a_column_is_as_wide_as_its_longest_name() {
    assert_eq!(name_width("General tag", &["1girl", "long_hair", "looking_at_viewer"]), 17);
    assert_eq!(name_width("Character", &["hatsune_miku", "x"]), 12);
}

#[test]
fn a_column_is_at_least_as_wide_as_its_heading() {
    assert_eq!(name_width("General tag", &["solo", "smile"]), 11);
    assert_eq!(name_width("Character", &[]), 9);
    assert_eq!(name_width("", &[]), 0);
}

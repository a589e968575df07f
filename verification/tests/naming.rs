use tv_rename::naming::{decimal_string, episode_file_name, two_digit_string};

#[test]
fn decimal_digits_of_small_numbers() {
    assert_eq!(decimal_string(0), "0");
    assert_eq!(decimal_string(7), "7");
    assert_eq!(decimal_string(9), "9");
}

#[test]
fn decimal_digits_of_large_numbers() {
    assert_eq!(decimal_string(10), "10");
    assert_eq!(decimal_string(99), "99");
    assert_eq!(decimal_string(100), "100");
    assert_eq!(decimal_string(1234567890), "1234567890");
    assert_eq!(decimal_string(usize::MAX), usize::MAX.to_string());
}

#[test]
fn one_digit_is_padded_with_a_zero() {
    assert_eq!(two_digit_string(0), "00");
    assert_eq!(two_digit_string(1), "01");
    assert_eq!(two_digit_string(9), "09");
}

#[test]
fn two_digits_and_more_are_not_padded() {
    assert_eq!(two_digit_string(10), "10");
    assert_eq!(two_digit_string(42), "42");
    assert_eq!(two_digit_string(99), "99");
    assert_eq!(two_digit_string(100), "100");
    assert_eq!(two_digit_string(255), "255");
    assert_eq!(two_digit_string(1000), "1000");
}

#[test]
fn padding_agrees_with_the_standard_format() {
    for n in 0..300usize {
        assert_eq!(two_digit_string(n), format!("{:02}", n));
        assert_eq!(decimal_string(n), format!("{}", n));
    }
}

#[test]
fn the_canonical_name_of_an_episode() {
    assert_eq!(episode_file_name("Show", 2, 1, "mp4"), "Show.S02E01.mp4");
    assert_eq!(episode_file_name("Show", 2, 3, "mp4"), "Show.S02E03.mp4");
    assert_eq!(episode_file_name("Show", 1, 10, "mkv"), "Show.S01E10.mkv");
}

#[test]
fn the_canonical_name_with_wide_numbers() {
    assert_eq!(episode_file_name("Show", 12, 123, "mp4"), "Show.S12E123.mp4");
    assert_eq!(episode_file_name("Show", 255, 1000, "mp4"), "Show.S255E1000.mp4");
    assert_eq!(episode_file_name("Show", 0, 0, "mp4"), "Show.S00E00.mp4");
}

#[test]
fn the_canonical_name_keeps_the_show_name_as_it_is() {
    assert_eq!(episode_file_name("The Show (2020)", 1, 1, "srt"), "The Show (2020).S01E01.srt");
    assert_eq!(episode_file_name("", 1, 1, "srt"), ".S01E01.srt");
    assert_eq!(episode_file_name("a.b", 1, 1, ""), "a.b.S01E01.");
}

#[test]
fn the_canonical_name_agrees_with_the_standard_format() {
    for season in [0u8, 1, 9, 10, 99, 100, 255] {
        for episode in [1usize, 9, 10, 99, 100, 12345] {
            assert_eq!(
                episode_file_name("Name", season, episode, "ext"),
                format!("{}.S{:02}E{:02}.{}", "Name", season, episode, "ext")
            );
        }
    }
}

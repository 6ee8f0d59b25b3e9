use tgg::date::{date_of_day, format_timestamp, is_leap_year};
use tgg::utils::{calculate_checksum, extract_cstring, extract_cstring_with_offset};
use tgg::word_ladder::WordLadder;

#[test]
fn the_checksum_is_the_byte_sum_low_byte_first() {
    assert_eq!(calculate_checksum(vec![]), [0, 0]);
    assert_eq!(calculate_checksum(vec![1, 2, 3]), [6, 0]);
    assert_eq!(calculate_checksum(vec![0xFF, 0x01]), [0x00, 0x01]);
    assert_eq!(calculate_checksum(vec![0xFF, 0xFF, 0x02]), [0x00, 0x02]);
    assert_eq!(calculate_checksum(b"TalonGamesGame".to_vec()), [0x65, 0x05]);
}

#[test]
fn the_checksum_keeps_the_low_sixteen_bits() {
    assert_eq!(calculate_checksum(vec![0xFF; 257]), [0xFF, 0xFF]);
    assert_eq!(calculate_checksum(vec![0xFF; 258]), [0xFE, 0x00]);
    assert_eq!(calculate_checksum(vec![0x80; 512]), [0x00, 0x00]);
    assert_eq!(calculate_checksum(vec![0x01; 65_536 + 5]), [0x05, 0x00]);
}

#[test]
fn the_checksum_does_not_depend_on_the_order() {
    assert_eq!(
        calculate_checksum(vec![9, 200, 31, 77]),
        calculate_checksum(vec![77, 31, 200, 9])
    );
}

#[test]
fn the_checksum_tells_a_changed_byte() {
    let bytes: Vec<u8> = (0..=255).collect();
    let sum = calculate_checksum(bytes.clone());
    for at in [0usize, 1, 100, 255] {
        for value in [0u8, 1, 127, 128, 255] {
            if bytes[at] != value {
                let mut changed = bytes.clone();
                changed[at] = value;
                assert_ne!(calculate_checksum(changed), sum);
            }
        }
    }
}

#[test]
fn text_is_read_up_to_the_first_zero_byte() {
    assert_eq!(extract_cstring(b"abc\0def"), "abc");
    assert_eq!(extract_cstring(b"abc"), "abc");
    assert_eq!(extract_cstring(b"\0abc"), "");
    assert_eq!(extract_cstring(b""), "");
}

#[test]
fn each_byte_of_a_text_is_one_character() {
    assert_eq!(extract_cstring(&[0x41, 0xE9, 0xFF, 0x00]), "A\u{e9}\u{ff}");
    assert_eq!(extract_cstring_with_offset(&[0xC9, 0x00], 0), ("\u{c9}".to_string(), 2));
}

#[test]
fn text_is_read_with_the_offset_behind_its_terminator() {
    let bytes = b"ab\0cd\0\0e";
    assert_eq!(extract_cstring_with_offset(bytes, 0), ("ab".to_string(), 3));
    assert_eq!(extract_cstring_with_offset(bytes, 1), ("b".to_string(), 3));
    assert_eq!(extract_cstring_with_offset(bytes, 2), ("".to_string(), 3));
    assert_eq!(extract_cstring_with_offset(bytes, 3), ("cd".to_string(), 6));
    assert_eq!(extract_cstring_with_offset(bytes, 6), ("".to_string(), 7));
}

#[test]
fn text_without_a_terminator_gives_an_offset_past_the_end() {
    let bytes = b"ab\0cd\0\0e";
    assert_eq!(extract_cstring_with_offset(bytes, 7), ("e".to_string(), 9));
    assert_eq!(extract_cstring_with_offset(bytes, 8), ("".to_string(), 9));
    assert_eq!(extract_cstring_with_offset(b"", 0), ("".to_string(), 1));
}

#[test]
fn leap_years() {
    assert!(is_leap_year(1972));
    assert!(is_leap_year(2000));
    assert!(is_leap_year(2024));
    assert!(!is_leap_year(1970));
    assert!(!is_leap_year(1900));
    assert!(!is_leap_year(2100));
    assert!(!is_leap_year(2023));
}

#[test]
fn days_and_their_dates() {
    assert_eq!(date_of_day(0), (1970, 1, 1));
    assert_eq!(date_of_day(30), (1970, 1, 31));
    assert_eq!(date_of_day(31), (1970, 2, 1));
    assert_eq!(date_of_day(58), (1970, 2, 28));
    assert_eq!(date_of_day(59), (1970, 3, 1));
    assert_eq!(date_of_day(364), (1970, 12, 31));
    assert_eq!(date_of_day(365), (1971, 1, 1));
    assert_eq!(date_of_day(789), (1972, 2, 29));
    assert_eq!(date_of_day(1095), (1972, 12, 31));
    assert_eq!(date_of_day(11_016), (2000, 2, 29));
    assert_eq!(date_of_day(49_710), (2106, 2, 7));
}

#[test]
fn timestamps_as_text() {
    assert_eq!(format_timestamp(0), "January, 01, 1970");
    assert_eq!(format_timestamp(86_399), "January, 01, 1970");
    assert_eq!(format_timestamp(86_400), "January, 02, 1970");
    assert_eq!(format_timestamp(951_782_400), "February, 29, 2000");
    assert_eq!(format_timestamp(951_868_800), "March, 01, 2000");
    assert_eq!(format_timestamp(1_700_000_000), "November, 14, 2023");
    assert_eq!(format_timestamp(1_709_251_200), "March, 01, 2024");
    assert_eq!(format_timestamp(1_735_689_599), "December, 31, 2024");
    assert_eq!(format_timestamp(4_294_967_295), "February, 07, 2106");
}

#[test]
fn every_month_has_its_name() {
    // Days of 1971, counted from its first day.
    let days = [
        (0u32, "January, 01, 1971"),
        (31, "February, 01, 1971"),
        (59, "March, 01, 1971"),
        (90, "April, 01, 1971"),
        (120, "May, 01, 1971"),
        (151, "June, 01, 1971"),
        (181, "July, 01, 1971"),
        (212, "August, 01, 1971"),
        (252, "September, 10, 1971"),
        (273, "October, 01, 1971"),
        (333, "November, 30, 1971"),
        (334, "December, 01, 1971"),
    ];
    for (day, text) in days {
        assert_eq!(format_timestamp((365 + day) * 86_400), text);
    }
}

#[test]
fn a_word_ladder_payload_is_refused() {
    let refused = Err("word-ladder payloads cannot be decoded".to_string());
    assert_eq!(WordLadder::load(b"cold\0not warm\0warm\0not cold\0\x03rest"), refused);
    assert_eq!(WordLadder::load(&[0x61, 0, 0x62, 0, 0x63, 0, 0x64, 0]), refused);
    assert_eq!(WordLadder::load(b"cold\0not"), refused);
    assert_eq!(WordLadder::load(&[]), refused);
}

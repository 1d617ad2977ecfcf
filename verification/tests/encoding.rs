use korpus::base255::{base255_fits, convert_to_base_255_as_bytes, digit_count};
use korpus::hash_func::lazy_hash;
use korpus::map_latin_one::{map_from_io_to_latin, map_from_token_to_latin};

#[test]
fn lazy_hash_uses_first_three_chars() {
    assert_eq!(lazy_hash("abc"), 29798);
    assert_eq!(lazy_hash("abcdef"), 29798);
    assert_eq!(lazy_hash("abd"), 29799);
}

#[test]
fn lazy_hash_short_words() {
    assert_eq!(lazy_hash(""), 0);
    assert_eq!(lazy_hash("a"), 97);
    assert_eq!(lazy_hash("ab"), 97 * 17 + 98);
}

#[test]
fn lazy_hash_of_merged_letter_word() {
    assert_eq!(lazy_hash("f{r"), 31683);
}

#[test]
fn base255_small_values() {
    assert_eq!(convert_to_base_255_as_bytes(0), vec![1]);
    assert_eq!(convert_to_base_255_as_bytes(1), vec![2]);
    assert_eq!(convert_to_base_255_as_bytes(254), vec![255]);
}

#[test]
fn base255_multi_digit_values() {
    assert_eq!(convert_to_base_255_as_bytes(255), vec![2, 1]);
    assert_eq!(convert_to_base_255_as_bytes(1000), vec![4, 236]);
    assert_eq!(convert_to_base_255_as_bytes(65024), vec![255, 255]);
    assert_eq!(convert_to_base_255_as_bytes(65025), vec![2, 1, 1]);
}

/// The largest number that the converter takes: 255^8 - 1 on 64 bits.
fn largest() -> usize {
    255usize.pow(usize::BITS / 8) - 1
}

fn decode_base255(digits: &[u8]) -> u128 {
    digits.iter().fold(0u128, |acc, d| acc * 255 + (*d as u128 - 1))
}

#[test]
fn base255_roundtrip_and_no_zero_bytes() {
    for v in [0usize, 7, 254, 255, 256, 65024, 65025, 123_456_789, largest()] {
        let digits = convert_to_base_255_as_bytes(v);
        assert!(digits.iter().all(|d| *d != 0));
        assert_eq!(decode_base255(&digits), v as u128);
    }
}

#[test]
fn base255_length_grows_with_value() {
    let mut prev = 0;
    for v in [0usize, 254, 255, 65024, 65025, 16_581_374, 16_581_375, largest()] {
        let len = convert_to_base_255_as_bytes(v).len();
        assert!(len >= prev);
        prev = len;
    }
    assert_eq!(convert_to_base_255_as_bytes(largest()).len(), if usize::BITS == 64 { 8 } else { 4 });
}

#[test]
fn token_map_replacement_char_becomes_merged_letter() {
    assert_eq!(map_from_token_to_latin("f\u{FFFD}r"), "f{r");
    assert_eq!(map_from_token_to_latin("\u{FFFD}"), "{");
}

#[test]
fn token_map_keeps_ascii() {
    assert_eq!(map_from_token_to_latin("abc"), "abc");
    assert_eq!(map_from_token_to_latin(""), "");
}

#[test]
fn token_map_reads_bytes_as_latin1() {
    // 'é' is the bytes C3 A9, each read as a Latin-1 character
    assert_eq!(map_from_token_to_latin("\u{e9}"), "\u{c3}\u{a9}");
}

#[test]
fn io_map_merges_swedish_letters() {
    assert_eq!(map_from_io_to_latin("\u{e5}\u{e4}\u{f6}"), "{{{");
    assert_eq!(map_from_io_to_latin("f\u{f6}r"), "f{r");
    assert_eq!(map_from_io_to_latin("hej"), "hej");
    assert_eq!(map_from_io_to_latin("\u{c5}"), "\u{c5}");
}

#[test]
fn token_spelling_matches_io_spelling() {
    for (token, typed) in [("f\u{FFFD}r", "f\u{f6}r"), ("\u{FFFD}\u{FFFD}", "\u{e5}\u{e4}"), ("abc", "abc")] {
        assert_eq!(map_from_token_to_latin(token), map_from_io_to_latin(typed));
    }
}

#[test]
fn io_map_twice_is_once() {
    let once = map_from_io_to_latin("b\u{e5}t\u{f6}");
    assert_eq!(map_from_io_to_latin(&once), once);
}

#[test]
fn base255_keeps_order_of_equal_length_encodings() {
    let values = [255usize, 256, 300, 1000, 65024];
    for a in values {
        for b in values {
            if a <= b {
                let (ca, cb) = (convert_to_base_255_as_bytes(a), convert_to_base_255_as_bytes(b));
                assert!(ca.len() <= cb.len());
                if ca.len() == cb.len() {
                    assert!(ca <= cb);
                }
            }
        }
    }
}

#[test]
fn lazy_hash_short_word_counts_whole_word() {
    assert_eq!(lazy_hash("ab"), 97 * 17 + 98);
    assert_ne!(lazy_hash("ab"), lazy_hash("abc"));
}

#[test]
fn digit_count_counts_base255_digits() {
    assert_eq!(digit_count(0), 1);
    assert_eq!(digit_count(254), 1);
    assert_eq!(digit_count(255), 2);
    assert_eq!(digit_count(65024), 2);
    assert_eq!(digit_count(65025), 3);
    assert_eq!(digit_count(largest()), usize::BITS as usize / 8);
    assert_eq!(digit_count(largest() + 1), usize::BITS as usize / 8 + 1);
}

#[test]
fn converter_takes_numbers_below_255_to_the_8th() {
    assert!(base255_fits(0));
    assert!(base255_fits(254));
    assert!(base255_fits(largest()));
    assert!(!base255_fits(largest() + 1));
    assert!(!base255_fits(usize::MAX));
}

use korpus::bucket_file::{bucket_encodable, encode_bucket, encode_table_bucket};
use korpus::hash_func::lazy_hash;
use korpus::token_table::{parse_token_line, token_line_ok, Bucket, Entry, TokenTable};

#[test]
fn parse_line_with_word_and_position() {
    let (key, value) = parse_token_line("abc 123\n");
    assert_eq!(key, "abc");
    assert_eq!(value, 123);
}

#[test]
fn parse_line_trims_both_parts() {
    let (key, value) = parse_token_line("abc  +7 \r\n");
    assert_eq!(key, "abc");
    assert_eq!(value, 7);
}

#[test]
fn parse_line_maps_the_word() {
    let (key, _) = parse_token_line("f\u{FFFD}r 1\n");
    assert_eq!(key, "f{r");
}

#[test]
fn line_without_space_is_refused() {
    assert!(!token_line_ok("abc\n"));
    assert!(!token_line_ok(""));
}

#[test]
fn line_with_bad_position_is_refused() {
    assert!(!token_line_ok("abc x\n"));
    assert!(!token_line_ok("abc -1\n"));
    assert!(!token_line_ok("abc \n"));
    assert!(!token_line_ok("abc 99999999999999999999999\n"));
}

#[test]
fn line_with_word_and_position_is_accepted() {
    assert!(token_line_ok("abc 123\n"));
    assert!(token_line_ok("abc  +7 \r\n"));
    assert!(token_line_ok(" 5\n"));
    assert!(!token_line_ok("a b 18446744073709551615\n"));
    assert!(token_line_ok("a 18446744073709551615\n"));
}

fn build(lines: &[&str]) -> TokenTable {
    let mut table = TokenTable::new();
    for line in lines {
        let (key, _) = parse_token_line(line);
        assert!(table.accepts(&key));
        table.add_line(line);
    }
    table
}

#[test]
fn table_groups_words_by_hash() {
    let table = build(&["hej 10\n", "hej 20\n", "hopp 5\n", "hej 7\n"]);
    let h = lazy_hash("hej");
    let g = lazy_hash("hopp");
    assert_eq!(table.buckets.len(), h.max(g) + 1);
    let b = &table.buckets[h];
    assert_eq!(b.longest_key_len, 3);
    assert_eq!(b.entries.len(), 2);
    assert_eq!(b.entries[0].key, "hej");
    assert_eq!(b.entries[0].values, vec![10, 20]);
    assert_eq!(b.entries[1].key, "hej");
    assert_eq!(b.entries[1].values, vec![7]);
    let c = &table.buckets[g];
    assert_eq!(c.longest_key_len, 4);
    assert_eq!(c.entries.len(), 1);
    assert_eq!(c.entries[0].values, vec![5]);
    assert_eq!(table.last_key, "hej");
}

#[test]
fn table_longest_key_is_longest_word() {
    let table = build(&["abc 1\n", "abcdef 2\n", "abcd 3\n"]);
    let b = &table.buckets[lazy_hash("abc")];
    assert_eq!(b.entries.len(), 3);
    assert_eq!(b.longest_key_len, 6);
    for (i, e) in b.entries.iter().enumerate() {
        assert_eq!(lazy_hash(&e.key), lazy_hash("abc"));
        assert_eq!(e.values, vec![i + 1]);
    }
}

#[test]
fn table_longest_key_counts_characters() {
    // the word's bytes C3 A9 become the characters U+C3 U+A9
    let table = build(&["ab\u{e9} 1\n"]);
    let key = "ab\u{c3}\u{a9}";
    let b = &table.buckets[lazy_hash(key)];
    assert_eq!(b.entries[0].key, key);
    assert_eq!(b.longest_key_len, 4);
    let table = build(&["\u{e9} 1\n"]);
    assert_eq!(table.buckets[lazy_hash("\u{c3}\u{a9}")].longest_key_len, 2);
}

#[test]
fn encode_writes_one_byte_per_character() {
    let (keys, values) = encode_bucket(&bucket(1, &[("\u{e4}", &[1])])).unwrap();
    assert_eq!(values, vec![2, 0]);
    assert_eq!(keys, vec![2, 0, 6, 0, 0xE4, 0, 3, 0, 1]);
}

#[test]
fn empty_word_on_first_line_has_no_entry() {
    let table = TokenTable::new();
    assert!(!table.accepts(&String::new()));
    assert!(table.accepts(&String::from("a")));
    let lines = vec![" 5\n".to_string()];
    assert!(!TokenTable::token_file_ok(&lines));
}

#[test]
fn empty_word_after_other_word_is_taken_in() {
    let table = build(&["a 1\n", " 5\n", " 6\n"]);
    assert_eq!(table.buckets[0].entries.len(), 1);
    assert_eq!(table.buckets[0].entries[0].values, vec![5, 6]);
}

#[test]
fn add_token_directly() {
    let mut table = TokenTable::new();
    table.add_token(String::from("xy"), 4);
    assert!(table.accepts(&String::from("xy")));
    table.add_token(String::from("xy"), 9);
    let b = &table.buckets[lazy_hash("xy")];
    assert_eq!(b.entries.len(), 1);
    assert_eq!(b.entries[0].values, vec![4, 9]);
}

fn bucket(longest: usize, entries: &[(&str, &[usize])]) -> Bucket {
    Bucket {
        longest_key_len: longest,
        entries: entries
            .iter()
            .map(|(k, v)| Entry { key: k.to_string(), values: v.to_vec() })
            .collect(),
    }
}

#[test]
fn encode_empty_bucket_writes_nothing() {
    assert!(encode_bucket(&bucket(0, &[])).is_none());
}

#[test]
fn encode_single_word_bucket() {
    let (keys, values) = encode_bucket(&bucket(2, &[("ab", &[1, 300])])).unwrap();
    assert_eq!(values, vec![2, 0, 2, 46, 0]);
    assert_eq!(keys, vec![2, 0, 7, 0, 97, 98, 0, 6, 0, 1]);
}

#[test]
fn encode_bucket_pads_fields() {
    let (keys, values) =
        encode_bucket(&bucket(3, &[("ab", &[1, 300]), ("abc", &[5]), ("a", &[70000, 2, 3])])).unwrap();
    assert_eq!(values, vec![2, 0, 2, 46, 0, 6, 0, 2, 20, 131, 0, 3, 0, 4, 0]);
    assert_eq!(
        keys,
        vec![4, 0, 8, 0, 97, 98, 0, 0, 6, 0, 1, 97, 98, 99, 0, 3, 0, 6, 97, 0, 0, 0, 9, 0, 8]
    );
}

#[test]
fn encode_bucket_records_have_equal_width() {
    let many: Vec<usize> = vec![1000; 100];
    let b = Bucket {
        longest_key_len: 1,
        entries: vec![
            Entry { key: "w".to_string(), values: many },
            Entry { key: "x".to_string(), values: vec![1] },
            Entry { key: "x".to_string(), values: vec![1] },
            Entry { key: "x".to_string(), values: vec![1] },
        ],
    };
    let (keys, values) = encode_bucket(&b).unwrap();
    assert_eq!(values.len(), 306);
    assert_eq!(&keys[..20], &[5, 0, 8, 0, 119, 0, 2, 46, 0, 0, 1, 120, 0, 0, 3, 0, 2, 46, 120, 0]);
    // header of 4 bytes, then 4 records of 7 bytes
    assert_eq!(keys.len(), 4 + 4 * 7);
}

#[test]
fn encode_table_bucket_of_built_table() {
    let table = build(&["hej 10\n", "hej 20\n"]);
    let (keys, values) = encode_table_bucket(&table, lazy_hash("hej")).unwrap();
    assert_eq!(values, vec![11, 0, 21, 0]);
    // 1 entry, width 3 + 1 + 1 + 1 + 1 = 7
    assert_eq!(keys, vec![2, 0, 8, 0, 104, 101, 106, 0, 5, 0, 1]);
    assert!(encode_table_bucket(&table, 0).is_none());
}

#[test]
fn read_token_file_builds_table() {
    let lines: Vec<String> = ["hej 10\n", "hej 20\n", "hopp 5\n"].iter().map(|l| l.to_string()).collect();
    assert!(TokenTable::token_file_ok(&lines));
    let table = TokenTable::read_token_file(&lines);
    let b = &table.buckets[lazy_hash("hej")];
    assert_eq!(b.entries.len(), 1);
    assert_eq!(b.entries[0].values, vec![10, 20]);
    assert_eq!(table.last_key, "hopp");
}

#[test]
fn token_file_with_bad_line_is_refused() {
    let lines: Vec<String> = ["hej 10\n", "broken\n", "hopp 5\n"].iter().map(|l| l.to_string()).collect();
    assert!(!TokenTable::token_file_ok(&lines));
    let lines: Vec<String> = ["hej 10\n", "hopp x\n"].iter().map(|l| l.to_string()).collect();
    assert!(!TokenTable::token_file_ok(&lines));
    assert!(TokenTable::token_file_ok(&Vec::new()));
}

#[test]
fn bucket_with_small_numbers_is_encodable() {
    assert!(bucket_encodable(&bucket(0, &[])));
    assert!(bucket_encodable(&bucket(2, &[("ab", &[1, 300])])));
    assert!(bucket_encodable(&bucket(1, &[("w", &[usize::MAX / 255 / 255 / 255 / 255])])));
}

#[test]
fn bucket_with_too_long_word_is_not_encodable() {
    assert!(!bucket_encodable(&bucket(1, &[("ab", &[1])])));
}

#[test]
fn bucket_with_position_of_nine_digits_is_not_encodable() {
    // 255^8 needs nine base-255 digits, and 255^9 does not fit in 64 bits
    let p = 255usize.pow(8);
    assert!(!bucket_encodable(&bucket(1, &[("w", &[p])])));
    assert!(!bucket_encodable(&bucket(1, &[("w", &[usize::MAX])])));
    assert!(bucket_encodable(&bucket(1, &[("w", &[p - 1])])));
}

use korpus::context::{context_len, context_start, occurrences_to_show, render_context, wants_all};
use korpus::index_values::read_index_file;
use korpus::base255::convert_to_base_255_as_bytes;
use korpus::bucket_file::{encode_bucket, encode_table_bucket};
use korpus::context::should_ask;
use korpus::hash_func::lazy_hash;
use korpus::list_file::{
    get_header_info, get_index_file_nr, header_is_readable, r_exact, search_start, search_step,
    SearchStep,
};
use korpus::lookup::{find_positions, positions_readable, read_record_positions, record_pointer};
use korpus::token_table::{Bucket, Entry, TokenTable};

fn list_file() -> Vec<u8> {
    // 3 entries of 4 bytes, in ascending byte order; the header's numbers
    // are base-255 digits, each stored plus one
    let mut data = vec![4, 0, 5, 0];
    data.extend_from_slice(b"ab\0\0");
    data.extend_from_slice(b"abc\0");
    data.extend_from_slice(b"b\0\0\0");
    data
}

#[test]
fn header_fields_are_base255_numbers() {
    assert!(header_is_readable(&[2, 3, 0, 5, 0, 9]));
    assert_eq!(get_header_info(&[2, 3, 0, 5, 0, 9]), (257, 4, 5));
    assert_eq!(get_header_info(&list_file()), (3, 4, 4));
}

#[test]
fn header_field_too_large_is_refused() {
    let mut data = vec![255u8; 9];
    data.extend_from_slice(&[0, 2, 0]);
    assert!(!header_is_readable(&data));
}

#[test]
fn header_without_terminators_is_refused() {
    assert!(!header_is_readable(&[2, 3]));
    assert!(!header_is_readable(&[2, 0, 4]));
    assert!(!header_is_readable(&[]));
    assert!(header_is_readable(&[2, 0, 4, 0]));
}

#[test]
fn r_exact_pads_with_zeros() {
    assert_eq!(r_exact(&[1, 2, 3], 1, 4), vec![2, 3, 0, 0]);
    assert_eq!(r_exact(&[1, 2, 3], 10, 2), vec![0, 0]);
    assert_eq!(r_exact(&[1, 2, 3], 0, 3), vec![1, 2, 3]);
}

#[test]
fn search_finds_every_entry() {
    let data = list_file();
    assert_eq!(get_index_file_nr(&data, "ab"), Some(0));
    assert_eq!(get_index_file_nr(&data, "abc"), Some(1));
    assert_eq!(get_index_file_nr(&data, "b"), Some(2));
}

#[test]
fn search_misses_absent_words() {
    let data = list_file();
    assert_eq!(get_index_file_nr(&data, "a"), None);
    assert_eq!(get_index_file_nr(&data, "abcd"), None);
    assert_eq!(get_index_file_nr(&data, "c"), None);
    assert_eq!(get_index_file_nr(&data, "aa"), None);
    assert_eq!(get_index_file_nr(&data, "abcde"), None);
}

#[test]
fn search_in_longer_sorted_list() {
    let words: Vec<String> = (0..40).map(|i| format!("w{:02}", i)).collect();
    let mut data = vec![41, 0, 4, 0];
    for w in &words {
        data.extend_from_slice(w.as_bytes());
    }
    for (i, w) in words.iter().enumerate() {
        assert_eq!(get_index_file_nr(&data, w), Some(i));
    }
    assert_eq!(get_index_file_nr(&data, "w40"), None);
    assert_eq!(get_index_file_nr(&data, "v00"), None);
}

#[test]
fn index_values_are_base255_numbers() {
    assert_eq!(read_index_file(&[2, 0, 2, 46, 0]), Some(vec![1, 300]));
    assert_eq!(read_index_file(&[1, 2, 0]), Some(vec![1]));
}

#[test]
fn index_bytes_after_last_zero_are_ignored() {
    assert_eq!(read_index_file(&[5]), Some(vec![]));
    assert_eq!(read_index_file(&[5, 0, 6]), Some(vec![4]));
    assert_eq!(read_index_file(&[]), Some(vec![]));
}

#[test]
fn index_empty_group_is_refused() {
    assert_eq!(read_index_file(&[2, 0, 0]), None);
    assert_eq!(read_index_file(&[2, 0, 3, 0, 0, 4, 0]), None);
}

#[test]
fn index_value_too_large_is_refused() {
    let mut big = vec![255u8; 9];
    big.push(0);
    assert_eq!(read_index_file(&big), None);
    // the nine base-255 digits of usize::MAX (64 bits), each stored plus one
    let mut max: Vec<u8> = (0..9u32).map(|i| 1 + ((usize::MAX / 255usize.pow(8 - i)) % 255) as u8).collect();
    max.push(0);
    assert_eq!(read_index_file(&max), Some(vec![usize::MAX]));
    let mut large = convert_to_base_255_as_bytes(255usize.pow(8) - 1);
    large.push(0);
    assert_eq!(read_index_file(&large), Some(vec![255usize.pow(8) - 1]));
}

#[test]
fn search_empty_list_finds_nothing() {
    assert_eq!(get_index_file_nr(&[1, 0, 5, 0], "ab"), None);
    assert_eq!(get_index_file_nr(&[1, 0, 2, 0], "abc"), None);
}

#[test]
fn search_word_outside_latin1_finds_nothing() {
    let data = list_file();
    assert_eq!(get_index_file_nr(&data, "a\u{100}"), None);
}

fn bucket(longest: usize, entries: &[(&str, &[usize])]) -> Bucket {
    Bucket {
        longest_key_len: longest,
        entries: entries
            .iter()
            .map(|(k, v)| Entry { key: k.to_string(), values: v.to_vec() })
            .collect(),
    }
}

#[test]
fn written_bucket_reads_back() {
    let b = bucket(4, &[("abc", &[0, 255]), ("abcd", &[7])]);
    let (keys, values) = encode_bucket(&b).unwrap();
    assert_eq!(get_header_info(&keys), (2, 4 + 1 + 1 + 1 + 1, 4));
    assert_eq!(get_index_file_nr(&keys, "abc"), Some(0));
    assert_eq!(get_index_file_nr(&keys, "abcd"), Some(1));
    assert_eq!(get_index_file_nr(&keys, "ab"), None);
    assert_eq!(read_record_positions(&keys, &values, 0), Some(vec![0, 255]));
    assert_eq!(read_record_positions(&keys, &values, 1), Some(vec![7]));
    assert_eq!(read_record_positions(&keys, &values, 2), None);
    assert_eq!(find_positions(&keys, &values, "abcd"), Some(vec![7]));
    assert_eq!(find_positions(&keys, &values, "abc"), Some(vec![0, 255]));
    assert_eq!(find_positions(&keys, &values, "abce"), None);
}

#[test]
fn compiled_token_list_reads_back() {
    let lines: Vec<String> = [
        "f\u{FFFD}r 12\n",
        "f\u{FFFD}ra 3000\n",
        "f\u{FFFD}ra 70000\n",
        "f\u{FFFD}rb 5\n",
        "hej 1\n",
    ]
    .iter()
    .map(|l| l.to_string())
    .collect();
    assert!(TokenTable::token_file_ok(&lines));
    let table = TokenTable::read_token_file(&lines);
    let h = lazy_hash("f{r");
    let (keys, values) = encode_table_bucket(&table, h).unwrap();
    assert_eq!(find_positions(&keys, &values, "f{r"), Some(vec![12]));
    assert_eq!(find_positions(&keys, &values, "f{ra"), Some(vec![3000, 70000]));
    assert_eq!(find_positions(&keys, &values, "f{rb"), Some(vec![5]));
    assert_eq!(find_positions(&keys, &values, "f{rc"), None);
    let (keys, values) = encode_table_bucket(&table, lazy_hash("hej")).unwrap();
    assert_eq!(find_positions(&keys, &values, "hej"), Some(vec![1]));
}

#[test]
fn long_values_file_reads_back() {
    let many: Vec<usize> = (0..300).map(|i| i * 1000).collect();
    let b = Bucket {
        longest_key_len: 2,
        entries: vec![
            Entry { key: "aa".to_string(), values: vec![1] },
            Entry { key: "ab".to_string(), values: many.clone() },
            Entry { key: "b".to_string(), values: vec![255usize.pow(8) - 1] },
        ],
    };
    let (keys, values) = encode_bucket(&b).unwrap();
    assert_eq!(find_positions(&keys, &values, "aa"), Some(vec![1]));
    assert_eq!(find_positions(&keys, &values, "ab"), Some(many));
    assert_eq!(find_positions(&keys, &values, "b"), Some(vec![255usize.pow(8) - 1]));
}

#[test]
fn context_window() {
    assert_eq!(context_start(5), 0);
    assert_eq!(context_start(20), 0);
    assert_eq!(context_start(25), 5);
    assert_eq!(context_len(3), 43);
}

#[test]
fn ask_only_for_many_occurrences() {
    assert!(!should_ask(25));
    assert!(should_ask(26));
    assert!(!should_ask(0));
}

#[test]
fn occurrences_shown() {
    assert_eq!(occurrences_to_show(30, false), 25);
    assert_eq!(occurrences_to_show(30, true), 30);
    assert_eq!(occurrences_to_show(10, false), 10);
    assert_eq!(occurrences_to_show(25, false), 25);
}

#[test]
fn answer_yes() {
    assert!(wants_all("y"));
    assert!(wants_all(" Y\n"));
    assert!(!wants_all("yes"));
    assert!(!wants_all("n"));
    assert!(!wants_all(""));
}

#[test]
fn context_rendering() {
    assert_eq!(render_context(&[104, 10, 105]), "h i");
    assert_eq!(render_context(&[0xE4]), "\u{e4}");
    assert_eq!(render_context(&[]), "");
}

/// Runs the search one step at a time over a list file held in memory:
/// the index found (if any) and how many records were read.
fn stepped_search(data: &[u8], word: &[u8]) -> (Option<usize>, usize) {
    let (n, len, hs) = get_header_info(data);
    let mut step = search_start(n, len, word);
    let mut reads = 0;
    loop {
        match step {
            SearchStep::Probe { lo, hi, ptr } => {
                let rec = r_exact(data, hs + len * ptr, len);
                reads += 1;
                step = search_step(word, lo, hi, ptr, &rec);
            }
            SearchStep::Found(i) => return (Some(i), reads),
            SearchStep::Missing => return (None, reads),
        }
    }
}

#[test]
fn search_start_probes_the_middle() {
    assert_eq!(search_start(3, 4, b"ab"), SearchStep::Probe { lo: 0, hi: 2, ptr: 1 });
    assert_eq!(search_start(4, 4, b"ab"), SearchStep::Probe { lo: 0, hi: 3, ptr: 2 });
    assert_eq!(search_start(0, 4, b"ab"), SearchStep::Missing);
    assert_eq!(search_start(3, 1, b"ab"), SearchStep::Missing);
}

#[test]
fn search_step_goes_left_right_or_stops() {
    assert_eq!(search_step(b"ab", 0, 2, 1, b"ab\0\0"), SearchStep::Found(1));
    assert_eq!(search_step(b"aa", 0, 4, 2, b"ab\0\0"), SearchStep::Probe { lo: 0, hi: 1, ptr: 0 });
    assert_eq!(search_step(b"b", 0, 4, 2, b"ab\0\0"), SearchStep::Probe { lo: 3, hi: 4, ptr: 3 });
    assert_eq!(search_step(b"aa", 2, 4, 2, b"ab\0\0"), SearchStep::Missing);
    assert_eq!(search_step(b"b", 0, 2, 2, b"ab\0\0"), SearchStep::Missing);
    // a longer entry that starts with the word comes after it
    assert_eq!(search_step(b"ab", 0, 2, 1, b"abc\0"), SearchStep::Probe { lo: 0, hi: 0, ptr: 0 });
}

#[test]
fn stepped_search_agrees_and_reads_few_records() {
    let words: Vec<String> = (0..40).map(|i| format!("w{:02}", i)).collect();
    let mut data = vec![41, 0, 4, 0];
    for w in &words {
        data.extend_from_slice(w.as_bytes());
    }
    // floor(log2(40)) + 1 = 6
    for probe in words.iter().map(|w| w.as_str()).chain(["w40", "v00", "w", "x"]) {
        let (found, reads) = stepped_search(&data, probe.as_bytes());
        assert_eq!(found, get_index_file_nr(&data, probe));
        assert!(reads >= 1 && reads <= 6, "{} read {} records", probe, reads);
    }
}

#[test]
fn record_pointer_reads_count_and_pointer() {
    // word "ab", then count 5 (digit 6), then pointer 300 (digits 2 46)
    assert_eq!(record_pointer(&[97, 98, 0, 6, 0, 2, 46]), Some((5, 300)));
    // zero padding before the numbers is skipped
    assert_eq!(record_pointer(&[97, 0, 0, 0, 6, 0, 0, 3]), Some((5, 2)));
    assert_eq!(record_pointer(&[97, 0, 6, 0]), None);
    assert_eq!(record_pointer(&[]), None);
}

#[test]
fn positions_starting_with_zero_are_not_readable() {
    // one record: word "a", 1 byte to read, at pointer 0
    let keys = [2, 0, 6, 0, 97, 0, 2, 0, 1];
    assert!(!positions_readable(&keys, &[0, 0], 0));
    assert!(positions_readable(&keys, &[7, 0], 0));
    assert_eq!(read_record_positions(&keys, &[7, 0], 0), Some(vec![]));
    assert_eq!(read_record_positions(&keys, &[7, 0, 9], 0), Some(vec![]));
    // records that do not read, or indexes past the end, have nothing to read
    assert!(positions_readable(&keys, &[0], 1));
    assert!(positions_readable(&[2, 0], &[0], 0));
}

#[test]
fn written_positions_are_readable() {
    let b = bucket(4, &[("abc", &[0, 255]), ("abcd", &[7])]);
    let (keys, values) = encode_bucket(&b).unwrap();
    for i in 0..3 {
        assert!(positions_readable(&keys, &values, i));
    }
}

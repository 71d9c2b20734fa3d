use ion_mail::selection::{delete_uids, move_sequence_numbers, sequence_number};
use ion_mail::text::{
    chars_of, contains_chars, decimal_string, join_decimals, join_strings, parse_u32,
    split_on_char, starts_with_chars, str_equal, string_of,
};

#[test]
fn sequence_numbers_count_from_the_oldest() {
    assert_eq!(sequence_number(10, 0), Some(10));
    assert_eq!(sequence_number(10, 9), Some(1));
    assert_eq!(sequence_number(10, 10), None);
    assert_eq!(sequence_number(0, 0), None);
}

#[test]
fn move_goes_highest_sequence_number_first() {
    assert_eq!(move_sequence_numbers(5, &vec![4, 0, 2]), Some(vec![5, 3, 1]));
    assert_eq!(move_sequence_numbers(3, &vec![1, 0]), Some(vec![3, 2]));
    assert_eq!(move_sequence_numbers(5, &vec![]), Some(vec![]));
}

#[test]
fn move_refuses_unknown_or_repeated_numbers() {
    assert_eq!(move_sequence_numbers(5, &vec![5]), None);
    assert_eq!(move_sequence_numbers(5, &vec![1, 1]), None);
    assert_eq!(move_sequence_numbers(0, &vec![0]), None);
}

#[test]
fn delete_picks_unique_ids_newest_first() {
    let uids = vec![Some(100), Some(101), None, Some(103)];
    assert_eq!(delete_uids(&uids, &vec![2, 0]), Some(vec![103, 101]));
    assert_eq!(delete_uids(&uids, &vec![3]), Some(vec![100]));
}

#[test]
fn delete_refuses_missing_ids_and_repeats() {
    let uids = vec![Some(100), Some(101), None, Some(103)];
    assert_eq!(delete_uids(&uids, &vec![1]), None);
    assert_eq!(delete_uids(&uids, &vec![4]), None);
    assert_eq!(delete_uids(&uids, &vec![0, 0]), None);
}

#[test]
fn decimal_text() {
    for n in [0u64, 7, 10, 99, 100, 4294967295, u64::MAX] {
        assert_eq!(decimal_string(n), n.to_string());
    }
}

#[test]
fn parsing_numbers_like_std() {
    for s in ["0", "42", "+42", "007", "4294967295", "4294967296", "", "+", "-1", "1 ", "a1", "++1", "99999999999999999999"] {
        assert_eq!(parse_u32(s), s.parse::<u32>().ok(), "{:?}", s);
    }
}

#[test]
fn number_parses_back() {
    for n in [0u32, 1, 305, u32::MAX] {
        assert_eq!(parse_u32(&decimal_string(n as u64)), Some(n));
    }
}

#[test]
fn joining() {
    assert_eq!(join_decimals(&vec![1, 22, 333], ", "), "1, 22, 333");
    assert_eq!(join_strings(&vec!["a".to_string(), "b".to_string()], "%0A"), "a%0Ab");
    assert_eq!(join_strings(&vec![], "-"), "");
}

#[test]
fn character_helpers() {
    let s = chars_of("héllo");
    assert_eq!(s, vec!['h', 'é', 'l', 'l', 'o']);
    assert_eq!(string_of(&s), "héllo");
    assert!(contains_chars(&s, &chars_of("éll")));
    assert!(!contains_chars(&s, &chars_of("lle")));
    assert!(starts_with_chars(&s, &chars_of("hé")));
    assert!(!starts_with_chars(&s, &chars_of("e")));
    assert!(str_equal("abc", "abc"));
    assert!(!str_equal("abc", "abd"));
    let pieces: Vec<String> = split_on_char(&chars_of("a,b,,c"), ',').iter().map(string_of).collect();
    assert_eq!(pieces, vec!["a", "b", "", "c"]);
}

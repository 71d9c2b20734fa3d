use ion_mail::folders::{
    counted_folder, folder_line, parent_folder_chain, recursive_deletion, searches_all_folders,
    split_text, uid_set, MailboxEntry,
};

fn entry(name: &str, selectable: bool) -> MailboxEntry {
    MailboxEntry { name: name.to_string(), selectable }
}

fn chars(s: &str) -> Vec<char> {
    s.chars().collect()
}

#[test]
fn folder_lines_with_and_without_counts() {
    assert_eq!(folder_line("INBOX", Some((42, 3))), "INBOX [42, 3 unread]");
    assert_eq!(folder_line("Sent", None), "Sent");
    assert_eq!(folder_line("Empty", Some((0, 0))), "Empty [0, 0 unread]");
}

#[test]
fn counts_are_shown_for_folders_that_open() {
    assert!(!counted_folder(false, false));
    assert!(!counted_folder(false, true));
    assert!(counted_folder(true, true));
    assert!(!counted_folder(true, false));
}

#[test]
fn all_folders_search_name() {
    assert!(searches_all_folders("ALL"));
    assert!(!searches_all_folders("all"));
    assert!(!searches_all_folders("INBOX"));
}

#[test]
fn uid_sets_are_comma_separated() {
    assert_eq!(uid_set(&vec![3, 17, 4000000000]), "3,17,4000000000");
    assert_eq!(uid_set(&vec![9]), "9");
    assert_eq!(uid_set(&vec![]), "");
}

#[test]
fn split_matches_str_split() {
    for (s, sep) in [("a/b/c", "/"), ("a//b", "/"), ("/a/", "/"), ("", "/"), ("a.b", "."), ("ab::cd::", "::"), ("abc", "")] {
        let got = split_text(s, sep);
        let want: Vec<Vec<char>> = s.split(sep).map(chars).collect();
        assert_eq!(got, want, "{:?} split at {:?}", s, sep);
    }
}

#[test]
fn parents_are_created_outermost_first() {
    assert_eq!(
        parent_folder_chain("Work/Invoices/2024", "/"),
        vec!["Work".to_string(), "Work/Invoices".to_string(), "Work/Invoices/2024".to_string()]
    );
    assert_eq!(parent_folder_chain("a.b", "."), vec!["a".to_string(), "a.b".to_string()]);
    assert_eq!(parent_folder_chain("Single", "/"), vec!["Single".to_string()]);
}

#[test]
fn empty_first_level_gets_no_delimiter() {
    assert_eq!(parent_folder_chain("/x", "/"), vec!["".to_string(), "x".to_string()]);
    assert_eq!(parent_folder_chain("a//b", "/"), vec!["a".to_string(), "a/".to_string(), "a//b".to_string()]);
}

#[test]
fn subfolders_are_deleted_before_their_parents() {
    let entries = vec![
        entry("INBOX", true),
        entry("Work", true),
        entry("Work/A", true),
        entry("Work/A/Deep", true),
        entry("Work/B", true),
        entry("Workshop", true),
        entry("Work/Hidden", false),
    ];
    assert_eq!(
        recursive_deletion(&entries, "Work", "/"),
        vec!["Work/A/Deep".to_string(), "Work/B".to_string(), "Work/A".to_string(), "Work".to_string()]
    );
}

#[test]
fn deletion_of_unknown_folder_deletes_nothing() {
    let entries = vec![entry("INBOX", true)];
    assert!(recursive_deletion(&entries, "Work", "/").is_empty());
}

#[test]
fn deletion_order_counts_bytes() {
    let entries = vec![entry("R", true), entry("R/é", true), entry("R/ab", true)];
    assert_eq!(
        recursive_deletion(&entries, "R", "/"),
        vec!["R/ab".to_string(), "R/é".to_string(), "R".to_string()]
    );
}

#[test]
fn split_pieces_join_back() {
    for (s, sep) in [("Work/Invoices/2024", "/"), ("/lead", "/"), ("a::b::", "::"), ("", ".")] {
        let pieces: Vec<String> = split_text(s, sep).into_iter().map(|p| p.into_iter().collect()).collect();
        assert_eq!(pieces.join(sep), s);
    }
}

#[test]
fn recursive_deletion_uses_the_server_delimiter() {
    let entries = vec![entry("A", true), entry("A.B", true), entry("A/C", true), entry("AB", true)];
    assert_eq!(recursive_deletion(&entries, "A", "."), vec!["A.B".to_string(), "A".to_string()]);
    assert_eq!(recursive_deletion(&entries, "A", "/"), vec!["A/C".to_string(), "A".to_string()]);
}

use ion_mail::messages::{
    compose_mail, GivenFile,
    asks_confirmation, date_text_at,
    address_accepted, attachment_content_type, attachment_list, attachments_of, body_plan,
    date_value, display_date, download_plan, first_refused_recipient, listing_line_text,
    listing_lines, mail_bodies, message_matches, read_headers, render_mail, search_line,
    search_result_target, send_approved, split_recipients, DownloadFailure, ListingError,
    ReadHeaders,
};
use ion_mail::mime::{
    find_html_text, find_plain_text, read_header_fields, read_message, summarize_headers,
    top_level_parts, HeaderField, MailPart, ParsedMessage,
};

const MAIL: &str = "From: Alice <alice@example.com>\r\nTo: bob@example.com\r\nCc: carol@example.com\r\nSubject: Quarterly report\r\nDate: Tue, 1 Jul 2003 10:52:37 +0200\r\nMIME-Version: 1.0\r\nContent-Type: multipart/mixed; boundary=\"XYZ\"\r\n\r\n--XYZ\r\nContent-Type: multipart/alternative; boundary=\"ALT\"\r\n\r\n--ALT\r\nContent-Type: text/plain\r\n\r\nPlain body with numbers 42\r\n--ALT\r\nContent-Type: text/html\r\n\r\n<p>Html body</p>\r\n--ALT--\r\n--XYZ\r\nContent-Type: application/pdf\r\nContent-Disposition: attachment; filename=\"report.pdf\"\r\nContent-Transfer-Encoding: base64\r\n\r\nSGVsbG8=\r\n--XYZ\r\nContent-Type: text/plain\r\nContent-Disposition: attachment\r\n\r\nnotes\r\n--XYZ--\r\n";

fn message() -> ParsedMessage {
    read_message(&MAIL.as_bytes().to_vec()).expect("the sample mail parses")
}

fn part(mimetype: &str, body: Option<&str>, subparts: usize) -> MailPart {
    MailPart {
        mimetype: mimetype.to_string(),
        body: body.map(|b| b.to_string()),
        raw_body: body.map(|b| b.as_bytes().to_vec()),
        is_attachment: false,
        filename: None,
        subpart_count: subparts,
    }
}

fn bare(parts: Vec<MailPart>) -> ParsedMessage {
    ParsedMessage { subject: None, from: None, to: None, date: None, cc: None, parts }
}

#[test]
fn parts_are_read_depth_first() {
    let m = message();
    let types: Vec<&str> = m.parts.iter().map(|p| p.mimetype.as_str()).collect();
    assert_eq!(
        types,
        vec!["multipart/mixed", "multipart/alternative", "text/plain", "text/html", "application/pdf", "text/plain"]
    );
    assert_eq!(top_level_parts(&m), vec![1, 4, 5]);
    assert_eq!(m.subject.as_deref(), Some("Quarterly report"));
}

#[test]
fn plain_and_html_bodies_are_found() {
    let m = message();
    assert_eq!(find_plain_text(&m).unwrap().trim_end(), "Plain body with numbers 42");
    assert_eq!(find_html_text(&m).unwrap().trim_end(), "<p>Html body</p>");
}

#[test]
fn part_of_the_type_without_body_is_passed_over() {
    let m = bare(vec![
        part("multipart/mixed", None, 2),
        part("text/plain", None, 0),
        part("text/plain", Some("second"), 0),
    ]);
    assert_eq!(find_plain_text(&m), Some("second".to_string()));
    assert_eq!(find_plain_text(&bare(vec![part("text/plain", None, 0)])), None);
    let m2 = bare(vec![
        part("multipart/mixed", None, 2),
        part("multipart/alternative", None, 1),
        part("text/html", Some("<b>x</b>"), 0),
        part("text/plain", Some("outer"), 0),
    ]);
    assert_eq!(find_plain_text(&m2), Some("outer".to_string()));
    assert_eq!(find_html_text(&m2), Some("<b>x</b>".to_string()));
    assert_eq!(find_plain_text(&bare(vec![])), None);
}

#[test]
fn attachments_are_numbered_direct_subparts() {
    let m = message();
    assert_eq!(attachments_of(&m), vec![4, 5]);
    assert_eq!(attachment_list(&m), vec!["[000] report.pdf".to_string(), "[001] unnamed_file".to_string()]);
}

#[test]
fn download_all_attachments() {
    let m = message();
    let plan = download_plan(&m, &None);
    assert!(plan.failure.is_none());
    let saves: Vec<(usize, String)> = plan.saves.into_iter().map(|s| (s.part, s.file_name)).collect();
    assert_eq!(saves, vec![(4, "report.pdf".to_string()), (5, "attachment_1.bin".to_string())]);
    assert_eq!(m.parts[4].raw_body.as_deref(), Some(&b"Hello"[..]));
}

#[test]
fn download_chosen_attachments_only() {
    let m = message();
    let plan = download_plan(&m, &Some(vec![1]));
    assert!(plan.failure.is_none());
    let saves: Vec<(usize, String)> = plan.saves.into_iter().map(|s| (s.part, s.file_name)).collect();
    assert_eq!(saves, vec![(5, "attachment_1.bin".to_string())]);
    assert!(download_plan(&m, &Some(vec![7])).saves.is_empty());
}

#[test]
fn download_keeps_only_the_last_path_component() {
    let mut a = part("application/octet-stream", Some("x"), 0);
    a.filename = Some("../../etc/passwd".to_string());
    let m = bare(vec![part("multipart/mixed", None, 1), a]);
    let plan = download_plan(&m, &None);
    assert_eq!(plan.saves[0].file_name, "passwd");
}

#[test]
fn download_stops_at_a_name_without_file_component() {
    let mut bad = part("application/octet-stream", Some("x"), 0);
    bad.filename = Some("..".to_string());
    let mut good = part("application/octet-stream", Some("y"), 0);
    good.filename = Some("ok.txt".to_string());
    let m = bare(vec![part("multipart/mixed", None, 2), good, bad]);
    let plan = download_plan(&m, &Some(vec![0]));
    assert_eq!(plan.failure, Some(DownloadFailure::InvalidFilename));
    assert_eq!(plan.saves.len(), 1);
}

#[test]
fn download_stops_at_an_undecodable_body() {
    let mut a = part("application/octet-stream", None, 0);
    a.is_attachment = true;
    let m = bare(vec![part("multipart/mixed", None, 1), a]);
    let plan = download_plan(&m, &None);
    assert_eq!(plan.failure, Some(DownloadFailure::UnreadableBody));
    assert!(plan.saves.is_empty());
}

const HEADERS_OLD: &str = "Subject: First\r\nFrom: Alice <alice@example.com>\r\nDate: Tue, 1 Jul 2003 10:52:37 +0200\r\n\r\n";
const HEADERS_NEW: &str = "subject: Second\r\nFROM: Bob <bob@example.org>\r\nDate: Wed, 2 Jul 2003 08:00:00 +0000\r\n\r\n";

#[test]
fn listing_goes_newest_first() {
    let headers = vec![Some(HEADERS_OLD.as_bytes().to_vec()), None, Some(HEADERS_NEW.as_bytes().to_vec())];
    let lines = listing_lines(&headers).unwrap();
    assert_eq!(lines.len(), 2);
    assert!(lines[0].starts_with("[000] Second | Bob <bob@example.org> | 2003-07-0"), "{}", lines[0]);
    assert!(lines[1].starts_with("[001] First | Alice <alice@example.com> | 2003-07-0"), "{}", lines[1]);
}

#[test]
fn listing_refuses_bad_dates_and_headers() {
    let bad_date = vec![Some(b"Subject: x\r\nDate: yesterday\r\n\r\n".to_vec())];
    assert_eq!(listing_lines(&bad_date).err(), Some(ListingError::Date));
    let bad_headers = vec![Some(b" starts with a space\r\n\r\n".to_vec())];
    assert_eq!(listing_lines(&bad_headers).err(), Some(ListingError::Headers));
    assert_eq!(listing_lines(&vec![]).unwrap(), Vec::<String>::new());
}

#[test]
fn listing_line_format() {
    assert_eq!(listing_line_text(7, "Hi", "Ann", "2024-01-02 03:04:05 PM"), "[007] Hi | Ann | 2024-01-02 03:04:05 PM");
    assert_eq!(listing_line_text(1234, "", "", ""), "[1234]  |  | ");
}

#[test]
fn header_summary_takes_last_field_of_each_name() {
    let fields = read_header_fields(&b"Subject: a\r\nSUBJECT: b\r\nFrom: f\r\n\r\n".to_vec()).unwrap();
    let s = summarize_headers(&fields);
    assert_eq!((s.subject.as_str(), s.from.as_str(), s.date.as_str()), ("b", "f", ""));
    let manual = vec![HeaderField { key: "Date".to_string(), value: "d".to_string() }];
    assert_eq!(summarize_headers(&manual).date, "d");
}

#[test]
fn dates_are_read_as_rfc_2822() {
    assert!(display_date("Tue, 1 Jul 2003 10:52:37 +0200").is_some());
    assert!(display_date("2003-07-01").is_none());
}

#[test]
fn reading_a_message() {
    let m = message();
    let h = read_headers(&m, "DATE".to_string());
    assert_eq!(date_value(&m), "Tue, 1 Jul 2003 10:52:37 +0200");
    let text = render_mail(&h, &attachment_list(&m), "body");
    assert_eq!(
        text,
        "From:     Alice <alice@example.com>\nTo:       bob@example.com\nCc:    carol@example.com\nDate:     DATE\nSubject:  Quarterly report\nAttachments:  [000] report.pdf, [001] unnamed_file\n\nbody"
    );
    let plain = ReadHeaders { from: "f".into(), to: "t".into(), cc: String::new(), date: "d".into(), subject: "s".into() };
    assert_eq!(render_mail(&plain, &vec![], "b"), "From:     f\nTo:       t\nDate:     d\nSubject:  s\n\nb");
}

#[test]
fn body_plan_prefers_html() {
    let both = body_plan(&Some("<p>Hello</p>".to_string()), &Some("plain".to_string()));
    let md = both.markdown.unwrap();
    assert!(md.contains("Hello") && !md.contains("<p>"), "{}", md);
    assert_eq!(both.fallback, "plain");
    let html_only = body_plan(&Some("<p>Hello</p>".to_string()), &None);
    assert_eq!(html_only.markdown.clone().unwrap(), html_only.fallback);
    let plain_only = body_plan(&None, &Some("plain".to_string()));
    assert!(plain_only.markdown.is_none());
    assert_eq!(plain_only.fallback, "plain");
    let nothing = body_plan(&None, &None);
    assert_eq!(nothing.fallback, " (No content) ");
}

#[test]
fn search_matches_every_header_and_both_bodies() {
    let m = message();
    let fields = read_header_fields(&MAIL.as_bytes().to_vec()).unwrap();
    assert!(message_matches(&m, &fields, "Quarterly"));
    assert!(message_matches(&m, &fields, "alice@"));
    assert!(message_matches(&m, &fields, "numbers 42"));
    assert!(message_matches(&m, &fields, "Html body"));
    assert!(message_matches(&m, &fields, "bob@example.com"));
    assert!(message_matches(&m, &fields, "carol@"));
    assert!(message_matches(&m, &fields, "multipart/mixed"));
    assert!(!message_matches(&m, &fields, "quarterly"));
    assert!(!message_matches(&m, &fields, "nowhere"));
    assert!(message_matches(&m, &fields, ""));
    assert!(!message_matches(&m, &vec![], "carol@"));
}

#[test]
fn search_result_lines() {
    let m = message();
    assert_eq!(search_line(3, &None, &m), "[003] | Quarterly report | Alice <alice@example.com>");
    assert_eq!(
        search_line(3, &Some("Archive".to_string()), &m),
        "[003] | Archive | Quarterly report | Alice <alice@example.com>"
    );
    let results = vec![("INBOX".to_string(), 7), ("Sent".to_string(), 2)];
    assert_eq!(search_result_target(&results, 1), ("Sent".to_string(), 2));
    assert_eq!(search_result_target(&results, 0), ("INBOX".to_string(), 7));
}

#[test]
fn recipients_split_at_spaces() {
    assert_eq!(split_recipients("a@x.org b@y.org"), vec!["a@x.org".to_string(), "b@y.org".to_string()]);
    assert_eq!(split_recipients("a@x.org  b"), vec!["a@x.org".to_string(), "".to_string(), "b".to_string()]);
    assert_eq!(split_recipients(""), vec!["".to_string()]);
}

#[test]
fn markdown_bodies() {
    let b = mail_bodies("# Title\n\n**bold** text");
    assert!(b.html.contains("<h1>Title</h1>"), "{}", b.html);
    assert!(b.html.contains("<strong>bold</strong>"), "{}", b.html);
    assert!(!b.plain.contains("**"), "{}", b.plain);
    assert!(b.plain.contains("bold"), "{}", b.plain);
}

#[test]
fn attachment_types_are_guessed_from_names() {
    assert_eq!(attachment_content_type("report.pdf"), "application/pdf");
    assert_eq!(attachment_content_type("/tmp/photo.png"), "image/png");
    assert_eq!(attachment_content_type("data.unknownext"), "application/octet-stream");
}

#[test]
fn recipients_are_checked_by_lettre() {
    assert!(address_accepted("user@example.com"));
    assert!(!address_accepted("not an address"));
    let rs = vec!["a@example.com".to_string(), "broken".to_string(), "c@".to_string()];
    assert_eq!(first_refused_recipient(&rs), Some(1));
    assert_eq!(first_refused_recipient(&vec!["a@example.com".to_string()]), None);
}

#[test]
fn sending_needs_confirmation_or_skip() {
    assert!(send_approved(true, false));
    assert!(send_approved(false, true));
    assert!(!send_approved(false, false));
    assert!(!asks_confirmation(true));
    assert!(asks_confirmation(false));
}

#[test]
fn dates_at_fixed_offsets() {
    let d = "Tue, 1 Jul 2003 10:52:37 +0200";
    assert_eq!(date_text_at(d, 0), Some("2003-07-01 08:52:37 AM".to_string()));
    assert_eq!(date_text_at(d, 3600), Some("2003-07-01 09:52:37 AM".to_string()));
    assert_eq!(date_text_at(d, 7 * 3600), Some("2003-07-01 03:52:37 PM".to_string()));
    assert_eq!(date_text_at(d, -10 * 3600), Some("2003-06-30 10:52:37 PM".to_string()));
    assert_eq!(date_text_at("2003-07-01", 0), None);
}

#[test]
fn outgoing_mail_layout() {
    let files = vec![
        GivenFile { path: "/data/report.pdf".to_string(), content: Some(b"PDF".to_vec()) },
        GivenFile { path: "/data/notes.txt".to_string(), content: None },
        GivenFile { path: "/data/..".to_string(), content: Some(b"x".to_vec()) },
        GivenFile { path: "photo.png".to_string(), content: Some(vec![1, 2]) },
    ];
    let to = vec!["a@example.com".to_string(), "b@example.com".to_string()];
    let mail = compose_mail("me@example.com", &to, "Hi", "**bold**", &files);
    assert_eq!(mail.from, "me@example.com");
    assert_eq!(mail.to, to);
    assert_eq!(mail.subject, "Hi");
    assert!(!mail.plain.contains("**") && mail.plain.contains("bold"), "{}", mail.plain);
    assert!(mail.html.contains("<strong>bold</strong>"), "{}", mail.html);
    let attached: Vec<(String, String, Vec<u8>)> =
        mail.attachments.into_iter().map(|a| (a.name, a.content_type, a.content)).collect();
    assert_eq!(
        attached,
        vec![
            ("report.pdf".to_string(), "application/pdf".to_string(), b"PDF".to_vec()),
            ("photo.png".to_string(), "image/png".to_string(), vec![1, 2]),
        ]
    );
    assert_eq!(mail.unnamed, vec![2]);
}

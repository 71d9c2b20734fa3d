//! Reading, listing, searching, downloading from and composing messages.
use vstd::prelude::*;
use chrono::TimeZone;
use std::fmt::Write;
use crate::mime::{
    lemma_top_level_increasing,
    fields_view, last_field, opt_chars, parts_view, read_header_fields, spec_header_fields,
    summarize_headers, top_level_parts, top_level_positions, HeaderField, MailPart, MessageView, ParsedMessage, PartView,
};
use crate::token::{instant_view, Instant};
use crate::text::{
    chars_of, contains_chars, decimal, decimal3, extend_str, has_substring, join_with,
    push_decimal, push_decimal3, split_char, split_on_char, string_of, string_seq_view,
};

verus! {

broadcast use vstd::seq_lib::group_seq_properties;

// ---------------------------------------------------------------------------
// Outside conversions
// ---------------------------------------------------------------------------

/// What `html2md::parse_html` makes of an HTML text (Markdown).
pub uninterp spec fn spec_html_to_markdown(html: Seq<char>) -> Seq<char>;

/// `html2md::parse_html`. The contract names the result.
#[verifier::external_body]
fn html_to_markdown(html: &str) -> (r: String)
    ensures
        r@ == spec_html_to_markdown(html@),
{
    html2md::parse_html(html)
}

/// What `markdown::to_html` makes of a Markdown text.
pub uninterp spec fn spec_markdown_to_html(markdown: Seq<char>) -> Seq<char>;

/// `markdown::to_html` (CommonMark, default options, which never fail).
/// The contract names the result.
#[verifier::external_body]
fn markdown_to_html(markdown: &str) -> (r: String)
    ensures
        r@ == spec_markdown_to_html(markdown@),
{
    markdown::to_html(markdown)
}

/// What `strip_markdown::strip_markdown` makes of a Markdown text (the
/// text without its markup).
pub uninterp spec fn spec_strip_markdown(markdown: Seq<char>) -> Seq<char>;

/// `strip_markdown::strip_markdown`. The contract names the result.
#[verifier::external_body]
fn strip_markdown_text(markdown: &str) -> (r: String)
    ensures
        r@ == spec_strip_markdown(markdown@),
{
    strip_markdown::strip_markdown(markdown)
}

/// The MIME type `mime_guess` gives a file name by its extension, written
/// `type/subtype` (`application/octet-stream` where it knows none).
pub uninterp spec fn spec_guessed_mime(path: Seq<char>) -> Seq<char>;

/// `mime_guess::from_path(..).first_or_octet_stream()`, written
/// `type/subtype`. The contract names the result.
#[verifier::external_body]
fn guess_mime(path: &str) -> (r: String)
    ensures
        r@ == spec_guessed_mime(path@),
{
    let guess = mime_guess::from_path(path).first_or_octet_stream();
    format!("{}/{}", guess.type_(), guess.subtype())
}

/// Whether `lettre` accepts a text as a mail address (`Address::from_str`).
pub uninterp spec fn spec_lettre_address_ok(text: Seq<char>) -> bool;

/// `lettre::Address::from_str`, taken as whether it succeeds. The contract
/// names the result.
#[verifier::external_body]
fn lettre_address_ok(text: &str) -> (r: bool)
    ensures
        r == spec_lettre_address_ok(text@),
{
    text.parse::<lettre::Address>().is_ok()
}

/// The last component of a path (`Path::file_name`), `None` for a path
/// that ends in `..`, is a root, or is empty.
pub uninterp spec fn spec_file_name(path: Seq<char>) -> Option<Seq<char>>;

/// Whether a name is a single path component: not empty, holding no `/`,
/// and neither `.` nor `..`.
pub open spec fn single_component(name: Seq<char>) -> bool {
    name.len() > 0 && !name.contains('/') && name != "."@ && name != ".."@
}

/// `std::path::Path::file_name`, as text. The contract names the result,
/// and states what the source shows of it on every platform: it is the last
/// component of a path, a normal one (never `.` or `..`), with no `/`.
#[verifier::external_body]
fn file_name(path: &str) -> (r: Option<String>)
    ensures
        opt_chars(r) == spec_file_name(path@),
        r matches Some(n) ==> single_component(n@),
{
    std::path::Path::new(path).file_name().and_then(|n| n.to_str()).map(|n| n.to_string())
}

/// The instant chrono reads from an RFC 2822 date
/// (`DateTime::parse_from_rfc2822`, as `timestamp` and
/// `timestamp_subsec_nanos`); `None` where it refuses the text.
pub uninterp spec fn spec_rfc2822_instant(text: Seq<char>) -> Option<(i64, u32)>;

/// Whether chrono's `DateTime::from_timestamp` accepts seconds and
/// nanoseconds (whether they name an instant within its range).
pub uninterp spec fn spec_timestamp_ok(seconds: i64, nanos: u32) -> bool;

/// `chrono::DateTime::parse_from_rfc2822`, taken as the instant it names.
/// The contract names the result, and states that the instant of a parsed
/// date is one that `from_timestamp` gives back (it is the inverse of
/// `timestamp`).
#[verifier::external_body]
fn rfc2822_instant(text: &str) -> (r: Option<Instant>)
    ensures
        match r {
            Some(i) => spec_rfc2822_instant(text@) == Some(instant_view(i)) && spec_timestamp_ok(
                i.seconds,
                i.nanos,
            ),
            None => spec_rfc2822_instant(text@) is None,
        },
{
    let d = chrono::DateTime::parse_from_rfc2822(text).ok()?;
    Some(Instant { seconds: d.timestamp(), nanos: d.timestamp_subsec_nanos() })
}

/// The offset of the machine's local time zone from UTC at an instant, in
/// seconds (`Local.offset_from_utc_datetime(..).local_minus_utc()`);
/// `None` where `from_timestamp` refuses the instant. It depends on the
/// machine's time zone, so only its range is stated: chrono's
/// `FixedOffset` lies strictly within one day.
#[verifier::external_body]
fn local_offset(at: &Instant) -> (r: Option<i32>)
    ensures
        r is Some <==> spec_timestamp_ok(at.seconds, at.nanos),
        r matches Some(o) ==> -86400 < o < 86400,
{
    let d = chrono::DateTime::from_timestamp(at.seconds, at.nanos)?;
    Some(chrono::Local.offset_from_utc_datetime(&d.naive_utc()).local_minus_utc())
}

/// The text chrono writes for an instant at a fixed offset from UTC with a
/// `strftime`-style format (`DelayedFormat` written out); `None` where
/// `from_timestamp` refuses the instant or the format does not write.
pub uninterp spec fn spec_offset_date_text(seconds: i64, nanos: u32, offset: i32, format: Seq<char>) -> Option<Seq<char>>;

/// `DateTime::with_timezone` to `FixedOffset::east_opt(offset)`, then
/// `format(format)` written into a string. The contract names the text. It
/// states that there is a text only for an instant `from_timestamp`
/// accepts, and that there is one for such an instant with the format
/// `%Y-%m-%d %I:%M:%S %p` (every specifier of it is one chrono's
/// `StrftimeItems` knows; `east_opt` accepts every offset within one day).
#[verifier::external_body]
fn offset_date_text(at: &Instant, offset: i32, format: &str) -> (r: Option<String>)
    requires
        -86400 < offset < 86400,
    ensures
        opt_chars(r) == spec_offset_date_text(at.seconds, at.nanos, offset, format@),
        r is Some ==> spec_timestamp_ok(at.seconds, at.nanos),
        spec_timestamp_ok(at.seconds, at.nanos) && format@ == "%Y-%m-%d %I:%M:%S %p"@ ==> r is Some,
{
    let d = chrono::DateTime::from_timestamp(at.seconds, at.nanos)?;
    let o = chrono::FixedOffset::east_opt(offset)?;
    let mut text = String::new();
    write!(text, "{}", d.with_timezone(&o).format(format)).ok()?;
    Some(text)
}

/// The format in which the client shows dates.
pub open spec fn date_format() -> Seq<char> {
    "%Y-%m-%d %I:%M:%S %p"@
}

/// How a date is shown at a given offset from UTC: the date chrono reads
/// from the text, written at that offset in the client's date format.
pub open spec fn date_text_spec(text: Seq<char>, offset: i32) -> Option<Seq<char>> {
    match spec_rfc2822_instant(text) {
        Some(i) => spec_offset_date_text(i.0, i.1, offset, date_format()),
        None => None,
    }
}

/// Whether `shown` is how the date `text` is shown at some offset from UTC
/// (the local offset of the machine at that date).
pub open spec fn shows_date(text: Seq<char>, shown: Seq<char>) -> bool {
    exists|off: i32| -86400 < off < 86400 && #[trigger] date_text_spec(text, off) == Some(shown)
}

/// A message's date shown at a given offset from UTC; `None` where the
/// date is not RFC 2822.
pub fn date_text_at(text: &str, offset: i32) -> (r: Option<String>)
    requires
        -86400 < offset < 86400,
    ensures
        spec_rfc2822_instant(text@) is Some <==> r is Some,
        opt_chars(r) == date_text_spec(text@, offset),
{
    match rfc2822_instant(text) {
        Some(i) => offset_date_text(&i, offset, "%Y-%m-%d %I:%M:%S %p"),
        None => None,
    }
}

/// A message's date, shown in the local time zone (at the machine's
/// offset from UTC at that date); `None` where the date is not RFC 2822.
pub fn display_date(text: &str) -> (r: Option<String>)
    ensures
        r is Some <==> spec_rfc2822_instant(text@) is Some,
        r matches Some(t) ==> shows_date(text@, t@),
{
    let i = match rfc2822_instant(text) {
        Some(i) => i,
        None => return None,
    };
    let off = match local_offset(&i) {
        Some(o) => o,
        None => return None,
    };
    let t = offset_date_text(&i, off, "%Y-%m-%d %I:%M:%S %p");
    proof {
        if t is Some {
            assert(date_text_spec(text@, off) == Some(t->0@));
        }
    }
    t
}

// ---------------------------------------------------------------------------
// Folder listings
// ---------------------------------------------------------------------------

/// A line of a folder listing: `[n] subject | sender | date`.
pub open spec fn listing_line(n: nat, subject: Seq<char>, from: Seq<char>, date: Seq<char>) -> Seq<char> {
    "["@ + decimal3(n) + "] "@ + subject + " | "@ + from + " | "@ + date
}

/// The line of a folder listing for message number `n`.
pub fn listing_line_text(n: usize, subject: &str, from: &str, date: &str) -> (r: String)
    ensures
        r@ == listing_line(n as nat, subject@, from@, date@),
{
    let mut v: Vec<char> = Vec::new();
    extend_str(&mut v, "[");
    push_decimal3(&mut v, n as u64);
    extend_str(&mut v, "] ");
    extend_str(&mut v, subject);
    extend_str(&mut v, " | ");
    extend_str(&mut v, from);
    extend_str(&mut v, " | ");
    extend_str(&mut v, date);
    assert(v@ =~= listing_line(n as nat, subject@, from@, date@));
    string_of(&v)
}

/// The header blocks of a folder's messages in listing order: newest first,
/// messages without a header block left out.
pub open spec fn listed_headers(headers: Seq<Option<Vec<u8>>>) -> Seq<Seq<u8>> {
    headers.reverse().filter(|h: Option<Vec<u8>>| h is Some).map_values(|h: Option<Vec<u8>>| h->0@)
}

/// Whether a header block can be listed: its fields parse and its date is
/// RFC 2822.
pub open spec fn listable(raw: Seq<u8>) -> bool {
    match spec_header_fields(raw) {
        Some(f) => spec_rfc2822_instant(last_field(f, "date"@)) is Some,
        None => false,
    }
}

/// Whether a line lists a header block as message number `n`: its last
/// subject and sender fields, and its date shown in local time.
pub open spec fn lists(line: Seq<char>, n: nat, raw: Seq<u8>) -> bool {
    exists|d: Seq<char>|
        shows_date(last_field(spec_header_fields(raw)->0, "date"@), d) && line == #[trigger] listing_line(
            n,
            last_field(spec_header_fields(raw)->0, "subject"@),
            last_field(spec_header_fields(raw)->0, "from"@),
            d,
        )
}

/// Why a folder cannot be listed.
#[derive(Debug, PartialEq, Eq)]
pub enum ListingError {
    /// A message's header fields do not parse.
    Headers,
    /// A message's date is not RFC 2822.
    Date,
}

/// The listing error a header block causes.
pub open spec fn listing_error_of(raw: Seq<u8>) -> ListingError {
    if spec_header_fields(raw) is None {
        ListingError::Headers
    } else {
        ListingError::Date
    }
}

/// The lines of a folder listing (`folder view`, and `mail delete` without
/// numbers). `headers` holds each message's header block in the server's
/// order (oldest first), where there is one. The lines go newest first,
/// numbered from 0, messages without a header block left out; each shows
/// the last `subject`, `from` and `date` fields (the date in local time).
/// Fails at the first message whose fields or date cannot be read.
pub fn listing_lines(headers: &Vec<Option<Vec<u8>>>) -> (r: Result<Vec<String>, ListingError>)
    ensures
        match r {
            Ok(lines) => {
                &&& lines@.len() == listed_headers(headers@).len()
                &&& forall|i: int| 0 <= i < lines@.len() ==> #[trigger] listable(listed_headers(headers@)[i])
                &&& forall|i: int| 0 <= i < lines@.len() ==> #[trigger] lists(lines@[i]@, i as nat, listed_headers(headers@)[i])
            },
            Err(e) => exists|k: int|
                0 <= k < listed_headers(headers@).len() && !listable(listed_headers(headers@)[k])
                    && e == listing_error_of(listed_headers(headers@)[k]) && forall|j: int|
                    0 <= j < k ==> #[trigger] listable(listed_headers(headers@)[j]),
        },
{
    let n = headers.len();
    let ghost rev = headers@.reverse();
    let ghost pred = |h: Option<Vec<u8>>| h is Some;
    let ghost conv = |h: Option<Vec<u8>>| h->0@;
    let mut lines: Vec<String> = Vec::new();
    let mut c: usize = 0;
    while c < n
        invariant
            c <= n,
            n == headers@.len(),
            rev == headers@.reverse(),
            pred == (|h: Option<Vec<u8>>| h is Some),
            conv == (|h: Option<Vec<u8>>| h->0@),
            lines@.len() == rev.take(c as int).filter(pred).len(),
            forall|i: int| 0 <= i < lines@.len() ==> #[trigger] listable(rev.take(c as int).filter(pred).map_values(conv)[i]),
            forall|i: int| 0 <= i < lines@.len() ==> #[trigger] lists(lines@[i]@, i as nat, rev.take(c as int).filter(pred).map_values(conv)[i]),
        decreases n - c,
    {
        let ghost pre = rev.take(c as int);
        let ghost post = rev.take(c as int + 1);
        assert(post =~= pre.push(rev[c as int]));
        assert(rev[c as int] == headers@[n - 1 - c]);
        proof {
            pre.lemma_filter_push(rev[c as int], pred);
        }
        match &headers[n - 1 - c] {
            None => {
                assert(post.filter(pred) == pre.filter(pred));
            },
            Some(raw) => {
                let ghost item = raw@;
                assert(post.filter(pred) == pre.filter(pred).push(rev[c as int]));
                assert(post.filter(pred).map_values(conv) =~= pre.filter(pred).map_values(conv).push(item));
                let fields = match read_header_fields(raw) {
                    Some(f) => f,
                    None => {
                        proof {
                            assert(!listable(item));
                            assert(listing_error_of(item) == ListingError::Headers);
                            let k = lines@.len() as int;
                            assert(post.filter(pred).map_values(conv)[k] == item);
                            assert forall|j: int| 0 <= j < k implies #[trigger] listable(post.filter(pred).map_values(conv)[j]) by {
                                assert(post.filter(pred).map_values(conv)[j] == pre.filter(pred).map_values(conv)[j]);
                            }
                            lemma_listed_prefix(headers@, c as int + 1);
                            let full = listed_headers(headers@);
                            let part = post.filter(pred).map_values(conv);
                            assert(full[k] == part[k]);
                            assert forall|j: int| 0 <= j < k implies #[trigger] listable(full[j]) by {
                                assert(full[j] == part[j]);
                            }
                            assert(0 <= k < full.len() && !listable(full[k]) && ListingError::Headers == listing_error_of(full[k]));
                        }
                        return Err(ListingError::Headers);
                    },
                };
                let summary = summarize_headers(&fields);
                let date = match display_date(summary.date.as_str()) {
                    Some(d) => d,
                    None => {
                        proof {
                            assert(!listable(item));
                            let k = lines@.len() as int;
                            assert(post.filter(pred).map_values(conv)[k] == item);
                            assert forall|j: int| 0 <= j < k implies #[trigger] listable(post.filter(pred).map_values(conv)[j]) by {
                                assert(post.filter(pred).map_values(conv)[j] == pre.filter(pred).map_values(conv)[j]);
                            }
                            lemma_listed_prefix(headers@, c as int + 1);
                            let full = listed_headers(headers@);
                            let part = post.filter(pred).map_values(conv);
                            assert(full[k] == part[k]);
                            assert forall|j: int| 0 <= j < k implies #[trigger] listable(full[j]) by {
                                assert(full[j] == part[j]);
                            }
                            assert(0 <= k < full.len() && !listable(full[k]) && ListingError::Date == listing_error_of(full[k]));
                        }
                        return Err(ListingError::Date);
                    },
                };
                let ghost k = lines@.len() as int;
                let line = listing_line_text(lines.len(), summary.subject.as_str(), summary.from.as_str(), date.as_str());
                lines.push(line);
                assert forall|i: int| 0 <= i < lines@.len() implies #[trigger] listable(post.filter(pred).map_values(conv)[i]) by {
                    if i < k {
                        assert(post.filter(pred).map_values(conv)[i] == pre.filter(pred).map_values(conv)[i]);
                    }
                }
                assert forall|i: int| 0 <= i < lines@.len() implies #[trigger] lists(lines@[i]@, i as nat, post.filter(pred).map_values(conv)[i]) by {
                    if i < k {
                        assert(post.filter(pred).map_values(conv)[i] == pre.filter(pred).map_values(conv)[i]);
                    } else {
                        assert(post.filter(pred).map_values(conv)[i] == item);
                        assert(spec_header_fields(item)->0 == fields_view(fields@));
                        assert(lines@[i]@ == listing_line(
                            i as nat,
                            last_field(spec_header_fields(item)->0, "subject"@),
                            last_field(spec_header_fields(item)->0, "from"@),
                            date@,
                        ));
                    }
                }
            },
        }
        c = c + 1;
    }
    assert(rev.take(n as int) =~= rev);
    Ok(lines)
}

proof fn lemma_listed_prefix(headers: Seq<Option<Vec<u8>>>, m: int)
    requires
        0 <= m <= headers.len(),
    ensures
        headers.reverse().take(m).filter(|h: Option<Vec<u8>>| h is Some).map_values(|h: Option<Vec<u8>>| h->0@)
            .is_prefix_of(listed_headers(headers)),
{
    let rev = headers.reverse();
    let pred = |h: Option<Vec<u8>>| h is Some;
    assert(rev =~= rev.take(m) + rev.skip(m));
    Seq::filter_distributes_over_add(rev.take(m), rev.skip(m), pred);
    let a = rev.take(m).filter(pred);
    let b = rev.skip(m).filter(pred);
    let conv = |h: Option<Vec<u8>>| h->0@;
    assert((a + b).map_values(conv) =~= a.map_values(conv) + b.map_values(conv));
}

proof fn lemma_filter_keeps_all(s: Seq<Option<Vec<u8>>>, p: spec_fn(Option<Vec<u8>>) -> bool)
    requires
        forall|i: int| 0 <= i < s.len() ==> p(#[trigger] s[i]),
    ensures
        s.filter(p) == s,
    decreases s.len(),
{
    reveal(Seq::filter);
    if s.len() > 0 {
        lemma_filter_keeps_all(s.drop_last(), p);
        assert(p(s[s.len() - 1]));
        assert(s.drop_last().push(s.last()) =~= s);
    }
}

/// Where every message of a folder has a header block, line `n` of the
/// folder listing describes the message that number `n` opens for reading,
/// moving and deleting: the one at sequence number `total - n` (index
/// `total - n - 1` in the server's order).
pub proof fn lemma_listing_numbers_match_reading(headers: Seq<Option<Vec<u8>>>, n: int)
    requires
        forall|i: int| 0 <= i < headers.len() ==> (#[trigger] headers[i]) is Some,
        0 <= n < headers.len(),
    ensures
        listed_headers(headers).len() == headers.len(),
        listed_headers(headers)[n] == headers[headers.len() - n - 1]->0@,
{
    let rev = headers.reverse();
    let pred = |h: Option<Vec<u8>>| h is Some;
    assert forall|i: int| 0 <= i < rev.len() implies pred(#[trigger] rev[i]) by {
        assert(rev[i] == headers[headers.len() - 1 - i]);
    }
    lemma_filter_keeps_all(rev, pred);
    assert(rev[n] == headers[headers.len() - n - 1]);
}

// ---------------------------------------------------------------------------
// Attachments
// ---------------------------------------------------------------------------

/// Whether a part counts as an attachment: its disposition is
/// `attachment`, or it names a file.
pub open spec fn attachment_like(p: PartView) -> bool {
    p.is_attachment || p.filename is Some
}

/// The positions of a message's attachments: its direct subparts that
/// count as attachments, in order. Attachments are numbered from 0 in this
/// order.
pub open spec fn attachment_positions(parts: Seq<PartView>) -> Seq<int> {
    top_level_positions(parts).filter(|k: int| attachment_like(parts[k]))
}

proof fn lemma_filter_increasing(s: Seq<int>, p: spec_fn(int) -> bool)
    requires
        forall|i: int, j: int| 0 <= i < j < s.len() ==> s[i] < s[j],
    ensures
        forall|i: int, j: int| 0 <= i < j < s.filter(p).len() ==> s.filter(p)[i] < s.filter(p)[j],
    decreases s.len(),
{
    reveal(Seq::filter);
    if s.len() > 0 {
        let r = s.drop_last();
        lemma_filter_increasing(r, p);
        let f = r.filter(p);
        if p(s.last()) {
            let out = s.filter(p);
            assert(out == f.push(s.last()));
            assert forall|i: int, j: int| 0 <= i < j < out.len() implies out[i] < out[j] by {
                if j == out.len() - 1 {
                    assert(out[i] == f[i]);
                    assert(f.contains(f[i]));
                    r.lemma_filter_contains_rev(p, f[i]);
                    let w = choose|w: int| 0 <= w < r.len() && r[w] == f[i];
                    assert(s[w] == f[i]);
                } else {
                    assert(out[i] == f[i] && out[j] == f[j]);
                }
            }
        }
    }
}

/// Attachments are direct subparts of the message: every attachment is
/// one of the message's direct subparts (never a part nested inside one)
/// and counts as an attachment; every direct subpart that counts as one
/// is an attachment; and attachments are numbered in the order of the
/// parts.
pub proof fn lemma_attachments_are_direct_subparts(parts: Seq<PartView>)
    ensures
        forall|j: int|
            0 <= j < attachment_positions(parts).len() ==> top_level_positions(parts).contains(
                #[trigger] attachment_positions(parts)[j],
            ) && attachment_like(parts[attachment_positions(parts)[j]]),
        forall|k: int|
            #[trigger] top_level_positions(parts).contains(k) && attachment_like(parts[k]) ==> attachment_positions(
                parts,
            ).contains(k),
        forall|i: int, j: int|
            0 <= i < j < attachment_positions(parts).len() ==> attachment_positions(parts)[i]
                < attachment_positions(parts)[j],
{
    let top = top_level_positions(parts);
    let keep = |k: int| attachment_like(parts[k]);
    let ap = attachment_positions(parts);
    assert(ap == top.filter(keep));
    assert forall|j: int| 0 <= j < ap.len() implies top.contains(#[trigger] ap[j]) && attachment_like(parts[ap[j]]) by {
        top.lemma_filter_pred(keep, j);
        assert(ap.contains(ap[j]));
        top.lemma_filter_contains_rev(keep, ap[j]);
    }
    assert forall|k: int| #[trigger] top.contains(k) && attachment_like(parts[k]) implies ap.contains(k) by {
        let w = choose|w: int| 0 <= w < top.len() && top[w] == k;
        top.lemma_filter_contains(keep, w);
    }
    lemma_top_level_increasing(parts);
    lemma_filter_increasing(top, keep);
}

/// The positions of a message's attachments.
pub fn attachments_of(message: &ParsedMessage) -> (r: Vec<usize>)
    ensures
        r@.map_values(|i: usize| i as int) == attachment_positions(message@.parts),
        forall|i: int| 0 <= i < r@.len() ==> #[trigger] r@[i] < message.parts@.len(),
        forall|i: int|
            0 <= i < r@.len() ==> top_level_positions(message@.parts).contains(#[trigger] r@[i] as int)
                && attachment_like(message@.parts[r@[i] as int]),
        forall|k: int|
            #[trigger] top_level_positions(message@.parts).contains(k) && attachment_like(message@.parts[k])
                ==> exists|i: int| 0 <= i < r@.len() && r@[i] as int == k,
        forall|i: int, j: int| 0 <= i < j < r@.len() ==> r@[i] < r@[j],
{
    let top = top_level_parts(message);
    let ghost ps = message@.parts;
    let ghost keep = |k: int| attachment_like(ps[k]);
    let mut out: Vec<usize> = Vec::new();
    let mut i: usize = 0;
    proof {
        lemma_top_level_in_range(ps);
    }
    while i < top.len()
        invariant
            i <= top.len(),
            ps == message@.parts,
            keep == (|k: int| attachment_like(ps[k])),
            top@.map_values(|i: usize| i as int) == top_level_positions(ps),
            forall|j: int| 0 <= j < top_level_positions(ps).len() ==> 0 <= #[trigger] top_level_positions(ps)[j] < ps.len(),
            out@.map_values(|i: usize| i as int) == top@.map_values(|i: usize| i as int).take(i as int).filter(keep),
            forall|j: int| 0 <= j < out@.len() ==> #[trigger] out@[j] < ps.len(),
        decreases top.len() - i,
    {
        let k = top[i];
        let ghost tv = top@.map_values(|i: usize| i as int);
        assert(tv.take(i as int + 1) =~= tv.take(i as int).push(k as int));
        proof {
            tv.take(i as int).lemma_filter_push(k as int, keep);
        }
        assert(tv[i as int] == k as int);
        assert(k < ps.len());
        let part = &message.parts[k];
        assert(ps[k as int] == part@);
        if part.is_attachment || part.filename.is_some() {
            let ghost before = out@.map_values(|i: usize| i as int);
            out.push(k);
            assert(out@.map_values(|i: usize| i as int) =~= before.push(k as int));
        }
        i = i + 1;
    }
    assert(top@.map_values(|i: usize| i as int).take(i as int) =~= top@.map_values(|i: usize| i as int));
    proof {
        lemma_attachments_are_direct_subparts(ps);
        let rv = out@.map_values(|i: usize| i as int);
        assert forall|j: int| 0 <= j < out@.len() implies rv[j] == #[trigger] out@[j] as int by {}
        assert forall|k: int|
            #[trigger] top_level_positions(ps).contains(k) && attachment_like(ps[k]) implies exists|j: int|
                0 <= j < out@.len() && out@[j] as int == k by {
            let j = choose|j: int| 0 <= j < rv.len() && rv[j] == k;
            assert(rv[j] == out@[j] as int);
        }
    }
    out
}

proof fn lemma_top_level_in_range(ps: Seq<PartView>)
    ensures
        forall|j: int| 0 <= j < top_level_positions(ps).len() ==> 0 <= #[trigger] top_level_positions(ps)[j] < ps.len(),
{
    if ps.len() > 0 {
        lemma_subtrees_in_range(ps, 1, ps[0].subpart_count, (ps.len() - 1) as nat);
    }
}

proof fn lemma_subtrees_in_range(ps: Seq<PartView>, pos: int, count: nat, fuel: nat)
    ensures
        forall|j: int| 0 <= j < crate::mime::subtree_positions(ps, pos, count, fuel).len() ==> 0 <= #[trigger] crate::mime::subtree_positions(ps, pos, count, fuel)[j] < ps.len(),
    decreases count,
{
    if !(count == 0 || pos < 0 || pos >= ps.len()) {
        let next = crate::mime::find_at(ps, Seq::empty(), pos, fuel).1;
        lemma_subtrees_in_range(ps, next, (count - 1) as nat, fuel);
        let rest = crate::mime::subtree_positions(ps, next, (count - 1) as nat, fuel);
        assert(crate::mime::subtree_positions(ps, pos, count, fuel) == seq![pos] + rest);
    }
}

/// How `mail read` names an attachment: its file name, or `unnamed_file`.
pub open spec fn attachment_label(p: PartView) -> Seq<char> {
    match p.filename {
        Some(f) => f,
        None => "unnamed_file"@,
    }
}

/// The attachment entries `mail read` shows: `[n] name`, numbered from 0.
pub open spec fn attachment_entries(parts: Seq<PartView>) -> Seq<Seq<char>> {
    attachment_positions(parts).map(|n: int, k: int| "["@ + decimal3(n as nat) + "] "@ + attachment_label(parts[k]))
}

/// The attachment entries of a message, as `mail read` shows them.
pub fn attachment_list(message: &ParsedMessage) -> (r: Vec<String>)
    ensures
        string_seq_view(r@) == attachment_entries(message@.parts),
{
    let att = attachments_of(message);
    let ghost ps = message@.parts;
    let ghost pos = att@.map_values(|i: usize| i as int);
    let mut out: Vec<String> = Vec::new();
    let mut n: usize = 0;
    while n < att.len()
        invariant
            n <= att.len(),
            ps == message@.parts,
            pos == att@.map_values(|i: usize| i as int),
            pos == attachment_positions(ps),
            forall|j: int| 0 <= j < att@.len() ==> #[trigger] att@[j] < ps.len(),
            string_seq_view(out@) == pos.take(n as int).map(|n: int, k: int| "["@ + decimal3(n as nat) + "] "@ + attachment_label(ps[k])),
        decreases att.len() - n,
    {
        let k = att[n];
        let part = &message.parts[k];
        assert(ps[k as int] == part@);
        let mut v: Vec<char> = Vec::new();
        extend_str(&mut v, "[");
        push_decimal3(&mut v, n as u64);
        extend_str(&mut v, "] ");
        match &part.filename {
            Some(f) => extend_str(&mut v, f.as_str()),
            None => extend_str(&mut v, "unnamed_file"),
        }
        assert(v@ =~= "["@ + decimal3(n as nat) + "] "@ + attachment_label(ps[k as int]));
        let line = string_of(&v);
        let ghost before = string_seq_view(out@);
        out.push(line);
        assert(string_seq_view(out@) =~= before.push(line@));
        assert(pos.take(n as int + 1) =~= pos.take(n as int).push(k as int));
        assert(string_seq_view(out@) =~= pos.take(n as int + 1).map(|n: int, k: int| "["@ + decimal3(n as nat) + "] "@ + attachment_label(ps[k])));
        n = n + 1;
    }
    assert(pos.take(n as int) =~= pos);
    out
}

/// Why `mail download` stops.
#[derive(Debug, PartialEq, Eq)]
pub enum DownloadFailure {
    /// An attachment's file name has no last component (`Invalid Filename`).
    InvalidFilename,
    /// A chosen attachment's body cannot be decoded.
    UnreadableBody,
}

/// One file `mail download` writes: the part whose body it holds, and the
/// file's name inside the target folder.
#[derive(Debug)]
pub struct SaveStep {
    pub part: usize,
    pub file_name: String,
}

/// What `mail download` does: the files it writes, in order, and where it
/// stops, if it stops (after the files before that point are written).
#[derive(Debug)]
pub struct DownloadPlan {
    pub saves: Vec<SaveStep>,
    pub failure: Option<DownloadFailure>,
}

/// The file name an attachment is saved under, before its last path
/// component is taken: its own, or `attachment_<n>.bin`.
pub open spec fn download_name(p: PartView, n: nat) -> Seq<char> {
    match p.filename {
        Some(f) => f,
        None => "attachment_"@ + decimal(n) + ".bin"@,
    }
}

/// Whether attachment number `n` is chosen: all are where no numbers were
/// given.
pub open spec fn chosen(sel: Option<Seq<int>>, n: int) -> bool {
    match sel {
        Some(s) => s.contains(n),
        None => true,
    }
}

/// The steps of a download over the first `m` attachments: the files
/// written and the failure that stopped it, if any.
pub open spec fn download_steps(parts: Seq<PartView>, sel: Option<Seq<int>>, m: nat) -> (Seq<(int, Seq<char>)>, Option<DownloadFailure>)
    decreases m,
{
    if m == 0 {
        (Seq::empty(), None)
    } else {
        let prev = download_steps(parts, sel, (m - 1) as nat);
        let n = m - 1;
        let k = attachment_positions(parts)[n];
        let p = parts[k];
        if prev.1 is Some {
            prev
        } else {
            match spec_file_name(download_name(p, n as nat)) {
                None => (prev.0, Some(DownloadFailure::InvalidFilename)),
                Some(clean) => if !chosen(sel, n) {
                    prev
                } else if p.raw_body is None {
                    (prev.0, Some(DownloadFailure::UnreadableBody))
                } else {
                    (prev.0.push((k, clean)), None)
                },
            }
        }
    }
}

/// The steps as values.
pub open spec fn saves_view(v: Seq<SaveStep>) -> Seq<(int, Seq<char>)> {
    v.map_values(|s: SaveStep| (s.part as int, s.file_name@))
}

/// The numbers chosen, as integers.
pub open spec fn selection_view(sel: Option<Vec<u32>>) -> Option<Seq<int>> {
    match sel {
        Some(v) => Some(v@.map_values(|x: u32| x as int)),
        None => None,
    }
}

fn is_chosen(sel: &Option<Vec<u32>>, n: usize) -> (r: bool)
    ensures
        r == chosen(selection_view(*sel), n as int),
{
    match sel {
        None => true,
        Some(v) => {
            let mut i: usize = 0;
            while i < v.len()
                invariant
                    i <= v.len(),
                    selection_view(*sel) == Some(v@.map_values(|x: u32| x as int)),
                    forall|j: int| 0 <= j < i ==> v@[j] as int != n as int,
                decreases v.len() - i,
            {
                if v[i] as u64 == n as u64 {
                    assert(selection_view(*sel) == Some(v@.map_values(|x: u32| x as int)));
                    assert(v@.map_values(|x: u32| x as int)[i as int] == n as int);
                    assert(v@.map_values(|x: u32| x as int).contains(n as int));
                    return true;
                }
                i = i + 1;
            }
            proof {
                let w = v@.map_values(|x: u32| x as int);
                if w.contains(n as int) {
                    let j = choose|j: int| 0 <= j < w.len() && w[j] == n as int;
                    assert(v@[j] as int == n as int);
                }
            }
            false
        },
    }
}

/// `mail download`: the attachments to save (all of them, or those whose
/// numbers were given) and where the download stops. Every attachment's
/// file name is checked in turn, chosen or not. Every file is saved under a
/// single path component, so it lands in the target folder.
pub fn download_plan(message: &ParsedMessage, selection: &Option<Vec<u32>>) -> (r: DownloadPlan)
    ensures
        (saves_view(r.saves@), r.failure) == download_steps(
            message@.parts,
            selection_view(*selection),
            attachment_positions(message@.parts).len(),
        ),
        forall|i: int| 0 <= i < r.saves@.len() ==> #[trigger] r.saves@[i].part < message.parts@.len()
            && message.parts@[r.saves@[i].part as int].raw_body is Some,
        forall|i: int| 0 <= i < r.saves@.len() ==> single_component(#[trigger] r.saves@[i].file_name@),
{
    let att = attachments_of(message);
    let ghost ps = message@.parts;
    let ghost sel = selection_view(*selection);
    let mut saves: Vec<SaveStep> = Vec::new();
    let mut n: usize = 0;
    while n < att.len()
        invariant
            n <= att.len(),
            ps == message@.parts,
            sel == selection_view(*selection),
            att@.map_values(|i: usize| i as int) == attachment_positions(ps),
            forall|j: int| 0 <= j < att@.len() ==> #[trigger] att@[j] < ps.len(),
            download_steps(ps, sel, n as nat) == (saves_view(saves@), None::<DownloadFailure>),
            forall|i: int| 0 <= i < saves@.len() ==> #[trigger] saves@[i].part < message.parts@.len()
                && message.parts@[saves@[i].part as int].raw_body is Some,
            forall|i: int| 0 <= i < saves@.len() ==> single_component(#[trigger] saves@[i].file_name@),
        decreases att.len() - n,
    {
        let k = att[n];
        let part = &message.parts[k];
        assert(ps[k as int] == part@);
        assert(attachment_positions(ps)[n as int] == k as int);
        let mut name: Vec<char> = Vec::new();
        match &part.filename {
            Some(f) => extend_str(&mut name, f.as_str()),
            None => {
                extend_str(&mut name, "attachment_");
                push_decimal(&mut name, n as u64);
                extend_str(&mut name, ".bin");
            },
        }
        assert(name@ =~= download_name(part@, n as nat));
        let name_text = string_of(&name);
        let clean = match file_name(name_text.as_str()) {
            Some(c) => c,
            None => {
                proof {
                    assert(download_steps(ps, sel, (n + 1) as nat) == (saves_view(saves@), Some(DownloadFailure::InvalidFilename)));
                    lemma_download_stops(ps, sel, (n + 1) as nat, att@.len() as nat);
                }
                return DownloadPlan { saves, failure: Some(DownloadFailure::InvalidFilename) };
            },
        };
        if is_chosen(selection, n) {
            if part.raw_body.is_none() {
                proof {
                    assert(download_steps(ps, sel, (n + 1) as nat) == (saves_view(saves@), Some(DownloadFailure::UnreadableBody)));
                    lemma_download_stops(ps, sel, (n + 1) as nat, att@.len() as nat);
                }
                return DownloadPlan { saves, failure: Some(DownloadFailure::UnreadableBody) };
            }
            let ghost before = saves_view(saves@);
            saves.push(SaveStep { part: k, file_name: clean });
            assert(saves_view(saves@) =~= before.push((k as int, name_view_clean(part@, n as nat))));
        }
        n = n + 1;
    }
    proof {
        assert(att@.map_values(|i: usize| i as int).len() == att@.len());
    }
    DownloadPlan { saves, failure: None }
}

proof fn lemma_download_stops(parts: Seq<PartView>, sel: Option<Seq<int>>, m: nat, total: nat)
    requires
        m <= total,
        download_steps(parts, sel, m).1 is Some,
    ensures
        download_steps(parts, sel, total) == download_steps(parts, sel, m),
    decreases total - m,
{
    if m < total {
        lemma_download_stops(parts, sel, m, (total - 1) as nat);
    }
}

/// The last component of the name an attachment is saved under.
pub open spec fn name_view_clean(p: PartView, n: nat) -> Seq<char> {
    spec_file_name(download_name(p, n))->0
}

// ---------------------------------------------------------------------------
// Reading
// ---------------------------------------------------------------------------

/// How `mail read` shows a message's body: Markdown made from the HTML body
/// to be rendered for the terminal where there is an HTML body, and the
/// text shown where rendering is impossible (the plain body where there is
/// one, else the Markdown itself), or where there is nothing to render.
#[derive(Debug)]
pub struct BodyPlan {
    pub markdown: Option<String>,
    pub fallback: String,
}

/// The body plan of a message whose first HTML and plain-text bodies are
/// `html` and `plain`.
pub open spec fn body_plan_spec(html: Option<Seq<char>>, plain: Option<Seq<char>>) -> (Option<Seq<char>>, Seq<char>) {
    match (html, plain) {
        (Some(h), Some(p)) => (Some(spec_html_to_markdown(h)), p),
        (Some(h), None) => (Some(spec_html_to_markdown(h)), spec_html_to_markdown(h)),
        (None, Some(p)) => (None, p),
        (None, None) => (None, " (No content) "@),
    }
}

/// Chooses how to show a message's body from its first HTML and plain-text
/// bodies.
pub fn body_plan(html: &Option<String>, plain: &Option<String>) -> (r: BodyPlan)
    ensures
        (opt_chars(r.markdown), r.fallback@) == body_plan_spec(opt_chars(*html), opt_chars(*plain)),
{
    match (html, plain) {
        (Some(h), Some(p)) => BodyPlan { markdown: Some(html_to_markdown(h.as_str())), fallback: p.clone() },
        (Some(h), None) => {
            let md = html_to_markdown(h.as_str());
            BodyPlan { markdown: Some(md.clone()), fallback: md }
        },
        (None, Some(p)) => BodyPlan { markdown: None, fallback: p.clone() },
        (None, None) => {
            let t = " (No content) ".to_string();
            proof {
                vstd::string::to_string_from_display_ensures_for_str(" (No content) ", t);
            }
            BodyPlan { markdown: None, fallback: t }
        },
    }
}

/// The header lines `mail read` shows.
#[derive(Debug)]
pub struct ReadHeaders {
    pub from: String,
    pub to: String,
    pub cc: String,
    pub date: String,
    pub subject: String,
}

/// The text `mail read` pages through: sender, recipients, copies (when
/// there are any), date, subject, attachments (when there are any), a
/// blank line and the body.
pub open spec fn rendered_mail(h: ReadHeaders, attachments: Seq<Seq<char>>, body: Seq<char>) -> Seq<char> {
    "From:     "@ + h.from@ + "\nTo:       "@ + h.to@ + (if h.cc@.len() > 0 {
        "\nCc:    "@ + h.cc@
    } else {
        Seq::empty()
    }) + "\nDate:     "@ + h.date@ + "\nSubject:  "@ + h.subject@ + (if attachments.len() > 0 {
        "\nAttachments:  "@ + join_with(attachments, ", "@)
    } else {
        Seq::empty()
    }) + "\n\n"@ + body
}

/// The text of a message as `mail read` shows it.
pub fn render_mail(h: &ReadHeaders, attachments: &Vec<String>, body: &str) -> (r: String)
    ensures
        r@ == rendered_mail(*h, string_seq_view(attachments@), body@),
{
    let mut v: Vec<char> = Vec::new();
    extend_str(&mut v, "From:     ");
    extend_str(&mut v, h.from.as_str());
    extend_str(&mut v, "\nTo:       ");
    extend_str(&mut v, h.to.as_str());
    let ghost a = v@;
    if !h.cc.as_str().is_empty() {
        extend_str(&mut v, "\nCc:    ");
        extend_str(&mut v, h.cc.as_str());
    }
    proof {
        if h.cc@.len() > 0 {
            assert(v@ =~= a + ("\nCc:    "@ + h.cc@));
        } else {
            assert(v@ =~= a + Seq::<char>::empty());
        }
    }
    extend_str(&mut v, "\nDate:     ");
    extend_str(&mut v, h.date.as_str());
    extend_str(&mut v, "\nSubject:  ");
    extend_str(&mut v, h.subject.as_str());
    let ghost b = v@;
    if attachments.len() > 0 {
        extend_str(&mut v, "\nAttachments:  ");
        let joined = crate::text::join_strings(attachments, ", ");
        extend_str(&mut v, joined.as_str());
        assert(v@ =~= b + ("\nAttachments:  "@ + join_with(string_seq_view(attachments@), ", "@)));
    } else {
        assert(v@ =~= b + Seq::<char>::empty());
    }
    extend_str(&mut v, "\n\n");
    extend_str(&mut v, body);
    assert(v@ =~= rendered_mail(*h, string_seq_view(attachments@), body@));
    string_of(&v)
}

/// A header value or the empty text.
pub open spec fn or_empty(o: Option<Seq<char>>) -> Seq<char> {
    match o {
        Some(s) => s,
        None => Seq::empty(),
    }
}

fn text_or_empty(o: &Option<String>) -> (r: String)
    ensures
        r@ == or_empty(opt_chars(*o)),
{
    match o {
        Some(s) => s.clone(),
        None => String::new(),
    }
}

/// The header texts of a message with its date as shown.
pub fn read_headers(message: &ParsedMessage, date: String) -> (r: ReadHeaders)
    ensures
        r.from@ == or_empty(message@.from),
        r.to@ == or_empty(message@.to),
        r.cc@ == or_empty(message@.cc),
        r.subject@ == or_empty(message@.subject),
        r.date == date,
{
    ReadHeaders {
        from: text_or_empty(&message.from),
        to: text_or_empty(&message.to),
        cc: text_or_empty(&message.cc),
        date,
        subject: text_or_empty(&message.subject),
    }
}

/// A message's `Date` value, or the empty text.
pub fn date_value(message: &ParsedMessage) -> (r: String)
    ensures
        r@ == or_empty(message@.date),
{
    text_or_empty(&message.date)
}

// ---------------------------------------------------------------------------
// Searching
// ---------------------------------------------------------------------------

/// Whether the query occurs in the value of some header field.
pub open spec fn some_field_has(fields: Seq<(Seq<char>, Seq<char>)>, query: Seq<char>) -> bool {
    exists|i: int| 0 <= i < fields.len() && has_substring(#[trigger] fields[i].1, query)
}

/// Whether a message matches a search: the query occurs in the value of
/// one of its header fields (`fields`, every field of the message's
/// header, subject and sender among them), in its subject or sender, or in
/// its plain-text or HTML body (each empty where missing).
pub open spec fn matches_query(m: MessageView, fields: Seq<(Seq<char>, Seq<char>)>, query: Seq<char>) -> bool {
    ||| some_field_has(fields, query)
    ||| has_substring(or_empty(m.subject), query)
    ||| has_substring(or_empty(m.from), query)
    ||| has_substring(or_empty(crate::mime::find_text_spec(m.parts, "text/plain"@)), query)
    ||| has_substring(or_empty(crate::mime::find_text_spec(m.parts, "text/html"@)), query)
}

/// Whether a message with the given header fields matches a search query.
pub fn message_matches(message: &ParsedMessage, fields: &Vec<HeaderField>, query: &str) -> (r: bool)
    ensures
        r == matches_query(message@, fields_view(fields@), query@),
{
    let q = chars_of(query);
    let mut found = false;
    let mut i: usize = 0;
    while i < fields.len()
        invariant
            i <= fields.len(),
            q@ == query@,
            found == exists|k: int| 0 <= k < i && has_substring(#[trigger] fields_view(fields@)[k].1, query@),
        decreases fields.len() - i,
    {
        let value = chars_of(fields[i].value.as_str());
        let hit = contains_chars(&value, &q);
        assert(fields_view(fields@)[i as int].1 == fields@[i as int].value@);
        found = found || hit;
        i = i + 1;
    }
    let subject = chars_of(text_or_empty(&message.subject).as_str());
    let from = chars_of(text_or_empty(&message.from).as_str());
    let plain = chars_of(text_or_empty(&crate::mime::find_plain_text(message)).as_str());
    let html = chars_of(text_or_empty(&crate::mime::find_html_text(message)).as_str());
    found || contains_chars(&subject, &q) || contains_chars(&from, &q) || contains_chars(&plain, &q)
        || contains_chars(&html, &q)
}

/// A search result line within one folder: `[n] | subject | sender`.
pub open spec fn search_line_spec(n: nat, subject: Seq<char>, from: Seq<char>) -> Seq<char> {
    "["@ + decimal3(n) + "] | "@ + subject + " | "@ + from
}

/// A search result line across folders: `[n] | folder | subject | sender`.
pub open spec fn search_line_in_spec(n: nat, folder: Seq<char>, subject: Seq<char>, from: Seq<char>) -> Seq<char> {
    "["@ + decimal3(n) + "] | "@ + folder + " | "@ + subject + " | "@ + from
}

/// The search result line of message number `n` of a folder; the folder
/// is named where the search spans all folders.
pub fn search_line(n: usize, folder: &Option<String>, message: &ParsedMessage) -> (r: String)
    ensures
        folder is None ==> r@ == search_line_spec(n as nat, or_empty(message@.subject), or_empty(message@.from)),
        folder matches Some(f) ==> r@ == search_line_in_spec(n as nat, f@, or_empty(message@.subject), or_empty(message@.from)),
{
    let mut v: Vec<char> = Vec::new();
    extend_str(&mut v, "[");
    push_decimal3(&mut v, n as u64);
    extend_str(&mut v, "] | ");
    match folder {
        Some(f) => {
            extend_str(&mut v, f.as_str());
            extend_str(&mut v, " | ");
        },
        None => {},
    }
    extend_str(&mut v, text_or_empty(&message.subject).as_str());
    extend_str(&mut v, " | ");
    extend_str(&mut v, text_or_empty(&message.from).as_str());
    proof {
        match folder {
            Some(f) => assert(v@ =~= search_line_in_spec(n as nat, f@, or_empty(message@.subject), or_empty(message@.from))),
            None => assert(v@ =~= search_line_spec(n as nat, or_empty(message@.subject), or_empty(message@.from))),
        }
    }
    string_of(&v)
}

/// What a chosen search result opens: each result is kept with its folder
/// and its message number (the number its line shows), and the chosen one
/// is opened.
pub fn search_result_target(results: &Vec<(String, u32)>, selection: usize) -> (r: (String, u32))
    requires
        selection < results@.len(),
    ensures
        r.0@ == results@[selection as int].0@,
        r.1 == results@[selection as int].1,
{
    (results[selection].0.clone(), results[selection].1)
}

// ---------------------------------------------------------------------------
// Composing
// ---------------------------------------------------------------------------

/// The recipients typed on one line, split at each space.
pub fn split_recipients(line: &str) -> (r: Vec<String>)
    ensures
        string_seq_view(r@) == split_char(line@, ' '),
{
    let cs = chars_of(line);
    let pieces = split_on_char(&cs, ' ');
    let mut out: Vec<String> = Vec::new();
    let mut i: usize = 0;
    while i < pieces.len()
        invariant
            i <= pieces.len(),
            pieces@.len() == split_char(line@, ' ').len(),
            forall|k: int| 0 <= k < pieces@.len() ==> #[trigger] pieces@[k]@ == split_char(line@, ' ')[k],
            string_seq_view(out@) == split_char(line@, ' ').take(i as int),
        decreases pieces.len() - i,
    {
        let s = string_of(&pieces[i]);
        let ghost before = string_seq_view(out@);
        out.push(s);
        assert(string_seq_view(out@) =~= before.push(s@));
        assert(split_char(line@, ' ').take(i as int + 1) =~= split_char(line@, ' ').take(i as int).push(pieces@[i as int]@));
        i = i + 1;
    }
    assert(split_char(line@, ' ').take(i as int) =~= split_char(line@, ' '));
    out
}

/// The two alternatives of a message written in Markdown: the text with
/// the markup stripped, and the Markdown rendered as HTML.
#[derive(Debug)]
pub struct MailBodies {
    pub plain: String,
    pub html: String,
}

/// The plain and HTML alternatives of a body written in Markdown.
pub fn mail_bodies(markdown: &str) -> (r: MailBodies)
    ensures
        r.plain@ == spec_strip_markdown(markdown@),
        r.html@ == spec_markdown_to_html(markdown@),
{
    MailBodies { plain: strip_markdown_text(markdown), html: markdown_to_html(markdown) }
}

/// The content type an attached file is sent with, guessed from its name.
pub fn attachment_content_type(path: &str) -> (r: String)
    ensures
        r@ == spec_guessed_mime(path@),
{
    guess_mime(path)
}

/// Whether lettre accepts a text as a mail address.
pub fn address_accepted(text: &str) -> (r: bool)
    ensures
        r == spec_lettre_address_ok(text@),
{
    lettre_address_ok(text)
}

/// The first recipient lettre refuses, if any.
pub fn first_refused_recipient(recipients: &Vec<String>) -> (r: Option<usize>)
    ensures
        match r {
            Some(i) => i < recipients@.len() && !spec_lettre_address_ok(recipients@[i as int]@) && forall|j: int|
                0 <= j < i ==> spec_lettre_address_ok(#[trigger] recipients@[j]@),
            None => forall|j: int| 0 <= j < recipients@.len() ==> spec_lettre_address_ok(#[trigger] recipients@[j]@),
        },
{
    let mut i: usize = 0;
    while i < recipients.len()
        invariant
            i <= recipients.len(),
            forall|j: int| 0 <= j < i ==> spec_lettre_address_ok(#[trigger] recipients@[j]@),
        decreases recipients.len() - i,
    {
        if !lettre_address_ok(recipients[i].as_str()) {
            return Some(i);
        }
        i = i + 1;
    }
    None
}

/// A file given to attach: its path, and its bytes where it is a file and
/// was read (`None` for a path that is not a file).
#[derive(Debug)]
pub struct GivenFile {
    pub path: String,
    pub content: Option<Vec<u8>>,
}

/// An attachment of an outgoing message.
#[derive(Debug)]
pub struct OutgoingAttachment {
    pub name: String,
    pub content_type: String,
    pub content: Vec<u8>,
}

/// An outgoing message as the client lays it out: sender, recipients and
/// subject; a plain-text and an HTML alternative, in that order; the
/// attachments in the order given. `unnamed` holds the positions of the
/// given files that were read but have no file name, and so are left out.
#[derive(Debug)]
pub struct OutgoingMail {
    pub from: String,
    pub to: Vec<String>,
    pub subject: String,
    pub plain: String,
    pub html: String,
    pub attachments: Vec<OutgoingAttachment>,
    pub unnamed: Vec<usize>,
}

/// The given files as values.
pub open spec fn given_view(v: Seq<GivenFile>) -> Seq<(Seq<char>, Option<Seq<u8>>)> {
    v.map_values(
        |f: GivenFile|
            (f.path@, match f.content {
                Some(b) => Some(b@),
                None => None,
            }),
    )
}

/// The attachments as values: name, content type and content.
pub open spec fn outgoing_view(v: Seq<OutgoingAttachment>) -> Seq<(Seq<char>, Seq<char>, Seq<u8>)> {
    v.map_values(|a: OutgoingAttachment| (a.name@, a.content_type@, a.content@))
}

/// The attachments made of the first `m` given files: each file that was
/// read and has a file name, under that name, with the content type
/// guessed from its path, in order.
pub open spec fn attached(files: Seq<(Seq<char>, Option<Seq<u8>>)>, m: nat) -> Seq<(Seq<char>, Seq<char>, Seq<u8>)>
    decreases m,
{
    if m == 0 {
        Seq::empty()
    } else {
        let prev = attached(files, (m - 1) as nat);
        let f = files[m - 1];
        match f.1 {
            Some(b) => match spec_file_name(f.0) {
                Some(n) => prev.push((n, spec_guessed_mime(f.0), b)),
                None => prev,
            },
            None => prev,
        }
    }
}

/// The positions, among the first `m` given files, of those that were
/// read but have no file name.
pub open spec fn unnamed_files(files: Seq<(Seq<char>, Option<Seq<u8>>)>, m: nat) -> Seq<int>
    decreases m,
{
    if m == 0 {
        Seq::empty()
    } else {
        let prev = unnamed_files(files, (m - 1) as nat);
        let f = files[m - 1];
        if f.1 is Some && spec_file_name(f.0) is None {
            prev.push(m - 1)
        } else {
            prev
        }
    }
}

fn copy_bytes(v: &Vec<u8>) -> (r: Vec<u8>)
    ensures
        r@ == v@,
{
    let mut out: Vec<u8> = Vec::new();
    let mut i: usize = 0;
    while i < v.len()
        invariant
            i <= v.len(),
            out@ == v@.take(i as int),
        decreases v.len() - i,
    {
        out.push(v[i]);
        assert(out@ =~= v@.take(i as int + 1));
        i = i + 1;
    }
    assert(v@.take(v@.len() as int) =~= v@);
    out
}

/// Lays out an outgoing message written in Markdown: the sender, the
/// recipients and the subject as given, the body's text without markup and
/// its HTML rendering, and the given files that were read and have a file
/// name as attachments, in order.
pub fn compose_mail(from: &str, to: &Vec<String>, subject: &str, body: &str, files: &Vec<GivenFile>) -> (r: OutgoingMail)
    ensures
        r.from@ == from@,
        string_seq_view(r.to@) == string_seq_view(to@),
        r.subject@ == subject@,
        r.plain@ == spec_strip_markdown(body@),
        r.html@ == spec_markdown_to_html(body@),
        outgoing_view(r.attachments@) == attached(given_view(files@), files@.len() as nat),
        r.unnamed@.map_values(|i: usize| i as int) == unnamed_files(given_view(files@), files@.len() as nat),
{
    let ghost g = given_view(files@);
    let mut attachments: Vec<OutgoingAttachment> = Vec::new();
    let mut unnamed: Vec<usize> = Vec::new();
    let mut i: usize = 0;
    while i < files.len()
        invariant
            i <= files.len(),
            g == given_view(files@),
            outgoing_view(attachments@) == attached(g, i as nat),
            unnamed@.map_values(|k: usize| k as int) == unnamed_files(g, i as nat),
        decreases files.len() - i,
    {
        let f = &files[i];
        assert(g[i as int] == (f.path@, match f.content {
            Some(b) => Some(b@),
            None => None::<Seq<u8>>,
        }));
        match &f.content {
            Some(bytes) => match file_name(f.path.as_str()) {
                Some(name) => {
                    let content_type = attachment_content_type(f.path.as_str());
                    let content = copy_bytes(bytes);
                    let ghost before = outgoing_view(attachments@);
                    attachments.push(OutgoingAttachment { name, content_type, content });
                    assert(outgoing_view(attachments@) =~= before.push(
                        (attachments@.last().name@, attachments@.last().content_type@, attachments@.last().content@),
                    ));
                },
                None => {
                    let ghost before = unnamed@.map_values(|k: usize| k as int);
                    unnamed.push(i);
                    assert(unnamed@.map_values(|k: usize| k as int) =~= before.push(i as int));
                },
            },
            None => {},
        }
        i = i + 1;
    }
    let mut recipients: Vec<String> = Vec::new();
    let mut k: usize = 0;
    while k < to.len()
        invariant
            k <= to.len(),
            string_seq_view(recipients@) == string_seq_view(to@.take(k as int)),
        decreases to.len() - k,
    {
        let ghost before = string_seq_view(recipients@);
        recipients.push(to[k].clone());
        assert(string_seq_view(recipients@) =~= before.push(to@[k as int]@));
        assert(to@.take(k as int + 1) =~= to@.take(k as int).push(to@[k as int]));
        assert(string_seq_view(to@.take(k as int + 1)) =~= string_seq_view(to@.take(k as int)).push(to@[k as int]@));
        k = k + 1;
    }
    assert(to@.take(to@.len() as int) =~= to@);
    let bodies = mail_bodies(body);
    OutgoingMail {
        from: from.to_string(),
        to: recipients,
        subject: subject.to_string(),
        plain: bodies.plain,
        html: bodies.html,
        attachments,
        unnamed,
    }
}

/// Whether `mail send` asks for a confirmation: only where the user did
/// not ask to skip it (`--yes`).
pub fn asks_confirmation(skip_confirmation: bool) -> (r: bool)
    ensures
        r == !skip_confirmation,
{
    !skip_confirmation
}

/// Whether a composed message goes out: when the user skipped the
/// confirmation, or when asked and confirmed (`confirmed` is the answer,
/// `false` where no question was asked).
pub fn send_approved(skip_confirmation: bool, confirmed: bool) -> (r: bool)
    ensures
        r == (skip_confirmation || confirmed),
{
    skip_confirmation || confirmed
}

} // verus!

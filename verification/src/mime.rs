//! Messages as the client reads them: the header fields of a message, and
//! the tree of MIME parts, kept as the list of parts in depth-first order
//! with the number of direct subparts of each.
use vstd::prelude::*;
use mailparse::MailHeaderMap;

verus! {

/// One part of a message.
#[derive(Debug)]
pub struct MailPart {
    /// The part's MIME type, lowercased (`text/plain`, `multipart/mixed`, ...).
    pub mimetype: String,
    /// The decoded body as text, where it can be decoded.
    pub body: Option<String>,
    /// The body with the transfer encoding undone, where that succeeds.
    pub raw_body: Option<Vec<u8>>,
    /// Whether the part's disposition is `attachment`.
    pub is_attachment: bool,
    /// The `filename` parameter of the part's disposition, if any.
    pub filename: Option<String>,
    /// The number of direct subparts.
    pub subpart_count: usize,
}

/// A parsed message: the header fields the client shows, and its parts in
/// depth-first order, the message itself first.
#[derive(Debug)]
pub struct ParsedMessage {
    pub subject: Option<String>,
    pub from: Option<String>,
    pub to: Option<String>,
    pub date: Option<String>,
    pub cc: Option<String>,
    pub parts: Vec<MailPart>,
}

/// A part as values.
pub struct PartView {
    pub mimetype: Seq<char>,
    pub body: Option<Seq<char>>,
    pub raw_body: Option<Seq<u8>>,
    pub is_attachment: bool,
    pub filename: Option<Seq<char>>,
    pub subpart_count: nat,
}

/// A message as values.
pub struct MessageView {
    pub subject: Option<Seq<char>>,
    pub from: Option<Seq<char>>,
    pub to: Option<Seq<char>>,
    pub date: Option<Seq<char>>,
    pub cc: Option<Seq<char>>,
    pub parts: Seq<PartView>,
}

/// The characters of an optional string.
pub open spec fn opt_chars(o: Option<String>) -> Option<Seq<char>> {
    match o {
        Some(s) => Some(s@),
        None => None,
    }
}

impl View for MailPart {
    type V = PartView;

    open spec fn view(&self) -> PartView {
        PartView {
            mimetype: self.mimetype@,
            body: opt_chars(self.body),
            raw_body: match self.raw_body {
                Some(b) => Some(b@),
                None => None,
            },
            is_attachment: self.is_attachment,
            filename: opt_chars(self.filename),
            subpart_count: self.subpart_count as nat,
        }
    }
}

/// The parts of a vector, as values.
pub open spec fn parts_view(v: Seq<MailPart>) -> Seq<PartView> {
    v.map_values(|p: MailPart| p@)
}

impl View for ParsedMessage {
    type V = MessageView;

    open spec fn view(&self) -> MessageView {
        MessageView {
            subject: opt_chars(self.subject),
            from: opt_chars(self.from),
            to: opt_chars(self.to),
            date: opt_chars(self.date),
            cc: opt_chars(self.cc),
            parts: parts_view(self.parts@),
        }
    }
}

/// What `mailparse::parse_mail` makes of raw message bytes, as values:
/// the first `Subject`, `From`, `To`, `Date` and `Cc` values, and the parts
/// (`ParsedMail::parts`, depth-first) with their type, decoded bodies,
/// disposition and number of subparts; `None` where mailparse refuses the
/// bytes.
pub uninterp spec fn spec_parsed_message(raw: Seq<u8>) -> Option<MessageView>;

/// `mailparse::parse_mail`, with every part taken as plain values. The
/// contract names the result.
#[verifier::external_body]
fn parse_message(raw: &[u8]) -> (r: Option<ParsedMessage>)
    ensures
        match r {
            Some(m) => spec_parsed_message(raw@) == Some(m@),
            None => spec_parsed_message(raw@) is None,
        },
{
    let mail = mailparse::parse_mail(raw).ok()?;
    let mut parts: Vec<MailPart> = Vec::new();
    for p in mail.parts() {
        let d = p.get_content_disposition();
        parts.push(MailPart { mimetype: p.ctype.mimetype.clone(), body: p.get_body().ok(),
            raw_body: p.get_body_raw().ok(), is_attachment: d.disposition == mailparse::DispositionType::Attachment,
            filename: d.params.get("filename").cloned(), subpart_count: p.subparts.len() });
    }
    let h = &mail.headers;
    Some(ParsedMessage { subject: h.get_first_value("Subject"), from: h.get_first_value("From"),
        to: h.get_first_value("To"), date: h.get_first_value("Date"), cc: h.get_first_value("Cc"), parts })
}

/// Reads the raw bytes of a fetched message; `None` where they do not
/// parse as a message.
pub fn read_message(raw: &Vec<u8>) -> (r: Option<ParsedMessage>)
    ensures
        match r {
            Some(m) => spec_parsed_message(raw@) == Some(m@),
            None => spec_parsed_message(raw@) is None,
        },
{
    parse_message(raw.as_slice())
}

// ---------------------------------------------------------------------------
// Header fields
// ---------------------------------------------------------------------------

/// One header field: its name and its decoded value.
#[derive(Debug)]
pub struct HeaderField {
    pub key: String,
    pub value: String,
}

/// The fields as pairs of values.
pub open spec fn fields_view(v: Seq<HeaderField>) -> Seq<(Seq<char>, Seq<char>)> {
    v.map_values(|f: HeaderField| (f.key@, f.value@))
}

/// The header fields `mailparse::parse_headers` reads from raw header
/// bytes (`get_key`, `get_value` of each), in order; `None` where it refuses
/// them.
pub uninterp spec fn spec_header_fields(raw: Seq<u8>) -> Option<Seq<(Seq<char>, Seq<char>)>>;

/// `mailparse::parse_headers`, each field taken as its name and value. The
/// contract names the result.
#[verifier::external_body]
fn parse_header_fields(raw: &[u8]) -> (r: Option<Vec<HeaderField>>)
    ensures
        match r {
            Some(v) => spec_header_fields(raw@) == Some(fields_view(v@)),
            None => spec_header_fields(raw@) is None,
        },
{
    let (headers, _) = mailparse::parse_headers(raw).ok()?;
    let mut fields: Vec<HeaderField> = Vec::new();
    for h in headers.iter() {
        fields.push(HeaderField { key: h.get_key(), value: h.get_value() });
    }
    Some(fields)
}

/// `str::to_lowercase` (Unicode lowercase mapping).
pub uninterp spec fn spec_lowercase(s: Seq<char>) -> Seq<char>;

/// `str::to_lowercase`. The contract names the result.
#[verifier::external_body]
fn lowercase(s: &str) -> (r: String)
    ensures
        r@ == spec_lowercase(s@),
{
    s.to_lowercase()
}

/// The value of the last field whose lowercased name is `name`, or the
/// empty text where there is none.
pub open spec fn last_field(fields: Seq<(Seq<char>, Seq<char>)>, name: Seq<char>) -> Seq<char>
    decreases fields.len(),
{
    if fields.len() == 0 {
        Seq::empty()
    } else if spec_lowercase(fields.last().0) == name {
        fields.last().1
    } else {
        last_field(fields.drop_last(), name)
    }
}

/// The subject, sender and date of a message as a listing shows them.
#[derive(Debug)]
pub struct HeaderSummary {
    pub subject: String,
    pub from: String,
    pub date: String,
}

/// The summary of header fields: for each of `subject`, `from` and `date`,
/// the value of the last field of that name (compared lowercased).
pub fn summarize_headers(fields: &Vec<HeaderField>) -> (r: HeaderSummary)
    ensures
        r.subject@ == last_field(fields_view(fields@), "subject"@),
        r.from@ == last_field(fields_view(fields@), "from"@),
        r.date@ == last_field(fields_view(fields@), "date"@),
{
    let mut subject = String::new();
    let mut from = String::new();
    let mut date = String::new();
    let subject_key = "subject".to_string();
    let from_key = "from".to_string();
    let date_key = "date".to_string();
    proof {
        vstd::string::to_string_from_display_ensures_for_str("subject", subject_key);
        vstd::string::to_string_from_display_ensures_for_str("from", from_key);
        vstd::string::to_string_from_display_ensures_for_str("date", date_key);
    }
    let mut i: usize = 0;
    while i < fields.len()
        invariant
            i <= fields.len(),
            subject_key@ == "subject"@,
            from_key@ == "from"@,
            date_key@ == "date"@,
            subject@ == last_field(fields_view(fields@.take(i as int)), "subject"@),
            from@ == last_field(fields_view(fields@.take(i as int)), "from"@),
            date@ == last_field(fields_view(fields@.take(i as int)), "date"@),
        decreases fields.len() - i,
    {
        let key = lowercase(fields[i].key.as_str());
        let ghost pre = fields_view(fields@.take(i as int));
        let ghost post = fields_view(fields@.take(i as int + 1));
        assert(post.drop_last() =~= pre);
        assert(post.last() == (fields@[i as int].key@, fields@[i as int].value@));
        if key == subject_key {
            subject = fields[i].value.clone();
        } else if key == from_key {
            from = fields[i].value.clone();
        } else if key == date_key {
            date = fields[i].value.clone();
        }
        proof {
            reveal_strlit("subject");
            reveal_strlit("from");
            reveal_strlit("date");
            assert("subject"@.len() != "from"@.len());
            assert("subject"@.len() != "date"@.len());
            assert("from"@[0] != "date"@[0]);
        }
        i = i + 1;
    }
    assert(fields@.take(i as int) =~= fields@);
    HeaderSummary { subject, from, date }
}

/// Reads the header fields of a fetched message; `None` where they do not
/// parse.
pub fn read_header_fields(raw: &Vec<u8>) -> (r: Option<Vec<HeaderField>>)
    ensures
        match r {
            Some(v) => spec_header_fields(raw@) == Some(fields_view(v@)),
            None => spec_header_fields(raw@) is None,
        },
{
    parse_header_fields(raw.as_slice())
}

// ---------------------------------------------------------------------------
// The part tree
// ---------------------------------------------------------------------------

/// The body of the first part of type `mime` in the subtree at `pos`, as
/// the client looks for it: a part of that type gives its own body (which
/// may be missing); otherwise its subparts are searched in order and the
/// first that gives a body wins. The second component is the position just
/// past the subtree. `fuel` bounds the depth (the number of parts is
/// always enough).
pub open spec fn find_at(parts: Seq<PartView>, mime: Seq<char>, pos: int, fuel: nat) -> (Option<Seq<char>>, int)
    decreases fuel, 0nat, 0nat,
{
    if fuel == 0 || pos < 0 || pos >= parts.len() {
        (None, parts.len() as int)
    } else {
        let kids = find_in(parts, mime, pos + 1, parts[pos].subpart_count, (fuel - 1) as nat);
        if parts[pos].mimetype == mime {
            (parts[pos].body, kids.1)
        } else {
            kids
        }
    }
}

/// `find_at` over `count` consecutive subtrees starting at `pos`: the first
/// body found, and the position past the last subtree.
pub open spec fn find_in(parts: Seq<PartView>, mime: Seq<char>, pos: int, count: nat, fuel: nat) -> (Option<Seq<char>>, int)
    decreases fuel, 1nat, count,
{
    if count == 0 {
        (None, pos)
    } else {
        let first = find_at(parts, mime, pos, fuel);
        let rest = find_in(parts, mime, first.1, (count - 1) as nat, fuel);
        (if first.0 is Some {
            first.0
        } else {
            rest.0
        }, rest.1)
    }
}

/// The body of the first part of type `mime` in a message, searched from
/// the message itself down.
pub open spec fn find_text_spec(parts: Seq<PartView>, mime: Seq<char>) -> Option<Seq<char>> {
    find_at(parts, mime, 0, parts.len()).0
}

fn find_at_exec(parts: &Vec<MailPart>, mime: &String, pos: usize, fuel: usize) -> (r: (Option<String>, usize))
    ensures
        opt_chars(r.0) == find_at(parts_view(parts@), mime@, pos as int, fuel as nat).0,
        r.1 as int == find_at(parts_view(parts@), mime@, pos as int, fuel as nat).1,
    decreases fuel, 0nat, 0nat,
{
    if fuel == 0 || pos >= parts.len() {
        return (None, parts.len());
    }
    let part = &parts[pos];
    assert(parts_view(parts@)[pos as int] == part@);
    let kids = find_in_exec(parts, mime, pos + 1, part.subpart_count, fuel - 1);
    if part.mimetype == *mime {
        let body = match &part.body {
            Some(b) => Some(b.clone()),
            None => None,
        };
        (body, kids.1)
    } else {
        kids
    }
}

fn find_in_exec(parts: &Vec<MailPart>, mime: &String, pos: usize, count: usize, fuel: usize) -> (r: (Option<String>, usize))
    requires
        pos <= parts.len(),
    ensures
        opt_chars(r.0) == find_in(parts_view(parts@), mime@, pos as int, count as nat, fuel as nat).0,
        r.1 as int == find_in(parts_view(parts@), mime@, pos as int, count as nat, fuel as nat).1,
        r.1 <= parts.len(),
    decreases fuel, 1nat, count,
{
    if count == 0 {
        return (None, pos);
    }
    let first = find_at_exec(parts, mime, pos, fuel);
    proof {
        lemma_find_at_end(parts_view(parts@), mime@, pos as int, fuel as nat);
    }
    let rest = find_in_exec(parts, mime, first.1, count - 1, fuel);
    if first.0.is_some() {
        (first.0, rest.1)
    } else {
        (rest.0, rest.1)
    }
}

proof fn lemma_find_at_end(parts: Seq<PartView>, mime: Seq<char>, pos: int, fuel: nat)
    ensures
        find_at(parts, mime, pos, fuel).1 <= parts.len(),
        0 <= pos <= parts.len() ==> pos <= find_at(parts, mime, pos, fuel).1,
    decreases fuel, 0nat, 0nat,
{
    if !(fuel == 0 || pos < 0 || pos >= parts.len()) {
        lemma_find_in_end(parts, mime, pos + 1, parts[pos].subpart_count, (fuel - 1) as nat);
    }
}

proof fn lemma_find_in_end(parts: Seq<PartView>, mime: Seq<char>, pos: int, count: nat, fuel: nat)
    requires
        0 <= pos <= parts.len(),
    ensures
        pos <= find_in(parts, mime, pos, count, fuel).1 <= parts.len(),
    decreases fuel, 1nat, count,
{
    if count > 0 {
        lemma_find_at_end(parts, mime, pos, fuel);
        let first = find_at(parts, mime, pos, fuel);
        lemma_find_in_end(parts, mime, first.1, (count - 1) as nat, fuel);
    }
}

/// The body of the first part of a type, searched from the message itself
/// down; `None` where there is no such part, or where the first such part
/// on the way has no decodable body.
pub fn find_text(message: &ParsedMessage, mime: &str) -> (r: Option<String>)
    ensures
        opt_chars(r) == find_text_spec(message@.parts, mime@),
        message@.parts.len() > 0 && message@.parts[0].mimetype == mime@ ==> opt_chars(r)
            == message@.parts[0].body,
        r matches Some(t) ==> exists|k: int|
            0 <= k < message@.parts.len() && message@.parts[k].mimetype == mime@ && message@.parts[k].body
                == Some(t@),
{
    let m = mime.to_string();
    proof {
        vstd::string::to_string_from_display_ensures_for_str(mime, m);
        lemma_find_text_only_from_a_part(message@.parts, mime@);
        if message@.parts.len() > 0 && message@.parts[0].mimetype == mime@ {
            lemma_find_text_root(message@.parts, mime@);
        }
    }
    find_at_exec(&message.parts, &m, 0, message.parts.len()).0
}

/// The plain-text body of a message (the first `text/plain` part).
pub fn find_plain_text(message: &ParsedMessage) -> (r: Option<String>)
    ensures
        opt_chars(r) == find_text_spec(message@.parts, "text/plain"@),
        message@.parts.len() > 0 && message@.parts[0].mimetype == "text/plain"@ ==> opt_chars(r)
            == message@.parts[0].body,
{
    find_text(message, "text/plain")
}

/// The HTML body of a message (the first `text/html` part).
pub fn find_html_text(message: &ParsedMessage) -> (r: Option<String>)
    ensures
        opt_chars(r) == find_text_spec(message@.parts, "text/html"@),
        message@.parts.len() > 0 && message@.parts[0].mimetype == "text/html"@ ==> opt_chars(r)
            == message@.parts[0].body,
{
    find_text(message, "text/html")
}

/// A text found in a message is the body of a part of the requested type.
pub proof fn lemma_found_text_is_a_body(parts: Seq<PartView>, mime: Seq<char>, pos: int, fuel: nat)
    ensures
        find_at(parts, mime, pos, fuel).0 matches Some(t) ==> exists|k: int|
            0 <= k < parts.len() && parts[k].mimetype == mime && parts[k].body == Some(t),
    decreases fuel, 0nat, 0nat,
{
    if !(fuel == 0 || pos < 0 || pos >= parts.len()) {
        lemma_found_text_in(parts, mime, pos + 1, parts[pos].subpart_count, (fuel - 1) as nat);
    }
}

proof fn lemma_found_text_in(parts: Seq<PartView>, mime: Seq<char>, pos: int, count: nat, fuel: nat)
    ensures
        find_in(parts, mime, pos, count, fuel).0 matches Some(t) ==> exists|k: int|
            0 <= k < parts.len() && parts[k].mimetype == mime && parts[k].body == Some(t),
    decreases fuel, 1nat, count,
{
    if count > 0 {
        lemma_found_text_is_a_body(parts, mime, pos, fuel);
        let first = find_at(parts, mime, pos, fuel);
        lemma_found_text_in(parts, mime, first.1, (count - 1) as nat, fuel);
    }
}

/// The positions of `count` consecutive subtrees starting at `pos`.
pub open spec fn subtree_positions(parts: Seq<PartView>, pos: int, count: nat, fuel: nat) -> Seq<int>
    decreases count,
{
    if count == 0 || pos < 0 || pos >= parts.len() {
        Seq::empty()
    } else {
        seq![pos] + subtree_positions(
            parts,
            find_at(parts, Seq::empty(), pos, fuel).1,
            (count - 1) as nat,
            fuel,
        )
    }
}

/// The positions of the message's direct subparts.
pub open spec fn top_level_positions(parts: Seq<PartView>) -> Seq<int> {
    if parts.len() == 0 {
        Seq::empty()
    } else {
        subtree_positions(parts, 1, parts[0].subpart_count, (parts.len() - 1) as nat)
    }
}

/// The positions, in the list of parts, of the message's direct subparts.
pub fn top_level_parts(message: &ParsedMessage) -> (r: Vec<usize>)
    ensures
        r@.map_values(|i: usize| i as int) == top_level_positions(message@.parts),
{
    let ghost ps = message@.parts;
    let mut out: Vec<usize> = Vec::new();
    if message.parts.len() == 0 {
        assert(out@.map_values(|i: usize| i as int) =~= top_level_positions(ps));
        return out;
    }
    let empty = String::new();
    let fuel = message.parts.len() - 1;
    let total = message.parts[0].subpart_count;
    assert(ps[0] == message.parts@[0]@);
    let mut pos: usize = 1;
    let mut left: usize = total;
    while left > 0 && pos < message.parts.len()
        invariant
            ps == message@.parts,
            empty@ == Seq::<char>::empty(),
            fuel as int == ps.len() - 1,
            1 <= pos <= ps.len(),
            left <= total,
            out@.map_values(|i: usize| i as int) + subtree_positions(ps, pos as int, left as nat, fuel as nat)
                == top_level_positions(ps),
        decreases left,
    {
        let next = find_at_exec(&message.parts, &empty, pos, fuel);
        proof {
            lemma_find_at_end(ps, Seq::empty(), pos as int, fuel as nat);
        }
        let ghost before = out@.map_values(|i: usize| i as int);
        out.push(pos);
        assert(out@.map_values(|i: usize| i as int) =~= before.push(pos as int));
        assert(subtree_positions(ps, pos as int, left as nat, fuel as nat) =~= seq![pos as int]
            + subtree_positions(ps, next.1 as int, (left - 1) as nat, fuel as nat));
        assert(before + subtree_positions(ps, pos as int, left as nat, fuel as nat) =~= before.push(
            pos as int,
        ) + subtree_positions(ps, next.1 as int, (left - 1) as nat, fuel as nat));
        pos = next.1;
        left = left - 1;
        if pos < message.parts.len() {
        } else {
            assert(subtree_positions(ps, pos as int, left as nat, fuel as nat) =~= Seq::<int>::empty());
        }
    }
    proof {
        if left == 0 {
            assert(subtree_positions(ps, pos as int, 0, fuel as nat) =~= Seq::<int>::empty());
        } else {
            assert(subtree_positions(ps, pos as int, left as nat, fuel as nat) =~= Seq::<int>::empty());
        }
        assert(out@.map_values(|i: usize| i as int) + Seq::<int>::empty() =~= out@.map_values(
            |i: usize| i as int,
        ));
    }
    out
}


/// A subtree that starts inside the list of parts ends after its start.
pub proof fn lemma_subtree_ends_after_start(parts: Seq<PartView>, mime: Seq<char>, pos: int, fuel: nat)
    requires
        0 <= pos < parts.len(),
    ensures
        pos < find_at(parts, mime, pos, fuel).1 <= parts.len(),
{
    lemma_find_at_end(parts, mime, pos, fuel);
    if fuel > 0 {
        lemma_find_in_end(parts, mime, pos + 1, parts[pos].subpart_count, (fuel - 1) as nat);
    }
}

/// The positions of consecutive subtrees lie within the parts, from `pos`
/// on, in increasing order.
pub proof fn lemma_subtree_positions_increasing(parts: Seq<PartView>, pos: int, count: nat, fuel: nat)
    requires
        0 <= pos,
    ensures
        forall|j: int|
            0 <= j < subtree_positions(parts, pos, count, fuel).len() ==> pos <= #[trigger] subtree_positions(
                parts,
                pos,
                count,
                fuel,
            )[j] < parts.len(),
        forall|i: int, j: int|
            0 <= i < j < subtree_positions(parts, pos, count, fuel).len() ==> subtree_positions(
                parts,
                pos,
                count,
                fuel,
            )[i] < subtree_positions(parts, pos, count, fuel)[j],
    decreases count,
{
    if !(count == 0 || pos < 0 || pos >= parts.len()) {
        let next = find_at(parts, Seq::empty(), pos, fuel).1;
        lemma_subtree_ends_after_start(parts, Seq::empty(), pos, fuel);
        lemma_subtree_positions_increasing(parts, next, (count - 1) as nat, fuel);
        let rest = subtree_positions(parts, next, (count - 1) as nat, fuel);
        let all = subtree_positions(parts, pos, count, fuel);
        assert(all == seq![pos] + rest);
        assert forall|j: int| 0 <= j < all.len() implies pos <= #[trigger] all[j] < parts.len() by {
            if j > 0 {
                assert(all[j] == rest[j - 1]);
            }
        }
        assert forall|i: int, j: int| 0 <= i < j < all.len() implies all[i] < all[j] by {
            assert(all[j] == rest[j - 1]);
            if i > 0 {
                assert(all[i] == rest[i - 1]);
            }
        }
    }
}

/// The message's direct subparts lie within the parts, in increasing order.
pub proof fn lemma_top_level_increasing(parts: Seq<PartView>)
    ensures
        forall|j: int|
            0 <= j < top_level_positions(parts).len() ==> 0 < #[trigger] top_level_positions(parts)[j] < parts.len(),
        forall|i: int, j: int|
            0 <= i < j < top_level_positions(parts).len() ==> top_level_positions(parts)[i] < top_level_positions(parts)[j],
{
    if parts.len() > 0 {
        lemma_subtree_positions_increasing(parts, 1, parts[0].subpart_count, (parts.len() - 1) as nat);
    }
}

proof fn lemma_found_in_range_at(parts: Seq<PartView>, mime: Seq<char>, pos: int, fuel: nat)
    ensures
        find_at(parts, mime, pos, fuel).0 is Some ==> exists|k: int|
            pos <= k < find_at(parts, mime, pos, fuel).1 && 0 <= k < parts.len() && parts[k].mimetype == mime
                && parts[k].body == find_at(parts, mime, pos, fuel).0,
    decreases fuel, 0nat, 0nat,
{
    if !(fuel == 0 || pos < 0 || pos >= parts.len()) {
        let c = parts[pos].subpart_count;
        lemma_found_in_range_in(parts, mime, pos + 1, c, (fuel - 1) as nat);
        lemma_find_in_end(parts, mime, pos + 1, c, (fuel - 1) as nat);
        if parts[pos].mimetype == mime && parts[pos].body is Some {
            assert(pos < find_at(parts, mime, pos, fuel).1);
        }
    }
}

proof fn lemma_found_in_range_in(parts: Seq<PartView>, mime: Seq<char>, pos: int, count: nat, fuel: nat)
    ensures
        find_in(parts, mime, pos, count, fuel).0 is Some ==> exists|k: int|
            pos <= k < find_in(parts, mime, pos, count, fuel).1 && 0 <= k < parts.len() && parts[k].mimetype
                == mime && parts[k].body == find_in(parts, mime, pos, count, fuel).0,
    decreases fuel, 1nat, count,
{
    if count > 0 {
        let first = find_at(parts, mime, pos, fuel);
        lemma_found_in_range_at(parts, mime, pos, fuel);
        lemma_found_in_range_in(parts, mime, first.1, (count - 1) as nat, fuel);
        lemma_find_at_end(parts, mime, pos, fuel);
        let rest = find_in(parts, mime, first.1, (count - 1) as nat, fuel);
        if 0 <= pos <= parts.len() {
            lemma_find_in_end(parts, mime, first.1, (count - 1) as nat, fuel);
        }
        if first.0 is Some {
            let k = choose|k: int|
                pos <= k < first.1 && 0 <= k < parts.len() && parts[k].mimetype == mime && parts[k].body
                    == first.0;
            if pos < 0 || pos > parts.len() {
                assert(first.1 == parts.len());
            }
            if 0 <= first.1 <= parts.len() {
                lemma_find_in_end(parts, mime, first.1, (count - 1) as nat, fuel);
            }
            assert(k < find_in(parts, mime, pos, count, fuel).1);
        } else if rest.0 is Some {
            let k = choose|k: int|
                first.1 <= k < rest.1 && 0 <= k < parts.len() && parts[k].mimetype == mime && parts[k].body
                    == rest.0;
            if 0 <= pos <= parts.len() {
                assert(pos <= first.1);
            } else {
                assert(first.1 == parts.len());
            }
        }
    }
}

proof fn lemma_first_found_at(parts: Seq<PartView>, mime: Seq<char>, pos: int, fuel: nat, k: int)
    requires
        0 <= pos <= k < find_at(parts, mime, pos, fuel).1,
        k < parts.len(),
        fuel + pos >= parts.len(),
        parts[k].mimetype == mime,
        parts[k].body is Some,
        forall|q: int| pos <= q < k ==> (#[trigger] parts[q]).mimetype != mime,
    ensures
        find_at(parts, mime, pos, fuel).0 == parts[k].body,
    decreases fuel, 0nat, 0nat,
{
    if k > pos {
        let c = parts[pos].subpart_count;
        lemma_first_found_in(parts, mime, pos + 1, c, (fuel - 1) as nat, k);
    }
}

proof fn lemma_first_found_in(parts: Seq<PartView>, mime: Seq<char>, pos: int, count: nat, fuel: nat, k: int)
    requires
        0 <= pos <= k < find_in(parts, mime, pos, count, fuel).1,
        k < parts.len(),
        fuel + pos >= parts.len(),
        parts[k].mimetype == mime,
        parts[k].body is Some,
        forall|q: int| pos <= q < k ==> (#[trigger] parts[q]).mimetype != mime,
    ensures
        find_in(parts, mime, pos, count, fuel).0 == parts[k].body,
    decreases fuel, 1nat, count,
{
    if count > 0 {
        let first = find_at(parts, mime, pos, fuel);
        lemma_subtree_ends_after_start(parts, mime, pos, fuel);
        if k < first.1 {
            lemma_first_found_at(parts, mime, pos, fuel, k);
        } else {
            lemma_found_in_range_at(parts, mime, pos, fuel);
            if first.0 is Some {
                let w = choose|w: int|
                    pos <= w < first.1 && 0 <= w < parts.len() && parts[w].mimetype == mime && parts[w].body
                        == first.0;
                assert(parts[w].mimetype != mime);
            }
            lemma_first_found_in(parts, mime, first.1, (count - 1) as nat, fuel, k);
        }
    }
}

/// The message itself is searched first: where its own type is the one
/// asked for, its own body (or the lack of one) is the answer.
pub proof fn lemma_find_text_root(parts: Seq<PartView>, mime: Seq<char>)
    requires
        parts.len() > 0,
        parts[0].mimetype == mime,
    ensures
        find_text_spec(parts, mime) == parts[0].body,
{
}

/// The text found is the body of the first part, in depth-first order
/// starting with the message itself, whose type is the one asked for,
/// where that part has a body and lies within the message's part tree.
pub proof fn lemma_find_text_first_part(parts: Seq<PartView>, mime: Seq<char>, k: int)
    requires
        0 <= k < find_at(parts, mime, 0, parts.len()).1,
        k < parts.len(),
        parts[k].mimetype == mime,
        parts[k].body is Some,
        forall|q: int| 0 <= q < k ==> (#[trigger] parts[q]).mimetype != mime,
    ensures
        find_text_spec(parts, mime) == parts[k].body,
{
    lemma_first_found_at(parts, mime, 0, parts.len(), k);
}

/// A text is found only where a part of the requested type has it as its
/// body; where no part has that type, nothing is found.
pub proof fn lemma_find_text_only_from_a_part(parts: Seq<PartView>, mime: Seq<char>)
    ensures
        find_text_spec(parts, mime) matches Some(t) ==> exists|k: int|
            0 <= k < parts.len() && parts[k].mimetype == mime && parts[k].body == Some(t),
        (forall|q: int| 0 <= q < parts.len() ==> (#[trigger] parts[q]).mimetype != mime) ==> find_text_spec(parts, mime) is None,
{
    lemma_found_in_range_at(parts, mime, 0, parts.len());
}

} // verus!

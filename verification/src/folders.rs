//! Folder bookkeeping: listings, creating a folder with its parents,
//! deleting a folder with its subfolders, and the unique-id sets sent to
//! the server.
use vstd::prelude::*;
use crate::text::{
    chars_of, decimal, decimals, extend_chars, extend_str, has_prefix, join_decimals, join_with,
    push_decimal, starts_with_chars, str_equal, string_of, string_seq_view,
};

verus! {

broadcast use vstd::seq_lib::group_seq_properties;

// ---------------------------------------------------------------------------
// Listing
// ---------------------------------------------------------------------------

/// Whether `folder list` shows counts for a folder: every folder is
/// listed, and with counts requested every folder that can be opened
/// (examined, read-only) shows its number of messages and of unread ones.
pub fn counted_folder(with_counts: bool, selectable: bool) -> (r: bool)
    ensures
        r == (with_counts && selectable),
{
    with_counts && selectable
}

/// A line of `folder list`: the name, and with counts
/// `name [messages, unread unread]`.
pub open spec fn folder_line_spec(name: Seq<char>, counts: Option<(u32, u32)>) -> Seq<char> {
    match counts {
        Some((total, unread)) => name + " ["@ + decimal(total as nat) + ", "@ + decimal(unread as nat)
            + " unread]"@,
        None => name,
    }
}

/// The line `folder list` prints for a folder, with its numbers of
/// messages and of unread messages where they were counted.
pub fn folder_line(name: &str, counts: Option<(u32, u32)>) -> (r: String)
    ensures
        r@ == folder_line_spec(name@, counts),
{
    let mut v: Vec<char> = Vec::new();
    extend_str(&mut v, name);
    match counts {
        Some((total, unread)) => {
            extend_str(&mut v, " [");
            push_decimal(&mut v, total as u64);
            extend_str(&mut v, ", ");
            push_decimal(&mut v, unread as u64);
            extend_str(&mut v, " unread]");
        },
        None => {},
    }
    assert(v@ =~= folder_line_spec(name@, counts));
    string_of(&v)
}

/// Whether a search spans every folder (the folder name `ALL`).
pub fn searches_all_folders(folder: &str) -> (r: bool)
    ensures
        r == (folder@ == "ALL"@),
{
    str_equal(folder, "ALL")
}

/// The unique-id set sent to the server: the ids in decimal, separated by
/// commas.
pub fn uid_set(uids: &Vec<u32>) -> (r: String)
    ensures
        r@ == join_with(decimals(uids@), ","@),
{
    join_decimals(uids, ",")
}

// ---------------------------------------------------------------------------
// Creating a folder with its parents
// ---------------------------------------------------------------------------

/// The pieces of `s` between the occurrences of `sep` (`str::split` with a
/// string pattern, occurrences found from the left). An empty separator
/// splits around every character.
pub open spec fn split_str(s: Seq<char>, sep: Seq<char>) -> Seq<Seq<char>>
    decreases s.len(),
{
    if sep.len() == 0 {
        seq![Seq::<char>::empty()] + s.map_values(|c: char| seq![c]) + seq![Seq::<char>::empty()]
    } else if s.len() == 0 {
        seq![Seq::<char>::empty()]
    } else if has_prefix(s, sep) {
        seq![Seq::<char>::empty()] + split_str(s.skip(sep.len() as int), sep)
    } else {
        let r = split_str(s.drop_first(), sep);
        r.update(0, seq![s[0]] + r[0])
    }
}

proof fn lemma_split_str_nonempty(s: Seq<char>, sep: Seq<char>)
    ensures
        split_str(s, sep).len() >= 1,
    decreases s.len(),
{
    if sep.len() > 0 && s.len() > 0 {
        if has_prefix(s, sep) {
            lemma_split_str_nonempty(s.skip(sep.len() as int), sep);
        } else {
            lemma_split_str_nonempty(s.drop_first(), sep);
        }
    }
}

fn split_from(s: &Vec<char>, sep: &Vec<char>, i: usize) -> (r: Vec<Vec<char>>)
    requires
        sep@.len() > 0,
        i <= s@.len(),
    ensures
        r@.len() == split_str(s@.skip(i as int), sep@).len(),
        forall|k: int| 0 <= k < r@.len() ==> #[trigger] r@[k]@ == split_str(s@.skip(i as int), sep@)[k],
    decreases s@.len() - i,
{
    let ghost rest = s@.skip(i as int);
    if i == s.len() {
        let mut r: Vec<Vec<char>> = Vec::new();
        r.push(Vec::new());
        assert(rest.len() == 0);
        return r;
    }
    let mut at = false;
    if sep.len() <= s.len() - i {
        let mut j: usize = 0;
        at = true;
        while j < sep.len()
            invariant
                j <= sep.len(),
                sep.len() <= s.len() - i,
                at == (forall|k: int| 0 <= k < j ==> s@[i + k] == sep@[k]),
            decreases sep.len() - j,
        {
            if s[i + j] != sep[j] {
                at = false;
            }
            j = j + 1;
        }
        assert(at == (rest.subrange(0, sep@.len() as int) =~= sep@));
    }
    assert(at == has_prefix(rest, sep@));
    if at {
        let tail = split_from(s, sep, i + sep.len());
        assert(rest.skip(sep@.len() as int) =~= s@.skip(i + sep@.len()));
        let mut r: Vec<Vec<char>> = Vec::new();
        r.push(Vec::new());
        let mut k: usize = 0;
        while k < tail.len()
            invariant
                k <= tail.len(),
                r@.len() == k + 1,
                r@[0]@ == Seq::<char>::empty(),
                forall|x: int| 0 < x <= k ==> #[trigger] r@[x]@ == tail@[x - 1]@,
            decreases tail.len() - k,
        {
            let piece = tail[k].clone();
            r.push(piece);
            k = k + 1;
        }
        proof {
            let expect = seq![Seq::<char>::empty()] + split_str(rest.skip(sep@.len() as int), sep@);
            assert(split_str(rest, sep@) == expect);
            assert forall|x: int| 0 <= x < r@.len() implies #[trigger] r@[x]@ == expect[x] by {
                if x > 0 {
                    assert(expect[x] == split_str(rest.skip(sep@.len() as int), sep@)[x - 1]);
                }
            }
        }
        r
    } else {
        let mut r = split_from(s, sep, i + 1);
        assert(rest.drop_first() =~= s@.skip(i + 1));
        proof {
            lemma_split_str_nonempty(rest.drop_first(), sep@);
        }
        let mut first = Vec::new();
        first.push(s[i]);
        let old_first = r[0].clone();
        extend_chars(&mut first, &old_first);
        let ghost before = r@;
        r.set(0, first);
        proof {
            let sub = split_str(rest.drop_first(), sep@);
            assert(split_str(rest, sep@) == sub.update(0, seq![rest[0]] + sub[0]));
            assert(rest[0] == s@[i as int]);
            assert forall|k: int| 0 <= k < r@.len() implies #[trigger] r@[k]@ == split_str(rest, sep@)[k] by {
                if k == 0 {
                    assert(r@[0]@ =~= seq![s@[i as int]] + sub[0]);
                } else {
                    assert(r@[k] == before[k]);
                }
            }
        }
        r
    }
}

/// `s.split(sep)`, each piece as a character vector.
pub fn split_text(s: &str, sep: &str) -> (r: Vec<Vec<char>>)
    ensures
        r@.len() == split_str(s@, sep@).len(),
        forall|k: int| 0 <= k < r@.len() ==> #[trigger] r@[k]@ == split_str(s@, sep@)[k],
{
    let cs = chars_of(s);
    let sp = chars_of(sep);
    if sp.len() == 0 {
        let mut r: Vec<Vec<char>> = Vec::new();
        r.push(Vec::new());
        let mut i: usize = 0;
        while i < cs.len()
            invariant
                i <= cs.len(),
                cs@ == s@,
                r@.len() == i + 1,
                r@[0]@ == Seq::<char>::empty(),
                forall|x: int| 0 < x <= i ==> #[trigger] r@[x]@ == seq![cs@[x - 1]],
            decreases cs.len() - i,
        {
            let mut one = Vec::new();
            one.push(cs[i]);
            r.push(one);
            i = i + 1;
        }
        r.push(Vec::new());
        proof {
            let expect = seq![Seq::<char>::empty()] + s@.map_values(|c: char| seq![c]) + seq![Seq::<char>::empty()];
            assert(split_str(s@, sep@) == expect);
            assert forall|k: int| 0 <= k < r@.len() implies #[trigger] r@[k]@ == expect[k] by {
                if 0 < k <= cs@.len() {
                    assert(expect[k] == seq![s@[k - 1]]);
                }
            }
        }
        return r;
    }
    assert(cs@.skip(0) =~= cs@);
    split_from(&cs, &sp, 0)
}

/// The folders `folder create --parents` creates, in order: each piece of
/// the name adds one level (joined with the server's delimiter, except
/// right after an empty first level).
pub open spec fn folder_chain(pieces: Seq<Seq<char>>, delimiter: Seq<char>) -> Seq<Seq<char>>
    decreases pieces.len(),
{
    if pieces.len() == 0 {
        Seq::empty()
    } else {
        let prev = folder_chain(pieces.drop_last(), delimiter);
        let cur = if prev.len() == 0 {
            Seq::<char>::empty()
        } else {
            prev.last()
        };
        prev.push(
            (if cur.len() == 0 {
                cur
            } else {
                cur + delimiter
            }) + pieces.last(),
        )
    }
}

/// `folder create --parents`: the folders to create for a name, from the
/// outermost down, splitting the name at the server's delimiter.
pub fn parent_folder_chain(name: &str, delimiter: &str) -> (r: Vec<String>)
    ensures
        string_seq_view(r@) == folder_chain(split_str(name@, delimiter@), delimiter@),
{
    let pieces = split_text(name, delimiter);
    let ghost ps = split_str(name@, delimiter@);
    let delim = chars_of(delimiter);
    let mut out: Vec<String> = Vec::new();
    let mut cur: Vec<char> = Vec::new();
    let mut i: usize = 0;
    while i < pieces.len()
        invariant
            i <= pieces.len(),
            ps == split_str(name@, delimiter@),
            delim@ == delimiter@,
            pieces@.len() == ps.len(),
            forall|k: int| 0 <= k < pieces@.len() ==> #[trigger] pieces@[k]@ == ps[k],
            string_seq_view(out@) == folder_chain(ps.take(i as int), delimiter@),
            cur@ == (if i == 0 {
                Seq::<char>::empty()
            } else {
                folder_chain(ps.take(i as int), delimiter@).last()
            }),
            i > 0 ==> folder_chain(ps.take(i as int), delimiter@).len() == i,
        decreases pieces.len() - i,
    {
        proof {
            assert(ps.take(i as int + 1).drop_last() =~= ps.take(i as int));
            assert(ps.take(i as int + 1).last() == ps[i as int]);
        }
        if cur.len() > 0 {
            extend_chars(&mut cur, &delim);
        }
        extend_chars(&mut cur, &pieces[i]);
        let s = string_of(&cur);
        let ghost before = string_seq_view(out@);
        out.push(s);
        assert(string_seq_view(out@) =~= before.push(s@));
        i = i + 1;
    }
    assert(ps.take(i as int) =~= ps);
    out
}

/// Each folder of the chain lies inside the one before it: its name starts
/// with the previous name.
pub proof fn lemma_folder_chain_nested(pieces: Seq<Seq<char>>, delimiter: Seq<char>)
    ensures
        folder_chain(pieces, delimiter).len() == pieces.len(),
        forall|i: int|
            0 <= i < folder_chain(pieces, delimiter).len() - 1 ==> has_prefix(
                #[trigger] folder_chain(pieces, delimiter)[i + 1],
                folder_chain(pieces, delimiter)[i],
            ),
    decreases pieces.len(),
{
    if pieces.len() > 0 {
        lemma_folder_chain_nested(pieces.drop_last(), delimiter);
        let prev = folder_chain(pieces.drop_last(), delimiter);
        let c = folder_chain(pieces, delimiter);
        assert forall|i: int| 0 <= i < c.len() - 1 implies has_prefix(#[trigger] c[i + 1], c[i]) by {
            if i + 1 < prev.len() {
                assert(c[i + 1] == prev[i + 1] && c[i] == prev[i]);
            } else {
                let cur = prev.last();
                assert(c[i] == cur);
                if cur.len() == 0 {
                    assert(c[i + 1].subrange(0, 0) =~= cur);
                } else {
                    assert(c[i + 1].subrange(0, cur.len() as int) =~= cur);
                }
            }
        }
    }
}

proof fn lemma_join_prepend_piece(a: Seq<char>, rest: Seq<Seq<char>>, sep: Seq<char>)
    requires
        rest.len() >= 1,
    ensures
        join_with(seq![a] + rest, sep) == a + sep + join_with(rest, sep),
    decreases rest.len(),
{
    let x = seq![a] + rest;
    if rest.len() == 1 {
        assert(x.drop_last() =~= seq![a]);
        assert(x.last() == rest[0]);
        assert(join_with(seq![a], sep) == a);
        assert(join_with(rest, sep) == rest[0]);
        assert(join_with(x, sep) == join_with(x.drop_last(), sep) + sep + x.last());
    } else {
        assert(x.drop_last() =~= seq![a] + rest.drop_last());
        assert(x.last() == rest.last());
        lemma_join_prepend_piece(a, rest.drop_last(), sep);
        assert(join_with(x, sep) =~= a + sep + join_with(rest, sep));
    }
}

proof fn lemma_join_extend_first(c: Seq<char>, r: Seq<Seq<char>>, sep: Seq<char>)
    requires
        r.len() >= 1,
    ensures
        join_with(r.update(0, c + r[0]), sep) == c + join_with(r, sep),
    decreases r.len(),
{
    let u = r.update(0, c + r[0]);
    if r.len() > 1 {
        assert(u.drop_last() =~= r.drop_last().update(0, c + r.drop_last()[0]));
        assert(u.last() == r.last());
        lemma_join_extend_first(c, r.drop_last(), sep);
        assert(join_with(u, sep) =~= c + join_with(r, sep));
    }
}

/// Joining the pieces of a split with the separator gives the text back.
pub proof fn lemma_split_join(s: Seq<char>, sep: Seq<char>)
    requires
        sep.len() > 0,
    ensures
        join_with(split_str(s, sep), sep) == s,
    decreases s.len(),
{
    if s.len() == 0 {
        assert(join_with(seq![Seq::<char>::empty()], sep) == Seq::<char>::empty());
    } else if has_prefix(s, sep) {
        let rest = s.skip(sep.len() as int);
        lemma_split_join(rest, sep);
        lemma_split_str_nonempty(rest, sep);
        lemma_join_prepend_piece(Seq::empty(), split_str(rest, sep), sep);
        assert(s =~= Seq::<char>::empty() + sep + rest);
    } else {
        let tail = s.drop_first();
        lemma_split_join(tail, sep);
        lemma_split_str_nonempty(tail, sep);
        lemma_join_extend_first(seq![s[0]], split_str(tail, sep), sep);
        assert(s =~= seq![s[0]] + tail);
    }
}

proof fn lemma_join_starts_with_first(p: Seq<Seq<char>>, sep: Seq<char>)
    requires
        p.len() >= 1,
    ensures
        join_with(p, sep).len() >= p[0].len(),
    decreases p.len(),
{
    if p.len() > 1 {
        lemma_join_starts_with_first(p.drop_last(), sep);
    }
}

proof fn lemma_chain_last(pieces: Seq<Seq<char>>, d: Seq<char>)
    requires
        pieces.len() >= 1,
        pieces[0].len() > 0,
    ensures
        folder_chain(pieces, d).len() == pieces.len(),
        folder_chain(pieces, d).last() == join_with(pieces, d),
    decreases pieces.len(),
{
    lemma_folder_chain_nested(pieces, d);
    if pieces.len() > 1 {
        let init = pieces.drop_last();
        lemma_chain_last(init, d);
        lemma_join_starts_with_first(init, d);
    }
}

/// `folder create --parents` ends with the folder that was named: where
/// the delimiter is not empty and the name does not begin with it, the
/// last folder created is the name itself, and one folder is created per
/// piece of the name.
pub proof fn lemma_parent_chain_ends_with_name(name: Seq<char>, delimiter: Seq<char>)
    requires
        delimiter.len() > 0,
        !has_prefix(name, delimiter),
    ensures
        folder_chain(split_str(name, delimiter), delimiter).len() == split_str(name, delimiter).len(),
        folder_chain(split_str(name, delimiter), delimiter).last() == name,
{
    let pieces = split_str(name, delimiter);
    lemma_split_join(name, delimiter);
    lemma_split_str_nonempty(name, delimiter);
    if name.len() == 0 {
        assert(pieces == seq![Seq::<char>::empty()]);
        lemma_folder_chain_nested(pieces, delimiter);
        assert(pieces.drop_last() =~= Seq::<Seq<char>>::empty());
        assert(folder_chain(pieces, delimiter) == seq![Seq::<char>::empty()]);
    } else {
        lemma_split_str_nonempty(name.drop_first(), delimiter);
        assert(pieces[0] == seq![name[0]] + split_str(name.drop_first(), delimiter)[0]);
        lemma_chain_last(pieces, delimiter);
    }
}

// ---------------------------------------------------------------------------
// Deleting a folder with its subfolders
// ---------------------------------------------------------------------------

/// A folder as the server lists it.
#[derive(Debug)]
pub struct MailboxEntry {
    pub name: String,
    /// Whether the folder can be selected (it is not marked `\\Noselect`).
    pub selectable: bool,
}

/// Whether a folder goes when `target` is deleted with its subfolders:
/// the folder itself and every folder whose name continues `target` with
/// the server's hierarchy delimiter.
pub open spec fn doomed(name: Seq<char>, target: Seq<char>, delimiter: Seq<char>) -> bool {
    name == target || has_prefix(name, target + delimiter)
}

/// The length of a name in bytes (UTF-8), by which deletions are ordered.
pub open spec fn byte_len(name: Seq<char>) -> nat {
    vstd::utf8::encode_utf8(name).len()
}

/// Whether the folder at index `i` is deleted before the one at `j`:
/// longer names (in bytes) first, and among names of one length, later
/// folders of the server's list first.
pub open spec fn deleted_before(names: Seq<Seq<char>>, i: int, j: int) -> bool {
    byte_len(names[i]) > byte_len(names[j]) || (byte_len(names[i]) == byte_len(names[j]) && i > j)
}

/// Whether index `i` names a folder that is deleted.
pub open spec fn to_delete(entries: Seq<MailboxEntry>, target: Seq<char>, delimiter: Seq<char>, i: int) -> bool {
    0 <= i < entries.len() && doomed(entries[i].name@, target, delimiter) && entries[i].selectable
}

/// The names of the folders.
pub open spec fn entry_names(entries: Seq<MailboxEntry>) -> Seq<Seq<char>> {
    entries.map_values(|e: MailboxEntry| e.name@)
}

/// Whether `order` lists, as indices, exactly the folders that are
/// deleted, each once, in deletion order.
pub open spec fn deletion_order(entries: Seq<MailboxEntry>, target: Seq<char>, delimiter: Seq<char>, order: Seq<int>) -> bool {
    &&& order.no_duplicates()
    &&& forall|k: int| 0 <= k < order.len() ==> #[trigger] to_delete(entries, target, delimiter, order[k])
    &&& forall|i: int| #[trigger] to_delete(entries, target, delimiter, i) ==> order.contains(i)
    &&& forall|a: int, b: int|
        0 <= a < b < order.len() ==> deleted_before(entry_names(entries), #[trigger] order[a], #[trigger] order[b])
}

/// `folder delete --recursive`: the folders to delete, in the order they
/// are deleted: the folder and its subfolders (names that continue the
/// folder's name with the server's `delimiter`), leaving out folders that
/// cannot be selected, longest names first so that subfolders go before
/// their parents.
#[verifier::loop_isolation(false)]
pub fn recursive_deletion(entries: &Vec<MailboxEntry>, target: &str, delimiter: &str) -> (r: Vec<String>)
    ensures
        exists|order: Seq<int>|
            #[trigger] deletion_order(entries@, target@, delimiter@, order) && order.len() == r@.len() && forall|k: int|
                0 <= k < r@.len() ==> #[trigger] r@[k]@ == entries@[order[k]].name@,
{
    let t = chars_of(target);
    let mut prefix = chars_of(target);
    extend_str(&mut prefix, delimiter);
    let ghost names = entry_names(entries@);
    let mut out: Vec<String> = Vec::new();
    let mut lens: Vec<usize> = Vec::new();
    let ghost mut order: Seq<int> = Seq::empty();
    let mut k: usize = 0;
    while k < entries.len()
        invariant
            k <= entries.len(),
            t@ == target@,
            prefix@ == target@ + delimiter@,
            names == entry_names(entries@),
            out@.len() == order.len(),
            lens@.len() == order.len(),
            forall|x: int| 0 <= x < order.len() ==> #[trigger] out@[x]@ == entries@[order[x]].name@,
            forall|x: int| 0 <= x < order.len() ==> #[trigger] lens@[x] as int == byte_len(names[order[x]]),
            order.no_duplicates(),
            forall|x: int| 0 <= x < order.len() ==> #[trigger] to_delete(entries@, target@, delimiter@, order[x]),
            forall|x: int| 0 <= x < order.len() ==> #[trigger] order[x] < k,
            forall|i: int| 0 <= i < k && #[trigger] to_delete(entries@, target@, delimiter@, i) ==> order.contains(i),
            forall|a: int, b: int|
                0 <= a < b < order.len() ==> deleted_before(names, #[trigger] order[a], #[trigger] order[b]),
        decreases entries.len() - k,
    {
        let e = &entries[k];
        let name = chars_of(e.name.as_str());
        let hit = e.selectable && (str_equal(e.name.as_str(), target) || starts_with_chars(&name, &prefix));
        assert(names[k as int] == e.name@);
        if hit {
            let len = e.name.as_str().as_bytes().len();
            assert(len as int == byte_len(names[k as int]));
            let mut p: usize = 0;
            while p < lens.len() && lens[p] > len
                invariant
                    p <= lens@.len(),
                    lens@.len() == order.len(),
                    forall|x: int| 0 <= x < p ==> (#[trigger] lens@[x]) > len,
                decreases lens.len() - p,
            {
                p = p + 1;
            }
            proof {
                // Names are ordered by non-increasing length.
                assert forall|x: int| p <= x < order.len() implies (#[trigger] lens@[x]) <= len by {
                    if x > p {
                        assert(deleted_before(names, order[p as int], order[x]));
                    }
                }
            }
            let ghost old_order = order;
            proof {
                order = order.insert(p as int, k as int);
            }
            out.insert(p, e.name.clone());
            lens.insert(p, len);
            proof {
                assert forall|x: int| 0 <= x < order.len() implies #[trigger] out@[x]@ == entries@[order[x]].name@ by {
                    if x < p {
                        assert(order[x] == old_order[x]);
                    } else if x > p {
                        assert(order[x] == old_order[x - 1]);
                    }
                }
                assert forall|x: int| 0 <= x < order.len() implies #[trigger] lens@[x] as int == byte_len(names[order[x]]) by {
                    if x < p {
                        assert(order[x] == old_order[x]);
                    } else if x > p {
                        assert(order[x] == old_order[x - 1]);
                    }
                }
                assert(to_delete(entries@, target@, delimiter@, k as int));
                assert forall|x: int| 0 <= x < order.len() implies #[trigger] to_delete(entries@, target@, delimiter@, order[x]) by {
                    if x < p {
                        assert(to_delete(entries@, target@, delimiter@, old_order[x]));
                        assert(order[x] == old_order[x]);
                    } else if x > p {
                        assert(to_delete(entries@, target@, delimiter@, old_order[x - 1]));
                        assert(order[x] == old_order[x - 1]);
                    } else {
                        assert(order[x] == k as int);
                    }
                }
                assert forall|x: int| 0 <= x < order.len() implies #[trigger] order[x] < k + 1 by {
                    if x < p {
                        assert(order[x] == old_order[x] && old_order[x] < k);
                    } else if x > p {
                        assert(order[x] == old_order[x - 1] && old_order[x - 1] < k);
                    }
                }
                assert forall|a: int, b: int| 0 <= a < order.len() && 0 <= b < order.len() && a != b implies order[a] != order[b] by {
                    if a != p && b != p {
                        let a0 = if a < p { a } else { a - 1 };
                        let b0 = if b < p { b } else { b - 1 };
                        assert(order[a] == old_order[a0] && order[b] == old_order[b0]);
                    } else if a == p {
                        let b0 = if b < p { b } else { b - 1 };
                        assert(order[b] == old_order[b0]);
                    } else {
                        let a0 = if a < p { a } else { a - 1 };
                        assert(order[a] == old_order[a0]);
                    }
                }
                assert forall|i: int| 0 <= i < k + 1 && #[trigger] to_delete(entries@, target@, delimiter@, i) implies order.contains(i) by {
                    if i < k {
                        let w = choose|w: int| 0 <= w < old_order.len() && old_order[w] == i;
                        if w < p {
                            assert(order[w] == i);
                        } else {
                            assert(order[w + 1] == i);
                        }
                    } else {
                        assert(order[p as int] == i);
                    }
                }
                assert forall|a: int, b: int| 0 <= a < b < order.len() implies deleted_before(names, #[trigger] order[a], #[trigger] order[b]) by {
                    if b < p {
                        assert(order[a] == old_order[a] && order[b] == old_order[b]);
                    } else if a > p {
                        assert(order[a] == old_order[a - 1] && order[b] == old_order[b - 1]);
                    } else if a < p && b > p {
                        assert(order[a] == old_order[a] && order[b] == old_order[b - 1]);
                    } else if a == p {
                        assert(to_delete(entries@, target@, delimiter@, old_order[b - 1]) && old_order[b - 1] < k);
                        assert(order[b] == old_order[b - 1]);
                        assert(lens@[b] <= len);
                    } else {
                        assert(order[a] == old_order[a]);
                        assert(lens@[a] > len);
                    }
                }
            }
        } else {
            proof {
                if to_delete(entries@, target@, delimiter@, k as int) {
                    assert(doomed(e.name@, target@, delimiter@));
                    if e.name@ != target@ {
                        assert(has_prefix(name@, prefix@));
                    }
                }
            }
        }
        k = k + 1;
    }
    assert(deletion_order(entries@, target@, delimiter@, order));
    out
}


proof fn lemma_byte_len_concat(a: Seq<char>, b: Seq<char>)
    ensures
        byte_len(a + b) == byte_len(a) + byte_len(b),
    decreases a.len(),
{
    if a.len() > 0 {
        assert((a + b)[0] == a[0]);
        assert((a + b).drop_first() =~= a.drop_first() + b);
        lemma_byte_len_concat(a.drop_first(), b);
    } else {
        assert(a + b =~= b);
    }
}

proof fn lemma_byte_len_positive(s: Seq<char>)
    requires
        s.len() > 0,
    ensures
        byte_len(s) >= 1,
{
    assert(vstd::utf8::encode_utf8(s) == vstd::utf8::encode_scalar(s[0] as u32) + vstd::utf8::encode_utf8(s.drop_first()));
}

/// In a recursive deletion, every subfolder of a deleted folder (a name
/// that continues the folder's name with the delimiter) is deleted before
/// the folder itself.
pub proof fn lemma_subfolders_first(
    entries: Seq<MailboxEntry>,
    target: Seq<char>,
    delimiter: Seq<char>,
    order: Seq<int>,
    a: int,
    b: int,
)
    requires
        delimiter.len() > 0,
        deletion_order(entries, target, delimiter, order),
        0 <= a < order.len(),
        0 <= b < order.len(),
        has_prefix(entries[order[b]].name@, entries[order[a]].name@ + delimiter),
    ensures
        b < a,
{
    let na = entries[order[a]].name@;
    let nb = entries[order[b]].name@;
    let head = na + delimiter;
    assert(nb =~= head + nb.skip(head.len() as int));
    lemma_byte_len_concat(head, nb.skip(head.len() as int));
    lemma_byte_len_concat(na, delimiter);
    lemma_byte_len_positive(delimiter);
    let names = entry_names(entries);
    assert(to_delete(entries, target, delimiter, order[a]) && to_delete(entries, target, delimiter, order[b]));
    assert(names[order[a]] == na && names[order[b]] == nb);
    if a < b {
        assert(deleted_before(names, order[a], order[b]));
    }
    assert(a != b);
}

} // verus!

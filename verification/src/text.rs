//! Character-level building blocks: conversion between `&str`/`String` and
//! character vectors, decimal formatting and parsing, substring tests and
//! splitting.
use vstd::prelude::*;

verus! {

// ---------------------------------------------------------------------------
// Conversions
// ---------------------------------------------------------------------------

/// `String::push`: appends one character.
#[verifier::external_body]
fn push_char(s: &mut String, c: char)
    ensures
        final(s)@ == old(s)@.push(c),
{
    s.push(c);
}

/// The characters of a string slice, in order.
pub fn chars_of(s: &str) -> (v: Vec<char>)
    ensures
        v@ == s@,
{
    let len = s.unicode_len();
    let mut v: Vec<char> = Vec::new();
    for ch in it: s.chars()
        invariant
            len == s@.len(),
            it.seq() == s@,
            v@ == s@.take(it.index() as int),
    {
        v.push(ch);
        proof {
            assert(s@.take(it.index() as int + 1) =~= s@.take(it.index() as int).push(ch));
        }
    }
    assert(s@.take(s@.len() as int) =~= s@);
    v
}

/// A string holding exactly the given characters.
pub fn string_of(v: &Vec<char>) -> (s: String)
    ensures
        s@ == v@,
{
    let mut s = String::new();
    let mut i: usize = 0;
    while i < v.len()
        invariant
            i <= v.len(),
            s@ == v@.take(i as int),
        decreases v.len() - i,
    {
        push_char(&mut s, v[i]);
        proof {
            assert(v@.take(i as int + 1) =~= v@.take(i as int).push(v@[i as int]));
        }
        i = i + 1;
    }
    assert(v@.take(v@.len() as int) =~= v@);
    s
}

/// Appends the characters of `src` to `dst`.
pub fn extend_chars(dst: &mut Vec<char>, src: &Vec<char>)
    ensures
        final(dst)@ == old(dst)@ + src@,
{
    let mut i: usize = 0;
    while i < src.len()
        invariant
            i <= src.len(),
            dst@ == old(dst)@ + src@.take(i as int),
        decreases src.len() - i,
    {
        dst.push(src[i]);
        proof {
            assert(src@.take(i as int + 1) =~= src@.take(i as int).push(src@[i as int]));
        }
        i = i + 1;
    }
    assert(src@.take(src@.len() as int) =~= src@);
}

/// Appends the characters of a string slice to `dst`.
pub fn extend_str(dst: &mut Vec<char>, src: &str)
    ensures
        final(dst)@ == old(dst)@ + src@,
{
    let cs = chars_of(src);
    extend_chars(dst, &cs);
}

/// Whether two character vectors hold the same characters.
pub fn chars_equal(a: &Vec<char>, b: &Vec<char>) -> (r: bool)
    ensures
        r == (a@ == b@),
{
    if a.len() != b.len() {
        return false;
    }
    let mut i: usize = 0;
    while i < a.len()
        invariant
            i <= a.len(),
            a.len() == b.len(),
            forall|j: int| 0 <= j < i ==> a@[j] == b@[j],
        decreases a.len() - i,
    {
        if a[i] != b[i] {
            return false;
        }
        i = i + 1;
    }
    assert(a@ =~= b@);
    true
}

/// Whether two string slices hold the same characters.
pub fn str_equal(a: &str, b: &str) -> (r: bool)
    ensures
        r == (a@ == b@),
{
    let ca = chars_of(a);
    let cb = chars_of(b);
    chars_equal(&ca, &cb)
}

// ---------------------------------------------------------------------------
// Decimal numbers
// ---------------------------------------------------------------------------

/// The character of a decimal digit.
pub open spec fn digit_char(d: nat) -> char {
    (48 + d) as char
}

/// Whether a character is one of `0` to `9`.
pub open spec fn is_digit(c: char) -> bool {
    '0' <= c && c <= '9'
}

/// The decimal representation of `n`, as `format!("{}", n)` writes it: no
/// sign and no leading zeros (`0` is written as one digit).
pub open spec fn decimal(n: nat) -> Seq<char>
    decreases n,
{
    if n < 10 {
        seq![digit_char(n)]
    } else {
        decimal(n / 10).push(digit_char(n % 10))
    }
}

/// `decimal(n)` left-padded with `0` to at least three characters, as
/// `format!("{:03}", n)` writes it.
pub open spec fn decimal3(n: nat) -> Seq<char> {
    let d = decimal(n);
    if d.len() >= 3 {
        d
    } else {
        Seq::new((3 - d.len()) as nat, |i: int| '0') + d
    }
}

/// The value of a sequence of decimal digits (0 for the empty sequence).
pub open spec fn digits_value(s: Seq<char>) -> nat
    decreases s.len(),
{
    if s.len() == 0 {
        0
    } else {
        digits_value(s.drop_last()) * 10 + ((s.last() as int - 48) as nat)
    }
}

/// Whether every character of `s` is a decimal digit.
pub open spec fn all_digits(s: Seq<char>) -> bool {
    forall|i: int| 0 <= i < s.len() ==> is_digit(#[trigger] s[i])
}

/// What `s.parse::<u32>()` gives: an optional `+` followed by one or more
/// decimal digits whose value fits in a `u32`.
pub open spec fn parse_u32_spec(s: Seq<char>) -> Option<u32> {
    let body = if s.len() > 0 && s[0] == '+' {
        s.drop_first()
    } else {
        s
    };
    if body.len() > 0 && all_digits(body) && digits_value(body) <= u32::MAX {
        Some(digits_value(body) as u32)
    } else {
        None
    }
}

fn digit_of(d: u64) -> (c: char)
    requires
        d < 10,
    ensures
        c == digit_char(d as nat),
{
    let b: u8 = 48u8 + (d as u8);
    let c = b as char;
    assert(b as int == 48 + d);
    c
}

/// Appends the decimal representation of `n`.
pub fn push_decimal(out: &mut Vec<char>, n: u64)
    ensures
        final(out)@ == old(out)@ + decimal(n as nat),
    decreases n,
{
    if n >= 10 {
        push_decimal(out, n / 10);
    }
    let c = digit_of(n % 10);
    out.push(c);
    proof {
        if n >= 10 {
            assert(decimal(n as nat) == decimal((n / 10) as nat).push(digit_char((n % 10) as nat)));
        } else {
            assert(decimal(n as nat) == seq![digit_char(n as nat)]);
        }
    }
    assert(out@ =~= old(out)@ + decimal(n as nat));
}

/// Appends `n` left-padded with zeros to three digits (`{:03}`).
pub fn push_decimal3(out: &mut Vec<char>, n: u64)
    ensures
        final(out)@ == old(out)@ + decimal3(n as nat),
{
    let mut digits: Vec<char> = Vec::new();
    push_decimal(&mut digits, n);
    assert(digits@ == decimal(n as nat));
    let mut pad: usize = 0;
    let start = out.len();
    if digits.len() < 3 {
        pad = 3 - digits.len();
    }
    let mut i: usize = 0;
    while i < pad
        invariant
            i <= pad,
            pad < 3,
            start == old(out)@.len(),
            out@ == old(out)@ + Seq::new(i as nat, |k: int| '0'),
        decreases pad - i,
    {
        out.push('0');
        assert(Seq::new((i + 1) as nat, |k: int| '0') =~= Seq::new(i as nat, |k: int| '0').push('0'));
        i = i + 1;
    }
    extend_chars(out, &digits);
    assert(out@ =~= old(out)@ + decimal3(n as nat));
}

/// `format!("{}", n)`.
pub fn decimal_string(n: u64) -> (s: String)
    ensures
        s@ == decimal(n as nat),
{
    let mut v: Vec<char> = Vec::new();
    push_decimal(&mut v, n);
    assert(v@ =~= decimal(n as nat));
    string_of(&v)
}

proof fn lemma_digits_value_push(s: Seq<char>, c: char)
    ensures
        digits_value(s.push(c)) == digits_value(s) * 10 + ((c as int - 48) as nat),
{
    assert(s.push(c).drop_last() =~= s);
}

proof fn lemma_digits_value_prefix_mono(s: Seq<char>, i: int, j: int)
    requires
        0 <= i <= j <= s.len(),
        all_digits(s),
    ensures
        digits_value(s.take(i)) <= digits_value(s.take(j)),
    decreases j - i,
{
    if i < j {
        lemma_digits_value_prefix_mono(s, i, j - 1);
        assert(s.take(j) =~= s.take(j - 1).push(s[j - 1]));
        lemma_digits_value_push(s.take(j - 1), s[j - 1]);
        assert(is_digit(s[j - 1]));
    }
}

/// `s.parse::<u32>()`, as `Option`.
pub fn parse_u32(s: &str) -> (r: Option<u32>)
    ensures
        r == parse_u32_spec(s@),
{
    let cs = chars_of(s);
    let mut start: usize = 0;
    if cs.len() > 0 && cs[0] == '+' {
        start = 1;
    }
    let ghost body = if cs@.len() > 0 && cs@[0] == '+' {
        cs@.drop_first()
    } else {
        cs@
    };
    assert(body =~= cs@.skip(start as int));
    if start >= cs.len() {
        return None;
    }
    let mut acc: u64 = 0;
    let mut i: usize = start;
    while i < cs.len()
        invariant
            start <= i <= cs.len(),
            start < cs.len(),
            cs@ == s@,
            body == (if s@.len() > 0 && s@[0] == '+' { s@.drop_first() } else { s@ }),
            body == cs@.skip(start as int),
            acc as nat == digits_value(body.take(i - start)),
            acc <= u32::MAX,
            all_digits(body.take(i - start)),
        decreases cs.len() - i,
    {
        let c = cs[i];
        assert(body[i - start] == c);
        if !('0' <= c && c <= '9') {
            assert(!is_digit(body[i - start]));
            assert(!all_digits(body));
            assert(cs@ == s@);
            assert(parse_u32_spec(s@).is_none());
            return None;
        }
        let d: u64 = ((c as u32) - 48) as u64;
        assert(d == c as int - 48);
        assert(body.take(i - start + 1) =~= body.take(i - start).push(c));
        proof {
            lemma_digits_value_push(body.take(i - start), c);
        }
        let next: u64 = acc * 10 + d;
        if next > 4294967295u64 {
            proof {
                assert(all_digits(body.take(i - start + 1)));
                if all_digits(body) {
                    lemma_digits_value_prefix_mono(body, i - start + 1, body.len() as int);
                    assert(body.take(body.len() as int) =~= body);
                }
            }
            return None;
        }
        acc = next;
        i = i + 1;
    }
    assert(body.take(i - start) =~= body);
    Some(acc as u32)
}

/// Parsing the decimal representation of a number gives the number back.
pub proof fn lemma_decimal_parses(n: nat)
    requires
        n <= u32::MAX,
    ensures
        parse_u32_spec(decimal(n)) == Some(n as u32),
{
    lemma_decimal_value(n);
    reveal_with_fuel(decimal, 1);
    assert(decimal(n).len() > 0);
    assert(decimal(n)[0] != '+') by {
        lemma_decimal_first(n);
    }
}

proof fn lemma_decimal_first(n: nat)
    ensures
        is_digit(decimal(n)[0]),
        decimal(n).len() >= 1,
    decreases n,
{
    if n >= 10 {
        lemma_decimal_first(n / 10);
    }
}

/// Every character of `decimal(n)` is a digit and its value is `n`.
pub proof fn lemma_decimal_value(n: nat)
    ensures
        all_digits(decimal(n)),
        digits_value(decimal(n)) == n,
        decimal(n).len() >= 1,
    decreases n,
{
    assert(digit_char(n % 10) as int == 48 + n % 10);
    vstd::arithmetic::div_mod::lemma_fundamental_div_mod(n as int, 10);
    if n < 10 {
        assert(decimal(n) == seq![digit_char(n)]);
        assert(decimal(n).drop_last() =~= Seq::<char>::empty());
        assert(digits_value(decimal(n)) == digits_value(Seq::<char>::empty()) * 10 + ((digit_char(n) as int - 48) as nat));
    } else {
        lemma_decimal_value(n / 10);
        lemma_digits_value_push(decimal(n / 10), digit_char(n % 10));
        assert(digits_value(decimal(n)) == digits_value(decimal(n / 10)) * 10 + n % 10);
    }
}

// ---------------------------------------------------------------------------
// Substrings
// ---------------------------------------------------------------------------

/// Whether `q` occurs in `s` at position `i`.
pub open spec fn occurs_at(s: Seq<char>, q: Seq<char>, i: int) -> bool {
    0 <= i && i + q.len() <= s.len() && s.subrange(i, i + q.len()) == q
}

/// Whether `q` occurs somewhere in `s` (`str::contains`); the empty
/// sequence occurs in every sequence.
pub open spec fn has_substring(s: Seq<char>, q: Seq<char>) -> bool {
    exists|i: int| occurs_at(s, q, i)
}

/// Whether `s` begins with `q` (`str::starts_with`).
pub open spec fn has_prefix(s: Seq<char>, q: Seq<char>) -> bool {
    occurs_at(s, q, 0)
}

fn matches_at(s: &Vec<char>, q: &Vec<char>, i: usize) -> (r: bool)
    requires
        i + q.len() <= s.len(),
    ensures
        r == occurs_at(s@, q@, i as int),
{
    let mut j: usize = 0;
    while j < q.len()
        invariant
            j <= q.len(),
            i + q.len() <= s.len(),
            forall|k: int| 0 <= k < j ==> s@[i + k] == q@[k],
        decreases q.len() - j,
    {
        if s[i + j] != q[j] {
            assert(s@.subrange(i as int, i + q.len())[j as int] != q@[j as int]);
            return false;
        }
        j = j + 1;
    }
    assert(s@.subrange(i as int, i + q.len()) =~= q@);
    true
}

/// `str::contains` on character vectors.
pub fn contains_chars(s: &Vec<char>, q: &Vec<char>) -> (r: bool)
    ensures
        r == has_substring(s@, q@),
{
    if q.len() > s.len() {
        assert forall|i: int| !occurs_at(s@, q@, i) by {}
        return false;
    }
    if q.len() == 0 {
        assert(s@.subrange(0, 0) =~= q@);
        assert(occurs_at(s@, q@, 0));
        return true;
    }
    let count = s.len() - q.len() + 1;
    let mut i: usize = 0;
    while i < count
        invariant
            q.len() <= s.len(),
            count == s.len() - q.len() + 1,
            i <= count,
            forall|k: int| 0 <= k < i ==> !occurs_at(s@, q@, k),
        decreases count - i,
    {
        if matches_at(s, q, i) {
            return true;
        }
        i = i + 1;
    }
    assert forall|k: int| !occurs_at(s@, q@, k) by {
        if 0 <= k < i {
        }
    }
    false
}

/// `str::starts_with` on character vectors.
pub fn starts_with_chars(s: &Vec<char>, q: &Vec<char>) -> (r: bool)
    ensures
        r == has_prefix(s@, q@),
{
    if q.len() > s.len() {
        return false;
    }
    matches_at(s, q, 0)
}

// ---------------------------------------------------------------------------
// Splitting and joining
// ---------------------------------------------------------------------------

/// The pieces of `s` between occurrences of the character `c`
/// (`str::split` with a `char` pattern): there is always at least one piece.
pub open spec fn split_char(s: Seq<char>, c: char) -> Seq<Seq<char>>
    decreases s.len(),
{
    if s.len() == 0 {
        seq![Seq::<char>::empty()]
    } else {
        let prev = split_char(s.drop_last(), c);
        if s.last() == c {
            prev.push(Seq::<char>::empty())
        } else {
            prev.update(prev.len() - 1, prev.last().push(s.last()))
        }
    }
}

proof fn lemma_split_char_nonempty(s: Seq<char>, c: char)
    ensures
        split_char(s, c).len() >= 1,
    decreases s.len(),
{
    if s.len() > 0 {
        lemma_split_char_nonempty(s.drop_last(), c);
    }
}

/// `s.split(c)`, each piece as a character vector.
pub fn split_on_char(s: &Vec<char>, c: char) -> (r: Vec<Vec<char>>)
    ensures
        r@.len() == split_char(s@, c).len(),
        forall|k: int| 0 <= k < r@.len() ==> #[trigger] r@[k]@ == split_char(s@, c)[k],
{
    let mut pieces: Vec<Vec<char>> = Vec::new();
    let mut cur: Vec<char> = Vec::new();
    let mut i: usize = 0;
    while i < s.len()
        invariant
            i <= s.len(),
            pieces@.len() + 1 == split_char(s@.take(i as int), c).len(),
            forall|k: int|
                0 <= k < pieces@.len() ==> #[trigger] pieces@[k]@ == split_char(
                    s@.take(i as int),
                    c,
                )[k],
            cur@ == split_char(s@.take(i as int), c).last(),
        decreases s.len() - i,
    {
        proof {
            lemma_split_char_nonempty(s@.take(i as int), c);
            assert(s@.take(i as int + 1).drop_last() =~= s@.take(i as int));
        }
        if s[i] == c {
            let done = cur;
            pieces.push(done);
            cur = Vec::new();
        } else {
            cur.push(s[i]);
        }
        i = i + 1;
    }
    assert(s@.take(s@.len() as int) =~= s@);
    pieces.push(cur);
    pieces
}

/// Pieces joined with a separator between each two of them (`[..].join(sep)`).
pub open spec fn join_with(pieces: Seq<Seq<char>>, sep: Seq<char>) -> Seq<char>
    decreases pieces.len(),
{
    if pieces.len() == 0 {
        Seq::<char>::empty()
    } else if pieces.len() == 1 {
        pieces[0]
    } else {
        join_with(pieces.drop_last(), sep) + sep + pieces.last()
    }
}

/// Decimal representations of a sequence of numbers.
pub open spec fn decimals(ns: Seq<u32>) -> Seq<Seq<char>> {
    ns.map_values(|n: u32| decimal(n as nat))
}

/// `ns.iter().map(|n| n.to_string()).collect::<Vec<_>>().join(sep)`.
pub fn join_decimals(ns: &Vec<u32>, sep: &str) -> (s: String)
    ensures
        s@ == join_with(decimals(ns@), sep@),
{
    let sepc = chars_of(sep);
    let mut out: Vec<char> = Vec::new();
    let mut i: usize = 0;
    while i < ns.len()
        invariant
            i <= ns.len(),
            sepc@ == sep@,
            out@ == join_with(decimals(ns@.take(i as int)), sep@),
        decreases ns.len() - i,
    {
        let ghost before = ns@.take(i as int);
        assert(decimals(ns@.take(i as int + 1)).drop_last() =~= decimals(before));
        if i > 0 {
            extend_chars(&mut out, &sepc);
        }
        push_decimal(&mut out, ns[i] as u64);
        proof {
            let p = decimals(ns@.take(i as int + 1));
            assert(p.last() == decimal(ns@[i as int] as nat));
            if i == 0 {
                assert(p.len() == 1);
            }
        }
        i = i + 1;
    }
    assert(ns@.take(ns@.len() as int) =~= ns@);
    string_of(&out)
}

/// The characters of each string of a vector.
pub open spec fn string_seq_view(v: Seq<String>) -> Seq<Seq<char>> {
    v.map_values(|s: String| s@)
}

/// `strings.join(sep)`.
pub fn join_strings(strings: &Vec<String>, sep: &str) -> (s: String)
    ensures
        s@ == join_with(string_seq_view(strings@), sep@),
{
    let mut out: Vec<char> = Vec::new();
    let mut i: usize = 0;
    while i < strings.len()
        invariant
            i <= strings.len(),
            out@ == join_with(string_seq_view(strings@.take(i as int)), sep@),
        decreases strings.len() - i,
    {
        assert(string_seq_view(strings@.take(i as int + 1)).drop_last() =~= string_seq_view(
            strings@.take(i as int),
        ));
        if i > 0 {
            extend_str(&mut out, sep);
        }
        extend_str(&mut out, strings[i].as_str());
        proof {
            let p = string_seq_view(strings@.take(i as int + 1));
            assert(p.last() == strings@[i as int]@);
            if i == 0 {
                assert(p.len() == 1);
            }
        }
        i = i + 1;
    }
    assert(strings@.take(strings@.len() as int) =~= strings@);
    string_of(&out)
}

/// The number of pieces `split_char` gives is one more than the number of
/// occurrences of the separator; in particular there are at least two
/// pieces exactly when the separator occurs.
pub proof fn lemma_split_char_len(s: Seq<char>, c: char)
    ensures
        split_char(s, c).len() >= 2 <==> s.contains(c),
    decreases s.len(),
{
    if s.len() > 0 {
        lemma_split_char_len(s.drop_last(), c);
        lemma_split_char_nonempty(s.drop_last(), c);
        if s.drop_last().contains(c) {
            let i = choose|i: int| 0 <= i < s.drop_last().len() && s.drop_last()[i] == c;
            assert(s[i] == c);
        }
        if s.contains(c) && s.last() != c {
            let i = choose|i: int| 0 <= i < s.len() && s[i] == c;
            assert(s.drop_last()[i] == c);
        }
        if s.last() == c {
            assert(s[s.len() - 1] == c);
        }
    }
}

} // verus!

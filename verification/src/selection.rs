//! Message numbers: the client numbers the messages of a folder from the
//! newest (number 0) to the oldest, while the server's sequence numbers
//! count from the oldest (1). These functions turn the numbers a user gave
//! into what the server needs.
use vstd::prelude::*;

verus! {

broadcast use vstd::seq_lib::group_seq_properties;

/// The numbers below `n` that the user asked for and for which `ok` holds,
/// in increasing order (the client walks the folder from the newest
/// message and keeps the wanted ones).
pub open spec fn picked(n: nat, wanted: Seq<int>, ok: spec_fn(int) -> bool) -> Seq<int>
    decreases n,
{
    if n == 0 {
        Seq::empty()
    } else {
        let prev = picked((n - 1) as nat, wanted, ok);
        if wanted.contains(n - 1) && ok(n - 1) {
            prev.push(n - 1)
        } else {
            prev
        }
    }
}

proof fn lemma_picked_shape(n: nat, wanted: Seq<int>, ok: spec_fn(int) -> bool)
    ensures
        forall|i: int, j: int|
            0 <= i < j < picked(n, wanted, ok).len() ==> picked(n, wanted, ok)[i] < picked(
                n,
                wanted,
                ok,
            )[j],
        forall|i: int|
            0 <= i < picked(n, wanted, ok).len() ==> 0 <= #[trigger] picked(n, wanted, ok)[i] < n
                && wanted.contains(picked(n, wanted, ok)[i]) && ok(picked(n, wanted, ok)[i]),
        forall|c: int|
            0 <= c < n && wanted.contains(c) && ok(c) ==> #[trigger] picked(n, wanted, ok).contains(c),
    decreases n,
{
    if n > 0 {
        lemma_picked_shape((n - 1) as nat, wanted, ok);
        let prev = picked((n - 1) as nat, wanted, ok);
        let cur = picked(n, wanted, ok);
        assert forall|c: int| 0 <= c < n && wanted.contains(c) && ok(c) implies cur.contains(c) by {
            if c < n - 1 {
                assert(prev.contains(c));
                let k = choose|k: int| 0 <= k < prev.len() && prev[k] == c;
                assert(cur[k] == c);
            } else {
                assert(cur[cur.len() - 1] == c);
            }
        }
    }
}

/// Every wanted number is found exactly when the wanted numbers are
/// distinct, all below `n`, and all acceptable: the count the client
/// compares with the number of wanted numbers detects any other request.
pub proof fn lemma_picked_all(n: nat, wanted: Seq<int>, ok: spec_fn(int) -> bool)
    ensures
        picked(n, wanted, ok).len() == wanted.len() <==> (wanted.no_duplicates() && forall|i: int|
            0 <= i < wanted.len() ==> 0 <= #[trigger] wanted[i] < n && ok(wanted[i])),
{
    lemma_picked_shape(n, wanted, ok);
    let p = picked(n, wanted, ok);
    assert forall|i: int, j: int| 0 <= i < p.len() && 0 <= j < p.len() && i != j implies p[i] != p[j] by {
        if i < j {
            assert(p[i] < p[j]);
        } else {
            assert(p[j] < p[i]);
        }
    }
    assert(p.no_duplicates());
    p.unique_seq_to_set();
    wanted.lemma_cardinality_of_set();
    let ps = p.to_set();
    let ws = wanted.to_set();
    assert(ps.subset_of(ws)) by {
        assert forall|x: int| ps.contains(x) implies ws.contains(x) by {
            let k = choose|k: int| 0 <= k < p.len() && p[k] == x;
            assert(wanted.contains(p[k]));
        }
    }
    vstd::set_lib::lemma_len_subset(ps, ws);
    if p.len() == wanted.len() {
        vstd::set_lib::lemma_subset_equality(ps, ws);
        wanted.lemma_no_dup_set_cardinality();
        assert forall|i: int| 0 <= i < wanted.len() implies 0 <= #[trigger] wanted[i] < n && ok(
            wanted[i],
        ) by {
            assert(ws.contains(wanted[i]));
            assert(ps.contains(wanted[i]));
            let k = choose|k: int| 0 <= k < p.len() && p[k] == wanted[i];
        }
    }
    if wanted.no_duplicates() && forall|i: int|
        0 <= i < wanted.len() ==> 0 <= #[trigger] wanted[i] < n && ok(wanted[i]) {
        wanted.unique_seq_to_set();
        assert(ws.subset_of(ps)) by {
            assert forall|x: int| ws.contains(x) implies ps.contains(x) by {
                let k = choose|k: int| 0 <= k < wanted.len() && wanted[k] == x;
                assert(0 <= wanted[k] < n && ok(wanted[k]));
                assert(p.contains(x));
            }
        }
        vstd::set_lib::lemma_len_subset(ws, ps);
    }
}

/// Numbers as integers.
pub open spec fn as_ints(v: Seq<u32>) -> Seq<int> {
    v.map_values(|x: u32| x as int)
}

/// Numbers as integers.
pub open spec fn wide_as_ints(v: Seq<u64>) -> Seq<int> {
    v.map_values(|x: u64| x as int)
}

fn contains_u32(v: &Vec<u32>, x: u64) -> (r: bool)
    ensures
        r == as_ints(v@).contains(x as int),
{
    let mut i: usize = 0;
    while i < v.len()
        invariant
            i <= v.len(),
            forall|k: int| 0 <= k < i ==> v@[k] as int != x as int,
        decreases v.len() - i,
    {
        if v[i] as u64 == x {
            assert(as_ints(v@)[i as int] == x as int);
            return true;
        }
        i = i + 1;
    }
    proof {
        if as_ints(v@).contains(x as int) {
            let k = choose|k: int| 0 <= k < as_ints(v@).len() && as_ints(v@)[k] == x as int;
            assert(v@[k] as int == x as int);
        }
    }
    false
}

fn contains_u64(v: &Vec<u64>, x: u64) -> (r: bool)
    ensures
        r == wide_as_ints(v@).contains(x as int),
{
    let mut i: usize = 0;
    while i < v.len()
        invariant
            i <= v.len(),
            forall|k: int| 0 <= k < i ==> v@[k] as int != x as int,
        decreases v.len() - i,
    {
        if v[i] == x {
            assert(wide_as_ints(v@)[i as int] == x as int);
            return true;
        }
        i = i + 1;
    }
    proof {
        if wide_as_ints(v@).contains(x as int) {
            let k = choose|k: int| 0 <= k < wide_as_ints(v@).len() && wide_as_ints(v@)[k] == x as int;
            assert(v@[k] as int == x as int);
        }
    }
    false
}

/// Every position is acceptable.
pub open spec fn any_position(c: int) -> bool {
    true
}

/// The server's sequence number of message number `id` of a folder of
/// `total` messages (`total - id`); `None` where the folder has no message
/// of that number.
pub fn sequence_number(total: usize, id: u32) -> (r: Option<usize>)
    ensures
        (id as int) < total ==> r == Some((total - id) as usize),
        (id as int) >= total ==> r is None,
{
    if (id as u64) < (total as u64) {
        Some(total - id as usize)
    } else {
        None
    }
}

/// The sequence numbers of the picked client numbers, in the order picked.
pub open spec fn picked_sequence_numbers(total: nat, wanted: Seq<int>) -> Seq<usize> {
    picked(total, wanted, |c: int| any_position(c)).map_values(|c: int| (total - c) as usize)
}

/// The sequence numbers of the messages `mail move` moves, highest first,
/// so that moving them one after the other never shifts a number still to
/// be moved. The request is refused (`None`) unless every number names a
/// message of the folder and no number is given twice: the client counts
/// the folder's numbers that were asked for and compares the count with
/// the number of numbers given.
pub fn move_sequence_numbers(total: usize, ids: &Vec<u32>) -> (r: Option<Vec<usize>>)
    ensures
        r is Some <==> picked(total as nat, as_ints(ids@), |c: int| any_position(c)).len() == ids@.len(),
        r is Some <==> (ids@.no_duplicates() && forall|i: int| 0 <= i < ids@.len() ==> (#[trigger] ids@[i] as int) < total),
        r matches Some(v) ==> v@ == picked_sequence_numbers(total as nat, as_ints(ids@)),
        r matches Some(v) ==> v@.len() == ids@.len(),
        r matches Some(v) ==> forall|i: int, j: int| 0 <= i < j < v@.len() ==> v@[i] > v@[j],
        r matches Some(v) ==> forall|k: int|
            0 <= k < ids@.len() ==> v@.contains((total - #[trigger] ids@[k]) as usize),
{
    let ghost ok = |c: int| any_position(c);
    let ghost wanted = as_ints(ids@);
    let mut out: Vec<usize> = Vec::new();
    let mut c: usize = 0;
    while c < total
        invariant
            c <= total,
            ok == (|c: int| any_position(c)),
            wanted == as_ints(ids@),
            out@ == picked(c as nat, wanted, ok).map_values(|x: int| (total - x) as usize),
            out@.len() <= c,
        decreases total - c,
    {
        let ghost before = picked(c as nat, wanted, ok);
        if contains_u32(ids, c as u64) {
            out.push(total - c);
            assert(picked((c + 1) as nat, wanted, ok) == before.push(c as int));
            assert(out@ =~= before.push(c as int).map_values(|x: int| (total - x) as usize));
        } else {
            assert(picked((c + 1) as nat, wanted, ok) == before);
        }
        c = c + 1;
    }
    proof {
        lemma_picked_all(total as nat, wanted, ok);
        lemma_picked_shape(total as nat, wanted, ok);
        assert(wanted.no_duplicates() <==> ids@.no_duplicates()) by {
            if ids@.no_duplicates() {
                assert forall|i: int, j: int|
                    0 <= i < ids@.len() && 0 <= j < ids@.len() && i != j implies wanted[i] != wanted[j] by {
                    assert(ids@[i] != ids@[j]);
                }
            }
            if wanted.no_duplicates() {
                assert forall|i: int, j: int|
                    0 <= i < ids@.len() && 0 <= j < ids@.len() && i != j implies ids@[i] != ids@[j] by {
                    assert(wanted[i] != wanted[j]);
                }
            }
        }
        assert((forall|i: int| 0 <= i < ids@.len() ==> (#[trigger] ids@[i] as int) < total) <==> (forall|i: int|
            0 <= i < wanted.len() ==> 0 <= #[trigger] wanted[i] < total && ok(wanted[i]))) by {
            if forall|i: int| 0 <= i < ids@.len() ==> (#[trigger] ids@[i] as int) < total {
                assert forall|i: int| 0 <= i < wanted.len() implies 0 <= #[trigger] wanted[i] < total && ok(wanted[i]) by {
                    assert(ids@[i] as int == wanted[i]);
                }
            }
            if forall|i: int| 0 <= i < wanted.len() ==> 0 <= #[trigger] wanted[i] < total && ok(wanted[i]) {
                assert forall|i: int| 0 <= i < ids@.len() implies (#[trigger] ids@[i] as int) < total by {
                    assert(wanted[i] == ids@[i] as int);
                }
            }
        }
    }
    if out.len() != ids.len() {
        return None;
    }
    proof {
        let p = picked(total as nat, wanted, ok);
        assert forall|i: int, j: int| 0 <= i < j < out@.len() implies out@[i] > out@[j] by {
            assert(p[i] < p[j]);
        }
        assert forall|k: int| 0 <= k < ids@.len() implies out@.contains((total - #[trigger] ids@[k]) as usize) by {
            assert(wanted[k] == ids@[k] as int);
            assert(wanted.contains(wanted[k]));
            assert(p.contains(wanted[k]));
            let w = choose|w: int| 0 <= w < p.len() && p[w] == wanted[k];
            assert(out@[w] == (total - ids@[k]) as usize);
        }
    }
    Some(out)
}

/// Whether the message at a client number has a unique id.
pub open spec fn has_uid(newest_first: Seq<Option<u32>>, c: int) -> bool {
    0 <= c < newest_first.len() && newest_first[c] is Some
}

/// The unique ids of the picked messages, newest first.
pub open spec fn picked_uids(newest_first: Seq<Option<u32>>, wanted: Seq<int>) -> Seq<u32> {
    picked(newest_first.len(), wanted, |c: int| has_uid(newest_first, c)).map_values(
        |c: int| newest_first[c]->0,
    )
}

/// The unique ids of the messages `mail delete` deletes. `uids` holds the
/// folder's messages in the server's order (oldest first), each with its
/// unique id where the server gave one; `wanted` holds client numbers. The
/// ids come newest first. Refused (`None`) unless every number names a
/// message with a unique id, and no number is given twice.
pub fn delete_uids(uids: &Vec<Option<u32>>, wanted: &Vec<u64>) -> (r: Option<Vec<u32>>)
    ensures
        r is Some <==> picked(uids@.len(), wide_as_ints(wanted@), |c: int| has_uid(uids@.reverse(), c)).len()
            == wanted@.len(),
        r is Some <==> (wide_as_ints(wanted@).no_duplicates() && forall|i: int|
            0 <= i < wanted@.len() ==> #[trigger] has_uid(uids@.reverse(), wanted@[i] as int)),
        r matches Some(v) ==> v@ == picked_uids(uids@.reverse(), wide_as_ints(wanted@)),
{
    let n = uids.len();
    let ghost rev = uids@.reverse();
    let ghost ok = |c: int| has_uid(rev, c);
    let ghost w = wide_as_ints(wanted@);
    let mut out: Vec<u32> = Vec::new();
    let mut c: usize = 0;
    while c < n
        invariant
            c <= n,
            n == uids@.len(),
            rev == uids@.reverse(),
            ok == (|c: int| has_uid(rev, c)),
            w == wide_as_ints(wanted@),
            out@ == picked(c as nat, w, ok).map_values(|k: int| rev[k]->0),
        decreases n - c,
    {
        let u = uids[n - 1 - c];
        assert(rev[c as int] == uids@[n - 1 - c]);
        if contains_u64(wanted, c as u64) {
            match u {
                Some(id) => {
                    out.push(id);
                },
                None => {},
            }
        }
        assert(out@ =~= picked((c + 1) as nat, w, ok).map_values(|k: int| rev[k]->0));
        c = c + 1;
    }
    proof {
        lemma_picked_all(n as nat, w, ok);
        assert((forall|i: int| 0 <= i < w.len() ==> 0 <= #[trigger] w[i] < n && ok(w[i])) <==> (forall|i: int|
            0 <= i < wanted@.len() ==> #[trigger] has_uid(rev, wanted@[i] as int))) by {
            if forall|i: int| 0 <= i < w.len() ==> 0 <= #[trigger] w[i] < n && ok(w[i]) {
                assert forall|i: int| 0 <= i < wanted@.len() implies #[trigger] has_uid(rev, wanted@[i] as int) by {
                    assert(w[i] == wanted@[i] as int);
                    assert(ok(w[i]));
                }
            }
            if forall|i: int| 0 <= i < wanted@.len() ==> #[trigger] has_uid(rev, wanted@[i] as int) {
                assert forall|i: int| 0 <= i < w.len() implies 0 <= #[trigger] w[i] < n && ok(w[i]) by {
                    assert(w[i] == wanted@[i] as int);
                    assert(has_uid(rev, wanted@[i] as int));
                }
            }
        }
    }
    if out.len() != wanted.len() {
        return None;
    }
    Some(out)
}

} // verus!

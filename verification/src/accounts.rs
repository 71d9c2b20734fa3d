//! The account registry: which account is in use, adding, switching,
//! editing and removing accounts, and the listings the client prints.
use vstd::prelude::*;
use crate::config::{accounts_view, opt_string_equal, opt_strings_equal, Account, AccountView, Config};
use crate::text::{
    all_digits, chars_of, decimal, decimal3, extend_str, is_digit, lemma_decimal_parses,
    lemma_decimal_value, parse_u32, parse_u32_spec, push_decimal, push_decimal3, string_of,
};

verus! {

broadcast use vstd::seq_lib::group_seq_properties;

/// Accounts may only be added while fewer than this many are stored, and a
/// new account's id must stay below it.
pub const ACCOUNT_LIMIT: u32 = 4294967285u32;

// ---------------------------------------------------------------------------
// Registry invariants
// ---------------------------------------------------------------------------

/// No two accounts share an id.
pub open spec fn ids_distinct(s: Seq<AccountView>) -> bool {
    forall|i: int, j: int| 0 <= i < s.len() && 0 <= j < s.len() && i != j ==> s[i].id != s[j].id
}

/// At most one account is marked active.
pub open spec fn at_most_one_active(s: Seq<AccountView>) -> bool {
    forall|i: int, j: int|
        0 <= i < s.len() && 0 <= j < s.len() && s[i].active && s[j].active ==> i == j
}

/// Some account is marked active.
pub open spec fn some_active(s: Seq<AccountView>) -> bool {
    exists|i: int| 0 <= i < s.len() && s[i].active
}

// ---------------------------------------------------------------------------
// The account in use
// ---------------------------------------------------------------------------

/// The index of the account that mail and folder commands use: the last one
/// marked active.
pub open spec fn in_use_index(s: Seq<AccountView>) -> Option<int> {
    if some_active(s) {
        Some(choose|i: int| 0 <= i < s.len() && s[i].active && forall|j: int| i < j < s.len() ==> !s[j].active)
    } else {
        None
    }
}

/// The index of the last active account, or `None` where no account is
/// active.
pub fn active_account_index(config: &Config) -> (r: Option<usize>)
    ensures
        match r {
            Some(i) => i < config@.len() && config@[i as int].active && forall|j: int|
                i < j < config@.len() ==> !config@[j].active,
            None => !some_active(config@),
        },
{
    let mut found: Option<usize> = None;
    let mut i: usize = 0;
    while i < config.accounts.len()
        invariant
            i <= config.accounts.len(),
            match found {
                Some(k) => k < i && config@[k as int].active && forall|j: int|
                    k < j < i ==> !config@[j].active,
                None => forall|j: int| 0 <= j < i ==> !config@[j].active,
            },
        decreases config.accounts.len() - i,
    {
        if config.accounts[i].active {
            found = Some(i);
        }
        i = i + 1;
    }
    found
}

/// The account that mail and folder commands use (the last active one),
/// copied out of the configuration.
pub fn active_account(config: &Config) -> (r: Option<Account>)
    ensures
        match r {
            Some(a) => exists|i: int|
                0 <= i < config@.len() && config@[i].active && a@ == config@[i] && (forall|j: int|
                    i < j < config@.len() ==> !config@[j].active),
            None => !some_active(config@),
        },
{
    match active_account_index(config) {
        Some(i) => Some(config.accounts[i].copy()),
        None => None,
    }
}

/// There is exactly one last active account, and `in_use_index` names it.
pub proof fn lemma_in_use_index(s: Seq<AccountView>, i: int)
    requires
        0 <= i < s.len(),
        s[i].active,
        forall|j: int| i < j < s.len() ==> !s[j].active,
    ensures
        in_use_index(s) == Some(i),
{
    let k = choose|k: int| 0 <= k < s.len() && s[k].active && forall|j: int| k < j < s.len() ==> !s[j].active;
    assert(0 <= k < s.len() && s[k].active && forall|j: int| k < j < s.len() ==> !s[j].active);
    if k < i {
        assert(!s[i].active);
    }
    if i < k {
        assert(!s[k].active);
    }
}

// ---------------------------------------------------------------------------
// Adding an account
// ---------------------------------------------------------------------------

/// Why a new account is refused.
#[derive(Debug, PartialEq, Eq)]
pub enum RegisterError {
    /// An account with the same address and settings is stored already.
    AlreadyExists,
    /// The next free id would reach `ACCOUNT_LIMIT`.
    IdTooLarge,
}

/// Whether a stored account has the address and settings of a new one.
pub open spec fn same_settings(a: AccountView, b: AccountView) -> bool {
    &&& a.email == b.email
    &&& a.smtp == b.smtp
    &&& a.imap == b.imap
    &&& a.oidc == b.oidc
    &&& a.scopes == b.scopes
}

/// Whether an id leaves no room for a next id below `ACCOUNT_LIMIT`.
pub open spec fn id_oversized(id: u32) -> bool {
    id + 1 >= ACCOUNT_LIMIT
}

/// One more than the largest id, or 0 when there is no account.
pub open spec fn next_id(s: Seq<AccountView>) -> int
    decreases s.len(),
{
    if s.len() == 0 {
        0
    } else {
        let prev = next_id(s.drop_last());
        if s.last().id >= prev {
            s.last().id + 1
        } else {
            prev
        }
    }
}

/// Adding is refused as a duplicate: an account with the same settings is
/// stored, and no account before it has an oversized id.
pub open spec fn register_duplicate(s: Seq<AccountView>, new: AccountView) -> bool {
    exists|d: int|
        0 <= d < s.len() && same_settings(s[d], new) && forall|k: int|
            0 <= k < d ==> !id_oversized(#[trigger] s[k].id)
}

/// Adding is refused for the id: an account has an oversized id, and no
/// account up to it has the same settings.
pub open spec fn register_id_too_large(s: Seq<AccountView>, new: AccountView) -> bool {
    exists|k: int|
        0 <= k < s.len() && id_oversized(s[k].id) && forall|j: int|
            0 <= j <= k ==> !same_settings(#[trigger] s[j], new)
}

/// The new account as it is stored: with the next free id, active exactly
/// when no stored account is.
pub open spec fn registered(s: Seq<AccountView>, new: AccountView) -> AccountView {
    AccountView { id: next_id(s) as u32, active: !some_active(s), ..new }
}

/// Whether an account can be added without exceeding the number of
/// accounts the client stores.
pub fn has_room(config: &Config) -> (r: bool)
    ensures
        r == (config@.len() < ACCOUNT_LIMIT),
{
    config.accounts.len() < 4294967285usize
}

fn same_settings_exec(a: &Account, b: &Account) -> (r: bool)
    ensures
        r == same_settings(a@, b@),
{
    let r = a.email == b.email && a.smtp.host == b.smtp.host && a.smtp.port == b.smtp.port
        && a.smtp.security == b.smtp.security && a.imap.host == b.imap.host && a.imap.port
        == b.imap.port && a.imap.security == b.imap.security && opt_string_equal(
        &a.oidc,
        &b.oidc,
    ) && opt_strings_equal(&a.scopes, &b.scopes);
    proof {
        if r {
            assert(a@.smtp == b@.smtp);
            assert(a@.imap == b@.imap);
        }
    }
    r
}

proof fn lemma_next_id_bound(s: Seq<AccountView>)
    ensures
        forall|k: int| 0 <= k < s.len() ==> s[k].id < next_id(s),
        next_id(s) >= 0,
        s.len() > 0 ==> exists|k: int| 0 <= k < s.len() && next_id(s) == s[k].id + 1,
    decreases s.len(),
{
    if s.len() > 0 {
        lemma_next_id_bound(s.drop_last());
        let prev = s.drop_last();
        assert forall|k: int| 0 <= k < s.len() implies s[k].id < next_id(s) by {
            if k < s.len() - 1 {
                assert(s[k] == prev[k]);
            }
        }
        if s.last().id < next_id(prev) {
            let k = choose|k: int| 0 <= k < prev.len() && next_id(prev) == prev[k].id + 1;
            assert(s[k] == prev[k]);
        }
    }
}

/// Whether the account at `j` ends the search for a free id: it has the
/// new account's settings, or an oversized id.
pub open spec fn ends_search(s: Seq<AccountView>, new: AccountView, j: int) -> bool {
    same_settings(s[j], new) || id_oversized(s[j].id)
}

/// Adding stays within the range of ids: every account with the largest
/// possible id has the new account's settings or comes after an account
/// that ends the search for a free id. Elsewhere the next id would not fit.
pub open spec fn register_in_range(s: Seq<AccountView>, new: AccountView) -> bool {
    forall|k: int|
        0 <= k < s.len() && (#[trigger] s[k]).id == u32::MAX ==> same_settings(s[k], new) || exists|j: int|
            0 <= j < k && #[trigger] ends_search(s, new, j)
}

/// Whether adding an account would need an id past the largest one.
pub fn register_overflows(config: &Config, new: &Account) -> (r: bool)
    ensures
        r == !register_in_range(config@, new@),
{
    let ghost s = config@;
    let mut blocked = false;
    let mut i: usize = 0;
    while i < config.accounts.len()
        invariant
            i <= config.accounts.len(),
            s == config@,
            blocked == exists|j: int| 0 <= j < i && #[trigger] ends_search(s, new@, j),
            forall|k: int|
                0 <= k < i && (#[trigger] s[k]).id == u32::MAX ==> same_settings(s[k], new@) || exists|j: int|
                    0 <= j < k && #[trigger] ends_search(s, new@, j),
        decreases config.accounts.len() - i,
    {
        let item = &config.accounts[i];
        let same = same_settings_exec(item, new);
        assert(s[i as int] == item@);
        if !blocked && item.id == 4294967295u32 && !same {
            return true;
        }
        let ends = same || item.id >= 4294967284u32;
        assert(ends == ends_search(s, new@, i as int));
        blocked = blocked || ends;
        i = i + 1;
    }
    false
}

/// Stores a new account, as the `account add` command does once it has
/// gathered the account's settings: the account gets the next free id and
/// becomes the active one when no account is active. Refused where an
/// account with the same address and settings exists (`AlreadyExists`) or
/// where the next id would be too large (`IdTooLarge`), whichever the
/// stored accounts reach first.
pub fn register_account(config: &Config, new: &Account) -> (r: Result<Config, RegisterError>)
    requires
        register_in_range(config@, new@),
    ensures
        match r {
            Ok(c) => {
                &&& !register_duplicate(config@, new@)
                &&& !register_id_too_large(config@, new@)
                &&& c@ == config@.push(registered(config@, new@))
                &&& forall|k: int| 0 <= k < config@.len() ==> config@[k].id < c@.last().id
            },
            Err(RegisterError::AlreadyExists) => register_duplicate(config@, new@),
            Err(RegisterError::IdTooLarge) => register_id_too_large(config@, new@),
        },
        r is Ok ==> (ids_distinct(config@) ==> ids_distinct(r->Ok_0@)),
        r is Ok ==> (at_most_one_active(config@) ==> at_most_one_active(r->Ok_0@)),
{
    let mut new_id: u32 = 0;
    let mut current_active = true;
    let mut i: usize = 0;
    let ghost s = config@;
    while i < config.accounts.len()
        invariant
            i <= config.accounts.len(),
            s == config@,
            register_in_range(s, new@),
            new_id as int == next_id(s.take(i as int)),
            current_active == !some_active(s.take(i as int)),
            forall|k: int| 0 <= k < i ==> !same_settings(#[trigger] s[k], new@),
            forall|k: int| 0 <= k < i ==> !id_oversized(#[trigger] s[k].id),
        decreases config.accounts.len() - i,
    {
        let item = &config.accounts[i];
        assert(s.take(i as int + 1).drop_last() =~= s.take(i as int));
        assert(s.take(i as int + 1).last() == s[i as int]);
        if same_settings_exec(item, new) {
            assert(register_duplicate(s, new@));
            return Err(RegisterError::AlreadyExists);
        }
        if item.active {
            current_active = false;
        }
        proof {
            let pre = s.take(i as int);
            let post = s.take(i as int + 1);
            if some_active(post) && !item.active {
                let w = choose|w: int| 0 <= w < post.len() && #[trigger] post[w].active;
                assert(pre[w].active);
            }
            if some_active(pre) {
                let w = choose|w: int| 0 <= w < pre.len() && #[trigger] pre[w].active;
                assert(post[w].active);
            }
            if item.active {
                assert(s.take(i as int + 1)[i as int].active);
            }
        }
        if item.id >= new_id {
            if item.id == 4294967295u32 {
                assert(s[i as int].id == u32::MAX);
                assert(!same_settings(s[i as int], new@));
                assert(!exists|j: int| 0 <= j < i && #[trigger] ends_search(s, new@, j));
                assert(false);
            }
            new_id = item.id + 1;
            if new_id >= 4294967285u32 {
                assert(id_oversized(s[i as int].id));
                assert(register_id_too_large(s, new@));
                return Err(RegisterError::IdTooLarge);
            }
        }
        proof {
            lemma_next_id_bound(s.take(i as int));
        }
        i = i + 1;
    }
    assert(s.take(i as int) =~= s);
    proof {
        lemma_next_id_bound(s);
        if register_duplicate(s, new@) {
            let d = choose|d: int|
                0 <= d < s.len() && same_settings(s[d], new@) && forall|k: int|
                    0 <= k < d ==> !id_oversized(#[trigger] s[k].id);
            assert(!same_settings(s[d], new@));
        }
        if register_id_too_large(s, new@) {
            let k = choose|k: int|
                0 <= k < s.len() && id_oversized(s[k].id) && forall|j: int|
                    0 <= j <= k ==> !same_settings(#[trigger] s[j], new@);
            assert(!id_oversized(s[k].id));
        }
    }
    let mut stored = new.copy();
    stored.id = new_id;
    stored.active = current_active;
    let mut out = config.copy();
    out.accounts.push(stored);
    assert(out@ =~= s.push(registered(s, new@)));
    proof {
        let t = out@;
        assert(t.last().id as int == next_id(s));
        if ids_distinct(s) {
            assert forall|a: int, b: int|
                0 <= a < t.len() && 0 <= b < t.len() && a != b implies t[a].id != t[b].id by {
                if a < s.len() && b < s.len() {
                    assert(t[a] == s[a] && t[b] == s[b]);
                } else if a < s.len() {
                    assert(t[a] == s[a]);
                } else {
                    assert(t[b] == s[b]);
                }
            }
        }
        if at_most_one_active(s) {
            assert forall|a: int, b: int|
                0 <= a < t.len() && 0 <= b < t.len() && t[a].active && t[b].active implies a
                == b by {
                if a < s.len() && b < s.len() {
                    assert(t[a] == s[a] && t[b] == s[b]);
                } else if a < s.len() {
                    assert(t[a] == s[a]);
                    assert(some_active(s));
                } else if b < s.len() {
                    assert(t[b] == s[b]);
                    assert(some_active(s));
                }
            }
        }
    }
    Ok(out)
}

// ---------------------------------------------------------------------------
// Picking an account by id, address, or the active flag
// ---------------------------------------------------------------------------

/// Whether an account is the one a user named: by id where the name parses
/// as a number, by address otherwise.
pub open spec fn selects(sel: Seq<char>, a: AccountView) -> bool {
    match parse_u32_spec(sel) {
        Some(n) => a.id == n,
        None => a.email == sel,
    }
}

/// Whether an account is targeted: the one named, or, where no name was
/// given, an active one.
pub open spec fn targeted(sel: Option<Seq<char>>, a: AccountView) -> bool {
    match sel {
        Some(t) => selects(t, a),
        None => a.active,
    }
}

/// Some account is targeted.
pub open spec fn any_targeted(s: Seq<AccountView>, sel: Option<Seq<char>>) -> bool {
    exists|k: int| 0 <= k < s.len() && targeted(sel, #[trigger] s[k])
}

/// Why no account was found.
#[derive(Debug, PartialEq, Eq)]
pub enum LookupError {
    /// No account has this id.
    NoSuchId(u32),
    /// No account has this address.
    NoSuchEmail(String),
    /// No account is active.
    NoActive,
}

/// The error reported where no account is targeted.
pub open spec fn lookup_error_matches(e: LookupError, sel: Option<Seq<char>>) -> bool {
    match e {
        LookupError::NoSuchId(n) => sel is Some && parse_u32_spec(sel->0) == Some(n),
        LookupError::NoSuchEmail(m) => sel is Some && parse_u32_spec(sel->0) is None && m@ == sel->0,
        LookupError::NoActive => sel is None,
    }
}

fn targets_exec(sel: &Option<String>, parsed: Option<u32>, a: &Account) -> (r: bool)
    requires
        sel is Some ==> parsed == parse_u32_spec(sel->0@),
    ensures
        r == targeted(opt_view(sel), a@),
{
    match sel {
        Some(t) => match parsed {
            Some(n) => a.id == n,
            None => a.email == *t,
        },
        None => a.active,
    }
}

/// The characters of an optional string.
pub open spec fn opt_view(o: &Option<String>) -> Option<Seq<char>> {
    match o {
        Some(s) => Some(s@),
        None => None,
    }
}

fn parse_selector(sel: &Option<String>) -> (r: Option<u32>)
    ensures
        sel is Some ==> r == parse_u32_spec(sel->0@),
{
    match sel {
        Some(t) => parse_u32(t.as_str()),
        None => None,
    }
}

fn lookup_error(sel: &Option<String>, parsed: Option<u32>) -> (e: LookupError)
    requires
        sel is Some ==> parsed == parse_u32_spec(sel->0@),
    ensures
        lookup_error_matches(e, opt_view(sel)),
{
    match sel {
        Some(t) => match parsed {
            Some(n) => LookupError::NoSuchId(n),
            None => LookupError::NoSuchEmail(t.clone()),
        },
        None => LookupError::NoActive,
    }
}

/// The accounts after switching to the named one: exactly the named
/// accounts are active.
pub open spec fn switched(s: Seq<AccountView>, sel: Seq<char>) -> Seq<AccountView> {
    s.map_values(|a: AccountView| AccountView { active: selects(sel, a), ..a })
}

/// `account use`: makes the named account (by id where the name parses as
/// a number, by address otherwise) the active one and every other account
/// inactive. Refused, with the configuration unchanged, where no account
/// is named so.
pub fn switch_account(config: &Config, selector: &str) -> (r: Result<Config, LookupError>)
    ensures
        match r {
            Ok(c) => any_targeted(config@, Some(selector@)) && c@ == switched(config@, selector@),
            Err(e) => !any_targeted(config@, Some(selector@)) && lookup_error_matches(
                e,
                Some(selector@),
            ),
        },
{
    let sel = Some(selector.to_string());
    proof {
        vstd::string::to_string_from_display_ensures_for_str(selector, sel->0);
    }
    let parsed = parse_selector(&sel);
    let mut out = Config::empty();
    let mut found = false;
    let mut i: usize = 0;
    let ghost s = config@;
    while i < config.accounts.len()
        invariant
            i <= config.accounts.len(),
            s == config@,
            sel is Some && sel->0@ == selector@,
            parsed == parse_u32_spec(selector@),
            out@ == switched(s.take(i as int), selector@),
            found == any_targeted(s.take(i as int), Some(selector@)),
        decreases config.accounts.len() - i,
    {
        let mut acc = config.accounts[i].copy();
        let hit = targets_exec(&sel, parsed, &acc);
        acc.active = hit;
        out.accounts.push(acc);
        proof {
            let pre = s.take(i as int);
            let post = s.take(i as int + 1);
            assert(post =~= pre.push(s[i as int]));
            assert(switched(post, selector@) =~= switched(pre, selector@).push(
                AccountView { active: selects(selector@, s[i as int]), ..s[i as int] },
            ));
            if any_targeted(post, Some(selector@)) && !hit {
                let w = choose|w: int| 0 <= w < post.len() && targeted(Some(selector@), #[trigger] post[w]);
                assert(pre[w] == post[w]);
            }
            if any_targeted(pre, Some(selector@)) {
                let w = choose|w: int| 0 <= w < pre.len() && targeted(Some(selector@), #[trigger] pre[w]);
                assert(pre[w] == post[w]);
            }
            if hit {
                assert(targeted(Some(selector@), post[i as int]));
            }
        }
        found = found || hit;
        i = i + 1;
    }
    assert(s.take(i as int) =~= s);
    if !found {
        return Err(lookup_error(&sel, parsed));
    }
    Ok(out)
}

/// After `account use` with a name that exactly one account answers to,
/// that account is the only active one and the one that mail and folder
/// commands use; it keeps all its settings.
pub proof fn lemma_switch_unique(s: Seq<AccountView>, sel: Seq<char>, k: int)
    requires
        0 <= k < s.len(),
        selects(sel, s[k]),
        forall|j: int| 0 <= j < s.len() && j != k ==> !selects(sel, #[trigger] s[j]),
    ensures
        at_most_one_active(switched(s, sel)),
        in_use_index(switched(s, sel)) == Some(k),
        switched(s, sel)[k] == (AccountView { active: true, ..s[k] }),
        switched(s, sel).len() == s.len(),
{
    let t = switched(s, sel);
    assert forall|j: int| 0 <= j < t.len() implies #[trigger] t[j].active == (j == k) by {
        assert(t[j].active == selects(sel, s[j]));
    }
    lemma_in_use_index(t, k);
}

/// Where ids are distinct, `account use` with an account's id makes that
/// account the only active one and the one in use.
pub proof fn lemma_switch_by_id(s: Seq<AccountView>, k: int)
    requires
        ids_distinct(s),
        0 <= k < s.len(),
    ensures
        at_most_one_active(switched(s, decimal(s[k].id as nat))),
        in_use_index(switched(s, decimal(s[k].id as nat))) == Some(k),
{
    let sel = decimal(s[k].id as nat);
    lemma_decimal_parses(s[k].id as nat);
    assert forall|j: int| 0 <= j < s.len() && j != k implies !selects(sel, #[trigger] s[j]) by {
        assert(s[j].id != s[k].id);
    }
    lemma_switch_unique(s, sel, k);
}

/// The accounts other than the targeted ones, in their order.
pub open spec fn untargeted(s: Seq<AccountView>, sel: Option<Seq<char>>) -> Seq<AccountView> {
    s.filter(|a: AccountView| !targeted(sel, a))
}

/// The targeted accounts, in their order.
pub open spec fn targeted_accounts(s: Seq<AccountView>, sel: Option<Seq<char>>) -> Seq<
    AccountView,
> {
    s.filter(|a: AccountView| targeted(sel, a))
}

/// Splits the accounts into the targeted and the other ones, and finds the
/// last targeted one.
fn partition_targets(config: &Config, sel: &Option<String>) -> (r: (Config, Vec<Account>, Option<usize>))
    ensures
        r.0@ == untargeted(config@, opt_view(sel)),
        accounts_view(r.1@) == targeted_accounts(config@, opt_view(sel)),
        match r.2 {
            Some(k) => k < config@.len() && targeted(opt_view(sel), config@[k as int]) && forall|j: int|
                k < j < config@.len() ==> !targeted(opt_view(sel), config@[j]),
            None => !any_targeted(config@, opt_view(sel)),
        },
{
    let parsed = parse_selector(sel);
    let mut rest = Config::empty();
    let mut hits: Vec<Account> = Vec::new();
    let mut last: Option<usize> = None;
    let mut i: usize = 0;
    let ghost s = config@;
    let ghost t = opt_view(sel);
    let ghost keep = |a: AccountView| !targeted(t, a);
    let ghost take = |a: AccountView| targeted(t, a);
    while i < config.accounts.len()
        invariant
            i <= config.accounts.len(),
            s == config@,
            t == opt_view(sel),
            keep == (|a: AccountView| !targeted(t, a)),
            take == (|a: AccountView| targeted(t, a)),
            sel is Some ==> parsed == parse_u32_spec(sel->0@),
            rest@ == s.take(i as int).filter(keep),
            accounts_view(hits@) == s.take(i as int).filter(take),
            match last {
                Some(k) => k < i && targeted(t, s[k as int]) && forall|j: int|
                    k < j < i ==> !targeted(t, s[j]),
                None => forall|j: int| 0 <= j < i ==> !targeted(t, s[j]),
            },
        decreases config.accounts.len() - i,
    {
        let acc = config.accounts[i].copy();
        let hit = targets_exec(sel, parsed, &acc);
        proof {
            let pre = s.take(i as int);
            assert(s.take(i as int + 1) =~= pre.push(s[i as int]));
            pre.lemma_filter_push(s[i as int], keep);
            pre.lemma_filter_push(s[i as int], take);
        }
        if hit {
            hits.push(acc);
            last = Some(i);
            assert(accounts_view(hits@) =~= s.take(i as int).filter(take).push(s[i as int]));
        } else {
            rest.accounts.push(acc);
            assert(rest@ =~= s.take(i as int).filter(keep).push(s[i as int]));
        }
        i = i + 1;
    }
    assert(s.take(i as int) =~= s);
    (rest, hits, last)
}

// ---------------------------------------------------------------------------
// Editing
// ---------------------------------------------------------------------------

/// Takes the account to edit out of the configuration, as `account edit`
/// does: the named account (by id or address), or the active one where no
/// name is given. Where several accounts are targeted, all of them leave
/// the configuration and the last one is edited.
pub fn take_for_edit(config: &Config, selector: &Option<String>) -> (r: Result<(Config, Account), LookupError>)
    ensures
        match r {
            Ok((rest, a)) => {
                &&& rest@ == untargeted(config@, opt_view(selector))
                &&& exists|k: int|
                    0 <= k < config@.len() && targeted(opt_view(selector), config@[k]) && a@
                        == config@[k] && forall|j: int|
                        k < j < config@.len() ==> !targeted(opt_view(selector), config@[j])
            },
            Err(e) => !any_targeted(config@, opt_view(selector)) && lookup_error_matches(
                e,
                opt_view(selector),
            ),
        },
{
    let (rest, _hits, last) = partition_targets(config, selector);
    match last {
        Some(k) => Ok((rest, config.accounts[k].copy())),
        None => {
            let parsed = parse_selector(selector);
            Err(lookup_error(selector, parsed))
        },
    }
}

/// The entries of the `account edit` menu, in the order shown.
#[derive(Debug, PartialEq, Eq)]
pub enum EditChoice {
    Email,
    Password,
    Smtp,
    Imap,
    SaveAndExit,
    Save,
    Exit,
}

/// The menu entry at a position of the `account edit` menu; positions past
/// the last entry mean `Exit`.
pub fn edit_choice(selection: usize) -> (c: EditChoice)
    ensures
        selection == 0 ==> c is Email,
        selection == 1 ==> c is Password,
        selection == 2 ==> c is Smtp,
        selection == 3 ==> c is Imap,
        selection == 4 ==> c is SaveAndExit,
        selection == 5 ==> c is Save,
        selection >= 6 ==> c is Exit,
{
    match selection {
        0 => EditChoice::Email,
        1 => EditChoice::Password,
        2 => EditChoice::Smtp,
        3 => EditChoice::Imap,
        4 => EditChoice::SaveAndExit,
        5 => EditChoice::Save,
        _ => EditChoice::Exit,
    }
}

/// What the `account edit` menu does after a choice: whether it saves
/// the account, and whether the editing ends.
#[derive(Debug, PartialEq, Eq)]
pub struct EditStep {
    pub save: bool,
    pub finish: bool,
}

/// The step after a menu choice: `Save` saves and goes on, `Save & Exit`
/// saves and ends, `Exit` ends where the user confirms it, and the other
/// entries edit a field and go on.
pub fn edit_step(choice: &EditChoice, exit_confirmed: bool) -> (r: EditStep)
    ensures
        r.save == (*choice is Save || *choice is SaveAndExit),
        r.finish == (*choice is SaveAndExit || (*choice is Exit && exit_confirmed)),
{
    match choice {
        EditChoice::Save => EditStep { save: true, finish: false },
        EditChoice::SaveAndExit => EditStep { save: true, finish: true },
        EditChoice::Exit => EditStep { save: false, finish: exit_confirmed },
        _ => EditStep { save: false, finish: false },
    }
}

/// Saves the edited account: the configuration to write is the remaining
/// accounts followed by exactly one copy of the edited account. The
/// remaining accounts are left as they are, so saving again writes the
/// edited account once again, not twice.
pub fn commit_edit(remaining: &Config, edited: &Account) -> (saved: Config)
    ensures
        saved@ == remaining@.push(edited@),
{
    let mut saved = remaining.copy();
    saved.accounts.push(edited.copy());
    assert(saved@ =~= remaining@.push(edited@));
    saved
}

// ---------------------------------------------------------------------------
// Logging out
// ---------------------------------------------------------------------------

/// What `account logout` does to the stored accounts.
#[derive(Debug)]
pub struct LogoutPlan {
    /// The accounts that stay.
    pub remaining: Config,
    /// The accounts that leave, whose credentials are deleted.
    pub removed: Vec<Account>,
    /// Whether any account leaves (only then is the configuration written).
    pub found: bool,
}

/// The accounts that stay after logging out: the untargeted ones, and
/// where no name was given the first of them becomes active.
pub open spec fn after_logout(s: Seq<AccountView>, sel: Option<Seq<char>>) -> Seq<AccountView> {
    let rest = untargeted(s, sel);
    if sel is None && rest.len() > 0 {
        rest.update(0, AccountView { active: true, ..rest[0] })
    } else {
        rest
    }
}

/// `account logout`: removes the named accounts (by id or address), or the
/// active ones where no name is given; in that case the first remaining
/// account becomes active.
pub fn plan_logout(config: &Config, selector: &Option<String>) -> (r: LogoutPlan)
    ensures
        r.remaining@ == after_logout(config@, opt_view(selector)),
        accounts_view(r.removed@) == targeted_accounts(config@, opt_view(selector)),
        r.found == any_targeted(config@, opt_view(selector)),
{
    let (mut rest, hits, last) = partition_targets(config, selector);
    if selector.is_none() && rest.accounts.len() > 0 {
        let mut first = rest.accounts[0].copy();
        first.active = true;
        rest.accounts.set(0, first);
        assert(rest@ =~= after_logout(config@, opt_view(selector)));
    }
    LogoutPlan { remaining: rest, removed: hits, found: last.is_some() }
}

proof fn lemma_partition_len(s: Seq<AccountView>, sel: Option<Seq<char>>)
    ensures
        untargeted(s, sel).len() + targeted_accounts(s, sel).len() == s.len(),
    decreases s.len(),
{
    reveal(Seq::filter);
    if s.len() > 0 {
        lemma_partition_len(s.drop_last(), sel);
    }
}

/// `account logout` splits the accounts: every account either stays or
/// leaves; none that stays answers to the name given; and where no name
/// was given (the active account logs out), the first remaining account,
/// if any, becomes the only active one and the one in use.
pub proof fn lemma_logout_partition(s: Seq<AccountView>, sel: Option<Seq<char>>)
    ensures
        after_logout(s, sel).len() + targeted_accounts(s, sel).len() == s.len(),
        sel is Some ==> forall|k: int|
            0 <= k < after_logout(s, sel).len() ==> !targeted(sel, #[trigger] after_logout(s, sel)[k]),
        sel is None && after_logout(s, sel).len() > 0 ==> in_use_index(after_logout(s, sel)) == Some(0int),
        sel is None ==> at_most_one_active(after_logout(s, sel)),
{
    lemma_partition_len(s, sel);
    let keep = |a: AccountView| !targeted(sel, a);
    let rest = untargeted(s, sel);
    assert forall|k: int| 0 <= k < rest.len() implies !targeted(sel, #[trigger] rest[k]) by {
        s.lemma_filter_pred(keep, k);
    }
    if sel is None {
        let t = after_logout(s, sel);
        assert forall|j: int| 0 < j < t.len() implies !(#[trigger] t[j]).active by {
            assert(t[j] == rest[j]);
            assert(!targeted(sel, rest[j]));
        }
        if t.len() > 0 {
            lemma_in_use_index(t, 0);
        }
    }
}

proof fn lemma_filter_keeps_registry(s: Seq<AccountView>, p: spec_fn(AccountView) -> bool)
    ensures
        ids_distinct(s) ==> ids_distinct(s.filter(p)),
        at_most_one_active(s) ==> at_most_one_active(s.filter(p)),
        forall|i: int| 0 <= i < s.filter(p).len() ==> s.contains(#[trigger] s.filter(p)[i]),
    decreases s.len(),
{
    reveal(Seq::filter);
    if s.len() > 0 {
        let r = s.drop_last();
        let last = s.last();
        let n = s.len() - 1;
        lemma_filter_keeps_registry(r, p);
        let f = r.filter(p);
        let out = s.filter(p);
        assert(ids_distinct(s) ==> ids_distinct(r));
        assert(at_most_one_active(s) ==> at_most_one_active(r));
        assert forall|i: int| 0 <= i < out.len() implies s.contains(#[trigger] out[i]) by {
            if i < f.len() {
                assert(out[i] == f[i]);
                assert(r.contains(f[i]));
                let j = choose|j: int| 0 <= j < r.len() && r[j] == f[i];
                assert(s[j] == f[i]);
            } else {
                assert(out[i] == last);
                assert(s[n] == last);
            }
        }
        if p(last) {
            assert(out =~= f.push(last));
            assert forall|i: int| 0 <= i < f.len() implies exists|j: int|
                0 <= j < n && #[trigger] s[j] == #[trigger] f[i] by {
                assert(r.contains(f[i]));
                let j = choose|j: int| 0 <= j < r.len() && r[j] == f[i];
                assert(s[j] == r[j]);
            }
            if ids_distinct(s) {
                assert forall|a: int, b: int|
                    0 <= a < out.len() && 0 <= b < out.len() && a != b implies out[a].id != out[b].id by {
                    if a < f.len() && b < f.len() {
                        assert(out[a] == f[a] && out[b] == f[b]);
                    } else if a < f.len() {
                        let j = choose|j: int| 0 <= j < n && #[trigger] s[j] == f[a];
                        assert(out[a] == s[j] && out[b] == s[n]);
                    } else {
                        let j = choose|j: int| 0 <= j < n && #[trigger] s[j] == f[b];
                        assert(out[b] == s[j] && out[a] == s[n]);
                    }
                }
            }
            if at_most_one_active(s) {
                assert forall|a: int, b: int|
                    0 <= a < out.len() && 0 <= b < out.len() && out[a].active && out[b].active implies a == b by {
                    if a < f.len() && b < f.len() {
                        assert(out[a] == f[a] && out[b] == f[b]);
                    } else if a < f.len() {
                        let j = choose|j: int| 0 <= j < n && #[trigger] s[j] == f[a];
                        assert(out[a] == s[j] && out[b] == s[n]);
                    } else if b < f.len() {
                        let j = choose|j: int| 0 <= j < n && #[trigger] s[j] == f[b];
                        assert(out[b] == s[j] && out[a] == s[n]);
                    }
                }
            }
        } else {
            assert(out == f);
        }
    }
}

/// Logging out keeps the registry sound: where ids were distinct and at
/// most one account was active, the same holds of the accounts that stay.
pub proof fn lemma_logout_keeps_registry(s: Seq<AccountView>, sel: Option<Seq<char>>)
    requires
        ids_distinct(s),
        at_most_one_active(s),
    ensures
        ids_distinct(after_logout(s, sel)),
        at_most_one_active(after_logout(s, sel)),
{
    let keep = |a: AccountView| !targeted(sel, a);
    lemma_filter_keeps_registry(s, keep);
    lemma_logout_partition(s, sel);
    let rest = untargeted(s, sel);
    let t = after_logout(s, sel);
    if sel is None && rest.len() > 0 {
        assert forall|a: int, b: int| 0 <= a < t.len() && 0 <= b < t.len() && a != b implies t[a].id != t[b].id by {
            assert(t[a].id == rest[a].id && t[b].id == rest[b].id);
        }
    }
}

/// Saving an edited account keeps the registry sound: where ids were
/// distinct and at most one account was active, and the edited account
/// keeps the id and the active flag of the account it was taken from, the
/// saved accounts have distinct ids and at most one is active.
pub proof fn lemma_edit_keeps_registry(s: Seq<AccountView>, sel: Option<Seq<char>>, k: int, edited: AccountView)
    requires
        ids_distinct(s),
        at_most_one_active(s),
        0 <= k < s.len(),
        targeted(sel, s[k]),
        edited.id == s[k].id,
        edited.active == s[k].active,
    ensures
        ids_distinct(untargeted(s, sel).push(edited)),
        at_most_one_active(untargeted(s, sel).push(edited)),
{
    let keep = |a: AccountView| !targeted(sel, a);
    lemma_filter_keeps_registry(s, keep);
    let rest = untargeted(s, sel);
    let t = rest.push(edited);
    let n = rest.len();
    assert forall|i: int| 0 <= i < n implies exists|j: int|
        0 <= j < s.len() && j != k && #[trigger] rest[i] == #[trigger] s[j] by {
        assert(s.contains(rest[i]));
        let j = choose|j: int| 0 <= j < s.len() && s[j] == rest[i];
        s.lemma_filter_pred(keep, i);
        assert(j != k);
    }
    assert forall|a: int, b: int| 0 <= a < t.len() && 0 <= b < t.len() && a != b implies t[a].id != t[b].id by {
        if a < n && b < n {
            assert(t[a] == rest[a] && t[b] == rest[b]);
        } else if a < n {
            let j = choose|j: int| 0 <= j < s.len() && j != k && #[trigger] rest[a] == s[j];
            assert(t[a] == s[j]);
        } else {
            let j = choose|j: int| 0 <= j < s.len() && j != k && #[trigger] rest[b] == s[j];
            assert(t[b] == s[j]);
        }
    }
    assert forall|a: int, b: int| 0 <= a < t.len() && 0 <= b < t.len() && t[a].active && t[b].active implies a == b by {
        if a < n && b < n {
            assert(t[a] == rest[a] && t[b] == rest[b]);
        } else if a < n {
            let j = choose|j: int| 0 <= j < s.len() && j != k && #[trigger] rest[a] == s[j];
            assert(t[a] == s[j]);
        } else if b < n {
            let j = choose|j: int| 0 <= j < s.len() && j != k && #[trigger] rest[b] == s[j];
            assert(t[b] == s[j]);
        }
    }
}

proof fn lemma_filter_none(s: Seq<AccountView>, p: spec_fn(AccountView) -> bool)
    requires
        forall|j: int| 0 <= j < s.len() ==> !p(#[trigger] s[j]),
    ensures
        s.filter(p).len() == 0,
    decreases s.len(),
{
    reveal(Seq::filter);
    if s.len() > 0 {
        lemma_filter_none(s.drop_last(), p);
        assert(!p(s[s.len() - 1]));
    }
}

proof fn lemma_filter_one(s: Seq<AccountView>, p: spec_fn(AccountView) -> bool, k: int)
    requires
        0 <= k < s.len(),
        p(s[k]),
        forall|j: int| 0 <= j < s.len() && j != k ==> !p(#[trigger] s[j]),
    ensures
        s.filter(p).len() == 1,
    decreases s.len(),
{
    reveal(Seq::filter);
    let r = s.drop_last();
    if k == s.len() - 1 {
        assert forall|j: int| 0 <= j < r.len() implies !p(#[trigger] r[j]) by {
            assert(r[j] == s[j]);
        }
        lemma_filter_none(r, p);
    } else {
        assert forall|j: int| 0 <= j < r.len() && j != k implies !p(#[trigger] r[j]) by {
            assert(r[j] == s[j]);
        }
        assert(r[k] == s[k]);
        lemma_filter_one(r, p, k);
        assert(!p(s[s.len() - 1]));
    }
}

/// Each save of `account edit`, where exactly one account answers to the
/// name (or is active), writes as many accounts as there were, with
/// distinct ids and at most one active, exactly one of them with the
/// edited account's id: the edited account, last.
pub proof fn lemma_edit_save_keeps_count(s: Seq<AccountView>, sel: Option<Seq<char>>, k: int, edited: AccountView)
    requires
        ids_distinct(s),
        at_most_one_active(s),
        0 <= k < s.len(),
        targeted(sel, s[k]),
        forall|j: int| 0 <= j < s.len() && j != k ==> !targeted(sel, #[trigger] s[j]),
        edited.id == s[k].id,
        edited.active == s[k].active,
    ensures
        untargeted(s, sel).push(edited).len() == s.len(),
        ids_distinct(untargeted(s, sel).push(edited)),
        at_most_one_active(untargeted(s, sel).push(edited)),
        forall|i: int|
            0 <= i < s.len() && (#[trigger] untargeted(s, sel).push(edited)[i]).id == edited.id ==> i == s.len() - 1,
{
    lemma_partition_len(s, sel);
    lemma_filter_one(s, |a: AccountView| targeted(sel, a), k);
    lemma_edit_keeps_registry(s, sel, k, edited);
    let t = untargeted(s, sel).push(edited);
    assert forall|i: int| 0 <= i < s.len() && (#[trigger] t[i]).id == edited.id implies i == s.len() - 1 by {
        if i != s.len() - 1 {
            assert(t[i].id != t[s.len() - 1].id);
        }
    }
}

/// When at most one account is active, the first active account (the one
/// `account whoami` describes) is the account in use.
pub proof fn lemma_whoami_is_in_use(s: Seq<AccountView>, k: int)
    requires
        at_most_one_active(s),
        0 <= k < s.len(),
        s[k].active,
    ensures
        in_use_index(s) == Some(k),
        forall|j: int| 0 <= j < k ==> !(#[trigger] s[j]).active,
{
    lemma_in_use_index(s, k);
}

// ---------------------------------------------------------------------------
// Keyring entries
// ---------------------------------------------------------------------------

/// The keyring entry that holds an account's password or access token.
pub open spec fn password_key_spec(id: u32) -> Seq<char> {
    decimal(id as nat)
}

/// The keyring entry that holds an account's OAuth2 client id.
pub open spec fn client_id_key_spec(id: u32) -> Seq<char> {
    decimal(id as nat) + ".id"@
}

/// The keyring entry that holds an account's refresh token.
pub open spec fn refresh_token_key_spec(id: u32) -> Seq<char> {
    decimal(id as nat) + ".refresh_token"@
}

/// The keyring entry name of an account's password or access token.
pub fn password_key(id: u32) -> (k: String)
    ensures
        k@ == password_key_spec(id),
{
    let mut v: Vec<char> = Vec::new();
    push_decimal(&mut v, id as u64);
    assert(v@ =~= decimal(id as nat));
    string_of(&v)
}

/// The keyring entry name of an account's OAuth2 client id.
pub fn client_id_key(id: u32) -> (k: String)
    ensures
        k@ == client_id_key_spec(id),
{
    let mut v: Vec<char> = Vec::new();
    push_decimal(&mut v, id as u64);
    extend_str(&mut v, ".id");
    assert(v@ =~= client_id_key_spec(id));
    string_of(&v)
}

/// The keyring entry name of an account's refresh token.
pub fn refresh_token_key(id: u32) -> (k: String)
    ensures
        k@ == refresh_token_key_spec(id),
{
    let mut v: Vec<char> = Vec::new();
    push_decimal(&mut v, id as u64);
    extend_str(&mut v, ".refresh_token");
    assert(v@ =~= refresh_token_key_spec(id));
    string_of(&v)
}

/// One keyring entry to delete when an account logs out.
#[derive(Debug)]
pub struct CredentialRemoval {
    /// The entry's name.
    pub key: String,
    /// Whether a failure to delete it stops the logout (it does not for the
    /// refresh token, which may never have been stored).
    pub required: bool,
}

/// The entries an account leaves in the keyring: its password, and for an
/// OAuth2 account also its client id and refresh token.
pub open spec fn credentials_of(a: AccountView) -> Seq<(Seq<char>, bool)> {
    if a.oidc is Some {
        seq![
            (password_key_spec(a.id), true),
            (client_id_key_spec(a.id), true),
            (refresh_token_key_spec(a.id), false),
        ]
    } else {
        seq![(password_key_spec(a.id), true)]
    }
}

/// The entries of several accounts, account by account.
pub open spec fn credentials_of_all(s: Seq<AccountView>) -> Seq<(Seq<char>, bool)>
    decreases s.len(),
{
    if s.len() == 0 {
        Seq::empty()
    } else {
        credentials_of_all(s.drop_last()) + credentials_of(s.last())
    }
}

/// The removals as values.
pub open spec fn removals_view(v: Seq<CredentialRemoval>) -> Seq<(Seq<char>, bool)> {
    v.map_values(|c: CredentialRemoval| (c.key@, c.required))
}

/// The keyring entries to delete for the accounts that log out, in order.
pub fn credentials_to_remove(removed: &Vec<Account>) -> (r: Vec<CredentialRemoval>)
    ensures
        removals_view(r@) == credentials_of_all(accounts_view(removed@)),
{
    let mut out: Vec<CredentialRemoval> = Vec::new();
    let mut i: usize = 0;
    while i < removed.len()
        invariant
            i <= removed.len(),
            removals_view(out@) == credentials_of_all(accounts_view(removed@.take(i as int))),
        decreases removed.len() - i,
    {
        let a = &removed[i];
        let ghost before = removals_view(out@);
        out.push(CredentialRemoval { key: password_key(a.id), required: true });
        if a.oidc.is_some() {
            out.push(CredentialRemoval { key: client_id_key(a.id), required: true });
            out.push(CredentialRemoval { key: refresh_token_key(a.id), required: false });
        }
        proof {
            let pre = accounts_view(removed@.take(i as int));
            let post = accounts_view(removed@.take(i as int + 1));
            assert(post.drop_last() =~= pre);
            assert(post.last() == removed@[i as int]@);
            assert(removals_view(out@) =~= before + credentials_of(removed@[i as int]@));
        }
        i = i + 1;
    }
    assert(removed@.take(removed@.len() as int) =~= removed@);
    out
}

/// The keyring entries of different accounts, or of different kinds, never
/// share a name: deleting or overwriting one entry leaves every other entry
/// alone.
pub proof fn lemma_credential_keys_distinct(a: u32, b: u32)
    ensures
        password_key_spec(a) == password_key_spec(b) ==> a == b,
        client_id_key_spec(a) == client_id_key_spec(b) ==> a == b,
        refresh_token_key_spec(a) == refresh_token_key_spec(b) ==> a == b,
        password_key_spec(a) != client_id_key_spec(b),
        password_key_spec(a) != refresh_token_key_spec(b),
        client_id_key_spec(a) != refresh_token_key_spec(b),
{
    reveal_strlit(".id");
    reveal_strlit(".refresh_token");
    let da = decimal(a as nat);
    let db = decimal(b as nat);
    lemma_decimal_value(a as nat);
    lemma_decimal_value(b as nat);
    lemma_decimal_parses(a as nat);
    lemma_decimal_parses(b as nat);
    let id_suffix = ".id"@;
    let rt_suffix = ".refresh_token"@;
    assert(id_suffix[0] == '.');
    assert(rt_suffix[0] == '.');
    // Where the digits end, the first '.' is.
    assert forall|x: Seq<char>, y: Seq<char>, p: Seq<char>, q: Seq<char>|
        all_digits(x) && all_digits(y) && p.len() > 0 && q.len() > 0 && p[0] == '.' && q[0] == '.'
            && x + p == y + q implies x == y && p == q by {
        if x.len() < y.len() {
            assert((x + p)[x.len() as int] == '.');
            assert((y + q)[x.len() as int] == y[x.len() as int]);
            assert(is_digit(y[x.len() as int]));
        } else if y.len() < x.len() {
            assert((y + q)[y.len() as int] == '.');
            assert((x + p)[y.len() as int] == x[y.len() as int]);
            assert(is_digit(x[y.len() as int]));
        } else {
            assert(x =~= (x + p).subrange(0, x.len() as int));
            assert(y =~= (y + q).subrange(0, y.len() as int));
            assert(p =~= (x + p).subrange(x.len() as int, (x + p).len() as int));
            assert(q =~= (y + q).subrange(y.len() as int, (y + q).len() as int));
        }
    }
    if password_key_spec(a) == client_id_key_spec(b) {
        assert(db.len() < (db + id_suffix).len());
        assert((db + id_suffix)[db.len() as int] == '.');
        if db.len() < da.len() {
            assert(is_digit(da[db.len() as int]));
        }
    }
    if password_key_spec(a) == refresh_token_key_spec(b) {
        assert((db + rt_suffix)[db.len() as int] == '.');
        if db.len() < da.len() {
            assert(is_digit(da[db.len() as int]));
        }
    }
    if client_id_key_spec(a) == refresh_token_key_spec(b) {
        assert(id_suffix.len() != rt_suffix.len());
    }
}

// ---------------------------------------------------------------------------
// Listings
// ---------------------------------------------------------------------------

/// A line of `account list`: `[id] [+] address`, the id zero-padded to
/// three digits and `+` marking the active account (`-` the others).
pub open spec fn list_line(a: AccountView) -> Seq<char> {
    "["@ + decimal3(a.id as nat) + "] ["@ + (if a.active {
        "+"@
    } else {
        "-"@
    }) + "] "@ + a.email
}

/// The lines `account list` prints.
pub open spec fn list_lines(s: Seq<AccountView>) -> Seq<Seq<char>> {
    if s.len() == 0 {
        seq!["No accounts found"@]
    } else {
        s.map_values(|a: AccountView| list_line(a))
    }
}

/// `account list`: one line per account, or a notice that there are none.
pub fn account_list_lines(config: &Config) -> (r: Vec<String>)
    ensures
        r@.map_values(|l: String| l@) == list_lines(config@),
{
    let mut out: Vec<String> = Vec::new();
    if config.accounts.len() == 0 {
        out.push("No accounts found".to_string());
        proof {
            vstd::string::to_string_from_display_ensures_for_str("No accounts found", out@[0]);
        }
        assert(out@.map_values(|l: String| l@) =~= list_lines(config@));
        return out;
    }
    let mut i: usize = 0;
    while i < config.accounts.len()
        invariant
            i <= config.accounts.len(),
            out@.map_values(|l: String| l@) == config@.take(i as int).map_values(
                |a: AccountView| list_line(a),
            ),
        decreases config.accounts.len() - i,
    {
        let a = &config.accounts[i];
        let mut v: Vec<char> = Vec::new();
        extend_str(&mut v, "[");
        push_decimal3(&mut v, a.id as u64);
        extend_str(&mut v, "] [");
        if a.active {
            extend_str(&mut v, "+");
        } else {
            extend_str(&mut v, "-");
        }
        extend_str(&mut v, "] ");
        extend_str(&mut v, a.email.as_str());
        assert(v@ =~= list_line(a@));
        let line = string_of(&v);
        let ghost prev = out@;
        out.push(line);
        assert(out@ == prev.push(line));
        assert(out@.map_values(|l: String| l@) =~= prev.map_values(|l: String| l@).push(line@));
        assert(config@.take(i as int + 1) =~= config@.take(i as int).push(a@));
        assert(out@.map_values(|l: String| l@) =~= config@.take(i as int + 1).map_values(
            |a: AccountView| list_line(a),
        ));
        i = i + 1;
    }
    assert(config@.take(i as int) =~= config@);
    out
}

/// The line `account whoami` prints for an account: id (three digits),
/// address, and both servers with their security.
pub open spec fn whoami_line(a: AccountView) -> Seq<char> {
    decimal3(a.id as nat) + " | "@ + a.email + " | "@ + a.smtp.host + ":"@ + decimal(
        a.smtp.port as nat,
    ) + " ("@ + a.smtp.security + ") | "@ + a.imap.host + ":"@ + decimal(a.imap.port as nat)
        + " ("@ + a.imap.security + ")"@
}

/// What `account whoami` prints: the first active account's line, or a
/// notice that there is no account or no active one.
pub fn whoami_text(config: &Config) -> (r: String)
    ensures
        config@.len() == 0 ==> r@ == "No accounts found"@,
        config@.len() > 0 && !some_active(config@) ==> r@ == "No account is currently active"@,
        forall|k: int|
            0 <= k < config@.len() && config@[k].active && (forall|j: int|
                0 <= j < k ==> !config@[j].active) ==> r@ == whoami_line(config@[k]),
{
    if config.accounts.len() == 0 {
        let r = "No accounts found".to_string();
        proof {
            vstd::string::to_string_from_display_ensures_for_str("No accounts found", r);
        }
        return r;
    }
    let mut i: usize = 0;
    while i < config.accounts.len()
        invariant
            i <= config.accounts.len(),
            forall|j: int| 0 <= j < i ==> !config@[j].active,
        decreases config.accounts.len() - i,
    {
        let a = &config.accounts[i];
        if a.active {
            let mut v: Vec<char> = Vec::new();
            push_decimal3(&mut v, a.id as u64);
            extend_str(&mut v, " | ");
            extend_str(&mut v, a.email.as_str());
            extend_str(&mut v, " | ");
            extend_str(&mut v, a.smtp.host.as_str());
            extend_str(&mut v, ":");
            push_decimal(&mut v, a.smtp.port as u64);
            extend_str(&mut v, " (");
            extend_str(&mut v, a.smtp.security.as_str());
            extend_str(&mut v, ") | ");
            extend_str(&mut v, a.imap.host.as_str());
            extend_str(&mut v, ":");
            push_decimal(&mut v, a.imap.port as u64);
            extend_str(&mut v, " (");
            extend_str(&mut v, a.imap.security.as_str());
            extend_str(&mut v, ")");
            assert(v@ =~= whoami_line(a@));
            assert(config@[i as int].active);
            assert(config@[i as int] == a@);
            assert forall|k: int|
                0 <= k < config@.len() && config@[k].active && (forall|j: int|
                    0 <= j < k ==> !config@[j].active) implies k == i by {
                if k > i {
                    assert(!config@[i as int].active);
                }
            }
            return string_of(&v);
        }
        i = i + 1;
    }
    let r = "No account is currently active".to_string();
    proof {
        vstd::string::to_string_from_display_ensures_for_str("No account is currently active", r);
    }
    r
}

} // verus!

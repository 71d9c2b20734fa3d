//! Access-token lifetimes: when a stored token has to be renewed, how it
//! is renewed, and what the account records afterwards.
use vstd::prelude::*;
use crate::config::{copy_strings, strings_view, Account, AccountView};

verus! {

/// A point in time: seconds since the Unix epoch and nanoseconds into that
/// second (chrono's representation; a leap second has nanos from one
/// billion up).
#[derive(Debug)]
pub struct Instant {
    pub seconds: i64,
    pub nanos: u32,
}

/// The instant as a pair of values.
pub open spec fn instant_view(i: Instant) -> (i64, u32) {
    (i.seconds, i.nanos)
}

/// Whether instant `a` is at or after instant `b`.
pub open spec fn at_or_after(a: (i64, u32), b: (i64, u32)) -> bool {
    a.0 > b.0 || (a.0 == b.0 && a.1 >= b.1)
}

/// The instant `chrono::DateTime::parse_from_rfc3339` reads from a text,
/// as seconds and nanoseconds; `None` where it refuses the text.
pub uninterp spec fn spec_rfc3339_instant(text: Seq<char>) -> Option<(i64, u32)>;

/// `chrono::DateTime::parse_from_rfc3339`, taken as the instant it names
/// (`timestamp`, `timestamp_subsec_nanos`). The contract names the result;
/// the RFC 3339 grammar is chrono's.
#[verifier::external_body]
fn rfc3339_instant(text: &str) -> (r: Option<Instant>)
    ensures
        match r {
            Some(i) => spec_rfc3339_instant(text@) == Some(instant_view(i)),
            None => spec_rfc3339_instant(text@) is None,
        },
{
    match chrono::DateTime::parse_from_rfc3339(text) {
        Ok(d) => Some(Instant { seconds: d.timestamp(), nanos: d.timestamp_subsec_nanos() }),
        Err(_) => None,
    }
}

/// `std::time::SystemTime::now`, as the time since the Unix epoch
/// (`duration_since(UNIX_EPOCH)`); `None` where the clock reads before the
/// epoch or past the seconds an `i64` holds. The time itself depends on the
/// clock, so only what holds of every reading is stated: a `Duration`'s
/// nanoseconds stay below one second.
#[verifier::external_body]
fn current_instant() -> (r: Option<Instant>)
    ensures
        r matches Some(i) ==> i.seconds >= 0 && i.nanos < 1_000_000_000,
{
    let d = std::time::SystemTime::now().duration_since(std::time::UNIX_EPOCH).ok()?;
    Some(Instant { seconds: i64::try_from(d.as_secs()).ok()?, nanos: d.subsec_nanos() })
}

/// The RFC 3339 text (`to_rfc3339`, UTC) of the instant a duration after
/// another one; `None` where chrono's range is left.
pub uninterp spec fn spec_rfc3339_after(seconds: i64, nanos: u32, add_seconds: u64, add_nanos: u32) -> Option<Seq<char>>;

/// `chrono::DateTime::checked_add_signed` of a duration to an instant,
/// written with `to_rfc3339`. The contract names the result.
#[verifier::external_body]
fn rfc3339_after(start: &Instant, add_seconds: u64, add_nanos: u32) -> (r: Option<String>)
    requires
        add_nanos < 1_000_000_000,
    ensures
        match r {
            Some(s) => spec_rfc3339_after(start.seconds, start.nanos, add_seconds, add_nanos) == Some(s@),
            None => spec_rfc3339_after(start.seconds, start.nanos, add_seconds, add_nanos) is None,
        },
{
    let begin = chrono::DateTime::from_timestamp(start.seconds, start.nanos)?;
    let delta = chrono::TimeDelta::from_std(std::time::Duration::new(add_seconds, add_nanos)).ok()?;
    begin.checked_add_signed(delta).map(|d| d.to_rfc3339())
}

/// A stored expiration that chrono cannot read.
#[derive(Debug, PartialEq, Eq)]
pub struct InvalidExpiration;

/// Whether a token that expires at the instant `expiration` names has to
/// be renewed at `now`: when `now` is at or after the expiration.
pub fn refresh_due_at(expiration: &str, now: &Instant) -> (r: Result<bool, InvalidExpiration>)
    ensures
        match spec_rfc3339_instant(expiration@) {
            Some(e) => r == Ok::<bool, InvalidExpiration>(at_or_after(instant_view(*now), e)),
            None => r is Err,
        },
{
    match rfc3339_instant(expiration) {
        Some(e) => Ok(now.seconds > e.seconds || (now.seconds == e.seconds && now.nanos >= e.nanos)),
        None => Err(InvalidExpiration),
    }
}

/// Why it cannot be told whether a token has to be renewed.
#[derive(Debug, PartialEq, Eq)]
pub enum RefreshError {
    /// The stored expiration is not an RFC 3339 date.
    InvalidExpiration,
    /// The clock reads before the Unix epoch.
    ClockBeforeEpoch,
}

/// Whether a token that expires at `expiration` has to be renewed now;
/// gives the current time too, from which a renewed token's expiration is
/// counted. The expiration is read first; an unreadable one is reported
/// whatever the clock says.
pub fn refresh_due(expiration: &str) -> (r: Result<(bool, Instant), RefreshError>)
    ensures
        match spec_rfc3339_instant(expiration@) {
            Some(e) => match r {
                Ok((due, now)) => due == at_or_after(instant_view(now), e),
                Err(err) => err == RefreshError::ClockBeforeEpoch,
            },
            None => r == Err::<(bool, Instant), RefreshError>(RefreshError::InvalidExpiration),
        },
{
    if rfc3339_instant(expiration).is_none() {
        return Err(RefreshError::InvalidExpiration);
    }
    let now = match current_instant() {
        Some(n) => n,
        None => return Err(RefreshError::ClockBeforeEpoch),
    };
    match refresh_due_at(expiration, &now) {
        Ok(due) => Ok((due, now)),
        Err(_) => Err(RefreshError::InvalidExpiration),
    }
}

/// How an expired token is renewed.
#[derive(Debug, PartialEq, Eq)]
pub enum RenewRoute {
    /// With the stored refresh token.
    RefreshToken,
    /// With a new device authorization, the user entering a code.
    DeviceCode,
}

/// Renew with the refresh token where one is stored, else through a
/// device authorization.
pub fn renew_route(stored_refresh_token: &Option<String>) -> (r: RenewRoute)
    ensures
        stored_refresh_token is Some ==> r is RefreshToken,
        stored_refresh_token is None ==> r is DeviceCode,
{
    match stored_refresh_token {
        Some(_) => RenewRoute::RefreshToken,
        None => RenewRoute::DeviceCode,
    }
}

/// The scopes to request for an account: its stored scopes, or none.
pub fn requested_scopes(account: &Account) -> (r: Vec<String>)
    ensures
        account@.scopes matches Some(s) ==> strings_view(r@) == s,
        account@.scopes is None ==> r@.len() == 0,
{
    match &account.scopes {
        Some(s) => copy_strings(s),
        None => Vec::new(),
    }
}

/// The expiration text of a token issued at `issued` that lives for the
/// given duration; `None` where chrono cannot represent that instant.
pub fn expiration_after(issued: &Instant, lifetime_seconds: u64, lifetime_nanos: u32) -> (r: Option<String>)
    requires
        lifetime_nanos < 1_000_000_000,
    ensures
        match r {
            Some(s) => spec_rfc3339_after(issued.seconds, issued.nanos, lifetime_seconds, lifetime_nanos) == Some(s@),
            None => spec_rfc3339_after(issued.seconds, issued.nanos, lifetime_seconds, lifetime_nanos) is None,
        },
{
    rfc3339_after(issued, lifetime_seconds, lifetime_nanos)
}

/// The account after a token renewal: where the token came with a lifetime
/// the new expiration is recorded, otherwise the account is unchanged.
pub fn renewed_account(account: &Account, new_expiration: &Option<String>) -> (r: Account)
    ensures
        new_expiration matches Some(e) ==> r@ == (AccountView { token_expiration: Some(e@), ..account@ }),
        new_expiration is None ==> r@ == account@,
{
    let mut a = account.copy();
    match new_expiration {
        Some(e) => {
            a.token_expiration = Some(e.clone());
        },
        None => {},
    }
    a
}

} // verus!

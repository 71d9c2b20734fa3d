//! The stored configuration: accounts with their SMTP and IMAP servers, and
//! the provider description and OpenID endpoints fetched while logging in.
use vstd::prelude::*;

verus! {

/// Connection settings of the outgoing (SMTP) server.
#[derive(Debug)]
pub struct Smtp {
    pub host: String,
    pub port: u16,
    pub security: String,
}

/// Connection settings of the incoming (IMAP) server.
#[derive(Debug)]
pub struct Imap {
    pub host: String,
    pub port: u16,
    pub security: String,
}

/// One configured mail account.
#[derive(Debug)]
pub struct Account {
    pub id: u32,
    pub email: String,
    pub active: bool,
    pub smtp: Smtp,
    pub imap: Imap,
    pub oidc: Option<String>,
    pub scopes: Option<Vec<String>>,
    pub token_expiration: Option<String>,
}

/// All configured accounts, in the order in which they are stored.
#[derive(Debug)]
pub struct Config {
    pub accounts: Vec<Account>,
}

/// A provider's published settings.
#[derive(Debug)]
pub struct MailConfig {
    pub smtp: Smtp,
    pub imap: Imap,
    pub oidc: String,
    pub scopes: Vec<String>,
}

/// The endpoints an OpenID discovery document names.
#[derive(Debug)]
pub struct Endpoints {
    pub device_authorization_endpoint: String,
    pub authorization_endpoint: String,
    pub token_endpoint: String,
}

/// A server's settings as values.
pub struct ServerView {
    pub host: Seq<char>,
    pub port: u16,
    pub security: Seq<char>,
}

/// An account as values.
pub struct AccountView {
    pub id: u32,
    pub email: Seq<char>,
    pub active: bool,
    pub smtp: ServerView,
    pub imap: ServerView,
    pub oidc: Option<Seq<char>>,
    pub scopes: Option<Seq<Seq<char>>>,
    pub token_expiration: Option<Seq<char>>,
}

/// The characters of each string.
pub open spec fn strings_view(v: Seq<String>) -> Seq<Seq<char>> {
    v.map_values(|s: String| s@)
}

/// The characters of an optional string.
pub open spec fn opt_string_view(o: Option<String>) -> Option<Seq<char>> {
    match o {
        Some(s) => Some(s@),
        None => None,
    }
}

impl View for Smtp {
    type V = ServerView;

    open spec fn view(&self) -> ServerView {
        ServerView { host: self.host@, port: self.port, security: self.security@ }
    }
}

impl View for Imap {
    type V = ServerView;

    open spec fn view(&self) -> ServerView {
        ServerView { host: self.host@, port: self.port, security: self.security@ }
    }
}

impl View for Account {
    type V = AccountView;

    open spec fn view(&self) -> AccountView {
        AccountView {
            id: self.id,
            email: self.email@,
            active: self.active,
            smtp: self.smtp@,
            imap: self.imap@,
            oidc: opt_string_view(self.oidc),
            scopes: match self.scopes {
                Some(v) => Some(strings_view(v@)),
                None => None,
            },
            token_expiration: opt_string_view(self.token_expiration),
        }
    }
}

/// The accounts of a configuration, as values.
pub open spec fn accounts_view(v: Seq<Account>) -> Seq<AccountView> {
    v.map_values(|a: Account| a@)
}

impl View for Config {
    type V = Seq<AccountView>;

    open spec fn view(&self) -> Seq<AccountView> {
        accounts_view(self.accounts@)
    }
}

/// A copy of a list of strings.
pub fn copy_strings(v: &Vec<String>) -> (r: Vec<String>)
    ensures
        strings_view(r@) == strings_view(v@),
{
    let mut r: Vec<String> = Vec::new();
    let mut i: usize = 0;
    while i < v.len()
        invariant
            i <= v.len(),
            strings_view(r@) == strings_view(v@.take(i as int)),
        decreases v.len() - i,
    {
        r.push(v[i].clone());
        assert(strings_view(v@.take(i as int + 1)) =~= strings_view(v@.take(i as int)).push(
            v@[i as int]@,
        ));
        assert(strings_view(r@) =~= strings_view(v@.take(i as int)).push(v@[i as int]@));
        i = i + 1;
    }
    assert(v@.take(v@.len() as int) =~= v@);
    r
}

/// A copy of an optional string.
pub fn copy_opt_string(o: &Option<String>) -> (r: Option<String>)
    ensures
        opt_string_view(r) == opt_string_view(*o),
{
    match o {
        Some(s) => Some(s.clone()),
        None => None,
    }
}

/// Whether two optional strings hold the same characters.
pub fn opt_string_equal(a: &Option<String>, b: &Option<String>) -> (r: bool)
    ensures
        r == (opt_string_view(*a) == opt_string_view(*b)),
{
    match (a, b) {
        (Some(x), Some(y)) => *x == *y,
        (None, None) => true,
        _ => false,
    }
}

/// Whether two lists of strings hold the same strings.
pub fn strings_equal(a: &Vec<String>, b: &Vec<String>) -> (r: bool)
    ensures
        r == (strings_view(a@) == strings_view(b@)),
{
    if a.len() != b.len() {
        assert(strings_view(a@).len() != strings_view(b@).len());
        return false;
    }
    let mut i: usize = 0;
    while i < a.len()
        invariant
            i <= a.len(),
            a.len() == b.len(),
            forall|j: int| 0 <= j < i ==> a@[j]@ == b@[j]@,
        decreases a.len() - i,
    {
        if a[i] != b[i] {
            assert(strings_view(a@)[i as int] != strings_view(b@)[i as int]);
            return false;
        }
        i = i + 1;
    }
    assert(strings_view(a@) =~= strings_view(b@));
    true
}

/// The view of an optional list of strings.
pub open spec fn opt_strings_view(o: Option<Vec<String>>) -> Option<Seq<Seq<char>>> {
    match o {
        Some(v) => Some(strings_view(v@)),
        None => None,
    }
}

/// Whether two optional lists of strings hold the same strings.
pub fn opt_strings_equal(a: &Option<Vec<String>>, b: &Option<Vec<String>>) -> (r: bool)
    ensures
        r == (opt_strings_view(*a) == opt_strings_view(*b)),
{
    match (a, b) {
        (Some(x), Some(y)) => strings_equal(x, y),
        (None, None) => true,
        _ => false,
    }
}

impl Smtp {
    /// A copy of these settings.
    pub fn copy(&self) -> (r: Smtp)
        ensures
            r@ == self@,
    {
        Smtp { host: self.host.clone(), port: self.port, security: self.security.clone() }
    }
}

impl Imap {
    /// A copy of these settings.
    pub fn copy(&self) -> (r: Imap)
        ensures
            r@ == self@,
    {
        Imap { host: self.host.clone(), port: self.port, security: self.security.clone() }
    }
}

impl Account {
    /// A copy of this account.
    pub fn copy(&self) -> (r: Account)
        ensures
            r@ == self@,
    {
        let scopes = match &self.scopes {
            Some(v) => Some(copy_strings(v)),
            None => None,
        };
        Account {
            id: self.id,
            email: self.email.clone(),
            active: self.active,
            smtp: self.smtp.copy(),
            imap: self.imap.copy(),
            oidc: copy_opt_string(&self.oidc),
            scopes,
            token_expiration: copy_opt_string(&self.token_expiration),
        }
    }

    /// An account with every text empty, every number zero and no OpenID
    /// settings: the placeholder the client starts from before it has
    /// picked an account.
    pub fn placeholder() -> (r: Account)
        ensures
            r@.id == 0,
            r@.email.len() == 0,
            !r@.active,
            r@.smtp.host.len() == 0 && r@.smtp.port == 0 && r@.smtp.security.len() == 0,
            r@.imap.host.len() == 0 && r@.imap.port == 0 && r@.imap.security.len() == 0,
            r@.oidc is None,
            r@.scopes is None,
            r@.token_expiration is None,
    {
        Account {
            id: 0,
            email: String::new(),
            active: false,
            smtp: Smtp { host: String::new(), port: 0, security: String::new() },
            imap: Imap { host: String::new(), port: 0, security: String::new() },
            oidc: None,
            scopes: None,
            token_expiration: None,
        }
    }
}

impl Config {
    /// A configuration with no accounts.
    pub fn empty() -> (r: Config)
        ensures
            r@.len() == 0,
    {
        Config { accounts: Vec::new() }
    }

    /// A copy of this configuration.
    pub fn copy(&self) -> (r: Config)
        ensures
            r@ == self@,
    {
        let mut accounts: Vec<Account> = Vec::new();
        let mut i: usize = 0;
        while i < self.accounts.len()
            invariant
                i <= self.accounts.len(),
                accounts_view(accounts@) == accounts_view(self.accounts@.take(i as int)),
            decreases self.accounts.len() - i,
        {
            let a = self.accounts[i].copy();
            accounts.push(a);
            assert(accounts_view(self.accounts@.take(i as int + 1)) =~= accounts_view(
                self.accounts@.take(i as int),
            ).push(self.accounts@[i as int]@));
            assert(accounts_view(accounts@) =~= accounts_view(self.accounts@.take(i as int)).push(
                self.accounts@[i as int]@,
            ));
            i = i + 1;
        }
        assert(self.accounts@.take(self.accounts@.len() as int) =~= self.accounts@);
        Config { accounts }
    }
}

} // verus!

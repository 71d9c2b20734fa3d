//! Provider settings: how to connect to a server, where a provider's
//! published settings live, and checks on what a user types in.
use vstd::prelude::*;
use crate::text::{
    decimal, extend_str, join_strings, join_with, lemma_split_char_len, push_decimal, split_char,
    split_on_char, str_equal, string_of, string_seq_view, chars_of,
};

verus! {

// ---------------------------------------------------------------------------
// Addresses
// ---------------------------------------------------------------------------

/// Whether `email_address::EmailAddress::is_valid` accepts an address.
pub uninterp spec fn spec_email_valid(address: Seq<char>) -> bool;

/// `email_address::EmailAddress::is_valid`: whether the text parses as an
/// address (an optional display name, a local part, `@`, a domain). The
/// contract names the answer, and states the one fact the crate's source
/// shows plainly: an accepted address holds an `@`.
#[verifier::external_body]
fn email_is_valid(address: &str) -> (r: bool)
    ensures
        r == spec_email_valid(address@),
        r ==> address@.contains('@'),
{
    email_address::EmailAddress::is_valid(address)
}

/// The check run on every typed-in address: accepted exactly when
/// `email_address` accepts it, refused with `Invalid email address`
/// otherwise.
pub fn validate_email(input: &str) -> (r: Result<(), String>)
    ensures
        r is Ok <==> spec_email_valid(input@),
        r is Ok ==> input@.contains('@'),
        r matches Err(m) ==> m@ == "Invalid email address"@,
{
    if email_is_valid(input) {
        Ok(())
    } else {
        let m = "Invalid email address".to_string();
        proof {
            vstd::string::to_string_from_display_ensures_for_str("Invalid email address", m);
        }
        Err(m)
    }
}

/// The domain of an address as the client takes it: the text between the
/// first and the second `@`. `None` where the address holds no `@`.
pub fn email_domain(email: &str) -> (r: Option<String>)
    ensures
        r is Some <==> email@.contains('@'),
        r matches Some(d) ==> d@ == split_char(email@, '@')[1],
{
    let cs = chars_of(email);
    let pieces = split_on_char(&cs, '@');
    proof {
        lemma_split_char_len(email@, '@');
    }
    if pieces.len() >= 2 {
        Some(string_of(&pieces[1]))
    } else {
        None
    }
}

// ---------------------------------------------------------------------------
// Server security
// ---------------------------------------------------------------------------

/// How a connection to a server is secured.
#[derive(Debug, PartialEq, Eq)]
pub enum Security {
    /// TLS from the start (`SSL` or `TLS` in the settings).
    Implicit,
    /// A plain connection upgraded with STARTTLS.
    StartTls,
}

/// The security a settings value asks for; `None` for a value the client
/// does not recognise.
pub fn connection_security(setting: &str) -> (r: Option<Security>)
    ensures
        (setting@ == "SSL"@ || setting@ == "TLS"@) ==> r == Some(Security::Implicit),
        setting@ == "STARTTLS"@ ==> r == Some(Security::StartTls),
        !(setting@ == "SSL"@ || setting@ == "TLS"@ || setting@ == "STARTTLS"@) ==> r is None,
{
    proof {
        reveal_strlit("SSL");
        reveal_strlit("TLS");
        reveal_strlit("STARTTLS");
        assert("STARTTLS"@.len() != "SSL"@.len());
        assert("STARTTLS"@.len() != "TLS"@.len());
    }
    if str_equal(setting, "SSL") || str_equal(setting, "TLS") {
        Some(Security::Implicit)
    } else if str_equal(setting, "STARTTLS") {
        Some(Security::StartTls)
    } else {
        None
    }
}

/// The security values offered when settings are typed in, in menu order.
pub fn security_options() -> (r: Vec<String>)
    ensures
        string_seq_view(r@) == seq!["SSL"@, "STARTTLS"@],
{
    let a = "SSL".to_string();
    let b = "STARTTLS".to_string();
    proof {
        vstd::string::to_string_from_display_ensures_for_str("SSL", a);
        vstd::string::to_string_from_display_ensures_for_str("STARTTLS", b);
    }
    let mut r: Vec<String> = Vec::new();
    r.push(a);
    r.push(b);
    assert(string_seq_view(r@) =~= seq!["SSL"@, "STARTTLS"@]);
    r
}

/// How the provider request form names a security value: `SSL%2FTLS` for
/// `SSL`, `STARTTLS` for anything else.
pub open spec fn issue_security_label(setting: Seq<char>) -> Seq<char> {
    if setting == "SSL"@ {
        "SSL%2FTLS"@
    } else {
        "STARTTLS"@
    }
}

// ---------------------------------------------------------------------------
// Published provider settings
// ---------------------------------------------------------------------------

/// Where the settings of the provider of a domain are published.
pub open spec fn provider_config_url_spec(domain: Seq<char>) -> Seq<char> {
    "https://raw.githubusercontent.com/Paulprojects8711/ion-mail-config/refs/heads/main/providers/"@
        + domain + ".toml"@
}

/// The address of a domain's published provider settings.
pub fn provider_config_url(domain: &str) -> (r: String)
    ensures
        r@ == provider_config_url_spec(domain@),
{
    let mut v: Vec<char> = Vec::new();
    extend_str(
        &mut v,
        "https://raw.githubusercontent.com/Paulprojects8711/ion-mail-config/refs/heads/main/providers/",
    );
    extend_str(&mut v, domain);
    extend_str(&mut v, ".toml");
    string_of(&v)
}

/// The settings a user typed in for a provider that publishes none, to be
/// proposed for publication.
#[derive(Debug)]
pub struct ProviderProposal {
    pub domain: String,
    pub smtp_host: String,
    pub smtp_port: u16,
    pub smtp_security: String,
    pub imap_host: String,
    pub imap_port: u16,
    pub imap_security: String,
    pub oidc: String,
    pub scopes: Vec<String>,
}

/// The link that opens a prefilled request to publish a provider's
/// settings.
pub open spec fn provider_issue_link_spec(p: ProviderProposal) -> Seq<char> {
    "https://github.com/Paulprojects8711/ion-mail-config/issues/new?template=provider.yml&title=Add+provider:+"@
        + p.domain@ + "&provider="@ + p.domain@ + "&smtp-host="@ + p.smtp_host@ + "&smtp-port="@
        + decimal(p.smtp_port as nat) + "&smtp-security="@ + issue_security_label(p.smtp_security@)
        + "&imap-host="@ + p.imap_host@ + "&imap-port="@ + decimal(p.imap_port as nat)
        + "&imap-security="@ + issue_security_label(p.imap_security@) + "&oidc="@ + p.oidc@
        + "&scopes="@ + join_with(string_seq_view(p.scopes@), "%0A"@)
}

fn push_issue_label(v: &mut Vec<char>, setting: &String)
    ensures
        final(v)@ == old(v)@ + issue_security_label(setting@),
{
    if str_equal(setting.as_str(), "SSL") {
        extend_str(v, "SSL%2FTLS");
    } else {
        extend_str(v, "STARTTLS");
    }
}

/// The link `account add` prints to propose a provider's settings.
pub fn provider_issue_link(p: &ProviderProposal) -> (r: String)
    ensures
        r@ == provider_issue_link_spec(*p),
{
    let mut v: Vec<char> = Vec::new();
    extend_str(
        &mut v,
        "https://github.com/Paulprojects8711/ion-mail-config/issues/new?template=provider.yml&title=Add+provider:+",
    );
    extend_str(&mut v, p.domain.as_str());
    extend_str(&mut v, "&provider=");
    extend_str(&mut v, p.domain.as_str());
    extend_str(&mut v, "&smtp-host=");
    extend_str(&mut v, p.smtp_host.as_str());
    extend_str(&mut v, "&smtp-port=");
    push_decimal(&mut v, p.smtp_port as u64);
    extend_str(&mut v, "&smtp-security=");
    push_issue_label(&mut v, &p.smtp_security);
    extend_str(&mut v, "&imap-host=");
    extend_str(&mut v, p.imap_host.as_str());
    extend_str(&mut v, "&imap-port=");
    push_decimal(&mut v, p.imap_port as u64);
    extend_str(&mut v, "&imap-security=");
    push_issue_label(&mut v, &p.imap_security);
    extend_str(&mut v, "&oidc=");
    extend_str(&mut v, p.oidc.as_str());
    extend_str(&mut v, "&scopes=");
    let joined = join_strings(&p.scopes, "%0A");
    extend_str(&mut v, joined.as_str());
    assert(v@ =~= provider_issue_link_spec(*p));
    string_of(&v)
}

/// Whether a typed-in scope ends the list of scopes (the answer `q`).
pub fn ends_scope_list(scope: &str) -> (r: bool)
    ensures
        r == (scope@ == "q"@),
{
    str_equal(scope, "q")
}

} // verus!

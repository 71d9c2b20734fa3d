use ion_mail::config::{Account, Imap, Smtp};
use ion_mail::provider::{
    connection_security, email_domain, ends_scope_list, provider_config_url, provider_issue_link,
    security_options, validate_email, ProviderProposal, Security,
};
use ion_mail::token::{
    expiration_after, refresh_due, refresh_due_at, renew_route, renewed_account, requested_scopes,
    Instant, InvalidExpiration, RefreshError, RenewRoute,
};

fn account() -> Account {
    Account {
        id: 4,
        email: "a@example.com".to_string(),
        active: true,
        smtp: Smtp { host: "s".to_string(), port: 587, security: "STARTTLS".to_string() },
        imap: Imap { host: "i".to_string(), port: 993, security: "SSL".to_string() },
        oidc: Some("https://login.example.com".to_string()),
        scopes: Some(vec!["mail".to_string(), "offline_access".to_string()]),
        token_expiration: Some("2020-01-01T00:00:00+00:00".to_string()),
    }
}

#[test]
fn addresses_are_validated() {
    assert_eq!(validate_email("user@example.com"), Ok(()));
    assert_eq!(validate_email("not-an-address"), Err("Invalid email address".to_string()));
    assert_eq!(validate_email(""), Err("Invalid email address".to_string()));
}

#[test]
fn domain_is_the_text_after_the_first_at() {
    assert_eq!(email_domain("user@example.com"), Some("example.com".to_string()));
    assert_eq!(email_domain("a@b@c"), Some("b".to_string()));
    assert_eq!(email_domain("user@"), Some("".to_string()));
    assert_eq!(email_domain("nobody"), None);
}

#[test]
fn security_settings() {
    assert_eq!(connection_security("SSL"), Some(Security::Implicit));
    assert_eq!(connection_security("TLS"), Some(Security::Implicit));
    assert_eq!(connection_security("STARTTLS"), Some(Security::StartTls));
    assert_eq!(connection_security("ssl"), None);
    assert_eq!(connection_security(""), None);
    assert_eq!(security_options(), vec!["SSL".to_string(), "STARTTLS".to_string()]);
}

#[test]
fn provider_settings_location() {
    assert_eq!(
        provider_config_url("example.com"),
        "https://raw.githubusercontent.com/Paulprojects8711/ion-mail-config/refs/heads/main/providers/example.com.toml"
    );
}

#[test]
fn provider_proposal_link() {
    let p = ProviderProposal {
        domain: "ex.org".to_string(),
        smtp_host: "smtp.ex.org".to_string(),
        smtp_port: 465,
        smtp_security: "SSL".to_string(),
        imap_host: "imap.ex.org".to_string(),
        imap_port: 143,
        imap_security: "STARTTLS".to_string(),
        oidc: "".to_string(),
        scopes: vec!["a".to_string(), "b".to_string()],
    };
    assert_eq!(
        provider_issue_link(&p),
        "https://github.com/Paulprojects8711/ion-mail-config/issues/new?template=provider.yml&title=Add+provider:+ex.org&provider=ex.org&smtp-host=smtp.ex.org&smtp-port=465&smtp-security=SSL%2FTLS&imap-host=imap.ex.org&imap-port=143&imap-security=STARTTLS&oidc=&scopes=a%0Ab"
    );
}

#[test]
fn scope_list_ends_with_q() {
    assert!(ends_scope_list("q"));
    assert!(!ends_scope_list("Q"));
    assert!(!ends_scope_list("mail"));
}

#[test]
fn refresh_is_due_at_expiration() {
    let at = Instant { seconds: 1577836800, nanos: 0 };
    let before = Instant { seconds: 1577836799, nanos: 999_999_999 };
    let after = Instant { seconds: 1577836800, nanos: 1 };
    assert_eq!(refresh_due_at("2020-01-01T00:00:00Z", &at), Ok(true));
    assert_eq!(refresh_due_at("2020-01-01T00:00:00+00:00", &before), Ok(false));
    assert_eq!(refresh_due_at("2020-01-01T01:00:00+01:00", &after), Ok(true));
    assert_eq!(refresh_due_at("tomorrow", &at), Err(InvalidExpiration));
}

#[test]
fn refresh_now() {
    assert_eq!(refresh_due("2000-01-01T00:00:00Z").map(|r| r.0), Ok(true));
    assert_eq!(refresh_due("9999-01-01T00:00:00Z").map(|r| r.0), Ok(false));
    assert_eq!(refresh_due("").map(|r| r.0), Err(RefreshError::InvalidExpiration));
}

#[test]
fn expiration_after_a_lifetime() {
    let issued = Instant { seconds: 0, nanos: 0 };
    assert_eq!(expiration_after(&issued, 3600, 0), Some("1970-01-01T01:00:00+00:00".to_string()));
    let later = Instant { seconds: 1577836800, nanos: 0 };
    assert_eq!(expiration_after(&later, 90, 500_000_000), Some("2020-01-01T00:01:30.500+00:00".to_string()));
    assert_eq!(expiration_after(&issued, u64::MAX, 0), None);
}

#[test]
fn renewal_routes() {
    assert_eq!(renew_route(&Some("token".to_string())), RenewRoute::RefreshToken);
    assert_eq!(renew_route(&None), RenewRoute::DeviceCode);
}

#[test]
fn renewed_account_records_new_expiration() {
    let a = account();
    let r = renewed_account(&a, &Some("2030-01-01T00:00:00+00:00".to_string()));
    assert_eq!(r.token_expiration.as_deref(), Some("2030-01-01T00:00:00+00:00"));
    assert_eq!(r.id, 4);
    assert_eq!(r.scopes, a.scopes);
    let same = renewed_account(&a, &None);
    assert_eq!(same.token_expiration, a.token_expiration);
}

#[test]
fn scopes_requested() {
    assert_eq!(requested_scopes(&account()), vec!["mail".to_string(), "offline_access".to_string()]);
    let mut plain = account();
    plain.scopes = None;
    assert!(requested_scopes(&plain).is_empty());
}

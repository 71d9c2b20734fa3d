use ion_mail::accounts::{
    account_list_lines, active_account, active_account_index, client_id_key, commit_edit, edit_step, EditStep,
    credentials_to_remove, edit_choice, has_room, password_key, plan_logout, refresh_token_key,
    register_account, register_overflows, switch_account, take_for_edit, whoami_text, EditChoice, LookupError,
    RegisterError,
};
use ion_mail::config::{Account, Config, Imap, Smtp};

fn account(id: u32, email: &str, active: bool) -> Account {
    Account {
        id,
        email: email.to_string(),
        active,
        smtp: Smtp { host: "smtp.example.com".to_string(), port: 465, security: "SSL".to_string() },
        imap: Imap { host: "imap.example.com".to_string(), port: 993, security: "SSL".to_string() },
        oidc: None,
        scopes: None,
        token_expiration: None,
    }
}

fn config(accounts: Vec<Account>) -> Config {
    Config { accounts }
}

fn ids(c: &Config) -> Vec<u32> {
    c.accounts.iter().map(|a| a.id).collect()
}

fn actives(c: &Config) -> Vec<bool> {
    c.accounts.iter().map(|a| a.active).collect()
}

#[test]
fn first_account_gets_id_zero_and_becomes_active() {
    let c = Config::empty();
    let out = register_account(&c, &account(7, "a@example.com", false)).unwrap();
    assert_eq!(ids(&out), vec![0]);
    assert_eq!(actives(&out), vec![true]);
    assert_eq!(out.accounts[0].email, "a@example.com");
}

#[test]
fn new_account_gets_next_id_and_stays_inactive_beside_an_active_one() {
    let c = config(vec![account(3, "a@example.com", true), account(1, "b@example.com", false)]);
    let out = register_account(&c, &account(0, "c@example.com", false)).unwrap();
    assert_eq!(ids(&out), vec![3, 1, 4]);
    assert_eq!(actives(&out), vec![true, false, false]);
}

#[test]
fn new_account_is_active_when_none_is() {
    let c = config(vec![account(0, "a@example.com", false)]);
    let out = register_account(&c, &account(0, "c@example.com", false)).unwrap();
    assert_eq!(actives(&out), vec![false, true]);
}

#[test]
fn same_settings_are_refused() {
    let c = config(vec![account(0, "a@example.com", true)]);
    let r = register_account(&c, &account(5, "a@example.com", false));
    assert!(matches!(r, Err(RegisterError::AlreadyExists)));
}

#[test]
fn same_address_with_other_server_is_accepted() {
    let c = config(vec![account(0, "a@example.com", true)]);
    let mut other = account(0, "a@example.com", false);
    other.imap.port = 143;
    let out = register_account(&c, &other).unwrap();
    assert_eq!(ids(&out), vec![0, 1]);
}

#[test]
fn oversized_id_is_refused() {
    let c = config(vec![account(4294967284, "a@example.com", true)]);
    let r = register_account(&c, &account(0, "b@example.com", false));
    assert!(matches!(r, Err(RegisterError::IdTooLarge)));
}

#[test]
fn duplicate_found_before_oversized_id_wins() {
    let c = config(vec![
        account(0, "dup@example.com", false),
        account(4294967284, "a@example.com", true),
    ]);
    let r = register_account(&c, &account(0, "dup@example.com", false));
    assert!(matches!(r, Err(RegisterError::AlreadyExists)));
}

#[test]
fn room_is_checked_against_the_limit() {
    assert!(has_room(&Config::empty()));
}

#[test]
fn in_use_account_is_the_last_active_one() {
    let c = config(vec![
        account(0, "a@example.com", true),
        account(1, "b@example.com", false),
        account(2, "c@example.com", true),
    ]);
    assert_eq!(active_account_index(&c), Some(2));
    assert_eq!(active_account(&c).unwrap().email, "c@example.com");
    let none = config(vec![account(0, "a@example.com", false)]);
    assert_eq!(active_account_index(&none), None);
    assert!(active_account(&none).is_none());
}

#[test]
fn switch_by_id_activates_exactly_that_account() {
    let c = config(vec![account(0, "a@example.com", true), account(1, "b@example.com", false)]);
    let out = switch_account(&c, "1").unwrap();
    assert_eq!(actives(&out), vec![false, true]);
    assert_eq!(ids(&out), vec![0, 1]);
    assert_eq!(active_account(&out).unwrap().id, 1);
}

#[test]
fn switch_by_address() {
    let c = config(vec![account(0, "a@example.com", true), account(1, "b@example.com", false)]);
    let out = switch_account(&c, "b@example.com").unwrap();
    assert_eq!(actives(&out), vec![false, true]);
}

#[test]
fn switch_to_unknown_id_is_refused() {
    let c = config(vec![account(0, "a@example.com", true)]);
    assert_eq!(switch_account(&c, "99").err(), Some(LookupError::NoSuchId(99)));
    assert_eq!(switch_account(&c, "+0").ok().map(|o| actives(&o)), Some(vec![true]));
}

#[test]
fn switch_to_unknown_address_is_refused() {
    let c = config(vec![account(0, "a@example.com", true)]);
    assert_eq!(
        switch_account(&c, "x@example.com").err(),
        Some(LookupError::NoSuchEmail("x@example.com".to_string()))
    );
}

#[test]
fn edit_takes_the_active_account_out() {
    let c = config(vec![account(0, "a@example.com", false), account(1, "b@example.com", true)]);
    let (rest, a) = take_for_edit(&c, &None).unwrap();
    assert_eq!(a.id, 1);
    assert_eq!(ids(&rest), vec![0]);
    let mut edited = a.copy();
    edited.email = "new@example.com".to_string();
    let saved = commit_edit(&rest, &edited);
    assert_eq!(ids(&saved), vec![0, 1]);
    assert_eq!(saved.accounts[1].email, "new@example.com");
    let saved_again = commit_edit(&rest, &edited);
    assert_eq!(ids(&saved_again), vec![0, 1]);
    assert_eq!(ids(&rest), vec![0]);
}

#[test]
fn edit_by_id_and_missing_account() {
    let c = config(vec![account(0, "a@example.com", false), account(1, "b@example.com", true)]);
    let (rest, a) = take_for_edit(&c, &Some("0".to_string())).unwrap();
    assert_eq!(a.email, "a@example.com");
    assert_eq!(ids(&rest), vec![1]);
    assert_eq!(take_for_edit(&c, &Some("5".to_string())).err(), Some(LookupError::NoSuchId(5)));
    let inactive = config(vec![account(0, "a@example.com", false)]);
    assert_eq!(take_for_edit(&inactive, &None).err(), Some(LookupError::NoActive));
}

#[test]
fn edit_menu_positions() {
    assert_eq!(edit_choice(0), EditChoice::Email);
    assert_eq!(edit_choice(1), EditChoice::Password);
    assert_eq!(edit_choice(2), EditChoice::Smtp);
    assert_eq!(edit_choice(3), EditChoice::Imap);
    assert_eq!(edit_choice(4), EditChoice::SaveAndExit);
    assert_eq!(edit_choice(5), EditChoice::Save);
    assert_eq!(edit_choice(6), EditChoice::Exit);
    assert_eq!(edit_choice(40), EditChoice::Exit);
}

#[test]
fn logout_of_active_account_activates_first_remaining() {
    let c = config(vec![
        account(0, "a@example.com", false),
        account(1, "b@example.com", true),
        account(2, "c@example.com", false),
    ]);
    let plan = plan_logout(&c, &None);
    assert!(plan.found);
    assert_eq!(ids(&plan.remaining), vec![0, 2]);
    assert_eq!(actives(&plan.remaining), vec![true, false]);
    assert_eq!(plan.removed.len(), 1);
    assert_eq!(plan.removed[0].id, 1);
}

#[test]
fn logout_by_address_leaves_active_flags_alone() {
    let c = config(vec![account(0, "a@example.com", true), account(1, "b@example.com", false)]);
    let plan = plan_logout(&c, &Some("b@example.com".to_string()));
    assert!(plan.found);
    assert_eq!(ids(&plan.remaining), vec![0]);
    assert_eq!(actives(&plan.remaining), vec![true]);
    let missing = plan_logout(&c, &Some("7".to_string()));
    assert!(!missing.found);
    assert_eq!(ids(&missing.remaining), vec![0, 1]);
}

#[test]
fn keyring_entry_names() {
    assert_eq!(password_key(12), "12");
    assert_eq!(client_id_key(12), "12.id");
    assert_eq!(refresh_token_key(12), "12.refresh_token");
}

#[test]
fn credentials_of_removed_accounts() {
    let mut oauth = account(3, "o@example.com", false);
    oauth.oidc = Some("https://id.example.com".to_string());
    let removed = vec![account(1, "a@example.com", true), oauth];
    let r = credentials_to_remove(&removed);
    let got: Vec<(String, bool)> = r.into_iter().map(|c| (c.key, c.required)).collect();
    assert_eq!(
        got,
        vec![
            ("1".to_string(), true),
            ("3".to_string(), true),
            ("3.id".to_string(), true),
            ("3.refresh_token".to_string(), false),
        ]
    );
}

#[test]
fn account_list_marks_the_active_account() {
    let c = config(vec![account(0, "a@example.com", true), account(12, "b@example.com", false)]);
    assert_eq!(
        account_list_lines(&c),
        vec!["[000] [+] a@example.com".to_string(), "[012] [-] b@example.com".to_string()]
    );
    assert_eq!(account_list_lines(&Config::empty()), vec!["No accounts found".to_string()]);
}

#[test]
fn whoami_shows_first_active_account() {
    let c = config(vec![account(0, "a@example.com", false), account(5, "b@example.com", true)]);
    assert_eq!(
        whoami_text(&c),
        "005 | b@example.com | smtp.example.com:465 (SSL) | imap.example.com:993 (SSL)"
    );
    assert_eq!(whoami_text(&Config::empty()), "No accounts found");
    let none = config(vec![account(0, "a@example.com", false)]);
    assert_eq!(whoami_text(&none), "No account is currently active");
}

#[test]
fn id_overflow_is_detected_before_registering() {
    let max = config(vec![account(u32::MAX, "a@example.com", true)]);
    assert!(register_overflows(&max, &account(0, "b@example.com", false)));
    assert!(!register_overflows(&max, &account(0, "a@example.com", false)));
    let blocked = config(vec![account(4294967284, "a@example.com", true), account(u32::MAX, "c@example.com", false)]);
    assert!(!register_overflows(&blocked, &account(0, "b@example.com", false)));
    assert!(!register_overflows(&Config::empty(), &account(0, "b@example.com", false)));
}

#[test]
fn edit_menu_steps() {
    assert_eq!(edit_step(&EditChoice::Save, false), EditStep { save: true, finish: false });
    assert_eq!(edit_step(&EditChoice::SaveAndExit, false), EditStep { save: true, finish: true });
    assert_eq!(edit_step(&EditChoice::Exit, true), EditStep { save: false, finish: true });
    assert_eq!(edit_step(&EditChoice::Exit, false), EditStep { save: false, finish: false });
    assert_eq!(edit_step(&EditChoice::Email, true), EditStep { save: false, finish: false });
}

#[test]
fn every_save_writes_the_same_number_of_accounts() {
    let c = config(vec![account(0, "a@example.com", false), account(1, "b@example.com", true), account(2, "c@example.com", false)]);
    let (rest, a) = take_for_edit(&c, &Some("1".to_string())).unwrap();
    let mut edited = a.copy();
    edited.smtp.port = 25;
    for _ in 0..3 {
        let saved = commit_edit(&rest, &edited);
        assert_eq!(ids(&saved), vec![0, 2, 1]);
        assert_eq!(saved.accounts.iter().filter(|x| x.id == 1).count(), 1);
        assert_eq!(saved.accounts[2].smtp.port, 25);
    }
}

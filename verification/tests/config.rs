use qeli::web::config::{ini_kv, mask_raw_secrets, unmask_raw_secrets, RAW_SECRET_MASK};

const SAMPLE: &str = "[web]\nusername = admin\npassword_hash = $argon2id$v=19$m=19456,t=2,p=1$abc$def\n\n[user:alice]\npassword_hash = $argon2id$alice\npassword_enc = ZW5jcnlwdGVk\n\n[user:bob]\npassword_hash = $argon2id$bob\n";

#[test]
fn secrets_are_masked_and_nothing_else_changes() {
    let masked = mask_raw_secrets(SAMPLE);
    assert!(!masked.contains("$argon2id$v=19"), "admin hash leaked");
    assert!(!masked.contains("$argon2id$alice"), "user hash leaked");
    assert!(!masked.contains("ZW5jcnlwdGVk"), "password_enc leaked");
    assert!(masked.contains("[web]"));
    assert!(masked.contains("username = admin"));
    assert!(masked.contains("[user:bob]"));
    assert_eq!(masked.matches(RAW_SECRET_MASK).count(), 4);
}

#[test]
fn masked_values_round_trip_back_to_the_originals() {
    let masked = mask_raw_secrets(SAMPLE);
    let restored = unmask_raw_secrets(&masked, SAMPLE);
    assert_eq!(restored, SAMPLE, "round-trip must be byte-identical");
}

#[test]
fn restoration_does_not_swap_secrets_between_users() {
    let masked = mask_raw_secrets(SAMPLE);
    let restored = unmask_raw_secrets(&masked, SAMPLE);
    let alice = restored.split("[user:alice]").nth(1).unwrap();
    let alice_block = alice.split("[user:bob]").next().unwrap();
    assert!(alice_block.contains("$argon2id$alice"));
    assert!(!alice_block.contains("$argon2id$bob"));
}

#[test]
fn an_explicitly_edited_secret_is_kept() {
    let edited = SAMPLE.replace("$argon2id$alice", "$argon2id$NEWVALUE");
    let restored = unmask_raw_secrets(&edited, SAMPLE);
    assert!(restored.contains("$argon2id$NEWVALUE"));
}

fn chars(s: &str) -> Vec<char> {
    s.chars().collect()
}

#[test]
fn ini_assignments_are_split_at_the_first_equals_and_trimmed() {
    assert_eq!(ini_kv(&chars("  key =  a=b  ")), Some((chars("key"), chars("a=b"))));
    assert_eq!(ini_kv(&chars("# key = v")), None);
    assert_eq!(ini_kv(&chars("  ; key = v")), None);
    assert_eq!(ini_kv(&chars("[section]")), None);
    assert_eq!(ini_kv(&chars("no assignment")), None);
    assert_eq!(ini_kv(&chars("k=")), Some((chars("k"), chars(""))));
    assert_eq!(ini_kv(&chars("\u{3000}k\u{a0}=\tv\r")), Some((chars("k"), chars("v"))));
}

#[test]
fn masking_keeps_layout_and_empty_secrets() {
    let raw = "  password_hash=abc\r\npassword =\n# password = x\nuser.password_hash = q\npassword_enc = e";
    let masked = mask_raw_secrets(raw);
    assert_eq!(
        masked,
        "  password_hash = <unchanged>\r\npassword =\n# password = x\nuser.password_hash = q\npassword_enc = <unchanged>"
    );
    // Masking twice changes nothing more.
    assert_eq!(mask_raw_secrets(&masked), masked);
}

#[test]
fn a_masked_secret_without_a_disk_counterpart_becomes_empty() {
    let incoming = "[user:carol]\npassword_hash = <unchanged>\n";
    let disk = "[user:alice]\npassword_hash = h\n";
    assert_eq!(unmask_raw_secrets(incoming, disk), "[user:carol]\npassword_hash = \n");
}

#[test]
fn the_last_disk_value_for_a_section_and_key_wins() {
    let disk = "[web]\r\npassword = first\r\npassword = second\r\n";
    let incoming = "[web]\npassword = <unchanged>\n";
    assert_eq!(unmask_raw_secrets(incoming, disk), "[web]\npassword = second\n");
}

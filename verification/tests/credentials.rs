use koharu::credentials::{
    after_step, encode, entry_user, file_name, is_blank, key_read, key_saved, save_action,
    step_mode, temp_file_name, SaveAction, StoreError, WriteState, WriteStep, API_KEY_SERVICE,
};

#[test]
fn file_names_escape_path_separators() {
    let name = file_name(Some("target/value"), "service\\name", "user name");

    assert!(name.contains("target%2Fvalue"));
    assert!(name.contains("service%5Cname"));
    assert!(name.contains("user%20name"));
    assert!(!name.contains('/'));
    assert!(!name.contains('\\'));
}

#[test]
fn file_names_spell_out_target_service_and_user() {
    assert_eq!(
        file_name(None, "koharu", "llm_provider_api_key_openai"),
        "v1-target-none--service-koharu--user-llm_provider_api_key_openai.secret"
    );
    assert_eq!(
        file_name(Some("a"), "b", ""),
        "v1-target-some-a--service-b--user-.secret"
    );
}

#[test]
fn escapes_are_upper_case_hexadecimal() {
    assert_eq!(encode("AZaz09-_."), "AZaz09-_.");
    assert_eq!(encode("%"), "%25");
    assert_eq!(encode("\u{e9}\n~"), "%C3%A9%0A%7E");
    assert_eq!(encode("\u{1f600}"), "%F0%9F%98%80");
    assert_eq!(encode(""), "");
}

#[test]
fn different_texts_have_different_names() {
    let texts = ["", "a", "A", "%41", "a b", "a%20b", "a/b", "a\\b", "\u{e9}", "e\u{301}"];
    for a in texts {
        for b in texts {
            assert_eq!(a == b, encode(a) == encode(b));
            assert_eq!(a == b, file_name(None, "s", a) == file_name(None, "s", b));
            assert_eq!(a == b, file_name(None, a, "u") == file_name(None, b, "u"));
            assert_eq!(a == b, file_name(Some(a), "s", "u") == file_name(Some(b), "s", "u"));
            assert_eq!(a == b, entry_user(a) == entry_user(b));
        }
        assert!(file_name(Some(a), "s", "u") != file_name(None, "s", "u"));
    }
}

#[test]
fn temporary_names_count_the_writes() {
    assert_eq!(temp_file_name("n.secret", 0, 0), "n.secret.tmp-0-0");
    assert_eq!(
        temp_file_name("n", u32::MAX, u64::MAX),
        "n.tmp-4294967295-18446744073709551615"
    );
    assert!(temp_file_name("n", 1, 23) != temp_file_name("n", 12, 3));
    assert!(temp_file_name("n", 1, 2) != temp_file_name("n", 1, 3));
}

#[test]
fn keys_are_kept_per_provider() {
    assert_eq!(API_KEY_SERVICE, "koharu");
    assert_eq!(entry_user("openai"), "llm_provider_api_key_openai");
}

#[test]
fn blank_keys_delete_the_credential() {
    for key in ["", " ", "\t\r\n", "\u{3000}\u{a0}"] {
        assert!(is_blank(key));
        assert_eq!(save_action(key), SaveAction::Delete);
        assert!(key.trim().is_empty());
    }
    for key in ["x", " sk-test ", "\u{200b}"] {
        assert!(!is_blank(key));
        assert_eq!(save_action(key), SaveAction::Write);
        assert!(!key.trim().is_empty());
    }
}

#[test]
fn a_missing_entry_is_no_key() {
    assert!(matches!(key_read(Err(StoreError::NoEntry)), Ok(None)));
    assert_eq!(
        key_read(Ok("sk-test".to_string())).unwrap(),
        Some("sk-test".to_string())
    );
    let failed = key_read(Err(StoreError::Failed("locked".to_string())));
    assert!(matches!(failed, Err(StoreError::Failed(m)) if m == "locked"));
}

#[test]
fn deleting_what_is_not_there_succeeds() {
    assert!(key_saved(SaveAction::Delete, Err(StoreError::NoEntry)).is_ok());
    assert!(key_saved(SaveAction::Delete, Ok(())).is_ok());
    assert!(key_saved(SaveAction::Write, Ok(())).is_ok());
    assert!(matches!(
        key_saved(SaveAction::Write, Err(StoreError::NoEntry)),
        Err(StoreError::NoEntry)
    ));
    let failed = key_saved(SaveAction::Delete, Err(StoreError::Failed("locked".to_string())));
    assert!(matches!(failed, Err(StoreError::Failed(_))));
}

#[test]
fn secrets_are_written_in_six_steps() {
    let mut step = WriteStep::CreateDirectory;
    let mut modes = Vec::new();
    let mut taken = 1;
    while let WriteState::Pending(next) = after_step(step, true) {
        step = next;
        taken += 1;
        modes.extend(step_mode(step));
    }
    assert_eq!(after_step(step, true), WriteState::Written);
    assert_eq!(taken, 6);
    assert_eq!(modes, vec![0o700, 0o600, 0o600]);
}

#[test]
fn a_temporary_file_that_cannot_be_renamed_is_removed() {
    assert_eq!(
        after_step(WriteStep::RenameTemporary, false),
        WriteState::Pending(WriteStep::RemoveTemporary)
    );
    for done in [false, true] {
        assert_eq!(after_step(WriteStep::RemoveTemporary, done), WriteState::Failed);
    }
    assert_eq!(after_step(WriteStep::WriteTemporary, false), WriteState::Failed);
    assert_eq!(after_step(WriteStep::ProtectFile, false), WriteState::Failed);
}

#[test]
fn white_space_is_that_of_unicode() {
    let spaces = [
        0x9..=0xd,
        0x20..=0x20,
        0x85..=0x85,
        0xa0..=0xa0,
        0x1680..=0x1680,
        0x2000..=0x200a,
        0x2028..=0x2029,
        0x202f..=0x202f,
        0x205f..=0x205f,
        0x3000..=0x3000,
    ];
    for n in 0..=0x10ffffu32 {
        if let Some(c) = char::from_u32(n) {
            let expected = spaces.iter().any(|range| range.contains(&n));
            assert_eq!(is_blank(c.encode_utf8(&mut [0; 4])), expected);
        }
    }
}

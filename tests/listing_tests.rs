use lrs::entry::{modified_text, resolve_entry};
use lrs::listing::sort_by_name;
use lrs::order::name_less;
use lrs::{
    CLIOptions, Config, Entry, EntryType, Identity, ListError, RawEntry, RawMetadata, Timestamp,
    CLI,
};

fn args(v: &[&str]) -> Vec<String> {
    v.iter().map(|s| s.to_string()).collect()
}

fn entry(name: &str, perm: u32, size: u64) -> Entry {
    Entry {
        permissions: perm,
        owner: "alice".to_string(),
        group: "staff".to_string(),
        file_size: size,
        modified_at: "Jan 05 14:32".to_string(),
        filename: name.to_string(),
        file_type: CLI::get_file_type(&name.to_string()),
    }
}

fn raw(name: &str, uid: u32, gid: u32) -> RawEntry {
    RawEntry {
        metadata: Ok(RawMetadata {
            mode: 33188,
            uid,
            gid,
            len: 42,
            modified: Ok(Timestamp { secs: 0, nanos: 0 }),
        }),
        name: Some(name.to_string()),
    }
}

fn test_dir_cli(argv: &[&str]) -> CLI {
    CLI {
        entries: vec![
            entry(".hidden_test_file", 33188, 0),
            entry("test_file.txt", 33188, 11),
        ],
        config: Config::new(args(argv)),
    }
}

#[test]
fn outputs_non_hidden_files() {
    let out = test_dir_cli(&["lrs", "./tests/test_dir/"]).render();
    assert_eq!(out, "test_file.txt \n");
    assert!(out.contains("test_file.txt"));
    assert!(!out.contains(".hidden_test_file"));
}

#[test]
fn outputs_hidden_files_with_all_flag() {
    let out = test_dir_cli(&["lrs", "-a", "./tests/test_dir/"]).render();
    assert_eq!(out, ".hidden_test_file test_file.txt \n");
    assert!(out.contains("test_file.txt"));
    assert!(out.contains(".hidden_test_file"));
}

#[test]
fn outputs_filenames_with_newlines_with_list_flag() {
    let out = test_dir_cli(&["lrs", "-la", "./tests/test_dir/"]).render();
    assert!(out.contains("test_file.txt\n"));
    assert!(out.contains(".hidden_test_file\n"));
    assert_eq!(
        out,
        "33188\talice\tstaff\t0\tJan 05 14:32\t.hidden_test_file\n\
         33188\talice\tstaff\t11\tJan 05 14:32\ttest_file.txt\n"
    );
}

#[test]
fn outputs_to_stderr_when_file_or_dir_does_not_exist() {
    let config = Config::new(args(&["lrs", "./dir_not_exist"]));
    let r = CLI::from_listing(
        config,
        Err("No such file or directory (os error 2)".to_string()),
    );
    match r {
        Err(e) => {
            assert!(matches!(e, ListError::DirectoryUnavailable(_)));
            assert!(e.message().contains("No such file or directory"));
        }
        Ok(_) => panic!("a missing directory must not list"),
    }
}

#[test]
fn long_format_without_all_skips_hidden() {
    let out = test_dir_cli(&["lrs", "-l"]).render();
    assert_eq!(out, "33188\talice\tstaff\t11\tJan 05 14:32\ttest_file.txt\n");
}

#[test]
fn empty_listing_renders_a_bare_newline() {
    let cli = CLI { entries: vec![], config: Config::new(args(&["lrs"])) };
    assert_eq!(cli.render(), "\n");
    let cli = CLI { entries: vec![], config: Config::new(args(&["lrs", "-l"])) };
    assert_eq!(cli.render(), "");
}

#[test]
fn decimal_fields_render_plainly() {
    let cli = CLI {
        entries: vec![entry("big", u32::MAX, u64::MAX), entry("zero", 0, 0)],
        config: Config::new(args(&["lrs", "-l"])),
    };
    assert_eq!(
        cli.render(),
        "4294967295\talice\tstaff\t18446744073709551615\tJan 05 14:32\tbig\n\
         0\talice\tstaff\t0\tJan 05 14:32\tzero\n"
    );
}

#[test]
fn file_type_follows_leading_dot() {
    assert_eq!(CLI::get_file_type(&".x".to_string()), EntryType::Hidden);
    assert_eq!(CLI::get_file_type(&".".to_string()), EntryType::Hidden);
    assert_eq!(CLI::get_file_type(&"x.".to_string()), EntryType::Normal);
    assert_eq!(CLI::get_file_type(&"".to_string()), EntryType::Normal);
}

#[test]
fn names_compare_by_code_point() {
    let s = |x: &str| x.to_string();
    assert!(name_less(&s("B"), &s("a")));
    assert!(!name_less(&s("a"), &s("B")));
    assert!(name_less(&s("ab"), &s("abc")));
    assert!(!name_less(&s("abc"), &s("ab")));
    assert!(!name_less(&s("same"), &s("same")));
    assert!(name_less(&s(".z"), &s("a")));
    assert!(name_less(&s("z"), &s("é")));
    assert!(name_less(&s(""), &s("a")));
}

#[test]
fn sorting_orders_by_name_from_any_start() {
    let names = |v: &Vec<Entry>| v.iter().map(|e| e.filename.clone()).collect::<Vec<_>>();
    let a = sort_by_name(vec![entry("c", 1, 1), entry("a", 1, 1), entry("B", 1, 1), entry(".d", 1, 1)]);
    let b = sort_by_name(vec![entry(".d", 1, 1), entry("B", 1, 1), entry("c", 1, 1), entry("a", 1, 1)]);
    assert_eq!(names(&a), vec![".d", "B", "a", "c"]);
    assert_eq!(names(&a), names(&b));
    assert!(sort_by_name(vec![]).is_empty());
}

#[test]
fn modified_time_is_formatted_in_utc() {
    assert_eq!(modified_text(Timestamp { secs: 0, nanos: 0 }), Some("Jan 01 00:00".to_string()));
    assert_eq!(
        modified_text(Timestamp { secs: 1431648000 + 3600 * 14 + 60 * 32 + 59, nanos: 0 }),
        Some("May 15 14:32".to_string())
    );
    assert_eq!(modified_text(Timestamp { secs: i64::MAX, nanos: 0 }), None);
}

#[test]
fn resolve_entry_builds_the_record() {
    let e = resolve_entry(
        raw(".cfg", 7, 8),
        Some("bob".to_string()),
        Some("wheel".to_string()),
        Some("Feb 03 04:05".to_string()),
    )
    .unwrap();
    assert_eq!(e.permissions, 33188);
    assert_eq!(e.owner, "bob");
    assert_eq!(e.group, "wheel");
    assert_eq!(e.file_size, 42);
    assert_eq!(e.modified_at, "Feb 03 04:05");
    assert_eq!(e.filename, ".cfg");
    assert_eq!(e.file_type, EntryType::Hidden);
}

#[test]
fn resolve_entry_reports_each_failure() {
    let some = |x: &str| Some(x.to_string());
    let no_meta = RawEntry { metadata: Err("Permission denied (os error 13)".to_string()), name: some("f") };
    match resolve_entry(no_meta, some("o"), some("g"), some("t")) {
        Err(ListError::MetadataUnavailable(m)) => assert_eq!(m, "Permission denied (os error 13)"),
        other => panic!("unexpected: {:?}", other),
    }
    match resolve_entry(raw("f", 4242, 9), None, some("g"), some("t")) {
        Err(e) => {
            assert!(matches!(e, ListError::IdentityResolutionFailed(Identity::User(4242))));
            assert_eq!(e.message(), "owner lookup failed for uid 4242");
        }
        other => panic!("unexpected: {:?}", other),
    }
    match resolve_entry(raw("f", 1, 909), some("o"), None, some("t")) {
        Err(e) => {
            assert!(matches!(e, ListError::IdentityResolutionFailed(Identity::Group(909))));
            assert_eq!(e.message(), "group lookup failed for gid 909");
        }
        other => panic!("unexpected: {:?}", other),
    }
    let mut r = raw("f", 1, 1);
    if let Ok(md) = &mut r.metadata {
        md.modified = Err("unsupported".to_string());
    }
    match resolve_entry(r, some("o"), some("g"), None) {
        Err(ListError::MetadataUnavailable(m)) => assert_eq!(m, "unsupported"),
        other => panic!("unexpected: {:?}", other),
    }
    match resolve_entry(raw("f", 1, 1), some("o"), some("g"), None) {
        Err(e) => assert_eq!(e.message(), "time out of range"),
        other => panic!("unexpected: {:?}", other),
    }
    let bad_name = RawEntry { metadata: raw("f", 1, 1).metadata, name: None };
    match resolve_entry(bad_name, some("o"), some("g"), some("t")) {
        Err(e) => {
            assert!(matches!(e, ListError::InvalidFilename));
            assert_eq!(e.message(), "filename does not contain valid unicode");
        }
        other => panic!("unexpected: {:?}", other),
    }
}

#[test]
fn listing_is_ordered_and_resolved() {
    let config = Config::new(args(&["lrs", "-a"]));
    let cli = CLI::from_listing(
        config,
        Ok(vec![raw("zeta", 0, 0), raw(".alpha", 0, 0), raw("Beta", 0, 0)]),
    )
    .unwrap();
    let names: Vec<&str> = cli.entries.iter().map(|e| e.filename.as_str()).collect();
    assert_eq!(names, vec![".alpha", "Beta", "zeta"]);
    for e in &cli.entries {
        assert_eq!(e.modified_at, "Jan 01 00:00");
        assert_eq!(e.file_size, 42);
        assert!(!e.owner.is_empty());
        assert_ne!(e.owner, "0");
    }
    assert_eq!(cli.entries[0].file_type, EntryType::Hidden);
    assert_eq!(cli.render(), ".alpha Beta zeta \n");
    assert_eq!(cli.config.options, vec![CLIOptions::All]);
}

#[test]
fn listing_stops_at_the_first_failing_child() {
    let config = Config::new(args(&["lrs"]));
    let bad = RawEntry { metadata: Err("gone".to_string()), name: Some("b".to_string()) };
    let unnamed = RawEntry { metadata: raw("c", 0, 0).metadata, name: None };
    match CLI::from_listing(config, Ok(vec![raw("a", 0, 0), bad, unnamed])) {
        Err(ListError::MetadataUnavailable(m)) => assert_eq!(m, "gone"),
        other => panic!("unexpected: {:?}", other.map(|c| c.entries.len())),
    }
}

#[test]
fn directory_error_message_is_kept() {
    let e = ListError::DirectoryUnavailable("Not a directory (os error 20)".to_string());
    assert_eq!(e.message(), "Not a directory (os error 20)");
}

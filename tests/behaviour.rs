use apt_sources_lists::{
    DistUpgrade, SourceEntry, SourceError, SourceEvent, SourceLine, SourcesIter, SourcesList,
    SourcesListError, SourcesLists, UpgradeAction, UpgradeEvent,
};
use apt_sources_lists::text::{lines, replace, split_whitespace, trim};

fn entry(url: &str, suite: &str, components: &[&str]) -> SourceEntry {
    SourceEntry {
        enabled: true,
        source: false,
        options: None,
        url: url.into(),
        suite: suite.into(),
        components: components.iter().map(|c| c.to_string()).collect(),
    }
}

fn missing_field(r: Result<SourceEntry, SourceError>) -> &'static str {
    match r {
        Err(SourceError::MissingField { field }) => field,
        other => panic!("expected a missing field, got {:?}", other),
    }
}

fn two_files() -> SourcesLists {
    let first = SourcesList::from_text(
        "/etc/apt/sources.list".into(),
        "deb http://x/ disco main\n# free text\n\ndeb-src http://x/ disco main\n",
    )
    .unwrap();
    let second =
        SourcesList::from_text("/etc/apt/sources.list.d/y.list".into(), "deb http://y/ disco main\n")
            .unwrap();
    SourcesLists::new(vec![first, second])
}

#[test]
fn bracket_placements_parse_alike() {
    let expected = SourceEntry {
        enabled: true,
        source: false,
        options: Some("arch=amd64".into()),
        url: "URL".into(),
        suite: "S".into(),
        components: vec!["C".into()],
    };
    for line in [
        "deb [ arch=amd64 ] URL S C",
        "deb [arch=amd64 ] URL S C",
        "deb [ arch=amd64] URL S C",
        "deb [arch=amd64]URL S C",
        "deb [ arch=amd64 ]URL S C",
    ] {
        assert_eq!(SourceEntry::parse_line(line).unwrap(), expected, "{}", line);
    }
}

#[test]
fn binary_entry_fields() {
    let e = SourceEntry::parse_line("deb http://x/ cosmic main restricted").unwrap();
    assert_eq!(e, entry("http://x/", "cosmic", &["main", "restricted"]));
}

#[test]
fn source_entry_kind() {
    let e = SourceEntry::parse_line("deb-src http://x/ cosmic main").unwrap();
    assert!(e.source);
    assert_eq!(e.url, "http://x/");
    assert_eq!(e.components, vec!["main".to_string()]);
}

#[test]
fn unknown_kind_is_invalid() {
    match SourceEntry::parse_line("ftp http://x/ cosmic main") {
        Err(SourceError::InvalidValue { field, value }) => {
            assert_eq!(field, "source");
            assert_eq!(value, "ftp");
        }
        other => panic!("unexpected {:?}", other),
    }
}

#[test]
fn missing_fields() {
    assert_eq!(missing_field(SourceEntry::parse_line("")), "source");
    assert_eq!(missing_field(SourceEntry::parse_line("deb")), "url");
    assert_eq!(missing_field(SourceEntry::parse_line("deb http://x/")), "suite");
    assert_eq!(missing_field(SourceEntry::parse_line("deb [arch=amd64 http://x/ s")), "option");
    assert_eq!(missing_field(SourceEntry::parse_line("deb [arch=amd64]")), "url");
    assert_eq!(missing_field(SourceEntry::parse_line("deb [arch=amd64] http://x/")), "suite");
}

#[test]
fn no_components_and_empty_options() {
    let e = SourceEntry::parse_line("deb [ ] http://x/ cosmic").unwrap();
    assert_eq!(e, entry("http://x/", "cosmic", &[]));
    assert_eq!(e.to_string(), "deb http://x/ cosmic");
}

#[test]
fn options_spread_over_words() {
    let e = SourceEntry::parse_line("deb [arch=amd64 trusted=yes] http://x/ s c").unwrap();
    assert_eq!(e.options, Some("arch=amd64trusted=yes".into()));
    assert_eq!(e.url, "http://x/");
}

#[test]
fn disabled_entry_line() {
    let line = SourceLine::parse_line("# deb http://x/ cosmic main").unwrap();
    let mut expected = entry("http://x/", "cosmic", &["main"]);
    expected.enabled = false;
    assert_eq!(line, SourceLine::Entry(expected));
    assert_eq!(line.to_string(), "# deb http://x/ cosmic main");
}

#[test]
fn free_comment_is_kept() {
    let text = "# this is only a note";
    assert_eq!(SourceLine::parse_line(text).unwrap(), SourceLine::Comment(text.into()));
    assert_eq!(SourceLine::parse_line(text).unwrap().to_string(), text);
    assert_eq!(SourceLine::parse_line("#").unwrap(), SourceLine::Comment("#".into()));
}

#[test]
fn blank_line_is_empty() {
    assert_eq!(SourceLine::parse_line("   \t ").unwrap(), SourceLine::Empty);
    assert_eq!(SourceLine::Empty.to_string(), "");
}

#[test]
fn bad_line_is_an_error() {
    assert!(matches!(
        SourceLine::parse_line("deb"),
        Err(SourceError::MissingField { field: "url" })
    ));
}

#[test]
fn format_round_trip() {
    let mut e = entry("http://x/ubuntu", "cosmic", &["main", "universe"]);
    e.options = Some("arch=amd64".into());
    e.source = true;
    let text = e.to_string();
    assert_eq!(text, "deb-src [arch=amd64] http://x/ubuntu cosmic main universe");
    assert_eq!(SourceEntry::parse_line(&text).unwrap(), e);
    e.enabled = false;
    assert_eq!(SourceLine::parse_line(&e.to_string()).unwrap(), SourceLine::Entry(e));
}

#[test]
fn derived_paths() {
    let e = entry("http://us.archive.ubuntu.com/ubuntu//", "cosmic", &["main", "universe"]);
    assert_eq!(e.url(), "http://us.archive.ubuntu.com/ubuntu");
    assert_eq!(e.dist_path(), "http://us.archive.ubuntu.com/ubuntu/dists/cosmic");
    assert_eq!(e.dist_path_get("Release"), "http://us.archive.ubuntu.com/ubuntu/dists/cosmic/Release");
    assert_eq!(
        e.dist_components(),
        vec![
            "http://us.archive.ubuntu.com/ubuntu/dists/cosmic/main".to_string(),
            "http://us.archive.ubuntu.com/ubuntu/dists/cosmic/universe".to_string(),
        ]
    );
    assert_eq!(e.pool_path(), "http://us.archive.ubuntu.com/ubuntu/pool/");
    assert_eq!(e.filename(), "__us.archive.ubuntu.com_ubuntu");
    assert_eq!(entry("cdrom:a/b", "s", &[]).filename(), "cdrom:a_b");
}

#[test]
fn file_parse_and_text() {
    let list = SourcesList::from_text("p".into(), "deb http://x/ s c\r\n\n# note\n").unwrap();
    assert_eq!(list.lines.len(), 3);
    assert_eq!(list.lines[1], SourceLine::Empty);
    assert_eq!(list.to_string(), "deb http://x/ s c\n\n# note\n");
    assert!(list.is_active());
    assert_eq!(list.contains_entry("http://x/"), Some(0));
    assert_eq!(list.contains_entry("http://z/"), None);
    let quiet = SourcesList::from_text("q".into(), "# note\n").unwrap();
    assert!(!quiet.is_active());
}

#[test]
fn file_error_names_line() {
    match SourcesList::from_text("p".into(), "deb http://x/ s\nrpm x\n") {
        Err(SourceError::SourcesList { path, why }) => {
            assert_eq!(path, "p");
            match *why {
                SourcesListError::BadLine { line, why } => {
                    assert_eq!(line, 1);
                    assert!(matches!(why, SourceError::InvalidValue { field: "source", .. }));
                }
            }
        }
        other => panic!("unexpected {:?}", other),
    }
}

#[test]
fn reload_replaces_lines() {
    let mut list = SourcesList::from_text("p".into(), "deb http://x/ s\n").unwrap();
    assert!(list.reload("ftp x").is_err());
    assert_eq!(list.lines.len(), 1);
    list.reload("# a\n\n").unwrap();
    assert_eq!(list.lines, vec![SourceLine::Comment("# a".into()), SourceLine::Empty]);
    assert_eq!(list.path, "p");
}

#[test]
fn scan_from_paths() {
    let sources = vec![
        ("a".to_string(), "deb http://a/ s c\n".to_string()),
        ("b".to_string(), "# x\n".to_string()),
    ];
    let lists = SourcesLists::new_from_paths(&sources).unwrap();
    assert_eq!(lists.files.len(), 2);
    assert_eq!(lists.files[1].path, "b");
    assert!(lists.modified.is_empty());
    let bad = vec![("a".to_string(), "\n\ndeb\n".to_string())];
    match SourcesLists::new_from_paths(&bad) {
        Err(SourceError::SourcesList { path, why }) => {
            assert_eq!(path, "a");
            assert!(matches!(*why, SourcesListError::BadLine { line: 2, .. }));
        }
        other => panic!("unexpected {:?}", other),
    }
}

#[test]
fn insert_then_find() {
    let mut lists = two_files();
    let e = entry("http://new/", "disco", &["main"]);
    lists.insert_entry("/etc/apt/sources.list.d/y.list", e.clone()).unwrap();
    assert_eq!(lists.files[1].contains_entry("http://new/"), Some(1));
    assert_eq!(lists.modified, vec![1]);

    let replacement = entry("http://x/", "eoan", &["main"]);
    lists.insert_entry("/etc/apt/sources.list", replacement.clone()).unwrap();
    assert_eq!(lists.files[0].contains_entry("http://x/"), Some(0));
    assert_eq!(lists.files[0].lines[0], SourceLine::Entry(replacement));
    assert_eq!(lists.modified, vec![1, 0]);

    lists.insert_entry("/etc/apt/sources.list.d/z.list", e.clone()).unwrap();
    assert_eq!(lists.files.len(), 3);
    assert_eq!(lists.files[2].lines, vec![SourceLine::Entry(e)]);
    assert_eq!(lists.files[2].contains_entry("http://new/"), Some(0));
    assert_eq!(lists.modified, vec![1, 0, 2]);
}

#[test]
fn remove_then_find_nothing() {
    let mut lists = two_files();
    lists.remove_entry("http://y/");
    assert_eq!(lists.files[1].contains_entry("http://y/"), None);
    assert_eq!(lists.modified, vec![1]);
    // Both the deb and the deb-src line of the url go.
    lists.remove_entry("http://x/");
    assert_eq!(lists.files[0].contains_entry("http://x/"), None);
    assert_eq!(lists.files[0].to_string(), "# free text\n\n");
    assert_eq!(lists.modified, vec![1, 0]);
}

#[test]
fn comment_entry_drops_structure() {
    let mut lists = two_files();
    lists.comment_entry("http://y/");
    assert_eq!(
        lists.files[1].lines[0],
        SourceLine::Comment("# deb http://y/ disco main".into())
    );
    assert_eq!(lists.modified, vec![1]);
    lists.comment_entry("http://x/");
    assert_eq!(
        lists.files[0].to_string(),
        "# deb http://x/ disco main\n# free text\n\n# deb-src http://x/ disco main\n"
    );
    assert_eq!(lists.modified, vec![1, 0]);
}

#[test]
fn repo_modify_reports_match() {
    let mut lists = two_files();
    assert!(!lists.repo_modify("http://none/", false));
    assert!(lists.modified.is_empty());
    assert!(lists.repo_modify("http://y/", false));
    assert_eq!(lists.files[1].to_string(), "# deb http://y/ disco main\n");
    assert_eq!(lists.modified, vec![1]);
}

#[test]
fn entries_in_order() {
    let lists = two_files();
    let urls: Vec<&str> = lists.entries().iter().map(|e| e.url.as_str()).collect();
    assert_eq!(urls, vec!["http://x/", "http://x/", "http://y/"]);
}

#[test]
fn dist_replace_exact_suite() {
    let mut lists = two_files();
    lists.insert_entry("/etc/apt/sources.list.d/y.list", entry("http://z/", "disco-updates", &[]))
        .unwrap();
    lists.modified.clear();
    lists.dist_replace("disco", "eoan");
    let suites: Vec<&str> = lists.entries().iter().map(|e| e.suite.as_str()).collect();
    assert_eq!(suites, vec!["eoan", "eoan", "eoan", "disco-updates"]);
    assert_eq!(lists.modified, vec![0, 1]);
}

#[test]
fn same_suite_rename_changes_nothing() {
    let mut lists = two_files();
    let before: Vec<String> = lists.files.iter().map(|f| f.to_string()).collect();
    lists.dist_replace("disco", "disco");
    for file in lists.files.iter_mut() {
        file.upgrade_suites("disco", "disco");
    }
    let after: Vec<String> = lists.files.iter().map(|f| f.to_string()).collect();
    assert_eq!(after, before);
}

#[test]
fn upgrade_paths_replace_every_occurrence() {
    let mut lists = two_files();
    lists.insert_entry("a", entry("ftp://f/", "disco", &["main"])).unwrap();
    lists.insert_entry("a", entry("http://d/", "disco-disco", &["main"])).unwrap();
    assert_eq!(
        lists.dist_upgrade_paths("disco", "eoan"),
        vec![
            "http://x/dists/eoan".to_string(),
            "http://x/dists/eoan".to_string(),
            "http://y/dists/eoan".to_string(),
            "http://d/dists/eoan-eoan".to_string(),
        ]
    );
}

#[test]
fn write_queue() {
    let mut lists = two_files();
    assert_eq!(lists.pending_write(), None);
    lists.remove_entry("http://y/");
    lists.remove_entry("http://x/");
    assert_eq!(lists.pending_write(), Some(1));
    lists.mark_written();
    assert_eq!(lists.pending_write(), Some(0));
    lists.mark_written();
    assert_eq!(lists.pending_write(), None);
}

#[test]
fn upgrade_success_rewrites_each_file() {
    let mut lists = two_files();
    let mut up = DistUpgrade::new("disco".into(), "eoan".into());
    assert_eq!(up.step(&mut lists, UpgradeEvent::Succeeded), UpgradeAction::Backup(0));
    match up.step(&mut lists, UpgradeEvent::Succeeded) {
        UpgradeAction::Write(0, text) => {
            assert_eq!(text, "deb http://x/ eoan main\n# free text\n\ndeb-src http://x/ eoan main\n")
        }
        other => panic!("unexpected {:?}", other),
    }
    assert_eq!(up.step(&mut lists, UpgradeEvent::Succeeded), UpgradeAction::Backup(1));
    assert!(matches!(up.step(&mut lists, UpgradeEvent::Succeeded), UpgradeAction::Write(1, _)));
    assert_eq!(up.step(&mut lists, UpgradeEvent::Succeeded), UpgradeAction::Done);
    assert_eq!(lists.files[1].to_string(), "deb http://y/ eoan main\n");
}

#[test]
fn upgrade_failure_restores_earlier_files() {
    let mut lists = two_files();
    let mut up = DistUpgrade::new("disco".into(), "eoan".into());
    assert_eq!(up.step(&mut lists, UpgradeEvent::Succeeded), UpgradeAction::Backup(0));
    assert!(matches!(up.step(&mut lists, UpgradeEvent::Succeeded), UpgradeAction::Write(0, _)));
    assert_eq!(up.step(&mut lists, UpgradeEvent::Succeeded), UpgradeAction::Backup(1));
    assert!(matches!(up.step(&mut lists, UpgradeEvent::Succeeded), UpgradeAction::Write(1, _)));
    // The second file's rewrite fails: both backups are copied back.
    assert_eq!(up.step(&mut lists, UpgradeEvent::Failed), UpgradeAction::Restore(0));
    assert_eq!(up.step(&mut lists, UpgradeEvent::Failed), UpgradeAction::Restore(1));
    assert_eq!(up.step(&mut lists, UpgradeEvent::Succeeded), UpgradeAction::Failed);
}

#[test]
fn upgrade_failed_backup_restores_only_made_ones() {
    let mut lists = two_files();
    let mut up = DistUpgrade::new("disco".into(), "eoan".into());
    assert_eq!(up.step(&mut lists, UpgradeEvent::Succeeded), UpgradeAction::Backup(0));
    assert_eq!(up.step(&mut lists, UpgradeEvent::Failed), UpgradeAction::Failed);
    let mut empty = SourcesLists::new(Vec::new());
    let mut up = DistUpgrade::new("disco".into(), "eoan".into());
    assert_eq!(up.step(&mut empty, UpgradeEvent::Succeeded), UpgradeAction::Done);
}

#[test]
fn text_helpers() {
    assert_eq!(split_whitespace(" a\u{3000}b\t c  "), vec!["a", "b", "c"]);
    assert_eq!(trim("\u{a0} x y \n"), "x y");
    assert_eq!(replace("abc", "", "-"), "-a-b-c-");
    assert_eq!(replace("aaa", "aa", "b"), "ba");
    assert_eq!(lines("a\n\nb"), vec!["a", "", "b"]);
    assert_eq!(lines("a\n"), vec!["a"]);
    assert!(lines("").is_empty());
}

#[test]
fn walk_announces_files() {
    let mut lists = two_files();
    lists.files.insert(1, SourcesList::from_text("empty".into(), "").unwrap());
    let mut walk = SourcesIter::new(&lists);
    let mut seen = Vec::new();
    while let Some(ev) = walk.next() {
        seen.push(match ev {
            SourceEvent::NewList(path) => format!("file {}", path),
            SourceEvent::Entry(line) => line.to_string(),
        });
    }
    assert_eq!(
        seen,
        vec![
            "file /etc/apt/sources.list",
            "deb http://x/ disco main",
            "# free text",
            "",
            "deb-src http://x/ disco main",
            "file /etc/apt/sources.list.d/y.list",
            "deb http://y/ disco main",
        ]
    );
    assert!(walk.next().is_none());
}

#[test]
fn entry_changed_in_place() {
    let mut list = SourcesList::from_text("p".into(), "# c\ndeb http://x/ s a\n").unwrap();
    list.get_entry_mut("http://x/").unwrap().suite = "t".into();
    assert_eq!(list.to_string(), "# c\ndeb http://x/ t a\n");
    assert!(list.get_entry_mut("http://none/").is_none());
}

#[test]
fn empty_brackets_before_bracketed_url() {
    let e = SourceEntry::parse_line("deb [] [x s").unwrap();
    assert_eq!(e.options, None);
    assert_eq!(e.url, "[x");
    assert_eq!(e.to_string(), "deb [x s");
    assert_eq!(missing_field(SourceEntry::parse_line(&e.to_string())), "option");
}

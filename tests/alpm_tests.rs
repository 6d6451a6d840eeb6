use commando::alpm::{
    distinct_captures, kept_listing, parse_alpm_db, read_package_bins, read_package_name,
    ArchiveEvent, PackageCollector, PackageDir,
};
use commando::cdb::{create_cdb, search_in_cdb, CDBEntry, Lookup};
use commando::error::CommandoError;

fn package(name: &str, files: &[&str]) -> PackageDir {
    let mut listing = String::from("%FILES%\n");
    for f in files {
        listing.push_str(f);
        listing.push('\n');
    }
    PackageDir {
        desc: format!("%FILENAME%\n{name}-1.0-1-x86_64.pkg.tar.zst\n\n%NAME%\n{name}\n\n%VERSION%\n1.0-1\n"),
        files: listing,
    }
}

fn lookup(data: &[u8], name: &str) -> Option<Vec<String>> {
    match search_in_cdb(name, data).unwrap() {
        Lookup::Found(b) => Some(
            String::from_utf8(b)
                .unwrap()
                .split('\n')
                .filter(|s| !s.is_empty())
                .map(|s| s.to_string())
                .collect(),
        ),
        Lookup::NotFound => None,
    }
}

fn packages_of(entries: &[CDBEntry], command: &str) -> Vec<String> {
    entries.iter().find(|e| e.command == command).unwrap().packages.clone()
}

#[test]
fn name_read_after_marker() {
    let desc = "%FILENAME%\nbash-5.2-1.pkg\n\n%NAME%\nbash\n\n%BASE%\nbash\n";
    assert_eq!(read_package_name(desc).unwrap(), "bash");
}

#[test]
fn name_trailing_white_space_trimmed() {
    let desc = "%NAME%\nzsh \t\r\u{3000}\n";
    assert_eq!(read_package_name(desc).unwrap(), "zsh");
}

#[test]
fn name_marker_with_trailing_space_is_no_marker() {
    assert!(matches!(read_package_name("%NAME% \nx\n"), Err(CommandoError::PackageNameDescFind)));
    assert!(matches!(read_package_name("%NAME%\r\nx\n"), Err(CommandoError::PackageNameDescFind)));
}

#[test]
fn name_marker_missing() {
    let desc = "%FILENAME%\nbash\n%VERSION%\n1\n";
    assert!(matches!(read_package_name(desc), Err(CommandoError::PackageNameDescFind)));
    assert!(matches!(read_package_name(""), Err(CommandoError::PackageNameDescFind)));
}

#[test]
fn name_marker_on_last_line() {
    assert!(matches!(read_package_name("a\n%NAME%"), Err(CommandoError::PackageNameDescRead)));
}

#[test]
fn name_marker_must_be_whole_line() {
    assert!(matches!(read_package_name(" %NAME%\nx\n"), Err(CommandoError::PackageNameDescFind)));
}

#[test]
fn bins_found_in_listing() {
    let files = "%FILES%\nusr/\nusr/bin/\nusr/bin/ls\nusr/bin/cat\nusr/share/doc/x\n";
    assert_eq!(read_package_bins(files), vec!["ls".to_string(), "cat".to_string()]);
}

#[test]
fn bins_skip_node_modules_lines() {
    let files = "lib/node_modules/foo/bin/bar\nusr/bin/baz\n";
    assert_eq!(read_package_bins(files), vec!["baz".to_string()]);
    assert!(read_package_bins("lib/node_modules/foo/bin/bar").is_empty());
}

#[test]
fn bins_stop_at_dot_and_are_distinct() {
    let files = "usr/bin/python3.11\nusr/bin/python3\nopt/x/bin/python3\nusr/bin/.hidden\n";
    assert_eq!(read_package_bins(files), vec!["python3".to_string()]);
}

#[test]
fn listing_keeps_lines_not_excluded() {
    assert_eq!(kept_listing("a\nx/node_modules/y\nb"), "a\nb\n");
    assert_eq!(kept_listing(""), "\n");
}

#[test]
fn captures_distinct_in_order() {
    let caps = vec![Some("a".to_string()), None, Some("b".to_string()), Some("a".to_string())];
    assert_eq!(distinct_captures(&caps), vec!["a".to_string(), "b".to_string()]);
}

#[test]
fn build_and_lookup_scenario() {
    let dirs = vec![
        package("coreutils", &["usr/bin/ls", "usr/bin/cat"]),
        package("bash", &["usr/bin/bash"]),
    ];
    let entries = parse_alpm_db(dirs).unwrap();
    let data = create_cdb(entries);
    assert_eq!(lookup(&data, "ls"), Some(vec!["coreutils".to_string()]));
    assert_eq!(lookup(&data, "cat"), Some(vec!["coreutils".to_string()]));
    assert_eq!(lookup(&data, "bash"), Some(vec!["bash".to_string()]));
    assert_eq!(lookup(&data, "zzz"), None);
}

#[test]
fn shared_executable_lists_both_packages() {
    let dirs = vec![
        package("python", &["usr/bin/python"]),
        package("anaconda", &["usr/bin/python"]),
    ];
    let entries = parse_alpm_db(dirs).unwrap();
    assert_eq!(packages_of(&entries, "python"), vec!["python".to_string(), "anaconda".to_string()]);
    let data = create_cdb(entries);
    assert_eq!(
        lookup(&data, "python"),
        Some(vec!["anaconda".to_string(), "python".to_string()])
    );
}

#[test]
fn node_modules_bin_not_indexed() {
    let dirs = vec![package("nodepkg", &["lib/node_modules/foo/bin/bar", "usr/bin/node"])];
    let data = create_cdb(parse_alpm_db(dirs).unwrap());
    assert_eq!(lookup(&data, "bar"), None);
    assert_eq!(lookup(&data, "node"), Some(vec!["nodepkg".to_string()]));
}

#[test]
fn package_without_bins_needs_no_name() {
    let dirs = vec![PackageDir { desc: String::new(), files: "usr/share/x\n".to_string() }];
    assert!(parse_alpm_db(dirs).unwrap().is_empty());
}

#[test]
fn unreadable_name_fails_indexing() {
    let dirs = vec![
        package("ok", &["usr/bin/ok"]),
        PackageDir { desc: "%VERSION%\n1\n".to_string(), files: "usr/bin/x\n".to_string() },
    ];
    assert!(matches!(parse_alpm_db(dirs), Err(CommandoError::PackageNameDescFind)));
}

#[test]
fn collector_pairs_desc_and_files() {
    let mut c = PackageCollector::new();
    let events = vec![
        ArchiveEvent::StartOfEntry("bash-5.2-1/desc".to_string()),
        ArchiveEvent::DataChunk(b"%NAME%\n".to_vec()),
        ArchiveEvent::DataChunk(b"bash\n".to_vec()),
        ArchiveEvent::EndOfEntry,
        ArchiveEvent::StartOfEntry("bash-5.2-1/files".to_string()),
        ArchiveEvent::DataChunk(vec![0xFF, 0xFE]),
        ArchiveEvent::DataChunk(b"usr/bin/bash\n".to_vec()),
        ArchiveEvent::EndOfEntry,
        ArchiveEvent::StartOfEntry("zsh-5.9-1/desc".to_string()),
        ArchiveEvent::DataChunk(b"%NAME%\nzsh\n".to_vec()),
        ArchiveEvent::EndOfEntry,
    ];
    for ev in events {
        c.feed(ev).unwrap();
    }
    let dirs = c.finish();
    assert_eq!(dirs.len(), 1);
    assert_eq!(dirs[0].desc, "%NAME%\nbash\n");
    assert_eq!(dirs[0].files, "usr/bin/bash\n");
}

#[test]
fn collector_ignores_other_entries() {
    let mut c = PackageCollector::new();
    c.feed(ArchiveEvent::StartOfEntry("bash-5.2-1/mtree".to_string())).unwrap();
    c.feed(ArchiveEvent::DataChunk(b"data".to_vec())).unwrap();
    c.feed(ArchiveEvent::EndOfEntry).unwrap();
    assert!(c.finish().is_empty());
}

#[test]
fn collector_reports_corrupt_archive() {
    let mut c = PackageCollector::new();
    let r = c.feed(ArchiveEvent::Failed("truncated gzip input".to_string()));
    assert!(matches!(r, Err(CommandoError::CorruptedAlpm { message }) if message == "truncated gzip input"));
}

#[test]
fn one_entry_per_command() {
    let dirs = vec![
        package("a", &["usr/bin/x", "usr/bin/y"]),
        package("b", &["usr/bin/y", "usr/bin/z"]),
        package("a", &["usr/bin/x"]),
    ];
    let entries = parse_alpm_db(dirs).unwrap();
    let mut commands: Vec<&str> = entries.iter().map(|e| e.command.as_str()).collect();
    commands.sort();
    assert_eq!(commands, vec!["x", "y", "z"]);
    assert_eq!(packages_of(&entries, "x"), vec!["a".to_string(), "a".to_string()]);
    assert_eq!(packages_of(&entries, "y"), vec!["a".to_string(), "b".to_string()]);
    assert_eq!(packages_of(&entries, "z"), vec!["b".to_string()]);
}

use commando::cdb::{create_cdb, index_version, search_in_cdb, CDBEntry, Lookup};
use commando::error::CommandoError;

fn entry(command: &str, packages: &[&str]) -> CDBEntry {
    CDBEntry {
        command: command.to_string(),
        packages: packages.iter().map(|p| p.to_string()).collect(),
    }
}

fn found(data: &[u8], name: &str) -> Option<Vec<u8>> {
    match search_in_cdb(name, data) {
        Ok(Lookup::Found(b)) => Some(b),
        Ok(Lookup::NotFound) => None,
        Err(e) => panic!("lookup failed: {:?}", e),
    }
}

/// Lengths of the names of the records of an index file, in file order.
fn record_lengths(data: &[u8]) -> Vec<usize> {
    let mut out = Vec::new();
    let mut p = 12;
    while p < data.len() {
        let l = data[p] as usize;
        out.push(l);
        let ne = p + 1 + l;
        let bl = u32::from_le_bytes([data[ne], data[ne + 1], data[ne + 2], data[ne + 3]]) as usize;
        p = ne + 4 + bl + 1;
    }
    out
}

#[test]
fn encodes_exact_bytes() {
    let data = create_cdb(vec![entry("ls", &["coreutils"])]);
    let mut expected = vec![0x7F, 0x43, 0x4F, 0x4D, 0x4D, 0x44, 0x42, 0x7F, 1, 0, 0, 0];
    expected.push(2);
    expected.extend_from_slice(b"ls");
    expected.extend_from_slice(&[10, 0, 0, 0]);
    expected.extend_from_slice(b"coreutils\n");
    expected.push(3);
    assert_eq!(data, expected);
}

#[test]
fn empty_index_is_header_only() {
    let data = create_cdb(Vec::new());
    assert_eq!(data, vec![0x7F, 0x43, 0x4F, 0x4D, 0x4D, 0x44, 0x42, 0x7F, 1, 0, 0, 0]);
    assert_eq!(found(&data, "ls"), None);
}

#[test]
fn round_trip_every_name() {
    let entries = vec![
        entry("python", &["python3", "pypy"]),
        entry("ls", &["coreutils"]),
        entry("x", &["b", "a", "c"]),
        entry("bash", &["bash"]),
        entry("vi", &["vim", "neovim"]),
    ];
    let data = create_cdb(entries);
    assert_eq!(found(&data, "python"), Some(b"pypy\npython3\n".to_vec()));
    assert_eq!(found(&data, "ls"), Some(b"coreutils\n".to_vec()));
    assert_eq!(found(&data, "x"), Some(b"a\nb\nc\n".to_vec()));
    assert_eq!(found(&data, "bash"), Some(b"bash\n".to_vec()));
    assert_eq!(found(&data, "vi"), Some(b"neovim\nvim\n".to_vec()));
    assert_eq!(found(&data, "vim"), None);
    assert_eq!(found(&data, "zzz"), None);
    assert_eq!(found(&data, ""), None);
}

#[test]
fn packages_sorted_without_dedup() {
    let data = create_cdb(vec![entry("cc", &["gcc", "clang", "gcc"])]);
    assert_eq!(found(&data, "cc"), Some(b"clang\ngcc\ngcc\n".to_vec()));
}

#[test]
fn empty_package_list_stores_newline() {
    let data = create_cdb(vec![entry("ls", &[])]);
    assert_eq!(found(&data, "ls"), Some(b"\n".to_vec()));
}

#[test]
fn records_ordered_by_name_length() {
    let entries = vec![
        entry("abcdef", &["p"]),
        entry("a", &["p"]),
        entry("abcd", &["p"]),
        entry("ab", &["p"]),
        entry("xy", &["q"]),
        entry("abc", &["p"]),
    ];
    let lengths = record_lengths(&create_cdb(entries));
    assert_eq!(lengths, vec![1, 2, 2, 3, 4, 6]);
}

#[test]
fn long_name_truncated_to_255_bytes() {
    let name = "a".repeat(300);
    let data = create_cdb(vec![entry(&name, &["pkg"])]);
    assert_eq!(data[12], 255);
    assert_eq!(&data[13..13 + 255], "a".repeat(255).as_bytes());
    assert_eq!(found(&data, &"a".repeat(255)), Some(b"pkg\n".to_vec()));
}

#[test]
fn lookup_stops_at_longer_record() {
    let mut data = create_cdb(vec![entry("ab", &["p"]), entry("abcd", &["q"])]);
    let longer = record_lengths(&data).iter().position(|&l| l == 4).unwrap();
    assert_eq!(longer, 1);
    let cut = 12 + (1 + 2 + 4 + 2 + 1);
    data.truncate(cut + 1);
    data.extend_from_slice(&[0xFF, 0xFF]);
    assert_eq!(found(&data, "abc"), None);
    assert_eq!(found(&data, "ab"), Some(b"p\n".to_vec()));
}

#[test]
fn bad_magic_rejected() {
    let mut data = create_cdb(vec![entry("ls", &["coreutils"])]);
    data[0] = 0;
    assert!(matches!(search_in_cdb("ls", &data), Err(CommandoError::BadMagic)));
}

#[test]
fn bad_version_rejected() {
    let mut data = create_cdb(vec![entry("ls", &["coreutils"])]);
    data[8] = 2;
    assert!(matches!(
        search_in_cdb("ls", &data),
        Err(CommandoError::BadVersion { expected: 1, got: 2 })
    ));
}

#[test]
fn unstable_version_accepted() {
    let mut data = create_cdb(vec![entry("ls", &["coreutils"])]);
    data[8] = 0;
    assert_eq!(index_version(&data), Some(0));
    assert_eq!(found(&data, "ls"), Some(b"coreutils\n".to_vec()));
}

#[test]
fn truncated_header_rejected() {
    let data = create_cdb(Vec::new());
    assert!(matches!(search_in_cdb("ls", &data[..5]), Err(CommandoError::Truncated)));
    assert!(matches!(search_in_cdb("ls", &data[..10]), Err(CommandoError::Truncated)));
    assert_eq!(index_version(&data[..10]), None);
    assert_eq!(index_version(&data), Some(1));
}

#[test]
fn truncated_record_rejected() {
    let data = create_cdb(vec![entry("ls", &["coreutils"])]);
    assert!(matches!(search_in_cdb("ls", &data[..13]), Err(CommandoError::Truncated)));
    assert!(matches!(search_in_cdb("lsx", &data[..15]), Err(CommandoError::Truncated)));
}

#[test]
fn too_long_name_rejected() {
    let data = create_cdb(Vec::new());
    assert!(matches!(search_in_cdb(&"a".repeat(256), &data), Err(CommandoError::TooLong)));
}

#[test]
fn same_length_names_are_told_apart() {
    let data = create_cdb(vec![entry("cat", &["coreutils"]), entry("dog", &["dogs"])]);
    assert_eq!(found(&data, "dog"), Some(b"dogs\n".to_vec()));
    assert_eq!(found(&data, "cat"), Some(b"coreutils\n".to_vec()));
    assert_eq!(found(&data, "cow"), None);
}

#[test]
fn blob_length_little_endian() {
    let long = "p".repeat(300);
    let data = create_cdb(vec![entry("x", &[&long])]);
    assert_eq!(&data[12..18], &[1, b'x', 45, 1, 0, 0]);
    assert_eq!(*data.last().unwrap(), 3);
    assert_eq!(data.len(), 12 + 1 + 1 + 4 + 301 + 1);
}

use proc_mounts::info::alias_result;
use proc_mounts::{
    decode_value, parse_i32, parse_isize, parse_usize, split_fields, AbstractMountElement, Field,
    MountInfo, MountIter, MountList, MountTab, ParseError, SwapInfo, SwapIter, SwapList, Watcher,
};

fn list(lines: &[&str]) -> MountList {
    MountList::parse_from(lines).unwrap()
}

#[test]
fn two_line_sample_lookup_by_source() {
    let mounts = list(&[
        "sysfs /sys sysfs rw,nosuid,nodev,noexec,relatime 0 0",
        "/dev/sda1 /boot/efi vfat rw,relatime,fmask=0077 0 0",
    ]);
    assert_eq!(mounts.0.len(), 2);
    let found = mounts.get_mount_by_source("/dev/sda1").unwrap();
    assert_eq!(found, &mounts.0[1]);
    assert_eq!(found.dest, "/boot/efi");
    assert_eq!(found.options, vec!["rw".to_string(), "relatime".to_string(), "fmask=0077".to_string()]);
}

#[test]
fn swap_sample_with_header() {
    let text = "Filename\t\t\t\tType\t\tSize\tUsed\tPriority\n/dev/sda5 partition\t8388600\t0\t-2\n";
    let swaps = SwapList::new_from_reader(text).unwrap();
    assert_eq!(swaps.0.len(), 1);
    assert_eq!(swaps.0[0].source, "/dev/sda5");
    assert_eq!(swaps.0[0].kind, b"partition".to_vec());
    assert_eq!(swaps.0[0].size, 8388600);
    assert_eq!(swaps.0[0].used, 0);
    assert_eq!(swaps.0[0].priority, -2);
    assert!(swaps.get_swapped("/dev/sda5"));
    assert!(!swaps.get_swapped("/dev/sda1"));
}

#[test]
fn swap_header_alone_is_empty() {
    assert_eq!(SwapList::new_from_reader("Filename Type Size Used Priority").unwrap().0.len(), 0);
    assert_eq!(SwapList::new_from_reader("anything at all\n").unwrap().0.len(), 0);
    assert_eq!(SwapList::new_from_reader("").unwrap().0.len(), 0);
}

#[test]
fn swap_header_content_is_ignored() {
    let text = "/dev/sda9 not a header\n/dev/sda5 partition 10 1 -1";
    let swaps = SwapList::new_from_reader(text).unwrap();
    assert_eq!(swaps.0.len(), 1);
    assert_eq!(swaps.0[0].source, "/dev/sda5");
}

#[test]
fn swap_blank_data_line_is_an_error() {
    let mut it = SwapIter::new_from_reader("header\n\n/dev/sda5 partition 1 0 -2\n");
    assert_eq!(it.next(), Some(Err(ParseError::MissingField(Field::Source))));
    assert!(matches!(it.next(), Some(Ok(_))));
    assert_eq!(it.next(), None);
}

#[test]
fn swap_field_errors() {
    assert_eq!(SwapInfo::parse_line("/dev/a partition"), Err(ParseError::MissingField(Field::Size)));
    assert_eq!(SwapInfo::parse_line("/dev/a partition x 0 1"), Err(ParseError::InvalidNumber(Field::Size)));
    assert_eq!(SwapInfo::parse_line("/dev/a partition 1 -1 1"), Err(ParseError::InvalidNumber(Field::Used)));
    assert_eq!(SwapInfo::parse_line("/dev/a partition 1 1"), Err(ParseError::MissingField(Field::Priority)));
    assert_eq!(SwapInfo::parse_line("/dev/a part\\377 1 1 -5").unwrap().kind, vec![112, 97, 114, 116, 255]);
}

#[test]
fn swap_to_string() {
    let s = SwapInfo::parse_line("/dev/sda5 partition 8388600 0 -2").unwrap();
    assert_eq!(s.to_string(), Some("/dev/sda5 partition 8388600 0 -2".to_string()));
    let raw = SwapInfo::parse_line("/dev/sda5 \\377 1 0 0").unwrap();
    assert_eq!(raw.to_string(), None);
}

#[test]
fn octal_escapes_decode() {
    assert_eq!(decode_value(b"\\101"), Ok(b"A".to_vec()));
    assert_eq!(decode_value(b"\\000"), Ok(vec![0]));
    assert_eq!(decode_value(b"\\111"), Ok(vec![73]));
    assert_eq!(decode_value(b"\\333"), Ok(vec![219]));
    assert_eq!(decode_value(b"\\777"), Ok(vec![255]));
    assert_eq!(decode_value(b"a\\040b"), Ok(b"a b".to_vec()));
    assert_eq!(decode_value(b"plain"), Ok(b"plain".to_vec()));
}

#[test]
fn octal_escape_errors() {
    assert_eq!(decode_value(b"\\"), Err(ParseError::TruncatedEscape));
    assert_eq!(decode_value(b"\\12"), Err(ParseError::TruncatedEscape));
    assert_eq!(decode_value(b"\\8ab"), Err(ParseError::InvalidEscapeDigit));
    assert_eq!(decode_value(b"\\018"), Err(ParseError::InvalidEscapeDigit));
    assert_eq!(decode_value(b"\\1x"), Err(ParseError::InvalidEscapeDigit));
}

#[test]
fn numbers_parse_as_std_does() {
    assert_eq!(parse_i32(b"+5"), Some(5));
    assert_eq!(parse_i32(b"-0"), Some(0));
    assert_eq!(parse_i32(b"-"), None);
    assert_eq!(parse_i32(b""), None);
    assert_eq!(parse_i32(b"2147483647"), Some(i32::MAX));
    assert_eq!(parse_i32(b"2147483648"), None);
    assert_eq!(parse_i32(b"-2147483648"), Some(i32::MIN));
    assert_eq!(parse_i32(b"0000000000000000000012"), Some(12));
    assert_eq!(parse_usize(b"-0"), None);
    assert_eq!(parse_usize(b"18446744073709551615"), Some(usize::MAX));
    assert_eq!(parse_isize(b"-2"), Some(-2));
    assert_eq!(parse_isize(b"1a"), None);
}

#[test]
fn fields_split_on_blank_runs() {
    assert_eq!(split_fields(b"  a \t bb\n"), vec![b"a".to_vec(), b"bb".to_vec()]);
    assert_eq!(split_fields(b""), Vec::<Vec<u8>>::new());
}

#[test]
fn mount_defaults_and_round_trip() {
    let m = MountInfo::parse_line("/dev/sda2 / ext4 rw,noatime,errors=remount-ro").unwrap();
    assert_eq!(m.dump, 0);
    assert_eq!(m.pass, 0);
    let text = m.to_string();
    assert_eq!(text, "/dev/sda2 / ext4 rw,noatime,errors=remount-ro 0 0");
    assert_eq!(MountInfo::parse_line(&text).unwrap(), m);
    let n = MountInfo::parse_line("tmpfs /run tmpfs a,,b -3 12").unwrap();
    assert_eq!(n.options, vec!["a".to_string(), String::new(), "b".to_string()]);
    assert_eq!(n.to_string(), "tmpfs /run tmpfs a,,b -3 12");
    assert_eq!(MountInfo::parse_line(&n.to_string()).unwrap(), n);
}

#[test]
fn empty_options_write_defaults() {
    let m = MountInfo {
        source: "/dev/x".into(),
        dest: "/x".into(),
        fstype: "ext4".into(),
        options: vec![],
        dump: 1,
        pass: 2,
    };
    assert_eq!(m.to_string(), "/dev/x /x ext4 defaults 1 2");
}

#[test]
fn mount_line_errors() {
    assert_eq!(MountInfo::parse_line("   "), Err(ParseError::MissingField(Field::Source)));
    assert_eq!(MountInfo::parse_line("a"), Err(ParseError::MissingField(Field::Dest)));
    assert_eq!(MountInfo::parse_line("a b"), Err(ParseError::MissingField(Field::FsType)));
    assert_eq!(MountInfo::parse_line("a b c"), Err(ParseError::MissingField(Field::Options)));
    assert_eq!(MountInfo::parse_line("a b c d x"), Err(ParseError::InvalidNumber(Field::Dump)));
    assert_eq!(MountInfo::parse_line("a b c d 0 y"), Err(ParseError::InvalidNumber(Field::Pass)));
    assert_eq!(MountInfo::parse_line("\\377 /b c d"), Err(ParseError::NonUtf8Path));
    assert_eq!(MountInfo::parse_line("a \\1 c d"), Err(ParseError::TruncatedEscape));
}

#[test]
fn escaped_paths_decode_to_text() {
    let m = MountInfo::parse_line("caf\\303\\251 /mnt/my\\040disk vfat rw").unwrap();
    assert_eq!(m.source, "café");
    assert_eq!(m.dest, "/mnt/my disk");
}

#[test]
fn unknown_alias_kind_is_a_read_error() {
    assert_eq!(
        MountInfo::parse_line("/dev/disk/by-bogus/x /b ext4 rw"),
        Err(ParseError::AliasReadError)
    );
    let unresolved = MountInfo::parse_unresolved(b"/dev/disk/by-bogus/x /b ext4 rw").unwrap();
    assert_eq!(unresolved.source, "/dev/disk/by-bogus/x");
}

#[test]
fn unique_destinations_lookup() {
    let mounts = list(&["/dev/a /x ext4 rw", "/dev/b /y ext4 rw", "/dev/a /z ext4 rw"]);
    assert_eq!(mounts.get_mount_by_dest("/y").unwrap().source, "/dev/b");
    assert_eq!(mounts.get_mount_by_dest("/z").unwrap(), &mounts.0[2]);
    assert!(mounts.get_mount_by_dest("/none").is_none());
    assert!(mounts.source_mounted_at("/dev/a", "/x"));
    assert!(!mounts.source_mounted_at("/dev/a", "/z"));
    assert!(!mounts.source_mounted_at("/dev/none", "/x"));
}

#[test]
fn duplicate_entries_are_kept_in_order() {
    let mounts = list(&["/dev/a /x ext4 rw", "/dev/a /x ext4 ro"]);
    assert_eq!(mounts.0.len(), 2);
    assert_eq!(mounts.get_mount_by_dest("/x").unwrap().options, vec!["rw".to_string()]);
}

#[test]
fn prefix_search_is_bytewise() {
    let mounts = list(&["/dev/a /foo ext4 rw", "/dev/b /foobar ext4 rw", "/dev/c /bar ext4 rw"]);
    let hits: Vec<&str> = mounts.destination_starts_with("/foo").iter().map(|m| m.dest.as_str()).collect();
    assert_eq!(hits, vec!["/foo", "/foobar"]);
    let srcs: Vec<&str> = mounts.source_starts_with("/dev/c").iter().map(|m| m.source.as_str()).collect();
    assert_eq!(srcs, vec!["/dev/c"]);
    assert!(mounts.source_starts_with("/x").is_empty());
}

#[test]
fn mount_iter_skips_comments_and_blanks() {
    let text = "# comment\n\n   \t\n  # indented\n/dev/a /x ext4 rw\nbad\n/dev/b /y ext4 rw 1 2\n";
    let mut it = MountIter::new_from_reader(text);
    assert_eq!(it.next().unwrap().unwrap().dest, "/x");
    assert_eq!(it.next(), Some(Err(ParseError::MissingField(Field::Dest))));
    assert_eq!(it.next().unwrap().unwrap().pass, 2);
    assert_eq!(it.next(), None);
    assert_eq!(it.next(), None);
}

#[test]
fn mount_iter_source_mounted_at() {
    let text = "/dev/a /x ext4 rw\n/dev/b /y ext4 rw\n";
    assert_eq!(MountIter::source_mounted_at(MountIter::new_from_reader(text), "/dev/b", "/y"), Ok(true));
    assert_eq!(MountIter::source_mounted_at(MountIter::new_from_reader(text), "/dev/b", "/x"), Ok(false));
    assert_eq!(MountIter::source_mounted_at(MountIter::new_from_reader(text), "/dev/c", "/x"), Ok(false));
    let broken = "/dev/a /x ext4 rw 0 z\n/dev/b /y ext4 rw\n";
    assert_eq!(
        MountIter::source_mounted_at(MountIter::new_from_reader(broken), "/dev/b", "/y"),
        Err(ParseError::InvalidNumber(Field::Pass))
    );
}

#[test]
fn mount_list_from_text() {
    let list = MountList::new_from_reader("# fstab\n/dev/a /x ext4 rw\n\n/dev/b /y ext4 rw\n").unwrap();
    assert_eq!(list.0.len(), 2);
    assert_eq!(MountList::new_from_reader("/dev/a /x\n"), Err(ParseError::MissingField(Field::FsType)));
}

#[test]
fn mount_tab_keeps_comments_and_blanks() {
    let text = "# header\n\n/dev/a /x ext4 rw 0 0\n   # indented\n";
    let mut tab = MountTab::from_str(text).unwrap();
    assert_eq!(tab.0.len(), 4);
    assert_eq!(tab.0[0], AbstractMountElement::Comment("# header".to_string()));
    assert_eq!(tab.0[1], AbstractMountElement::Empty);
    assert_eq!(tab.0[3], AbstractMountElement::Comment("# indented".to_string()));
    assert_eq!(tab.iter_mounts().len(), 1);
    assert_eq!(tab.to_string(), "# header\n\n/dev/a /x ext4 rw 0 0\n# indented\n");
    let extra = MountInfo::parse_line("/dev/b /y xfs defaults").unwrap();
    tab.push(AbstractMountElement::Mount(extra.clone()));
    assert_eq!(tab.iter_mounts(), vec![&MountInfo::parse_line("/dev/a /x ext4 rw").unwrap(), &extra]);
    assert_eq!(MountTab::from_str("/dev/a\n"), Err(ParseError::MissingField(Field::Dest)));
}

#[test]
fn watcher_decisions() {
    let mut w = Watcher::new(Some(7));
    assert!(!w.needs_refresh(Some(7)));
    assert!(!w.needs_refresh(None));
    assert!(w.needs_refresh(Some(8)));
    let mut snapshot = list(&["/dev/a /x ext4 rw"]);
    w.refresh(8, &mut snapshot, MountList::parse_from(&["bad"]));
    assert_eq!(w.last_hash, Some(7));
    assert_eq!(snapshot.0.len(), 1);
    w.refresh(8, &mut snapshot, MountList::parse_from(&["/dev/a /x ext4 rw", "/dev/b /y ext4 rw"]));
    assert_eq!(w.last_hash, Some(8));
    assert_eq!(snapshot.0.len(), 2);
    assert!(!w.needs_refresh(Some(8)));
}

#[test]
fn resolved_alias_replaces_the_source() {
    let info = MountInfo::parse_unresolved(b"/dev/disk/by-uuid/abcd /b ext4 rw 1 2").unwrap();
    let resolved = info.clone().with_resolved_source(Ok("/dev/sda3".to_string())).unwrap();
    assert_eq!(resolved.source, "/dev/sda3");
    assert_eq!(resolved.dest, "/b");
    assert_eq!(resolved.pass, 2);
    assert_eq!(
        info.with_resolved_source(Err(ParseError::AliasNotFound)),
        Err(ParseError::AliasNotFound)
    );
    assert_eq!(
        proc_mounts::resolve_alias(&"/dev/disk/by-nothing/x".to_string()),
        Err(ParseError::AliasReadError)
    );
}

#[test]
fn elements_convert_from_their_contents() {
    assert_eq!(AbstractMountElement::from("# c".to_string()), AbstractMountElement::Comment("# c".to_string()));
    assert_eq!(AbstractMountElement::from(()), AbstractMountElement::Empty);
    let m = MountInfo::parse_line("/dev/a /x ext4 rw").unwrap();
    assert_eq!(AbstractMountElement::from(m.clone()), AbstractMountElement::Mount(m));
}

#[test]
fn crlf_line_endings_are_dropped() {
    let tab = MountTab::from_str("#c\r\n/dev/a /x ext4 rw\r\n").unwrap();
    assert_eq!(tab.0[0], AbstractMountElement::Comment("#c".to_string()));
    assert_eq!(tab.iter_mounts()[0].options, vec!["rw".to_string()]);
    assert_eq!(proc_mounts::split_lines(b"a\r\nb\r"), vec![b"a".to_vec(), b"b\r".to_vec()]);
    assert_eq!(proc_mounts::split_lines(b"a\n\nb\n"), vec![b"a".to_vec(), Vec::new(), b"b".to_vec()]);
}

#[test]
fn vertical_tab_separates_fields() {
    let m = MountInfo::parse_line("/dev/a\x0b/x ext4 rw").unwrap();
    assert_eq!(m.dest, "/x");
}

#[test]
fn alias_is_resolved_before_the_destination() {
    assert_eq!(
        MountInfo::parse_line("/dev/disk/by-bogus/x \\1 ext4 rw"),
        Err(ParseError::AliasReadError)
    );
    assert_eq!(MountInfo::parse_line("/dev/a \\1 ext4 rw"), Err(ParseError::TruncatedEscape));
}

#[test]
fn alias_results_from_lookups() {
    assert_eq!(alias_result(false, Some(Some("/dev/sda1".to_string()))), Err(ParseError::AliasReadError));
    assert_eq!(alias_result(true, None), Err(ParseError::AliasNotFound));
    assert_eq!(alias_result(true, Some(None)), Err(ParseError::NonUtf8Path));
    assert_eq!(alias_result(true, Some(Some("/dev/sda1".to_string()))), Ok("/dev/sda1".to_string()));
}

#[test]
fn replace_mount_edits_one_entry() {
    let mut tab = MountTab::from_str("# c\n/dev/a /x ext4 rw\n\n/dev/b /y ext4 rw\n").unwrap();
    let new = MountInfo::parse_line("/dev/c /z xfs ro").unwrap();
    assert!(tab.replace_mount(1, new.clone()));
    assert_eq!(tab.0[3], AbstractMountElement::Mount(new.clone()));
    assert_eq!(tab.0[1], AbstractMountElement::Mount(MountInfo::parse_line("/dev/a /x ext4 rw").unwrap()));
    assert!(!tab.replace_mount(2, new));
    assert_eq!(tab.0.len(), 4);
}

#[test]
fn unicode_whitespace_separates_fields() {
    assert_eq!(MountInfo::parse_line("a b c d\u{a0}x"), Err(ParseError::InvalidNumber(Field::Dump)));
    assert_eq!(MountInfo::parse_line("a b c d\u{a0}5").unwrap().dump, 5);
    assert_eq!(MountInfo::parse_line("a\u{a0}b c o").unwrap().dest, "b");
    assert_eq!(MountInfo::parse_line("a\u{a0}b /d c o"), Err(ParseError::InvalidNumber(Field::Dump)));
    assert_eq!(MountInfo::parse_line("a\u{2003}b\u{3000}c\u{85}d").unwrap().options, vec!["d".to_string()]);
    let m = MountInfo::parse_line("a b c x\u{a0}1").unwrap();
    assert_eq!((m.options, m.dump), (vec!["x".to_string()], 1));
    assert_eq!(MountInfo::parse_line("a b c x\u{a0}y"), Err(ParseError::InvalidNumber(Field::Dump)));
    assert_eq!(
        SwapInfo::parse_line("/dev/x\u{a0}y partition 5 0 -2"),
        Err(ParseError::InvalidNumber(Field::Size))
    );
    assert_eq!(MountInfo::parse_line("caf\u{e9} /x ext4 rw").unwrap().source, "café");
}

#[test]
fn unicode_whitespace_lines_are_skipped() {
    let mut it = MountIter::new_from_reader("\u{a0}# x\n\u{2028}\n/dev/a /x ext4 rw\n");
    assert_eq!(it.next().unwrap().unwrap().dest, "/x");
    assert_eq!(it.next(), None);
    let tab = MountTab::from_str("\u{a0}\n\u{a0}# c\n").unwrap();
    assert_eq!(tab.0, vec![AbstractMountElement::Empty, AbstractMountElement::Comment("# c".to_string())]);
}

#[test]
fn unknown_alias_first_decides_the_lookup() {
    let text = "/dev/disk/by-bogus/x /a ext4 rw\n/dev/b /y ext4 rw\n";
    assert_eq!(
        MountIter::source_mounted_at(MountIter::new_from_reader(text), "/dev/b", "/y"),
        Err(ParseError::AliasReadError)
    );
}

use splitar::{decode_mod, entry_type_char, format_flag_group, listing_line, print_header, set_umasked_mode};
use splitar::{EntryHeader, EntryKind};

fn header(path: &[u8], kind: EntryKind) -> EntryHeader {
    EntryHeader {
        path: path.to_vec(),
        kind,
        size: 300,
        data_size: 300,
        mode: 0o644,
        user: b"alice".to_vec(),
        group: b"staff".to_vec(),
        mtime: 0,
        device_major: 0,
        device_minor: 0,
        link: None,
    }
}

#[test]
fn flag_groups() {
    let expected = ["---", "--x", "-w-", "-wx", "r--", "r-x", "rw-", "rwx"];
    for (g, e) in expected.iter().enumerate() {
        assert_eq!(format_flag_group(g as u32), *e);
    }
}

#[test]
fn modes_decode() {
    assert_eq!(decode_mod(0o755), "rwxr-xr-x");
    assert_eq!(decode_mod(0o640), "rw-r-----");
    assert_eq!(decode_mod(0o4777), "rwxrwxrwx");
    assert_eq!(decode_mod(0), "---------");
}

#[test]
fn umask_clears_bits() {
    assert_eq!(set_umasked_mode(0o666, 0o022), 0o644);
    assert_eq!(set_umasked_mode(0o666, 0o077), 0o600);
    assert_eq!(set_umasked_mode(0o666, 0), 0o666);
}

#[test]
fn type_letters() {
    assert_eq!(entry_type_char(&header(b"f", EntryKind::Regular)), '-');
    assert_eq!(entry_type_char(&header(b"old/", EntryKind::Regular)), 'd');
    assert_eq!(entry_type_char(&header(b"d/", EntryKind::Directory)), 'd');
    assert_eq!(entry_type_char(&header(b"l", EntryKind::Symlink)), 'l');
    assert_eq!(entry_type_char(&header(b"h", EntryKind::Link)), 'h');
    assert_eq!(entry_type_char(&header(b"c", EntryKind::Char)), 'c');
    assert_eq!(entry_type_char(&header(b"b", EntryKind::Block)), 'b');
    assert_eq!(entry_type_char(&header(b"p", EntryKind::Fifo)), 'p');
    assert_eq!(entry_type_char(&header(b"n", EntryKind::GnuLongName)), 'L');
    assert_eq!(entry_type_char(&header(b"o", EntryKind::Other)), '?');
}

#[test]
fn listing_of_a_file() {
    let line = listing_line("00000", &header(b"a/f1", EntryKind::Regular), "2024-01-02 03:04:05");
    assert_eq!(line, "00000 -rw-r--r-- alice staff          300 2024-01-02 03:04:05 a/f1");
}

#[test]
fn listing_of_links() {
    let mut h = header(b"s", EntryKind::Symlink);
    h.link = Some(b"target".to_vec());
    h.mode = 0o777;
    h.size = 0;
    assert_eq!(listing_line("00001", &h, "T"), "00001 lrwxrwxrwx alice staff            0 T s -> target");
    h.kind = EntryKind::Link;
    assert_eq!(listing_line("00001", &h, "T"), "00001 hrwxrwxrwx alice staff            0 T s link to target");
    h.link = None;
    assert_eq!(listing_line("00001", &h, "T"), "00001 hrwxrwxrwx alice staff            0 T s link to ");
}

#[test]
fn listing_of_a_device() {
    let mut h = header(b"dev/tty", EntryKind::Char);
    h.device_major = 4;
    h.device_minor = 64;
    h.mode = 0o620;
    assert_eq!(listing_line("00002", &h, "T"), "00002 crw--w---- alice staff         4:64 T dev/tty");
}

#[test]
fn listing_shows_invalid_bytes_as_replacement() {
    let h = header(b"bad\xff", EntryKind::Regular);
    let line = listing_line("v", &h, "T");
    assert!(line.ends_with("bad\u{FFFD}"));
}

#[test]
fn printed_header_has_a_local_time() {
    let line = print_header("00003", &header(b"a/f", EntryKind::Regular));
    assert!(line.starts_with("00003 -rw-r--r-- alice staff          300 "));
    assert!(line.ends_with(" a/f"));
    assert!(line.contains("1970-01-01") || line.contains("1969-12-31"));
}

#[test]
fn printed_header_out_of_range_time_shows_seconds() {
    let mut h = header(b"a/f", EntryKind::Regular);
    h.mtime = u64::MAX;
    let line = print_header("00003", &h);
    assert!(line.contains(" 18446744073709551615 a/f"));
}

use std::collections::HashMap;

use splitar::{EntryHeader, EntryKind, SplitConfig, SplitError, Splitter, TAR_HEADER_SIZE, TRAILER_SIZE};

fn header(path: &str, kind: EntryKind, size: u64) -> EntryHeader {
    EntryHeader {
        path: path.as_bytes().to_vec(),
        kind,
        size,
        data_size: size,
        mode: 0o644,
        user: b"user".to_vec(),
        group: b"group".to_vec(),
        mtime: 0,
        device_major: 0,
        device_minor: 0,
        link: None,
    }
}

fn dir(path: &str) -> EntryHeader {
    header(path, EntryKind::Directory, 0)
}

fn file(path: &str, size: u64) -> EntryHeader {
    header(path, EntryKind::Regular, size)
}

fn config(max_size: u64, fail_on_large_file: bool, recreate_dirs: bool) -> SplitConfig {
    SplitConfig { max_size, fail_on_large_file, recreate_dirs }
}

/// The paths written into each volume; a directory written again is
/// marked with a leading `+`.
fn split(cfg: SplitConfig, entries: &[EntryHeader]) -> Vec<Vec<String>> {
    let mut s = Splitter::new(cfg);
    let mut vols: Vec<Vec<String>> = vec![vec![]];
    let mut kept: HashMap<u64, String> = HashMap::new();
    for h in entries {
        let ordinal = s.entries_seen();
        let path = String::from_utf8(h.path.clone()).unwrap();
        let step = match s.next_file(h) {
            Ok(step) => step,
            Err(SplitError::FileTooLarge(p)) => panic!("refused {:?}", p),
        };
        if step.rotate {
            vols.push(vec![]);
        }
        for o in &step.reinject {
            vols.last_mut().unwrap().push(format!("+{}", kept[o]));
        }
        vols.last_mut().unwrap().push(path.clone());
        if step.record_dir {
            kept.insert(ordinal, path);
        }
        assert_eq!(s.volume_index() as usize, vols.len() - 1);
    }
    vols
}

#[test]
fn directory_written_again_in_next_volume() {
    // `a/` takes one header block, each file a header block and 300 bytes.
    let entries = [dir("a/"), file("a/f1", 300), file("a/f2", 300)];
    let vols = split(config(2600, false, true), &entries);
    assert_eq!(vols, vec![vec!["a/", "a/f1"], vec!["+a/", "a/f2"]]);
}

#[test]
fn entries_larger_than_the_limit_each_get_a_volume() {
    let entries = [dir("a/"), file("a/f1", 300), file("a/f2", 300)];
    let vols = split(config(700, false, true), &entries);
    assert_eq!(vols, vec![vec!["a/"], vec!["+a/", "a/f1"], vec!["+a/", "a/f2"]]);
}

#[test]
fn entries_keep_their_order() {
    let entries: Vec<EntryHeader> = (0..10).map(|i| file(&format!("f{}", i), 100 * i)).collect();
    let vols = split(config(4096, false, false), &entries);
    let flat: Vec<String> = vols.into_iter().flatten().collect();
    let expected: Vec<String> = (0..10).map(|i| format!("f{}", i)).collect();
    assert_eq!(flat, expected);
}

#[test]
fn volumes_stay_within_the_limit() {
    // Each file takes 1024 bytes: two fit next to the end markers in 3072.
    let entries: Vec<EntryHeader> = (0..5).map(|i| file(&format!("f{}", i), 512)).collect();
    let mut s = Splitter::new(config(3072, false, false));
    let mut rotations = Vec::new();
    for h in &entries {
        let step = s.next_file(h).unwrap();
        rotations.push(step.rotate);
        assert!(s.accumulated_size() <= 3072);
    }
    assert_eq!(rotations, vec![false, false, true, false, true]);
    assert_eq!(s.volume_index(), 2);
    assert_eq!(s.accumulated_size(), TRAILER_SIZE + 1024);
}

#[test]
fn lone_large_entry_takes_a_volume_of_its_own() {
    let entries = [file("small", 0), file("big", 10_000), file("after", 0)];
    let vols = split(config(2048, false, false), &entries);
    assert_eq!(vols, vec![vec!["small"], vec!["big"], vec!["after"]]);
}

#[test]
fn first_entry_never_opens_a_volume() {
    let mut s = Splitter::new(config(1024, false, false));
    let step = s.next_file(&file("big", 10_000)).unwrap();
    assert!(!step.rotate);
    assert_eq!(s.volume_index(), 0);
    assert_eq!(s.accumulated_size(), TRAILER_SIZE + TAR_HEADER_SIZE + 10_000);
}

#[test]
fn strict_mode_refuses_a_large_entry() {
    let mut s = Splitter::new(config(2048, true, true));
    s.next_file(&file("ok", 100)).unwrap();
    let before = s.accumulated_size();
    match s.next_file(&file("dir/huge", 2048)) {
        Err(SplitError::FileTooLarge(p)) => assert_eq!(p, b"dir/huge".to_vec()),
        Ok(_) => panic!("a too large entry was taken"),
    }
    assert_eq!(s.entries_seen(), 1);
    assert_eq!(s.accumulated_size(), before);
    assert_eq!(s.volume_index(), 0);
}

#[test]
fn strict_mode_takes_an_entry_at_the_limit() {
    let mut s = Splitter::new(config(2048, true, false));
    assert!(s.next_file(&file("exact", 2048 - TAR_HEADER_SIZE)).is_ok());
}

#[test]
fn same_directory_written_once() {
    let mut s = Splitter::new(config(1 << 20, false, true));
    s.next_file(&dir("a/")).unwrap();
    s.next_file(&dir("a/b/")).unwrap();
    let first = s.next_file(&file("a/b/x", 10)).unwrap();
    let second = s.next_file(&file("a/b/y", 10)).unwrap();
    assert!(first.reinject.is_empty());
    assert!(second.reinject.is_empty());
}

#[test]
fn same_directory_after_rotation_written_once() {
    let entries = [dir("a/"), file("a/x", 1000), file("a/y", 1000), file("a/z", 10)];
    let vols = split(config(4096, false, true), &entries);
    assert_eq!(vols, vec![vec!["a/", "a/x"], vec!["+a/", "a/y", "a/z"]]);
}

#[test]
fn ancestors_written_root_first() {
    let entries = [
        dir("a/"),
        dir("a/b/"),
        dir("a/b/c/"),
        file("a/b/c/big", 3000),
        file("a/b/c/f", 1000),
        file("a/g", 10),
    ];
    let vols = split(config(7000, false, true), &entries);
    assert_eq!(
        vols,
        vec![
            vec!["a/", "a/b/", "a/b/c/", "a/b/c/big"],
            vec!["+a/", "+a/b/", "+a/b/c/", "a/b/c/f", "a/g"],
        ]
    );
}

#[test]
fn unknown_directories_are_not_invented() {
    let entries = [file("x/y/big", 3000), file("x/y/z", 10)];
    let vols = split(config(4096, false, true), &entries);
    assert_eq!(vols, vec![vec!["x/y/big"], vec!["x/y/z"]]);
}

#[test]
fn reinjection_off_writes_no_copies() {
    let entries = [dir("a/"), file("a/f1", 300), file("a/f2", 300)];
    let vols = split(config(2600, false, false), &entries);
    assert_eq!(vols, vec![vec!["a/", "a/f1"], vec!["a/f2"]]);
}

#[test]
fn latest_directory_header_is_written_again() {
    let mut s = Splitter::new(config(2100, false, true));
    let first = s.next_file(&dir("d/")).unwrap();
    assert!(first.record_dir);
    let again = s.next_file(&dir("d/")).unwrap();
    assert!(again.record_dir);
    let step = s.next_file(&file("d/f", 10)).unwrap();
    assert!(step.rotate);
    assert_eq!(step.reinject, vec![1]);
}

#[test]
fn files_are_not_recorded_as_directories() {
    let mut s = Splitter::new(config(4096, false, true));
    let step = s.next_file(&file("f", 1)).unwrap();
    assert!(!step.record_dir);
    let mut t = Splitter::new(config(4096, false, false));
    let step = t.next_file(&dir("d/")).unwrap();
    assert!(!step.record_dir);
}

#[test]
fn huge_declared_size_saturates() {
    let mut s = Splitter::new(config(u64::MAX, false, false));
    s.next_file(&file("a", u64::MAX)).unwrap();
    assert_eq!(s.accumulated_size(), u64::MAX);
    let step = s.next_file(&file("b", 0)).unwrap();
    assert!(step.rotate);
}

#[test]
fn directory_copies_may_take_a_volume_over_the_limit() {
    // `a/f` and the copy of `a/` that it needs do not fit together in any
    // volume of 1536 bytes: they share one of their own.
    let mut s = Splitter::new(config(1536, false, true));
    s.next_file(&dir("a/")).unwrap();
    let step = s.next_file(&file("a/f", 0)).unwrap();
    assert!(step.rotate);
    assert_eq!(step.reinject, vec![0]);
    assert_eq!(s.accumulated_size(), 2048);
}

#[test]
fn directory_copies_count_towards_the_limit() {
    let entries = [dir("a/"), file("c", 900), file("b", 500), file("a/f", 0)];
    let vols = split(config(3000, false, true), &entries);
    assert_eq!(vols, vec![vec!["a/", "c"], vec!["b"], vec!["+a/", "a/f"]]);
}

#[test]
fn directory_copies_that_fit_share_the_volume() {
    let entries = [dir("a/"), file("c", 900), file("b", 500), file("a/f", 0)];
    let vols = split(config(3072, false, true), &entries);
    assert_eq!(vols, vec![vec!["a/", "c"], vec!["b", "+a/", "a/f"]]);
}

use splitar::{parent_dir_of, target_path, volume_name};

#[test]
fn parent_of_a_file() {
    assert_eq!(parent_dir_of(b"a/b/c"), Some(b"a/b/".to_vec()));
}

#[test]
fn parent_of_a_directory() {
    assert_eq!(parent_dir_of(b"a/b/"), Some(b"a/".to_vec()));
}

#[test]
fn top_level_has_no_parent() {
    assert_eq!(parent_dir_of(b"a"), None);
    assert_eq!(parent_dir_of(b"a/"), None);
    assert_eq!(parent_dir_of(b""), None);
}

#[test]
fn root_is_a_parent() {
    assert_eq!(parent_dir_of(b"/x"), Some(b"/".to_vec()));
}

#[test]
fn backslash_is_no_separator() {
    assert_eq!(parent_dir_of(b"a\\b"), None);
}

#[test]
fn volume_names_are_zero_padded() {
    assert_eq!(volume_name(7, 5), "00007");
    assert_eq!(volume_name(0, 5), "00000");
    assert_eq!(volume_name(12345, 5), "12345");
}

#[test]
fn volume_names_grow_past_the_width() {
    assert_eq!(volume_name(123456, 5), "123456");
    assert_eq!(volume_name(0, 0), "0");
    assert_eq!(volume_name(u64::MAX, 3), "18446744073709551615");
}

#[test]
fn target_path_is_prefix_and_name() {
    assert_eq!(target_path("out/vol.", 3, 2), "out/vol.03");
    assert_eq!(target_path("", 10, 5), "00010");
}

use sfx_pack::paths::{archive_path, parent_len, strip_dir_prefix, trim_len};

#[test]
fn directory_without_root_gives_paths_below_it() {
    assert_eq!(archive_path(b"dir/x", b"dir", false), Some(b"x".to_vec()));
    assert_eq!(archive_path(b"dir/y", b"dir", false), Some(b"y".to_vec()));
    assert_eq!(archive_path(b"dir/sub/z", b"dir/", false), Some(b"sub/z".to_vec()));
}

#[test]
fn directory_with_root_keeps_its_name() {
    assert_eq!(archive_path(b"dir/x", b"dir", true), Some(b"dir/x".to_vec()));
    assert_eq!(archive_path(b"/home/u/dir/x", b"/home/u/dir", true), Some(b"dir/x".to_vec()));
}

#[test]
fn single_file_gives_its_name() {
    assert_eq!(archive_path(b"a.txt", b"a.txt", true), Some(b"a.txt".to_vec()));
    assert_eq!(archive_path(b"/tmp/in/a.txt", b"/tmp/in/a.txt", true), Some(b"a.txt".to_vec()));
}

#[test]
fn path_outside_root_is_refused() {
    assert_eq!(archive_path(b"other/x", b"dir", false), None);
    assert_eq!(archive_path(b"dirx/y", b"dir", false), None);
    assert_eq!(strip_dir_prefix(b"dir", b"dir"), None);
}

#[test]
fn lengths_of_trimmed_and_parent() {
    assert_eq!(trim_len(b"a/b//"), 3);
    assert_eq!(trim_len(b""), 0);
    assert_eq!(parent_len(b"a/b//"), 1);
    assert_eq!(parent_len(b"name"), 0);
    assert_eq!(parent_len(b"x/y/z"), 3);
}

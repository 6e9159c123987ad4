use ouroboros::alias::calculate_path_alias;

#[test]
fn absolute_path_outside_cwd_is_sanitized_whole() {
    let alias = calculate_path_alias(b"/home/user/My File.txt", b"/tmp/elsewhere");
    assert_eq!(alias, b"_home_user_my_file.txt".to_vec());
}

#[test]
fn path_under_cwd_becomes_relative() {
    let alias = calculate_path_alias(b"/home/user/project/src/a.rs", b"/home/user/project");
    assert_eq!(alias, b"src_a.rs".to_vec());
}

#[test]
fn windows_style_path_is_normalized() {
    let alias = calculate_path_alias(b"C:\\Work\\Notes File.txt", b"/nowhere");
    assert_eq!(alias, b"c__work_notes_file.txt".to_vec());
}

#[test]
fn long_path_prefix_is_stripped() {
    let with_prefix = calculate_path_alias(b"//?/C:/data/x.txt", b"/nowhere");
    let without = calculate_path_alias(b"C:/data/x.txt", b"/nowhere");
    assert_eq!(with_prefix, without);
}

#[test]
fn same_input_always_gives_same_alias() {
    let a = calculate_path_alias(b"/a/b/c.txt", b"/a");
    let b = calculate_path_alias(b"/a/b/c.txt", b"/a");
    assert_eq!(a, b);
}

#[test]
fn distinct_paths_can_collide_after_sanitization() {
    // a known, deliberate limitation: case and separator substitution collide
    let first = calculate_path_alias(b"/data/My File.txt", b"/none");
    let second = calculate_path_alias(b"/data/my_file.txt", b"/none");
    assert_eq!(first, second);
}

use mrt::util::{
    expand_path_with_home, format_path, format_path_parts, format_path_with_homedir, get_headline, replace_all,
    split_on_basename,
};

#[test]
fn test_unix_formatting() {
    let result1 = format_path_with_homedir("/home/test/dev/mrt", Some(String::from("/home/test")), '/');
    let expected1 = (String::from("~/dev/"), String::from("mrt"));

    let result2 = format_path_with_homedir("/opt/test/dev/mrt", Some(String::from("/home/test")), '/');
    let expected2 = (String::from("/opt/test/dev/"), String::from("mrt"));

    assert_eq!(result1, expected1);
    assert_eq!(result2, expected2);
}

#[test]
fn test_formatting_on_root() {
    let result1 = format_path_with_homedir("/home", Some(String::from("/home/test")), '/');
    let expected1 = (String::from("/"), String::from("home"));

    assert_eq!(result1, expected1);
}

#[test]
fn test_formatting_for_relative() {
    let result1 = format_path_with_homedir("some/dir", Some(String::from("/home/test")), '/');
    let expected1 = (String::from("some/"), String::from("dir"));

    let result2 = format_path_with_homedir("dir", Some(String::from("/home/test")), '/');
    let expected2 = (String::from(""), String::from("dir"));

    assert_eq!(result1, expected1);
    assert_eq!(result2, expected2);
}

#[test]
fn formatting_uses_the_given_separator() {
    let r = format_path_with_homedir("a/b", None, '#');
    assert_eq!(r, (String::from("a#"), String::from("b")));
}

#[test]
fn format_parts_without_parent() {
    let r = format_path_parts(None, None, None, '/');
    assert_eq!(r, (String::from("/"), String::new()));
}

#[test]
fn split_on_basename_keeps_base_name() {
    let (_, base) = split_on_basename("/definitely/not/home/leaf");
    assert_eq!(base, "leaf");
}

#[test]
fn replace_all_occurrences() {
    assert_eq!(replace_all("a-b-c", "-", "+"), "a+b+c");
    assert_eq!(replace_all("aaa", "aa", "b"), "ba");
    assert_eq!(replace_all("ab", "", "~"), "~a~b~");
    assert_eq!(replace_all("", "x", "y"), "");
}

#[test]
fn tilde_expands_to_home() {
    let home = Some(String::from("/home/u"));
    assert_eq!(expand_path_with_home("~/src", &home), "/home/u/src");
    assert_eq!(expand_path_with_home("~", &home), "/home/u");
    assert_eq!(expand_path_with_home("~other/x", &home), "~other/x");
    assert_eq!(expand_path_with_home("/a/~", &home), "/a/~");
    assert_eq!(expand_path_with_home("~/src", &None), "~/src");
}

#[test]
fn format_path_ends_with_base_name() {
    let shown = format_path("/definitely/not/home/leaf");
    assert!(shown.ends_with("leaf"));
    assert!(shown.contains("/definitely/not/home/"));
}

#[test]
fn headline_names_the_target() {
    let h = get_headline("/definitely/not/home/leaf");
    assert!(h.starts_with("\n\n"));
    assert!(h.contains("in"));
    assert!(h.contains("leaf"));
}

use rclrs::extract_type_identifier;

#[test]
fn splits_package_module_and_type() {
    let r = extract_type_identifier("std_msgs/msg/String").unwrap();
    assert_eq!(r.0, "std_msgs");
    assert_eq!(r.1, "msg");
    assert_eq!(r.2, "String");
}

#[test]
fn single_separator_leaves_middle_empty() {
    let r = extract_type_identifier("pkg/Type").unwrap();
    assert_eq!(r.0, "pkg");
    assert_eq!(r.1, "");
    assert_eq!(r.2, "Type");
}

#[test]
fn adjacent_separators_leave_middle_empty() {
    let r = extract_type_identifier("a//b").unwrap();
    assert_eq!(r.0, "a");
    assert_eq!(r.1, "");
    assert_eq!(r.2, "b");
}

#[test]
fn leading_separator_gives_empty_package() {
    let r = extract_type_identifier("/mod/Type").unwrap();
    assert_eq!(r.0, "");
    assert_eq!(r.1, "mod");
    assert_eq!(r.2, "Type");
}

#[test]
fn deep_module_paths_keep_everything_between_the_outer_separators() {
    let r = extract_type_identifier("pkg/a/b/c/Type").unwrap();
    assert_eq!(r.0, "pkg");
    assert_eq!(r.1, "a/b/c");
    assert_eq!(r.2, "Type");
}

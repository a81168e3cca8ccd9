use sessionizer::session::session_name;

#[test]
fn dots_become_underscores() {
    assert_eq!(session_name("/home/u/my.repo"), Some("my_repo".to_string()));
    assert_eq!(session_name("/srv/a.b.c"), Some("a_b_c".to_string()));
}

#[test]
fn plain_component_kept_as_is() {
    assert_eq!(session_name("/home/u/project"), Some("project".to_string()));
    assert_eq!(session_name("project"), Some("project".to_string()));
}

#[test]
fn degenerate_paths_have_no_name() {
    assert_eq!(session_name("/"), None);
    assert_eq!(session_name(""), None);
    assert_eq!(session_name("/a/"), None);
    assert_eq!(session_name("/a/.."), None);
    assert_eq!(session_name("."), None);
}

use sessionizer::normalize::{normalize, normalize_env};

fn entries(items: &[Option<&str>]) -> Vec<Option<String>> {
    items.iter().map(|o| o.map(|s| s.to_string())).collect()
}

#[test]
fn tilde_descendant_dropped() {
    let raw = entries(&[Some("~/code"), None, Some("~/code/sub")]);
    let r = normalize(&raw, "/home/user");
    assert_eq!(r, vec!["/home/user/code".to_string()]);
}

#[test]
fn tilde_alone_expands() {
    let raw = entries(&[Some("~")]);
    let r = normalize(&raw, "/home/user");
    assert_eq!(r, vec!["/home/user".to_string()]);
}

#[test]
fn tilde_other_user_unchanged() {
    let raw = entries(&[Some("~other/code")]);
    let r = normalize(&raw, "/home/user");
    assert_eq!(r, vec!["~other/code".to_string()]);
}

#[test]
fn dot_segments_cleaned() {
    let raw = entries(&[Some("/a/./b/../c")]);
    let r = normalize(&raw, "/home/user");
    assert_eq!(r, vec!["/a/c".to_string()]);
}

#[test]
fn relative_path_cleaned() {
    let raw = entries(&[Some("a/../b")]);
    let r = normalize(&raw, "/home/user");
    assert_eq!(r, vec!["b".to_string()]);
}

#[test]
fn exact_duplicates_collapse() {
    let raw = entries(&[Some("/x/y"), Some("/x/y/"), Some("/x/./y")]);
    let r = normalize(&raw, "/home/user");
    assert_eq!(r, vec!["/x/y".to_string()]);
}

#[test]
fn contained_path_removed() {
    let raw = entries(&[Some("/a/b"), Some("/a"), Some("/c")]);
    let r = normalize(&raw, "/home/user");
    assert_eq!(r, vec!["/a".to_string(), "/c".to_string()]);
}

#[test]
fn root_contains_everything() {
    let raw = entries(&[Some("/"), Some("/a"), Some("/b/c")]);
    let r = normalize(&raw, "/home/user");
    assert_eq!(r, vec!["/".to_string()]);
}

#[test]
fn string_prefix_is_not_component_prefix() {
    let raw = entries(&[Some("/foo"), Some("/foobar")]);
    let r = normalize(&raw, "/home/user");
    assert_eq!(r, vec!["/foo".to_string(), "/foobar".to_string()]);
}

#[test]
fn sorted_by_components_not_bytes() {
    let raw = entries(&[Some("/a-b"), Some("/a/b")]);
    let r = normalize(&raw, "/home/user");
    assert_eq!(r, vec!["/a/b".to_string(), "/a-b".to_string()]);
}

#[test]
fn order_independent() {
    let fwd = entries(&[Some("~/code"), Some("/srv/projects"), Some("/srv"), None]);
    let rev = entries(&[None, Some("/srv"), Some("/srv/projects"), Some("~/code")]);
    assert_eq!(normalize(&fwd, "/home/user"), normalize(&rev, "/home/user"));
}

#[test]
fn idempotent_on_own_output() {
    let raw = entries(&[Some("~/code"), Some("/srv/a/.."), Some("/srv/b"), None]);
    let once = normalize(&raw, "/home/user");
    let relisted: Vec<Option<String>> = once.iter().map(|s| Some(s.clone())).collect();
    let again = normalize(&relisted, "/home/user");
    assert_eq!(again, once);
}

#[test]
fn empty_and_absent_inputs() {
    assert_eq!(normalize(&Vec::new(), "/home/user"), Vec::<String>::new());
    assert_eq!(normalize(&entries(&[None, None]), "/home/user"), Vec::<String>::new());
}

#[test]
fn env_normalization_without_tildes() {
    let raw = entries(&[Some("/x/y"), Some("/x")]);
    let r = normalize_env(&raw);
    assert_eq!(r, vec!["/x".to_string()]);
}

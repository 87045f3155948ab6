use staticauth::redirection::add_query_to_path;
use staticauth::redirection::normalize_path;

#[test]
fn test_normalize_path_basic() {
    let base = "/a/b/c";
    let path = "d";
    let expected = Some("/a/b/d".into());
    let actual = normalize_path(base, path);
    assert_eq!(expected, actual);
}

#[test]
fn test_normalize_path_base_ends_with_slash() {
    let base = "/a/b/c/";
    let path = "d";
    let expected = Some("/a/b/c/d".into());
    let actual = normalize_path(base, path);
    assert_eq!(expected, actual);
}

#[test]
fn test_normalize_path_path_from_root() {
    let base = "/a/b/c";
    let path = "/d";
    let expected = Some("/d".into());
    let actual = normalize_path(base, path);
    assert_eq!(expected, actual);
}

#[test]
fn test_normalize_path_parent_path() {
    let base = "/a/b/c";
    let path = "../d";
    let expected = Some("/a/d".into());
    let actual = normalize_path(base, path);
    assert_eq!(expected, actual);
}

#[test]
fn test_normalize_path_absolute_path() {
    let base = "/a/b/c";
    let path = "https://example.com/x/y/z";
    let expected = None;
    let actual = normalize_path(base, path);
    assert_eq!(expected, actual);
}

#[test]
fn redirection_test_normalize_path_basic() {
    let base = "/a/b/c";
    let path = "d";
    let expected = Some("/a/b/d".into());
    let actual = normalize_path(base, path);
    assert_eq!(expected, actual);
}

#[test]
fn redirection_test_normalize_path_base_ends_with_slash() {
    let base = "/a/b/c/";
    let path = "d";
    let expected = Some("/a/b/c/d".into());
    let actual = normalize_path(base, path);
    assert_eq!(expected, actual);
}

#[test]
fn redirection_test_normalize_path_path_from_root() {
    let base = "/a/b/c";
    let path = "/d";
    let expected = Some("/d".into());
    let actual = normalize_path(base, path);
    assert_eq!(expected, actual);
}

#[test]
fn redirection_test_normalize_path_parent_path() {
    let base = "/a/b/c";
    let path = "../d";
    let expected = Some("/a/d".into());
    let actual = normalize_path(base, path);
    assert_eq!(expected, actual);
}

#[test]
fn redirection_test_normalize_path_absolute_path() {
    let base = "/a/b/c";
    let path = "https://example.com/x/y/z";
    let expected = None;
    let actual = normalize_path(base, path);
    assert_eq!(expected, actual);
}

#[test]
fn test_add_query_to_path_basic() {
    let path = "/a/b/c";
    let expected = Some("/a/b/c?key=value".into());
    let actual = add_query_to_path(path, "key", "value");
    assert_eq!(expected, actual);
}

#[test]
fn test_add_query_to_path_existing_query_params() {
    let path = "/a/b/c?extrakey=extravalue";
    let expected = Some("/a/b/c?extrakey=extravalue&key=value".into());
    let actual = add_query_to_path(path, "key", "value");
    assert_eq!(expected, actual);
}

#[test]
fn test_add_query_to_path_special_value() {
    let path = "/a/b/c";
    let expected = Some("/a/b/c?key=value%2F%21%3F".into());
    let actual = add_query_to_path(path, "key", "value/!?");
    assert_eq!(expected, actual);
}

#[test]
fn test_add_query_to_path_utf8() {
    let path = "/a/b/c";
    let expected = Some("/a/b/c?key=%E3%81%82".into());
    let actual = add_query_to_path(path, "key", "\u{3042}");
    assert_eq!(expected, actual);
}

#[test]
fn normalize_same_origin_absolute_url_is_kept() {
    assert_eq!(Some("/d".to_string()), normalize_path("/a/b/c", "http://localhost/d"));
    assert_eq!(None, normalize_path("/a/b/c", "http://localhost.evil/d"));
}

#[test]
fn normalize_rejects_network_path_references() {
    assert_eq!(None, normalize_path("/a/b/c", "//evil.example/x"));
    assert_eq!(None, normalize_path("/a/b/c", "/\\evil.example/x"));
    assert_eq!(None, normalize_path("/a/b/c", "\\\\evil.example/x"));
}

#[test]
fn normalize_rejects_foreign_schemes() {
    assert_eq!(None, normalize_path("/a/b/c", "javascript:alert(1)"));
    assert_eq!(None, normalize_path("/a/b/c", "HTTPS://evil.example/"));
}

#[test]
fn normalize_collapses_dot_segments() {
    assert_eq!(Some("/a/b/".to_string()), normalize_path("/a/b/c", "."));
    assert_eq!(Some("/".to_string()), normalize_path("/a/b/c", "/x/../.."));
    assert_eq!(Some("/a/c".to_string()), normalize_path("/x", "/a/b/%2e%2e/c"));
}

#[test]
fn normalize_percent_encodes_and_keeps_query() {
    assert_eq!(Some("/a/d%20e?x=1".to_string()), normalize_path("/a/b", "d e?x=1"));
}

#[test]
fn normalize_is_idempotent_on_samples() {
    let cases = [
        ("/a/b/c", "d"),
        ("/a/b/c/", "d"),
        ("/a/b/c", "/d"),
        ("/a/b/c", "../d"),
        ("/a/b", "d e?x=1#frag"),
        ("/x", "/a/b/%2e%2e/c"),
        ("/authenticate", "./userinfo"),
    ];
    for (base, target) in cases {
        let once = normalize_path(base, target).unwrap();
        let twice = normalize_path(base, &once).unwrap();
        assert_eq!(once, twice);
    }
}

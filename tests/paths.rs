use yadex::path::{path_to_href, remove_first_component, resolve_request, to_relative, Resolution};

fn listed(raw: &str) -> String {
    match resolve_request(raw) {
        Resolution::List(p) => p,
        Resolution::Redirect(t) => panic!("redirected to {t}"),
        Resolution::NotFound => panic!("not found"),
    }
}

#[test]
fn traversal_is_erased() {
    assert_eq!(to_relative(".", "/../a/./b/"), "./a/b");
    assert_eq!(to_relative(".", "/../../../etc/"), "./etc");
    assert_eq!(to_relative(".", "/"), ".");
    assert_eq!(to_relative(".", "a//b/.."), "./a/b");
    assert_eq!(to_relative("", "x/y"), "x/y");
    assert_eq!(to_relative("base/", "x"), "base/x");
}

#[test]
fn encoded_traversal_is_erased() {
    assert_eq!(listed("/%2e%2e/%2E%2E/etc/"), "./etc");
    assert_eq!(listed("/..%2F..%2Fsecret/"), "./secret");
    assert_eq!(listed("/a%20b/"), "./a b");
}

#[test]
fn resolution_is_idempotent() {
    for raw in ["/x/../y/./z/", "/../", "/a/b/c/", "//.//a"] {
        let once = to_relative(".", raw);
        assert_eq!(to_relative(".", raw), once);
        assert_eq!(to_relative(".", &once), once);
    }
}

#[test]
fn missing_slash_redirects() {
    match resolve_request("/sub") {
        Resolution::Redirect(t) => assert_eq!(t, "/sub/"),
        _ => panic!("expected a redirect"),
    }
    match resolve_request("") {
        Resolution::Redirect(t) => assert_eq!(t, "/"),
        _ => panic!("expected a redirect"),
    }
    assert_eq!(listed("/sub/"), "./sub");
}

#[test]
fn undecodable_path_is_not_found() {
    assert!(matches!(resolve_request("/%FF/"), Resolution::NotFound));
    assert_eq!(listed("/100%/"), "./100%");
}

#[test]
fn breadcrumb_drops_first_component() {
    assert_eq!(remove_first_component("./a/b"), "a/b");
    assert_eq!(remove_first_component("."), ".");
    assert_eq!(remove_first_component(""), ".");
    assert_eq!(remove_first_component("/a"), "a");
    assert_eq!(remove_first_component("a/b/./c/."), "b/./c");
    assert_eq!(remove_first_component("a/"), ".");
}

#[test]
fn href_encodes_each_segment() {
    assert_eq!(path_to_href("./a b/c"), "/a%20b/c");
    assert_eq!(path_to_href("."), "/");
    assert_eq!(path_to_href("./ü~x"), "/%C3%BC~x");
    assert_eq!(path_to_href("/a"), "/%2F/a");
}

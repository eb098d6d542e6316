use absence_router::errors::RouterError;
use absence_router::node::Kind;
use absence_router::path::{clean_path, find_common};
use absence_router::tree::Tree;
use absence_router::wildcard::{extract_parameter, find_wildcard};
use absence_router::Router;

#[test]
fn clean_path_basics() {
    assert_eq!(clean_path(String::from("")), "/");
    assert_eq!(clean_path(String::from("/")), "/");
    assert_eq!(clean_path(String::from("users")), "/users/");
    assert_eq!(clean_path(String::from("/users")), "/users/");
    assert_eq!(clean_path(String::from("//users///42")), "/users/42/");
    assert_eq!(clean_path(String::from("/users/42/")), "/users/42/");
}

#[test]
fn clean_path_idempotent_samples() {
    for raw in ["", "a//b", "///", "/x/y/z", "no/slash", "/trail//"] {
        let once = clean_path(String::from(raw));
        let twice = clean_path(once.clone());
        assert_eq!(once, twice);
    }
}

#[test]
fn find_common_splits() {
    let p = find_common(String::from("/abc/"), String::from("/abd/"));
    assert_eq!(p.common, "/ab");
    assert_eq!(p.target_excess, "c/");
    assert_eq!(p.node_excess, "d/");

    let q = find_common(String::from("/a/"), String::from("/a/"));
    assert_eq!(q.common, "/a/");
    assert_eq!(q.target_excess, "");
    assert_eq!(q.node_excess, "");

    let r = find_common(String::from("xy"), String::from("ab"));
    assert_eq!(r.common, "");
    assert_eq!(r.target_excess, "xy");
    assert_eq!(r.node_excess, "ab");
}

#[test]
fn find_wildcard_parses_parameter() {
    let w = find_wildcard(String::from(":id/rest/")).unwrap().unwrap();
    assert_eq!(w.kind, Kind::Parameter);
    assert_eq!(w.prefix, "");
    assert_eq!(w.wildcard, ":id/");
    assert_eq!(w.suffix, "rest/");
}

#[test]
fn find_wildcard_parses_catch_all_with_prefix() {
    let w = find_wildcard(String::from("files/*rest/")).unwrap().unwrap();
    assert_eq!(w.kind, Kind::CatchAll);
    assert_eq!(w.prefix, "files/");
    assert_eq!(w.wildcard, "*rest/");
    assert_eq!(w.suffix, "");
}

#[test]
fn find_wildcard_none_without_sigil() {
    assert!(find_wildcard(String::from("plain/text/")).unwrap().is_none());
}

#[test]
fn find_wildcard_rejects_two_sigils_in_a_fragment() {
    assert!(matches!(
        find_wildcard(String::from("a:b:c")),
        Err(RouterError::MultipleWildcardSegments)
    ));
    assert!(matches!(
        find_wildcard(String::from("*a*b/")),
        Err(RouterError::MultipleWildcardSegments)
    ));
}

#[test]
fn extract_parameter_values() {
    assert_eq!(
        extract_parameter(String::from("42/rest/"), Kind::Parameter),
        "42"
    );
    assert_eq!(
        extract_parameter(String::from("a/b/c/"), Kind::CatchAll),
        "a/b/c"
    );
}

#[test]
fn round_trip_static_pattern() {
    let mut router = Router::new();
    router
        .add(String::from("GET"), String::from("/hello/world"), 7)
        .unwrap();
    for path in ["/hello/world", "/hello/world/", "hello//world"] {
        let route = router
            .find(String::from("GET"), String::from(path))
            .unwrap()
            .unwrap();
        assert_eq!(route.handles, 7);
        assert!(route.parameters.is_empty());
    }
}

#[test]
fn parameter_extraction_binds_segment() {
    let mut router = Router::new();
    router
        .add(String::from("GET"), String::from("/users/:id"), 1)
        .unwrap();
    for path in ["/users/42", "/users/42/"] {
        let route = router
            .find(String::from("GET"), String::from(path))
            .unwrap()
            .unwrap();
        assert_eq!(route.handles, 1);
        assert_eq!(
            route.parameters,
            vec![(String::from("id"), String::from("42"))]
        );
    }
}

#[test]
fn catch_all_binds_remaining_text() {
    let mut router = Router::new();
    router
        .add(String::from("GET"), String::from("/files/*rest"), 9)
        .unwrap();
    let route = router
        .find(String::from("GET"), String::from("/files/a/b/c"))
        .unwrap()
        .unwrap();
    assert_eq!(route.handles, 9);
    assert_eq!(
        route.parameters,
        vec![(String::from("rest"), String::from("a/b/c"))]
    );
}

#[test]
fn duplicate_parameter_is_rejected() {
    let mut router = Router::new();
    router
        .add(String::from("GET"), String::from("/users/:id"), 1)
        .unwrap();
    assert_eq!(
        router.add(String::from("GET"), String::from("/users/:name"), 2),
        Err(RouterError::DuplicateParameter)
    );
}

#[test]
fn route_after_catch_all_is_rejected() {
    let mut router = Router::new();
    router
        .add(String::from("GET"), String::from("/files/*rest"), 1)
        .unwrap();
    assert_eq!(
        router.add(String::from("GET"), String::from("/files/*rest/extra"), 2),
        Err(RouterError::RouteAfterCatchAll)
    );
}

#[test]
fn duplicate_route_is_rejected() {
    let mut router = Router::new();
    router
        .add(String::from("GET"), String::from("/a/b"), 1)
        .unwrap();
    assert_eq!(
        router.add(String::from("GET"), String::from("/a/b"), 2),
        Err(RouterError::DuplicateRoute)
    );
}

#[test]
fn duplicate_wildcard_route_is_rejected() {
    let mut router = Router::new();
    router
        .add(String::from("GET"), String::from("/users/:id"), 1)
        .unwrap();
    assert_eq!(
        router.add(String::from("GET"), String::from("/users/:id"), 2),
        Err(RouterError::DuplicateRoute)
    );
}

#[test]
fn splitting_produces_shared_prefix_node() {
    let mut tree = Tree::new();
    tree.add(String::from("/abc"), 1).unwrap();
    tree.add(String::from("/abd"), 2).unwrap();

    assert_eq!(tree.root.path, "/");
    assert_eq!(tree.root.children.len(), 1);
    let shared = &tree.root.children[0];
    assert_eq!(shared.path, "ab");
    assert_eq!(shared.kind, Kind::Static);
    assert_eq!(shared.children.len(), 2);
    assert_eq!(shared.children[0].path, "c/");
    assert_eq!(shared.children[1].path, "d/");
    assert_eq!(shared.indices, "cd");

    let a = tree.lookup(String::from("/abc")).unwrap().unwrap();
    let b = tree.lookup(String::from("/abd")).unwrap().unwrap();
    assert_eq!(a.handles, 1);
    assert_eq!(b.handles, 2);
}

#[test]
fn non_match_yields_none_not_error() {
    let mut router = Router::new();
    router
        .add(String::from("GET"), String::from("/users/:id"), 1)
        .unwrap();
    router
        .add(String::from("GET"), String::from("/about"), 2)
        .unwrap();
    for path in ["/nope", "/users", "/about/us", "/users/1/extra"] {
        assert!(router
            .find(String::from("GET"), String::from(path))
            .unwrap()
            .is_none());
    }
}

#[test]
fn method_isolation() {
    let mut router = Router::new();
    router
        .add(String::from("GET"), String::from("/thing"), 1)
        .unwrap();
    assert!(router
        .find(String::from("POST"), String::from("/thing"))
        .unwrap()
        .is_none());
    assert_eq!(
        router
            .find(String::from("GET"), String::from("/thing"))
            .unwrap()
            .unwrap()
            .handles,
        1
    );
}

#[test]
fn nested_parameter_routes_share_the_wildcard_node() {
    let mut router = Router::new();
    router
        .add(String::from("GET"), String::from("/users/:id"), 1)
        .unwrap();
    router
        .add(String::from("GET"), String::from("/users/:id/posts"), 2)
        .unwrap();
    let direct = router
        .find(String::from("GET"), String::from("/users/7"))
        .unwrap()
        .unwrap();
    assert_eq!(direct.handles, 1);
    let nested = router
        .find(String::from("GET"), String::from("/users/7/posts"))
        .unwrap()
        .unwrap();
    assert_eq!(nested.handles, 2);
    assert_eq!(
        nested.parameters,
        vec![(String::from("id"), String::from("7"))]
    );
}

#[test]
fn failed_add_leaves_tree_usable() {
    let mut router = Router::new();
    router
        .add(String::from("GET"), String::from("/users/:id"), 1)
        .unwrap();
    let conflict = router.add(String::from("GET"), String::from("/users/:name"), 2);
    assert!(conflict.is_err());
    let route = router
        .find(String::from("GET"), String::from("/users/5"))
        .unwrap()
        .unwrap();
    assert_eq!(route.handles, 1);
    assert_eq!(
        route.parameters,
        vec![(String::from("id"), String::from("5"))]
    );
}

#[test]
fn wildcard_with_literal_prefix_in_segment() {
    let mut router = Router::new();
    router
        .add(String::from("GET"), String::from("/img-*file"), 3)
        .unwrap();
    let route = router
        .find(String::from("GET"), String::from("/img-cat.png"))
        .unwrap()
        .unwrap();
    assert_eq!(route.handles, 3);
    assert_eq!(
        route.parameters,
        vec![(String::from("file"), String::from("cat.png"))]
    );
}

#[test]
fn parameter_with_literal_prefix_and_suffix() {
    let mut router = Router::new();
    router
        .add(String::from("GET"), String::from("/v:ver/x"), 4)
        .unwrap();
    let route = router
        .find(String::from("GET"), String::from("/v2/x"))
        .unwrap()
        .unwrap();
    assert_eq!(route.handles, 4);
    assert_eq!(
        route.parameters,
        vec![(String::from("ver"), String::from("2"))]
    );
}

#[test]
fn failed_add_on_fresh_path_leaves_no_trace() {
    let mut router = Router::new();
    assert_eq!(
        router.add(String::from("GET"), String::from("/f/*r/x"), 1),
        Err(RouterError::RouteAfterCatchAll)
    );
    router
        .add(String::from("GET"), String::from("/f/:name"), 5)
        .unwrap();
    let route = router
        .find(String::from("GET"), String::from("/f/abc"))
        .unwrap()
        .unwrap();
    assert_eq!(route.handles, 5);
    assert_eq!(
        route.parameters,
        vec![(String::from("name"), String::from("abc"))]
    );
}

#[test]
fn failed_add_does_not_shadow_existing_wildcard() {
    let mut router = Router::new();
    router
        .add(String::from("GET"), String::from("/a/:w"), 1)
        .unwrap();
    assert_eq!(
        router.add(String::from("GET"), String::from("/a/x*b/c"), 2),
        Err(RouterError::RouteAfterCatchAll)
    );
    let route = router
        .find(String::from("GET"), String::from("/a/xyz"))
        .unwrap()
        .unwrap();
    assert_eq!(route.handles, 1);
    assert_eq!(
        route.parameters,
        vec![(String::from("w"), String::from("xyz"))]
    );
}

#[test]
fn failed_add_undoes_its_split() {
    let mut tree = Tree::new();
    tree.add(String::from("/abc"), 1).unwrap();
    assert_eq!(
        tree.add(String::from("/ab:p:q"), 2),
        Err(RouterError::MultipleWildcardSegments)
    );
    assert_eq!(tree.root.children.len(), 1);
    assert_eq!(tree.root.children[0].path, "abc/");
    assert_eq!(tree.lookup(String::from("/abc")).unwrap().unwrap().handles, 1);
}

#[test]
fn failed_add_leaves_fresh_tree_empty() {
    let mut tree = Tree::new();
    assert_eq!(
        tree.add(String::from("/f/*r/x"), 1),
        Err(RouterError::RouteAfterCatchAll)
    );
    assert_eq!(tree.root.children.len(), 0);
    assert!(tree.root.wild_child.is_none());
}

#[test]
fn repeated_parameter_name_binds_once_with_later_value() {
    let mut router = Router::new();
    router
        .add(String::from("GET"), String::from("/:a/x/:a"), 9)
        .unwrap();
    let route = router
        .find(String::from("GET"), String::from("/p/x/q"))
        .unwrap()
        .unwrap();
    assert_eq!(route.handles, 9);
    assert_eq!(
        route.parameters,
        vec![(String::from("a"), String::from("q"))]
    );
}

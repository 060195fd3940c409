use http_credential_broker::{
    path_matches_prefix, route_request_path, validate_forward_path, validate_service_name,
    RouteMatch,
};

#[test]
fn route_extracts_service_and_forward_path() {
    assert_eq!(
        route_request_path("/proxy", "/proxy/github/repos/acme/app/issues"),
        Some(RouteMatch {
            service_name: "github".to_owned(),
            forward_path: "/repos/acme/app/issues".to_owned(),
            strip_prefix: "/proxy/github".to_owned(),
        })
    );
    assert_eq!(
        route_request_path("/proxy", "/proxy/github"),
        Some(RouteMatch {
            service_name: "github".to_owned(),
            forward_path: "/".to_owned(),
            strip_prefix: "/proxy/github".to_owned(),
        })
    );
    assert_eq!(route_request_path("/proxy", "/healthz"), None);
}

#[test]
fn path_prefix_matching_is_segment_aware() {
    assert!(path_matches_prefix("/repos/acme", "/repos/acme"));
    assert!(path_matches_prefix("/repos/acme/issues", "/repos/acme"));
    assert!(!path_matches_prefix("/repos/acme-inc/issues", "/repos/acme"));
    assert!(path_matches_prefix("/anything", "/"));
}

#[test]
fn encoded_path_separators_are_rejected() {
    assert!(validate_forward_path("/repos/acme/app").is_ok());
    assert!(validate_forward_path("/repos/acme%2Fapp").is_err());
    assert!(validate_forward_path("/repos/../secrets").is_err());
}

#[test]
fn route_ignores_trailing_slashes_of_the_prefix() {
    assert_eq!(
        route_request_path("/proxy//", "/proxy/svc/a/b"),
        Some(RouteMatch {
            service_name: "svc".to_owned(),
            forward_path: "/a/b".to_owned(),
            strip_prefix: "/proxy/svc".to_owned(),
        })
    );
}

#[test]
fn route_keeps_trailing_slash_as_root_forward_path() {
    assert_eq!(
        route_request_path("/proxy", "/proxy/svc/"),
        Some(RouteMatch {
            service_name: "svc".to_owned(),
            forward_path: "/".to_owned(),
            strip_prefix: "/proxy/svc".to_owned(),
        })
    );
}

#[test]
fn route_rejects_prefix_itself_and_empty_service() {
    assert_eq!(route_request_path("/proxy", "/proxy"), None);
    assert_eq!(route_request_path("/proxy", "/proxy/"), None);
    assert_eq!(route_request_path("/proxy", "/proxy//repos"), None);
    assert_eq!(route_request_path("/proxy", "/proxyx/svc"), None);
}

#[test]
fn route_path_is_strip_prefix_then_forward_path() {
    let path = "/p/svc/a%20b/c";
    let m = route_request_path("/p", path).unwrap();
    assert_eq!(format!("{}{}", m.strip_prefix, m.forward_path), path);
}

#[test]
fn service_name_rules() {
    assert_eq!(validate_service_name("git-hub_2"), Ok(()));
    assert_eq!(
        validate_service_name(""),
        Err("must not be empty".to_owned())
    );
    assert_eq!(
        validate_service_name("git.hub"),
        Err("may contain only ASCII letters, digits, `_`, or `-`".to_owned())
    );
    assert_eq!(
        validate_service_name("gité"),
        Err("may contain only ASCII letters, digits, `_`, or `-`".to_owned())
    );
}

#[test]
fn forward_path_errors() {
    assert_eq!(
        validate_forward_path("repos"),
        Err("must start with `/`".to_owned())
    );
    assert_eq!(
        validate_forward_path("/a/%2e%2E/b"),
        Err("dot segments are not allowed".to_owned())
    );
    assert_eq!(
        validate_forward_path("/a/./b"),
        Err("dot segments are not allowed".to_owned())
    );
    assert_eq!(
        validate_forward_path("/a%5Cb"),
        Err("encoded path separators are not allowed".to_owned())
    );
    assert_eq!(
        validate_forward_path("/a/%FF"),
        Err("path segments must be valid UTF-8 after percent decoding".to_owned())
    );
    assert_eq!(validate_forward_path("/a/%zz/%41"), Ok(()));
    assert_eq!(validate_forward_path("/"), Ok(()));
    assert_eq!(validate_forward_path("/a//b/"), Ok(()));
}

#[test]
fn prefix_ending_in_slash_matches_by_starts_with() {
    assert!(path_matches_prefix("/repos/acme/x", "/repos/"));
    assert!(!path_matches_prefix("/repo", "/repos/"));
    assert!(path_matches_prefix("/repos/", "/repos/"));
    assert!(!path_matches_prefix("/repos", "/repos/acme"));
}

use http_credential_broker::{
    decide_request, default_proxy_prefix, default_strip_request_headers, rewrite_request_headers,
    upstream_failure_reply, BrokerConfig, Decision, Environment, RawAuthConfig, RawBrokerConfig,
    RawServiceConfig,
};

fn s(v: &str) -> String {
    v.to_owned()
}

fn test_config() -> BrokerConfig {
    let svc = RawServiceConfig {
        base_url: s("http://127.0.0.1:9"),
        allowed_methods: vec![s("GET")],
        allowed_path_prefixes: vec![s("/allowed")],
        auth: Some(RawAuthConfig::Bearer {
            token: Some(s("broker-token")),
            token_env: None,
        }),
        headers: Vec::new(),
        strip_request_headers: default_strip_request_headers(),
        preserve_host: false,
        timeout_ms: Some(1500),
    };
    RawBrokerConfig {
        listen: s("127.0.0.1:0"),
        proxy_prefix: default_proxy_prefix(),
        services: vec![(s("test"), svc)],
    }
    .resolve(&Environment::new(Vec::new()))
    .ok()
    .unwrap()
}

fn status(d: &Decision) -> Option<(u16, String)> {
    match d {
        Decision::Respond(r) => Some((r.status, r.body.clone())),
        Decision::Forward(_) => None,
    }
}

#[test]
fn decide_injects_configured_auth_and_strips_caller_auth() {
    let config = test_config();
    let plan = match decide_request(&config, "GET", "/proxy/test/allowed/resource") {
        Decision::Forward(p) => p,
        Decision::Respond(r) => panic!("unexpected reply {:?}", r),
    };
    assert_eq!(plan.service_name, "test");
    assert_eq!(plan.base_url, "http://127.0.0.1:9");
    assert_eq!(plan.strip_prefix, "/proxy/test");
    assert_eq!(plan.forward_path, "/allowed/resource");
    assert_eq!(plan.timeout_ms, Some(1500));
    assert!(!plan.preserve_host);
    let caller = vec![
        (s("authorization"), b"Bearer caller-token".to_vec()),
        (s("proxy-authorization"), b"Basic x".to_vec()),
        (s("accept"), b"*/*".to_vec()),
    ];
    let sent = rewrite_request_headers(&caller, &plan.strip_headers, &plan.inject_headers);
    assert_eq!(
        sent,
        vec![
            (s("accept"), b"*/*".to_vec()),
            (s("authorization"), b"Bearer broker-token".to_vec()),
        ]
    );
}

#[test]
fn decide_rejects_disallowed_path_before_upstream() {
    let config = test_config();
    let d = decide_request(&config, "GET", "/proxy/test/denied");
    assert_eq!(status(&d), Some((403, s("path not allowed\n"))));
}

#[test]
fn decide_answers_each_refusal() {
    let config = test_config();
    assert_eq!(
        status(&decide_request(&config, "GET", "/healthz")),
        Some((200, s("ok\n")))
    );
    assert_eq!(
        status(&decide_request(&config, "GET", "/other")),
        Some((404, s("not found\n")))
    );
    assert_eq!(
        status(&decide_request(&config, "GET", "/proxy/te.st/allowed")),
        Some((
            400,
            s("invalid service name: may contain only ASCII letters, digits, `_`, or `-`\n")
        ))
    );
    assert_eq!(
        status(&decide_request(&config, "GET", "/proxy/nope/allowed")),
        Some((404, s("unknown service\n")))
    );
    assert_eq!(
        status(&decide_request(&config, "POST", "/proxy/test/allowed")),
        Some((405, s("method not allowed\n")))
    );
    assert_eq!(
        status(&decide_request(&config, "GET", "/proxy/test/allowed/%2e%2e")),
        Some((400, s("invalid path: dot segments are not allowed\n")))
    );
    assert_eq!(
        status(&decide_request(&config, "GET", "/proxy/test/allowedx")),
        Some((403, s("path not allowed\n")))
    );
}

#[test]
fn rewrite_replaces_every_caller_value_of_an_injected_name() {
    let caller = vec![
        (s("x-key"), b"a".to_vec()),
        (s("cookie"), b"c".to_vec()),
        (s("x-key"), b"b".to_vec()),
    ];
    let sent = rewrite_request_headers(
        &caller,
        &vec![s("cookie")],
        &vec![(s("x-key"), b"k".to_vec())],
    );
    assert_eq!(sent, vec![(s("x-key"), b"k".to_vec())]);
}

#[test]
fn upstream_failure_is_bad_gateway() {
    let r = upstream_failure_reply();
    assert_eq!(r.status, 502);
    assert_eq!(r.body, "upstream request failed\n");
}

use http_credential_broker::outside::UriParts;
use http_credential_broker::{
    base_url_from_parts, default_proxy_prefix, default_strip_request_headers, ensure_config_injectable_header,
    parse_base_url, parse_header_name, parse_methods, parse_path_prefixes,
    parse_strip_request_headers, resolve_secret_source, validate_proxy_prefix, BrokerError,
    Environment, RawAuthConfig, RawBrokerConfig, RawHeaderConfig, RawServiceConfig,
};

fn s(v: &str) -> String {
    v.to_owned()
}

fn strings(v: &[&str]) -> Vec<String> {
    v.iter().map(|x| x.to_string()).collect()
}

fn service(base_url: &str, methods: &[&str], prefixes: &[&str]) -> RawServiceConfig {
    RawServiceConfig {
        base_url: s(base_url),
        allowed_methods: strings(methods),
        allowed_path_prefixes: strings(prefixes),
        auth: None,
        headers: Vec::new(),
        strip_request_headers: default_strip_request_headers(),
        preserve_host: false,
        timeout_ms: None,
    }
}

fn broker(services: Vec<(String, RawServiceConfig)>) -> RawBrokerConfig {
    RawBrokerConfig {
        listen: s("127.0.0.1:0"),
        proxy_prefix: default_proxy_prefix(),
        services,
    }
}

fn no_env() -> Environment {
    Environment::new(Vec::new())
}

fn config_message(err: BrokerError) -> String {
    err.message()
}

#[test]
fn config_requires_referenced_env_values() {
    let mut github = service("https://api.github.com", &["GET"], &["/repos/acme/"]);
    github.auth = Some(RawAuthConfig::Bearer {
        token: None,
        token_env: Some(s("HTTP_CREDENTIAL_BROKER_TEST_MISSING_TOKEN")),
    });
    let err = broker(vec![(s("github"), github)])
        .resolve(&no_env())
        .err()
        .unwrap();
    assert!(config_message(err).contains("HTTP_CREDENTIAL_BROKER_TEST_MISSING_TOKEN"));
}

#[test]
fn config_rejects_arbitrary_or_unsafe_routes() {
    let bad = service("https://example.com/path?x=1", &["GET"], &["/"]);
    let err = broker(vec![(s("bad"), bad)]).resolve(&no_env()).err().unwrap();
    assert!(config_message(err).contains("base_url must not include query"));
}

#[test]
fn resolved_config_keeps_services_and_normalises_prefix() {
    let mut raw = broker(vec![(
        s("github"),
        service("https://api.github.com", &["GET", "POST", "GET"], &["/repos/acme/"]),
    )]);
    raw.proxy_prefix = s("/proxy///");
    let config = raw.resolve(&no_env()).ok().unwrap();
    assert_eq!(config.proxy_prefix(), "/proxy");
    assert_eq!(config.listen(), "127.0.0.1:0");
    let svc = config.service("github").unwrap();
    assert_eq!(svc.base_url(), "https://api.github.com");
    assert_eq!(svc.allowed_methods(), &strings(&["GET", "POST"]));
    assert!(svc.method_allowed("POST"));
    assert!(!svc.method_allowed("post"));
    assert!(svc.path_allowed("/repos/acme/app"));
    assert!(!svc.path_allowed("/repos/other"));
    assert!(config.service("gitlab").is_none());
    assert_eq!(
        svc.strip_request_headers(),
        &strings(&["authorization", "proxy-authorization"])
    );
}

#[test]
fn bearer_basic_and_header_auth_are_injected() {
    let env = Environment::new(vec![(s("PW"), s("pass"))]);
    let mut a = service("https://a.example", &["GET"], &["/"]);
    a.auth = Some(RawAuthConfig::Bearer {
        token: Some(s("tok")),
        token_env: None,
    });
    let mut b = service("https://b.example", &["GET"], &["/"]);
    b.auth = Some(RawAuthConfig::Basic {
        username: Some(s("user")),
        username_env: None,
        password: None,
        password_env: Some(s("PW")),
    });
    let mut c = service("https://c.example", &["GET"], &["/"]);
    c.auth = Some(RawAuthConfig::Header {
        name: s("X-Api-Key"),
        value: Some(s("k1")),
        value_env: None,
    });
    c.headers = vec![
        RawHeaderConfig {
            name: s("Accept"),
            value: Some(s("application/json")),
            value_env: None,
        },
        RawHeaderConfig {
            name: s("x-api-key"),
            value: Some(s("k2")),
            value_env: None,
        },
    ];
    let config = broker(vec![(s("a"), a), (s("b"), b), (s("c"), c)])
        .resolve(&env)
        .ok()
        .unwrap();
    assert_eq!(
        config.service("a").unwrap().inject_headers(),
        &vec![(s("authorization"), b"Bearer tok".to_vec())]
    );
    assert_eq!(
        config.service("b").unwrap().inject_headers(),
        &vec![(s("authorization"), b"Basic dXNlcjpwYXNz".to_vec())]
    );
    assert_eq!(
        config.service("c").unwrap().inject_headers(),
        &vec![
            (s("x-api-key"), b"k2".to_vec()),
            (s("accept"), b"application/json".to_vec())
        ]
    );
}

#[test]
fn broker_level_errors() {
    let mut raw = broker(Vec::new());
    assert_eq!(
        config_message(raw.resolve(&no_env()).err().unwrap()),
        "config error: at least one service must be configured"
    );
    raw.proxy_prefix = s("proxy");
    assert_eq!(
        config_message(raw.resolve(&no_env()).err().unwrap()),
        "config error: proxy_prefix must start with `/`"
    );
    let raw = broker(vec![(s("bad name"), service("https://x.example", &["GET"], &["/"]))]);
    assert_eq!(
        config_message(raw.resolve(&no_env()).err().unwrap()),
        "config error: service `bad name`: may contain only ASCII letters, digits, `_`, or `-`"
    );
    let raw = broker(vec![(s("x"), service("https://x.example", &[], &["/"]))]);
    assert_eq!(
        config_message(raw.resolve(&no_env()).err().unwrap()),
        "config error: service `x`: allowed_methods must not be empty"
    );
}

#[test]
fn proxy_prefix_rules() {
    assert_eq!(validate_proxy_prefix("/proxy/").ok().unwrap(), "/proxy");
    assert!(matches!(
        validate_proxy_prefix("/"),
        Err(BrokerError::Config(m)) if m == "proxy_prefix must start with `/`"
    ));
    assert!(matches!(
        validate_proxy_prefix("/p?x"),
        Err(BrokerError::Config(m)) if m == "proxy_prefix must be a path, not a URL"
    ));
    assert!(matches!(
        validate_proxy_prefix("/p#x"),
        Err(BrokerError::Config(m)) if m == "proxy_prefix must be a path, not a URL"
    ));
    let once = validate_proxy_prefix("/a/b//").ok().unwrap();
    assert_eq!(validate_proxy_prefix(&once).ok().unwrap(), once);
}

#[test]
fn base_url_rules() {
    assert_eq!(
        parse_base_url("https://api.example.com/v1"),
        Ok(s("https://api.example.com/v1"))
    );
    assert_eq!(
        parse_base_url("https://x.example/#frag"),
        Err(s("base_url must not include fragment"))
    );
    assert_eq!(
        parse_base_url("/relative"),
        Err(s("base_url must include scheme and authority"))
    );
    assert_eq!(
        parse_base_url("https://x.example/?q=1"),
        Err(s("base_url must not include query"))
    );
    let err = parse_base_url("http://exa mple.com").err().unwrap();
    assert!(err.starts_with("invalid base_url `http://exa mple.com`: "));
}

#[test]
fn method_rules() {
    assert_eq!(parse_methods(&strings(&[])), Err(s("allowed_methods must not be empty")));
    assert_eq!(
        parse_methods(&strings(&["GET", "CONNECT"])),
        Err(s("CONNECT is not supported by this broker"))
    );
    assert_eq!(
        parse_methods(&strings(&["GE T"])),
        Err(s("invalid HTTP method `GE T`: invalid HTTP method"))
    );
    assert_eq!(
        parse_methods(&strings(&["PUT", "get", "PUT"])),
        Ok(strings(&["PUT", "get"]))
    );
}

#[test]
fn path_prefix_rules() {
    assert_eq!(
        parse_path_prefixes(&strings(&[])),
        Err(s("allowed_path_prefixes must not be empty"))
    );
    assert_eq!(
        parse_path_prefixes(&strings(&["/a", "b"])),
        Err(s("path prefix `b` must start with `/`"))
    );
    assert_eq!(
        parse_path_prefixes(&strings(&["/a?x"])),
        Err(s("path prefix `/a?x` must not contain query or fragment"))
    );
    assert_eq!(parse_path_prefixes(&strings(&["/a", "/b/"])), Ok(strings(&["/a", "/b/"])));
}

#[test]
fn header_name_rules() {
    assert_eq!(parse_header_name("X-Api-KEY"), Ok(s("x-api-key")));
    assert_eq!(
        parse_header_name("bad header"),
        Err(s("invalid header name `bad header`: invalid HTTP header name"))
    );
    assert_eq!(
        parse_strip_request_headers(&strings(&["Cookie", ""]), "svc"),
        Err(s(
            "invalid strip_request_headers entry for `svc`: invalid header name ``: invalid HTTP header name"
        ))
    );
    assert_eq!(
        parse_strip_request_headers(&strings(&["Cookie"]), "svc"),
        Ok(strings(&["cookie"]))
    );
    assert_eq!(
        ensure_config_injectable_header("Host"),
        Err(s("header `Host` is managed by the broker or HTTP stack"))
    );
    assert_eq!(ensure_config_injectable_header("accept"), Ok(()));
    assert_eq!(
        ensure_config_injectable_header("transfer-encoding"),
        Err(s("header `transfer-encoding` is managed by the broker or HTTP stack"))
    );
}

#[test]
fn secret_source_rules() {
    let env = Environment::new(vec![(s("SET"), s("v")), (s("EMPTY"), s(""))]);
    assert_eq!(
        resolve_secret_source("t", Some(s("a")), Some(s("SET")), &env),
        Err(s("t must use either value or env, not both"))
    );
    assert_eq!(
        resolve_secret_source("t", Some(s("")), None, &env),
        Err(s("t value must not be empty"))
    );
    assert_eq!(resolve_secret_source("t", Some(s("a")), None, &env), Ok(s("a")));
    assert_eq!(
        resolve_secret_source("t", None, Some(s("")), &env),
        Err(s("t env name must not be empty"))
    );
    assert_eq!(
        resolve_secret_source("t", None, Some(s("NOPE")), &env),
        Err(s("t env var `NOPE` is missing"))
    );
    assert_eq!(
        resolve_secret_source("t", None, Some(s("EMPTY")), &env),
        Err(s("t env var `EMPTY` must not be empty"))
    );
    assert_eq!(resolve_secret_source("t", None, Some(s("SET")), &env), Ok(s("v")));
    assert_eq!(
        resolve_secret_source("t", None, None, &env),
        Err(s("t must provide value or env"))
    );
}

#[test]
fn header_config_errors() {
    let env = no_env();
    let h = RawHeaderConfig {
        name: s("Connection"),
        value: Some(s("close")),
        value_env: None,
    };
    assert_eq!(
        h.resolve("svc", &env),
        Err(s("header `connection` is managed by the broker or HTTP stack"))
    );
    let h = RawHeaderConfig {
        name: s("X-A"),
        value: None,
        value_env: None,
    };
    assert_eq!(
        h.resolve("svc", &env),
        Err(s("service `svc` header `X-A` must provide value or env"))
    );
    let h = RawHeaderConfig {
        name: s("X-A"),
        value: Some(s("a\nb")),
        value_env: None,
    };
    assert_eq!(
        h.resolve("svc", &env),
        Err(s("invalid header `X-A` value: failed to parse header value"))
    );
    let a = RawAuthConfig::Bearer {
        token: Some(s("t\u{7f}")),
        token_env: None,
    };
    assert_eq!(
        a.resolve(&env),
        Err(s("invalid bearer token header value: failed to parse header value"))
    );
    let a = RawAuthConfig::Header {
        name: s("Proxy-Authorization"),
        value: Some(s("x")),
        value_env: None,
    };
    assert_eq!(
        a.resolve(&env),
        Err(s("header `proxy-authorization` is managed by the broker or HTTP stack"))
    );
}

#[test]
fn defaults() {
    assert_eq!(default_proxy_prefix(), "/proxy");
    assert_eq!(
        default_strip_request_headers(),
        strings(&["authorization", "proxy-authorization"])
    );
}

#[test]
fn later_service_of_the_same_name_replaces_earlier() {
    let raw = broker(vec![
        (s("x"), service("https://one.example", &["GET"], &["/"])),
        (s("x"), service("https://two.example", &["GET"], &["/"])),
    ]);
    let config = raw.resolve(&no_env()).ok().unwrap();
    assert_eq!(config.services().len(), 1);
    assert_eq!(config.service("x").unwrap().base_url(), "https://two.example");
}

#[test]
fn error_messages_name_their_kind() {
    assert_eq!(BrokerError::Io(s("x")).message(), "io error: x");
    assert_eq!(BrokerError::Toml(s("y")).message(), "toml parse error: y");
    assert_eq!(BrokerError::Aioduct(s("z")).message(), "http client error: z");
    assert_eq!(
        http_credential_broker::config_error(s("m")).message(),
        "config error: m"
    );
}

#[test]
fn base_url_decision_from_parse_outcome() {
    let parts = |scheme, authority, query| UriParts {
        has_scheme: scheme,
        has_authority: authority,
        has_query: query,
    };
    assert_eq!(
        base_url_from_parts("https://h", Ok(parts(true, true, false))),
        Ok(s("https://h"))
    );
    assert_eq!(
        base_url_from_parts("h", Ok(parts(false, true, false))),
        Err(s("base_url must include scheme and authority"))
    );
    assert_eq!(
        base_url_from_parts("h", Ok(parts(true, false, false))),
        Err(s("base_url must include scheme and authority"))
    );
    assert_eq!(
        base_url_from_parts("h?q", Ok(parts(true, true, true))),
        Err(s("base_url must not include query"))
    );
    assert_eq!(
        base_url_from_parts("h h", Err(s("invalid uri character"))),
        Err(s("invalid base_url `h h`: invalid uri character"))
    );
}

#[test]
fn startup_fails_when_a_header_env_var_is_empty() {
    let env = Environment::new(vec![(s("EMPTY"), s(""))]);
    let mut svc = service("https://x.example", &["GET"], &["/"]);
    svc.headers = vec![RawHeaderConfig {
        name: s("X-Key"),
        value: None,
        value_env: Some(s("EMPTY")),
    }];
    let err = broker(vec![(s("x"), svc)]).resolve(&env).err().unwrap();
    assert_eq!(
        config_message(err),
        "config error: service `x`: service `x` header `X-Key` env var `EMPTY` must not be empty"
    );
}

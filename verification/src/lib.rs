//! Verified core of an HTTP credential broker: configuration resolution,
//! request routing and the per-request forwarding decision.
//!
//! The broker exposes named upstream services under a proxy prefix; callers
//! never see the upstream credentials, which the broker injects itself.

pub mod config;
pub mod env;
pub mod error;
pub mod outside;
pub mod request;
pub mod routing;
pub mod seqs;
pub mod text;

pub use config::{
    base_url_from_parts, default_proxy_prefix, default_strip_request_headers, ensure_config_injectable_header,
    parse_base_url, parse_header_name, parse_methods, parse_path_prefixes,
    parse_strip_request_headers, resolve_secret_source, validate_proxy_prefix, BrokerConfig,
    RawAuthConfig, RawBrokerConfig, RawHeaderConfig, RawServiceConfig, ServiceConfig,
};
pub use env::Environment;
pub use error::{config_error, BrokerError};
pub use request::{
    decide_request, rewrite_request_headers, upstream_failure_reply, Decision, ForwardPlan, Reply,
};
pub use routing::{
    path_matches_prefix, route_request_path, validate_forward_path, validate_service_name,
    RouteMatch,
};

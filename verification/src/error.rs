//! Errors of broker start-up and configuration loading.
use vstd::prelude::*;

use crate::text::concat2;

verus! {

/// Errors returned by broker startup and configuration loading.
#[derive(Debug)]
pub enum BrokerError {
    /// Configuration was syntactically valid but unsafe or incomplete.
    Config(String),
    /// Filesystem or socket error, by its message.
    Io(String),
    /// TOML parse error, by its message.
    Toml(String),
    /// Upstream HTTP client error, by its message.
    Aioduct(String),
}

impl BrokerError {
    /// The error's display text.
    pub open spec fn spec_message(&self) -> Seq<char> {
        match self {
            BrokerError::Config(m) => "config error: "@ + m@,
            BrokerError::Io(m) => "io error: "@ + m@,
            BrokerError::Toml(m) => "toml parse error: "@ + m@,
            BrokerError::Aioduct(m) => "http client error: "@ + m@,
        }
    }

    /// The error's display text: its kind, a colon and its message.
    pub fn message(&self) -> (s: String)
        ensures
            s@ == self.spec_message(),
    {
        match self {
            BrokerError::Config(m) => concat2("config error: ", m.as_str()),
            BrokerError::Io(m) => concat2("io error: ", m.as_str()),
            BrokerError::Toml(m) => concat2("toml parse error: ", m.as_str()),
            BrokerError::Aioduct(m) => concat2("http client error: ", m.as_str()),
        }
    }
}

/// A configuration error with the message `msg`.
pub fn config_error(msg: String) -> (e: BrokerError)
    ensures
        e == BrokerError::Config(msg),
{
    BrokerError::Config(msg)
}

} // verus!

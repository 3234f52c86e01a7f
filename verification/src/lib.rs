//! Core engine of a small self-hosted reverse proxy: the configuration
//! store with its validation rules, the host/path route resolver, the
//! request-handling decisions, the TLS supervisor state machine, the
//! port-forwarder plan, and the JSON codec for the persisted
//! configuration file.

pub mod args;
pub mod codec;
pub mod config;
pub mod forwarder;
pub mod numfmt;
pub mod path_util;
pub mod proxy;
pub mod relaxed;
pub mod ssl;
pub mod strutil;
pub mod validator;
pub mod validation;

pub use path_util::trim_trailing_slash;
pub use path_util::validate_and_clean_path;

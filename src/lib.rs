//! A configuration-driven HTTP virtual-host router: an nginx-like directive
//! language is parsed into a tree, compiled into typed server configuration,
//! grouped by listening socket and used to answer requests.

pub mod ast;
pub mod config;
pub mod grammar;
pub mod parser;
pub mod printer;
pub mod round_trip;
pub mod search;
pub mod server;
pub mod text;
pub mod wire;

pub use ast::{ParsedConfig, ParsedValue, ParserError};
pub use config::{
    Config, ConfigError, ErrorKind, HttpConfig, LocationConfig, LocationExp, Return, ServerConfig,
};
pub use parser::parse;
pub use printer::print_config;
pub use server::{listen_groups, HttpServer, Server};
pub use wire::{Header, RequestHead};

//! Reading and writing Valve's text key-value format (VDF), and the account
//! bookkeeping of a Steam account switcher built on it.
pub mod text;
pub mod value;
pub mod lexer;
pub mod parser;
pub mod writer;
pub mod roundtrip;
pub mod strutil;
pub mod accounts;
pub mod tags;
pub mod listing;
pub mod steam_config;
pub mod registry;
pub mod windows;

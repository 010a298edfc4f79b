//! Recursive-descent text parsing built from small verified primitives.
//!
//! Two grammars are implemented on top of the shared primitives: a JSON
//! value grammar and the fixed NGINX combined-log-line grammar. Every
//! parser's behaviour, success and failure alike, is stated against a
//! mathematical model of the grammar it implements.

pub mod combinator;
pub mod json;
pub mod nginx_log;

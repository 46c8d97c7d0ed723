//! The verified core of the AnkiFruit bridge: bearer-token checks, the
//! method routing table, the request decisions of the loopback server and
//! the small text handling the shells need around it.

pub mod auth;
pub mod devtools;
pub mod langs;
pub mod reply;
pub mod text;
pub mod token;
pub mod web;
pub mod routes;
pub mod server;

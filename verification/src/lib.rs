//! Core logic of `rage`: secrets bundles kept in Infisical, cached locally
//! under age encryption, and exported into shells and child processes.
//!
//! Everything here is computation with contracts; the command-line program
//! around it performs the network, file and terminal work. The calls into
//! base64, serde_json, dotenvy and age stand behind trusted contracts in
//! `outside`.

pub mod text;
pub mod env;
pub mod validate;
pub mod render;
pub mod clock;
pub mod tui;
pub mod remote;
pub mod outside;
pub mod cache;
pub mod agent;
pub mod config;

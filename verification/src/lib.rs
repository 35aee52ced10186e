//! A self-registering reverse-proxy node.
//!
//! The node serves an admin-managed table of direct proxy rules, resolves
//! named services through a set of federated directory peers with a local
//! write-back cache, periodically announces its own address to those peers,
//! and forwards matching requests to the resolved upstream.

pub mod announce;
pub mod config;
pub mod dispatch;
pub mod dto;
pub mod err;
pub mod logger;
pub mod resolve;
pub mod table;
pub mod text;
pub mod token;

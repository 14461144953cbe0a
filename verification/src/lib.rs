//! Verified core of a multi-tenant spell-checking HTTP service: usage rollups,
//! civil-date handling, API-key and tenant bookkeeping, request gates,
//! tokenization and the decisions the HTTP layer renders.

pub mod civil;
pub mod auth;
pub mod cli;
pub mod config;
pub mod dictionary;
pub mod engine;
pub mod error;
pub mod handlers;
pub mod store;
pub mod text;
pub mod usage;

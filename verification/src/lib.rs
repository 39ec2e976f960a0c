//! A verified core for a shell-navigation helper: a compact path-expression
//! grammar that resolves short tokens against a bounded history of directory
//! prefixes, and the bounded, deduplicated, order-addressable history cache
//! that stores and persists those prefixes.

pub mod config;
pub mod histmanager;
pub mod pathepitome;
pub mod strutil;

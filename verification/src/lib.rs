//! The decisions of a password store for machines that run agents.

pub mod alike;
pub mod broker;
pub mod commands;
pub mod course;
pub mod crypto;
pub mod disk;
pub mod errands;
pub mod header;
pub mod history;
pub mod import;
pub mod index;
pub mod lookup;
pub mod mcp;
pub mod number;
pub mod order;
pub mod outside;
pub mod problem;
pub mod project;
pub mod promises;
pub mod se;
pub mod setup;
pub mod shape;
pub mod store;
pub mod sync;
pub mod table;
pub mod text;
pub mod travel;
pub mod tree;
pub mod trust;
pub mod yubikey;

//! What a review tool has to know of a Rust project: which packages it depends on and how, which
//! package is meant by a name, which sources of its configuration are to be left out, and how a
//! review is edited.
//!
//! Everything here works on plain values. Reading manifests, registries and the environment is left
//! to the caller, who is told what to look up and hands in what was found.
//!
//! - `graph` is the dependency graph and the questions asked of it, `builder` makes one.
//! - `repo` selects packages, and `config` removes directory sources from a configuration.
//! - `edit` runs an editing session, `walk` a walk over packages.
//! - `platform`, `version`, `text`, `store` and `reach` are what these rest on.
pub mod builder;
pub mod config;
pub mod edit;
pub mod graph;
pub mod platform;
pub mod reach;
pub mod repo;
pub mod store;
pub mod text;
pub mod version;
pub mod walk;

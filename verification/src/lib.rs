//! Scoped resolution of library instances.
//!
//! A component names the interfaces it requires. Configuration layers declare, per
//! architecture and module kind, which instance stands behind an interface and what
//! that instance requires in turn. This crate merges the layers by priority and
//! resolves a component's requirements into a tree of instances.
//!
//! - [`types`]: architectures and module kinds, the two halves of a scope.
//! - [`source`]: the document of a configuration source, and its reading from TOML.
//! - [`config`]: the tables of a layer, with the scoped lookup.
//! - [`blocks`]: how one block of a source becomes entries of a table.
//! - [`layers`]: reading a layer, and composing layers by priority.
//! - [`declaration`]: an instance's identifier and the interfaces it requires.
//! - [`resolver`]: the resolution itself, and what holds of it.
//! - [`render`]: the text of a resolved tree.
//! - [`request`], [`expand`], [`from_macro`], [`from_path`]: requests as text, and
//!   their expansion.
//! - [`ring_log`], [`debug_log`], [`interrupt`]: what the libraries behind the
//!   interfaces compute.
//! - [`text`], [`assoc`]: names and characters, and sequences read as maps.

pub mod text;

pub mod assoc;

pub mod source;

pub mod types;

pub mod config;

pub mod blocks;

pub mod layers;

pub mod declaration;

pub mod resolver;

pub mod render;

pub mod request;

pub mod expand;

pub mod from_macro;

pub mod from_path;

pub mod ring_log;

pub mod debug_log;

pub mod interrupt;

pub use config::{ComponentInstance, ComponentInstances, LibraryInstance, LibraryInstances, LibraryKey};
pub use layers::Config;
pub use resolver::{resolve, ResolutionError, ResolvedNode};
pub use source::{ParseError, SourceValue};
pub use types::{Architecture, Module};

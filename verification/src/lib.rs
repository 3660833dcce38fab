//! Reads the files that are embedded in Bun standalone executables.
//!
//! [`extractor`] finds the payload of an executable and reads its modules; [`containers`] knows
//! where ELF, PE and Mach-O files keep it. [`sourcemap`] decodes the binary sourcemaps of
//! modules, with [`internal_map`] for Bun's compact form of the mappings, [`mappings`] for the
//! standard one and [`vlq`] for the numbers in both. [`paths`] turns the names of modules and
//! sources into paths that stay below an output directory, [`plan`] says which files the
//! extraction of a module writes, and [`report`] describes an executable and its modules.
//!
//! [`graph`] and [`encoding`] hold no code: they say how modules and mappings are laid out, and
//! prove that reading gives back what was laid out. [`sections`] does the same for the sections of
//! ELF, PE and Mach-O files, and [`relocation`] proves that what stands in front of an appended
//! payload does not count.

pub mod bytes;
pub mod containers;
pub mod encoding;
pub mod error;
pub mod extractor;
pub mod format;
pub mod graph;
pub mod internal_map;
pub mod mappings;
pub mod paths;
pub mod plan;
pub mod relocation;
pub mod report;
pub mod sections;
pub mod sourcemap;
pub mod text;
pub mod vlq;

pub use error::ExtractError;
pub use extractor::BunBinary;
pub use format::{
    BunVersion, EmbedMethod, Encoding, FileSide, Loader, Module, ModuleFormat,
};
pub use sourcemap::BunSourceMap;

//! Patching of a compiled Android package: the package-name grammar, the
//! attribute editor of the binary manifest, and the per-entry policy that
//! reassembles the container.
pub mod archive;
pub mod pkgname;
pub mod shape;
pub mod text;
pub mod manifest;

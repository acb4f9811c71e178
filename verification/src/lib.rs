//! Build-time generation logic for SPDK native bindings: discovery of
//! compiler and linker flags from package-config output, translator
//! configuration for the binding generator, link-directive emission, and the
//! gate for the runtime hotplug-filter call.

pub mod discovery;
pub mod generation;
pub mod linker;
pub mod order;
pub mod shim;
pub mod strset;
pub mod tokens;

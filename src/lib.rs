//! A bidirectional dependency graph between objects of a store.
//!
//! A dependent object carries a relationship link naming the one object it
//! depends on; that dependency object carries an inverse index listing, in
//! registration order, every object currently linked to it. The store keeps
//! the two records consistent, destroys dependents transitively when a
//! dependency is destroyed, and marks dependents when a dependency changes.

mod types;
pub mod graph;
pub mod records;
pub mod laws;

pub use types::{Handle, ResourceId, LinkError, AsAssetId};
pub use graph::{DependencyGraph, GraphModel};
pub use records::{
    AssetDependency, AssetDependencyChanged, AssetDependent, Dependency, Dependent,
};

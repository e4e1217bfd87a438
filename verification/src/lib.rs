//! `layerstack`: a small composition kernel for layered scene description.
//!
//! The verified library holds the kernel's data model and rules: interned
//! tokens and paths, variant-qualified spec paths, list operations and their
//! chaining, layers and prim specs in an in-memory store, the arc lists a
//! layer stack resolves, local opinions and value resolution (scalars and
//! token lists), the strength ordering of opinions, stage population
//! (authored prims, ancestors, population masks, the children index), child
//! ordering of composed prims, deactivation and instancing steps,
//! dictionary combining of values, composition dependency records,
//! layer-stack gathering, and the readers of the minimal USDA loader
//! (single lines and whole prim blocks).

pub mod interner;
pub mod path;
pub mod text;
pub mod hashed;
pub mod doc;
pub mod listop;
pub mod store;
pub mod arcs;
pub mod resolve;
pub mod composition;
pub mod prim_index;
pub mod dependency_map;
pub mod spec_path;
pub mod spline;
pub mod stage;
pub mod compose;
pub mod edges;
pub mod instancing;
pub mod loading;
pub mod expansion;
pub mod variants;
pub mod child_order;
pub mod sorting;
pub mod population;
pub mod usda;
pub mod prim_defs;

pub use dependency_map::{ArcDependency, DependencyMap, DependencyMapBuilder, LayerDependency};
pub use doc::{combine_dictionaries, combine_dictionary_chain, InterpolationType, LayerId, Specifier, Value};
pub use interner::{TokenId, TokenInterner};
pub use path::{Path, PathError, PathId, PathInterner};
pub use prim_index::{ArcKind, OpinionKey};
pub use spec_path::{SpecComponent, SpecPath, SpecPathError};
pub use stage::{PopulationMask, Provenance, Resolved, StageOptions};
pub mod layer_stack;

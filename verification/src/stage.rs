//! Stage options and resolution records.
//!
//! Composition is configured by [`StageOptions`]; value resolution hands back
//! [`Resolved`] values, optionally with the [`Provenance`] of the strongest
//! opinion.

use vstd::prelude::*;

use crate::doc::LayerId;
use crate::interner::TokenId;
use crate::path::PathId;

verus! {

/// Provenance information for resolved values.
#[derive(Clone, Copy, Debug, PartialEq, Eq, Structural)]
pub struct Provenance {
    /// The layer whose opinion was strongest.
    pub layer: LayerId,
    /// The spec path in that layer.
    pub spec_path: PathId,
    /// The field that was resolved.
    pub field: TokenId,
}

/// A resolved value (optionally with provenance).
#[derive(Clone, Debug, PartialEq)]
pub struct Resolved<T> {
    /// The resolved value.
    pub value: T,
    /// Optional provenance for inspectors.
    pub provenance: Option<Provenance>,
}

impl<T> Resolved<T> {
    /// Returns a reference to the resolved value.
    pub fn value(&self) -> (r: &T)
        ensures
            *r == self.value,
    {
        &self.value
    }
}

/// Controls partial population.
#[derive(Clone, Debug)]
pub struct PopulationMask {
    /// Include these prim paths (and their ancestors).
    pub included: Vec<PathId>,
}

impl Default for PopulationMask {
    fn default() -> (r: Self)
        ensures
            r.included@.len() == 0,
    {
        PopulationMask { included: Vec::new() }
    }
}

/// Options for stage composition and population.
#[derive(Clone, Debug)]
pub struct StageOptions {
    /// Optional population mask.
    pub mask: Option<PopulationMask>,
    /// Whether resolution APIs return provenance.
    pub with_provenance: bool,
    /// Whether to record dependency edges during composition.
    pub with_dependencies: bool,
}

impl Default for StageOptions {
    fn default() -> (r: Self)
        ensures
            r.mask is None,
            !r.with_provenance,
            !r.with_dependencies,
    {
        StageOptions { mask: None, with_provenance: false, with_dependencies: false }
    }
}

} // verus!

//! The budgets a document is read under.

use vstd::prelude::*;

verus! {

/// What one document may cost.
#[derive(Debug, Clone, Copy, PartialEq, Eq, Structural)]
pub struct ResourceLimits {
    /// How many aliases may be expanded.
    pub max_alias_expansions: usize,
    /// How many events all expanded aliases together may stand for.
    pub max_total_alias_nodes: usize,
    /// How deep collections may nest.
    pub max_depth: usize,
}

impl Default for ResourceLimits {
    fn default() -> (limits: Self)
        ensures
            limits.max_alias_expansions == 1024,
            limits.max_total_alias_nodes == 100_000,
            limits.max_depth == 192,
    {
        ResourceLimits {
            max_alias_expansions: 1024,
            max_total_alias_nodes: 100_000,
            max_depth: 192,
        }
    }
}

/// How a document is read.
#[derive(Debug, Clone, Copy, PartialEq, Eq, Structural)]
pub struct ParserConfig {
    /// The budgets.
    pub limits: ResourceLimits,
    /// Whether `<<` merge keys are expanded. Strict YAML 1.2 has no merge key.
    pub merge_keys: bool,
}

impl Default for ParserConfig {
    fn default() -> (config: Self)
        ensures
            config.limits.max_alias_expansions == 1024,
            config.limits.max_total_alias_nodes == 100_000,
            config.limits.max_depth == 192,
            !config.merge_keys,
    {
        ParserConfig { limits: ResourceLimits::default(), merge_keys: false }
    }
}

} // verus!

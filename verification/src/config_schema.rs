//! The configuration as it is written: rules, abstractions and links between them.
use indexmap::IndexMap;

use vstd::prelude::*;

use crate::config::Severity;

verus! {

#[derive(Debug)]
pub struct RequiredChildrenRuleSchema {
    pub severity: Option<Severity>,
    pub names: Option<Vec<String>>,
    pub pattern: Option<Vec<String>>,
    pub ignore_pattern: Option<Vec<String>>,
}

#[derive(Debug)]
pub struct NoUnabstractionFilesRuleSchema {
    pub severity: Option<Severity>,
}

#[derive(Debug)]
pub struct PublicApiRuleSchema {
    pub severity: Option<Severity>,
    pub names: Option<Vec<String>>,
    pub pattern: Option<Vec<String>>,
    pub ignore_pattern: Option<Vec<String>>,
}

#[derive(Debug)]
pub struct RestrictCrossImportsRuleSchema {
    pub severity: Option<Severity>,
    pub ignore_pattern: Option<Vec<String>>,
}

#[derive(Debug)]
pub struct DependenciesDirectionRuleSchema {
    pub severity: Option<Severity>,
    pub order: Vec<String>,
}

#[derive(Debug)]
pub struct DependenciesPortRuleSchema {
    pub names: Option<Vec<String>>,
    pub severity: Option<Severity>,
    pub pattern: Option<Vec<String>>,
    pub ignore_pattern: Option<Vec<String>>,
}

/// The rules section of an abstraction; each rule kind at most once.
#[derive(Debug)]
pub struct RulesConfigSchema {
    pub required_children: Option<RequiredChildrenRuleSchema>,
    pub no_unabstraction_files: Option<NoUnabstractionFilesRuleSchema>,
    pub public_api: Option<PublicApiRuleSchema>,
    pub restrict_cross_imports: Option<RestrictCrossImportsRuleSchema>,
    pub dependencies_direction: Option<DependenciesDirectionRuleSchema>,
    pub dependencies_port: Option<DependenciesPortRuleSchema>,
}

/// A reference to a reusable abstraction, written `#/abstractions/<name>`.
#[derive(Debug)]
pub struct AbstractionLinkSchema {
    pub ref_: String,
}

/// A child of an abstraction: either a link or an abstraction written in place.
#[derive(Debug)]
pub enum AbstractionFieldValueSchema {
    Link(AbstractionLinkSchema),
    Schema(NamedAbstractionSchema),
}

/// A reusable abstraction; its name is its key in the table of abstractions.
#[derive(Debug)]
pub struct AbstractionSchema {
    pub extend: Option<AbstractionLinkSchema>,
    pub children: Option<IndexMap<String, AbstractionFieldValueSchema>>,
    pub rules: Option<RulesConfigSchema>,
}

/// An abstraction written in place, carrying its own name.
///
/// Its children are kept as a list of (matcher, child) pairs in the order they
/// were written, not in an `IndexMap`: this type is recursive through its
/// children, which the declared `IndexMap` type cannot hold, and resolution
/// ends because these lists shrink along the recursion. The configuration file's
/// maps give distinct matchers; if a list repeats a matcher, each pair is
/// resolved in turn and, when a base is extended, the later one wins.
#[derive(Debug)]
pub struct NamedAbstractionSchema {
    pub name: String,
    pub extend: Option<AbstractionLinkSchema>,
    pub children: Option<Vec<(String, AbstractionFieldValueSchema)>>,
    pub rules: Option<RulesConfigSchema>,
}

/// The configuration file as written.
#[derive(Debug)]
pub struct ConfigSchema {
    /** Root abstraction */
    pub root: AbstractionFieldValueSchema,
    /** Base url */
    pub base_url: Option<String>,
    /** Globs of files to check */
    pub files: Option<Vec<String>>,
    /** Globs of files to ignore */
    pub ignores: Option<Vec<String>>,
    /** Reusable abstractions */
    pub abstractions: Option<IndexMap<String, AbstractionSchema>>,
}

} // verus!

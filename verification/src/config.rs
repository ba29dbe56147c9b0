//! The resolved configuration: abstractions, their children and their rules.
use std::rc::Rc;

use vstd::prelude::*;

verus! {

/// Name of an abstraction.
pub type AbstractionName = String;

/// Glob-like matcher that selects the children of an abstraction.
pub type AbstractionMatcher = String;

/// Shared handle on a resolved abstraction.
pub type AbstractionConfigRef = Rc<AbstractionConfig>;

/// How strongly a rule violation is reported.
#[derive(Debug, Clone, Copy, PartialEq, Eq, Structural)]
pub enum Severity {
    Off,
    Warn,
    Error,
}

/// A lint rule attached to an abstraction.
#[derive(Debug, Clone)]
pub enum RuleConfig {
    RequiredChildren {
        severity: Severity,
        names: Option<Vec<AbstractionName>>,
        pattern: Option<Vec<AbstractionMatcher>>,
        ignore_pattern: Option<Vec<AbstractionMatcher>>,
    },
    NoUnabstractionFiles { severity: Severity },
    RestrictCrossImports { severity: Severity, ignore_pattern: Option<Vec<AbstractionMatcher>> },
    DependenciesDirection { severity: Severity, order: Vec<String> },
    PublicApi {
        severity: Severity,
        names: Option<Vec<AbstractionName>>,
        pattern: Option<Vec<AbstractionMatcher>>,
        ignore_pattern: Option<Vec<AbstractionMatcher>>,
    },
    DependenciesPort {
        severity: Severity,
        names: Option<Vec<AbstractionName>>,
        pattern: Option<Vec<AbstractionMatcher>>,
        ignore_pattern: Option<Vec<AbstractionMatcher>>,
    },
}

/// Mathematical value of an optional list of strings.
pub type StringsModel = Option<Seq<Seq<char>>>;

/// Mathematical value of a [`RuleConfig`].
pub enum RuleModel {
    RequiredChildren {
        severity: Severity,
        names: StringsModel,
        pattern: StringsModel,
        ignore_pattern: StringsModel,
    },
    NoUnabstractionFiles { severity: Severity },
    RestrictCrossImports { severity: Severity, ignore_pattern: StringsModel },
    DependenciesDirection { severity: Severity, order: Seq<Seq<char>> },
    PublicApi {
        severity: Severity,
        names: StringsModel,
        pattern: StringsModel,
        ignore_pattern: StringsModel,
    },
    DependenciesPort {
        severity: Severity,
        names: StringsModel,
        pattern: StringsModel,
        ignore_pattern: StringsModel,
    },
}

impl View for RuleConfig {
    type V = RuleModel;

    open spec fn view(&self) -> RuleModel {
        match self {
            RuleConfig::RequiredChildren { severity, names, pattern, ignore_pattern } => {
                RuleModel::RequiredChildren {
                    severity: *severity,
                    names: names.deep_view(),
                    pattern: pattern.deep_view(),
                    ignore_pattern: ignore_pattern.deep_view(),
                }
            },
            RuleConfig::NoUnabstractionFiles { severity } => RuleModel::NoUnabstractionFiles {
                severity: *severity,
            },
            RuleConfig::RestrictCrossImports { severity, ignore_pattern } => {
                RuleModel::RestrictCrossImports {
                    severity: *severity,
                    ignore_pattern: ignore_pattern.deep_view(),
                }
            },
            RuleConfig::DependenciesDirection { severity, order } => {
                RuleModel::DependenciesDirection { severity: *severity, order: order.deep_view() }
            },
            RuleConfig::PublicApi { severity, names, pattern, ignore_pattern } => {
                RuleModel::PublicApi {
                    severity: *severity,
                    names: names.deep_view(),
                    pattern: pattern.deep_view(),
                    ignore_pattern: ignore_pattern.deep_view(),
                }
            },
            RuleConfig::DependenciesPort { severity, names, pattern, ignore_pattern } => {
                RuleModel::DependenciesPort {
                    severity: *severity,
                    names: names.deep_view(),
                    pattern: pattern.deep_view(),
                    ignore_pattern: ignore_pattern.deep_view(),
                }
            },
        }
    }
}

/// A resolved abstraction: its name, its named children (in order) and its rules.
#[derive(Debug, Clone)]
pub struct AbstractionConfig {
    pub name: AbstractionName,
    pub children: Vec<(AbstractionMatcher, AbstractionConfigRef)>,
    pub rules: Vec<RuleConfig>,
}

/// Mathematical value of an [`AbstractionConfig`]: a finite tree.
pub struct AbstractionModel {
    pub name: Seq<char>,
    pub children: Seq<(Seq<char>, AbstractionModel)>,
    pub rules: Seq<RuleModel>,
}

/// The tree that an abstraction denotes, following its shared children.
pub open spec fn abstraction_model(a: AbstractionConfig) -> AbstractionModel
    decreases a,
{
    AbstractionModel {
        name: a.name@,
        children: Seq::new(
            a.children@.len(),
            |i: int|
                if 0 <= i < a.children@.len() {
                    proof {
                        assert(decreases_to!(a => a.children));
                        assert(decreases_to!(a.children => a.children@));
                        assert(decreases_to!(a.children@ => a.children@[i]));
                        assert(decreases_to!(a.children@[i] => a.children@[i].1));
                    }
                    (a.children@[i].0@, abstraction_model(*a.children@[i].1))
                } else {
                    (Seq::empty(), empty_abstraction(Seq::empty()))
                },
        ),
        rules: a.rules@.map_values(|r: RuleConfig| r@),
    }
}

/// The children of a list, each by its matcher's characters and its tree.
pub open spec fn children_view(children: Seq<(String, Rc<AbstractionConfig>)>) -> Seq<
    (Seq<char>, AbstractionModel),
> {
    children.map_values(|c: (String, Rc<AbstractionConfig>)| (c.0@, c.1@))
}

/// The rules of a list, each by its value.
pub open spec fn rules_view(rules: Seq<RuleConfig>) -> Seq<RuleModel> {
    rules.map_values(|r: RuleConfig| r@)
}

/// The tree of an abstraction, field by field.
pub proof fn lemma_abstraction_model(a: &AbstractionConfig)
    ensures
        a@.name == a.name@,
        a@.children == children_view(a.children@),
        a@.rules == rules_view(a.rules@),
{
    assert(a@.children =~= children_view(a.children@));
    assert(a@.rules =~= rules_view(a.rules@));
}

impl View for AbstractionConfig {
    type V = AbstractionModel;

    open spec fn view(&self) -> AbstractionModel {
        abstraction_model(*self)
    }
}

/// An abstraction with the given name, no children and no rules.
pub open spec fn empty_abstraction(name: Seq<char>) -> AbstractionModel {
    AbstractionModel { name, children: Seq::empty(), rules: Seq::empty() }
}

impl AbstractionConfig {
    /// Creates an abstraction with the given name and neither children nor rules.
    pub fn new(name: AbstractionName) -> (res: Self)
        ensures
            res@ == empty_abstraction(name@),
    {
        let res = Self { name, children: Vec::new(), rules: Vec::new() };
        assert(res@.children =~= Seq::<(Seq<char>, AbstractionModel)>::empty());
        assert(res@.rules =~= Seq::<RuleModel>::empty());
        res
    }
}

/// The whole resolved configuration.
#[derive(Debug)]
pub struct Config {
    /** Root abstraction */
    pub root: AbstractionConfigRef,
    /** Base url */
    pub base_url: String,
    /** Globs of files to check */
    pub files: Vec<String>,
    /** Globs of files to ignore */
    pub ignores: Vec<String>,
}

/// Mathematical value of a [`Config`].
pub struct ConfigModel {
    pub root: AbstractionModel,
    pub base_url: Seq<char>,
    pub files: Seq<Seq<char>>,
    pub ignores: Seq<Seq<char>>,
}

impl View for Config {
    type V = ConfigModel;

    open spec fn view(&self) -> ConfigModel {
        ConfigModel {
            root: self.root@,
            base_url: self.base_url@,
            files: self.files.deep_view(),
            ignores: self.ignores.deep_view(),
        }
    }
}

} // verus!

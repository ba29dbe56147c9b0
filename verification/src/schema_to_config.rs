//! Turning a [`ConfigSchema`] into a [`Config`], resolving the links between
//! abstractions. What each step computes is stated in [`crate::resolution`].
use std::rc::Rc;

use vstd::prelude::*;

use indexmap::IndexMap;

use crate::config::{
    children_view, lemma_abstraction_model, rules_view, AbstractionConfig, AbstractionConfigRef,
    AbstractionModel, Config, ConfigModel, RuleConfig, RuleModel, Severity,
};
use crate::config_schema::{
    AbstractionFieldValueSchema, AbstractionLinkSchema, AbstractionSchema, ConfigSchema,
    NamedAbstractionSchema, RulesConfigSchema,
};
use crate::error::ConfigError;
use crate::laws::{
    has_rank, kind_written, law_children_keep_base_order, law_rules_as_written,
    ranks_increasing_below,
    rule_as_written, rule_rank,
};
use crate::index_map::{
    cache_contents, cache_get, cache_insert, cache_keys, cache_new, child_table_entries, schema_entries,
    schema_table_get, schema_table_new, AbstractionCache,
};
use crate::resolution::{
    add_keys, lemma_add_keys_concat, lemma_add_keys_none, lemma_add_keys_one,
    base_error, dependencies_direction_rule, dependencies_port_rule, drop_kind, entries_size,
    field_size, first_index_of, lemma_entry_size, lemma_first_index_of, lemma_inline_size,
    lemma_lookup_names, lemma_union_assoc, lemma_union_empty, lemma_union_insert,
    lemma_union_single, lemma_unresolved_grow, link_error, link_prefix, link_target,
    merge_children, merge_rules, no_unabstraction_files_rule, optional_rules_model,
    public_api_rule, remove_all, required_children_rule, resolve_base, resolve_body,
    resolve_children, resolve_field, resolve_inline, resolve_named, restrict_cross_imports_rule,
    rules_model, same_rule_kind, schema_names, unlisted_uncached, severity_or_error, table_children, unresolved,
    written_children, Cache, ChildEntries, Resolution, SchemaEntries,
};

verus! {

/// What a configuration falls back to where it leaves something out.
pub struct ConfigDefaults {
    base_url: String,
    files: Vec<String>,
    ignores: Vec<String>,
}

/// Mathematical value of [`ConfigDefaults`].
pub struct DefaultsModel {
    pub base_url: Seq<char>,
    pub files: Seq<Seq<char>>,
    pub ignores: Seq<Seq<char>>,
}

impl View for ConfigDefaults {
    type V = DefaultsModel;

    closed spec fn view(&self) -> DefaultsModel {
        DefaultsModel {
            base_url: self.base_url@,
            files: self.files.deep_view(),
            ignores: self.ignores.deep_view(),
        }
    }
}

impl Default for ConfigDefaults {
    /// Base url `.`; TypeScript and JavaScript sources; `node_modules` ignored.
    fn default() -> (res: Self)
        ensures
            res@.base_url == "."@,
            res@.files == seq!["**/*.ts"@, "**/*.tsx"@, "**/*.js"@, "**/*.jsx"@],
            res@.ignores == seq!["**/node_modules/**"@],
    {
        let mut files: Vec<String> = Vec::new();
        files.push(String::from_str("**/*.ts"));
        files.push(String::from_str("**/*.tsx"));
        files.push(String::from_str("**/*.js"));
        files.push(String::from_str("**/*.jsx"));
        let mut ignores: Vec<String> = Vec::new();
        ignores.push(String::from_str("**/node_modules/**"));
        let res = Self { base_url: String::from_str("."), files, ignores };
        assert(res@.files =~= seq!["**/*.ts"@, "**/*.tsx"@, "**/*.js"@, "**/*.jsx"@]);
        assert(res@.ignores =~= seq!["**/node_modules/**"@]);
        res
    }
}

/// Whether the characters of `s` from `at` on start with those of `pat`.
fn matches_at(s: &str, pat: &str, at: usize, s_len: usize, pat_len: usize) -> (res: bool)
    requires
        s_len == s@.len(),
        pat_len == pat@.len(),
        at + pat_len <= s_len,
    ensures
        res == (s@.subrange(at as int, at + pat_len) == pat@),
{
    let mut j: usize = 0;
    while j < pat_len
        invariant
            s_len == s@.len(),
            pat_len == pat@.len(),
            at + pat_len <= s_len,
            j <= pat_len,
            forall|k: int| 0 <= k < j ==> s@[at + k] == pat@[k],
        decreases pat_len - j,
    {
        if s.get_char(at + j) != pat.get_char(j) {
            assert(s@.subrange(at as int, at + pat_len)[j as int] != pat@[j as int]);
            return false;
        }
        j = j + 1;
    }
    assert(s@.subrange(at as int, at + pat_len) =~= pat@);
    true
}

/// The name a link refers to: the link with every `#/abstractions/` removed.
pub fn ref_to_name(ref_name: &str) -> (res: String)
    ensures
        res@ == link_target(ref_name@),
{
    let pat = "#/abstractions/";
    let s_len = ref_name.unicode_len();
    let pat_len = pat.unicode_len();
    proof {
        reveal_strlit("#/abstractions/");
    }
    let ghost s = ref_name@;
    let mut out = String::new();
    let mut start: usize = 0;
    let mut i: usize = 0;
    assert(s.subrange(0, s_len as int) =~= s);
    while i < s_len
        invariant
            s == ref_name@,
            s_len == s.len(),
            pat_len == pat@.len(),
            pat@ == link_prefix(),
            pat_len > 0,
            start <= i <= s_len,
            remove_all(s, link_prefix()) == out@ + s.subrange(start as int, i as int) + remove_all(
                s.subrange(i as int, s_len as int),
                link_prefix(),
            ),
        decreases s_len - i,
    {
        let ghost rest = s.subrange(i as int, s_len as int);
        if pat_len <= s_len - i && matches_at(ref_name, pat, i, s_len, pat_len) {
            assert(rest.subrange(0, pat_len as int) =~= s.subrange(i as int, i + pat_len));
            assert(rest.subrange(pat_len as int, rest.len() as int) =~= s.subrange(
                i + pat_len,
                s_len as int,
            ));
            let piece = ref_name.substring_char(start, i);
            out.append(piece);
            i = i + pat_len;
            start = i;
            assert(s.subrange(start as int, i as int) =~= Seq::<char>::empty());
        } else {
            assert(!(0 < pat_len <= rest.len() && rest.subrange(0, pat_len as int) == pat@)) by {
                if pat_len <= s_len - i {
                    assert(rest.subrange(0, pat_len as int) =~= s.subrange(i as int, i + pat_len));
                }
            }
            assert(rest.subrange(1, rest.len() as int) =~= s.subrange(i + 1, s_len as int));
            assert(s.subrange(start as int, i + 1) =~= s.subrange(start as int, i as int)
                + seq![rest[0]]);
            i = i + 1;
        }
    }
    let piece = ref_name.substring_char(start, s_len);
    out.append(piece);
    assert(remove_all(s.subrange(s_len as int, s_len as int), link_prefix()) =~= Seq::<
        char,
    >::empty());
    assert(out@ =~= remove_all(s, link_prefix()));
    out
}

proof fn lemma_rules_view_push(rules: Seq<RuleConfig>, r: RuleConfig)
    ensures
        rules_view(rules.push(r)) == rules_view(rules).push(r@),
{
    assert(rules_view(rules.push(r)) =~= rules_view(rules).push(r@));
}

/// Whether two rules are of the same kind.
fn is_same_rule_type(rule1: &RuleConfig, rule2: &RuleConfig) -> (res: bool)
    ensures
        res == same_rule_kind(rule1@, rule2@),
{
    match (rule1, rule2) {
        (RuleConfig::RequiredChildren { .. }, RuleConfig::RequiredChildren { .. }) => true,
        (RuleConfig::NoUnabstractionFiles { .. }, RuleConfig::NoUnabstractionFiles { .. }) => true,
        (RuleConfig::RestrictCrossImports { .. }, RuleConfig::RestrictCrossImports { .. }) => true,
        (RuleConfig::PublicApi { .. }, RuleConfig::PublicApi { .. }) => true,
        (RuleConfig::DependenciesPort { .. }, RuleConfig::DependenciesPort { .. }) => true,
        (RuleConfig::DependenciesDirection { .. }, RuleConfig::DependenciesDirection { .. }) => {
            true
        },
        _ => false,
    }
}

/// A copy of a list of strings.
fn copy_strings(v: &Vec<String>) -> (res: Vec<String>)
    ensures
        res.deep_view() == v.deep_view(),
{
    let mut res: Vec<String> = Vec::new();
    let mut i: usize = 0;
    while i < v.len()
        invariant
            i <= v.len(),
            res@.len() == i,
            forall|k: int| 0 <= k < i ==> (#[trigger] res@[k])@ == v@[k]@,
        decreases v.len() - i,
    {
        res.push(v[i].clone());
        i = i + 1;
    }
    assert(res.deep_view() =~= v.deep_view());
    res
}

/// A copy of an optional list of strings.
fn copy_optional_strings(v: &Option<Vec<String>>) -> (res: Option<Vec<String>>)
    ensures
        res.deep_view() == v.deep_view(),
{
    match v {
        Some(v) => Some(copy_strings(v)),
        None => None,
    }
}

/// A rule's severity, `Error` where none is written.
fn severity_or_default(s: &Option<Severity>) -> (res: Severity)
    ensures
        res == severity_or_error(*s),
{
    match s {
        Some(v) => *v,
        None => Severity::Error,
    }
}

/// A copy of a rule.
fn copy_rule(r: &RuleConfig) -> (res: RuleConfig)
    ensures
        res@ == r@,
{
    match r {
        RuleConfig::RequiredChildren { severity, names, pattern, ignore_pattern } => {
            RuleConfig::RequiredChildren {
                severity: *severity,
                names: copy_optional_strings(names),
                pattern: copy_optional_strings(pattern),
                ignore_pattern: copy_optional_strings(ignore_pattern),
            }
        },
        RuleConfig::NoUnabstractionFiles { severity } => RuleConfig::NoUnabstractionFiles {
            severity: *severity,
        },
        RuleConfig::RestrictCrossImports { severity, ignore_pattern } => {
            RuleConfig::RestrictCrossImports {
                severity: *severity,
                ignore_pattern: copy_optional_strings(ignore_pattern),
            }
        },
        RuleConfig::DependenciesDirection { severity, order } => {
            RuleConfig::DependenciesDirection { severity: *severity, order: copy_strings(order) }
        },
        RuleConfig::PublicApi { severity, names, pattern, ignore_pattern } => {
            RuleConfig::PublicApi {
                severity: *severity,
                names: copy_optional_strings(names),
                pattern: copy_optional_strings(pattern),
                ignore_pattern: copy_optional_strings(ignore_pattern),
            }
        },
        RuleConfig::DependenciesPort { severity, names, pattern, ignore_pattern } => {
            RuleConfig::DependenciesPort {
                severity: *severity,
                names: copy_optional_strings(names),
                pattern: copy_optional_strings(pattern),
                ignore_pattern: copy_optional_strings(ignore_pattern),
            }
        },
    }
}

/// The rules that a rules section writes, in the fixed order of [`rules_model`],
/// each with severity `Error` where none is written.
pub fn convert_rules(rules: &RulesConfigSchema) -> (res: Vec<RuleConfig>)
    ensures
        rules_view(res@) == rules_model(*rules),
        forall|i: int| 0 <= i < res.len() ==> rule_as_written(#[trigger] res@[i]@, *rules),
        forall|k: int| 0 <= k < 6 && kind_written(*rules, k) ==> #[trigger] has_rank(rules_view(res@), k),
        ranks_increasing_below(rules_view(res@), 6),
{
    let mut result: Vec<RuleConfig> = Vec::new();
    push_rule(&mut result, required_children_of(rules));
    push_rule(&mut result, no_unabstraction_files_of(rules));
    push_rule(&mut result, restrict_cross_imports_of(rules));
    push_rule(&mut result, public_api_of(rules));
    push_rule(&mut result, dependencies_port_of(rules));
    push_rule(&mut result, dependencies_direction_of(rules));
    assert(rules_view(result@) =~= rules_model(*rules));
    proof {
        law_rules_as_written(*rules);
        assert forall|i: int| 0 <= i < result.len() implies rule_as_written(
            #[trigger] result@[i]@,
            *rules,
        ) by {
            assert(rules_view(result@)[i] == result@[i]@);
        }
    }
    result
}

/// The rules of an optional rule.
pub open spec fn optional_rule(r: Option<RuleConfig>) -> Seq<RuleModel> {
    match r {
        Some(r) => seq![r@],
        None => Seq::empty(),
    }
}

/// Appends the rule, if there is one.
fn push_rule(result: &mut Vec<RuleConfig>, rule: Option<RuleConfig>)
    ensures
        rules_view(final(result)@) == rules_view(old(result)@) + optional_rule(rule),
{
    if let Some(rule) = rule {
        proof {
            lemma_rules_view_push(result@, rule);
        }
        result.push(rule);
    }
    assert(rules_view(result@) =~= rules_view(old(result)@) + optional_rule(rule));
}

fn required_children_of(rules: &RulesConfigSchema) -> (res: Option<RuleConfig>)
    ensures
        optional_rule(res) == required_children_rule(*rules),
        res is Some <==> kind_written(*rules, 0),
        (res matches Some(x) ==> rule_rank(x@) == 0 && rule_as_written(x@, *rules)),
{
    match &rules.required_children {
        Some(x) => Some(
            RuleConfig::RequiredChildren {
                severity: severity_or_default(&x.severity),
                pattern: copy_optional_strings(&x.pattern),
                names: copy_optional_strings(&x.names),
                ignore_pattern: copy_optional_strings(&x.ignore_pattern),
            },
        ),
        None => None,
    }
}

fn no_unabstraction_files_of(rules: &RulesConfigSchema) -> (res: Option<RuleConfig>)
    ensures
        optional_rule(res) == no_unabstraction_files_rule(*rules),
        res is Some <==> kind_written(*rules, 1),
        (res matches Some(x) ==> rule_rank(x@) == 1 && rule_as_written(x@, *rules)),
{
    match &rules.no_unabstraction_files {
        Some(x) => Some(RuleConfig::NoUnabstractionFiles { severity: severity_or_default(&x.severity) }),
        None => None,
    }
}

fn restrict_cross_imports_of(rules: &RulesConfigSchema) -> (res: Option<RuleConfig>)
    ensures
        optional_rule(res) == restrict_cross_imports_rule(*rules),
        res is Some <==> kind_written(*rules, 2),
        (res matches Some(x) ==> rule_rank(x@) == 2 && rule_as_written(x@, *rules)),
{
    match &rules.restrict_cross_imports {
        Some(x) => Some(
            RuleConfig::RestrictCrossImports {
                severity: severity_or_default(&x.severity),
                ignore_pattern: copy_optional_strings(&x.ignore_pattern),
            },
        ),
        None => None,
    }
}

fn public_api_of(rules: &RulesConfigSchema) -> (res: Option<RuleConfig>)
    ensures
        optional_rule(res) == public_api_rule(*rules),
        res is Some <==> kind_written(*rules, 3),
        (res matches Some(x) ==> rule_rank(x@) == 3 && rule_as_written(x@, *rules)),
{
    match &rules.public_api {
        Some(x) => Some(
            RuleConfig::PublicApi {
                severity: severity_or_default(&x.severity),
                names: copy_optional_strings(&x.names),
                pattern: copy_optional_strings(&x.pattern),
                ignore_pattern: copy_optional_strings(&x.ignore_pattern),
            },
        ),
        None => None,
    }
}

fn dependencies_port_of(rules: &RulesConfigSchema) -> (res: Option<RuleConfig>)
    ensures
        optional_rule(res) == dependencies_port_rule(*rules),
        res is Some <==> kind_written(*rules, 4),
        (res matches Some(x) ==> rule_rank(x@) == 4 && rule_as_written(x@, *rules)),
{
    match &rules.dependencies_port {
        Some(x) => Some(
            RuleConfig::DependenciesPort {
                severity: severity_or_default(&x.severity),
                names: copy_optional_strings(&x.names),
                pattern: copy_optional_strings(&x.pattern),
                ignore_pattern: copy_optional_strings(&x.ignore_pattern),
            },
        ),
        None => None,
    }
}

fn dependencies_direction_of(rules: &RulesConfigSchema) -> (res: Option<RuleConfig>)
    ensures
        optional_rule(res) == dependencies_direction_rule(*rules),
        res is Some <==> kind_written(*rules, 5),
        (res matches Some(x) ==> rule_rank(x@) == 5 && rule_as_written(x@, *rules)),
{
    match &rules.dependencies_direction {
        Some(x) => Some(
            RuleConfig::DependenciesDirection {
                severity: severity_or_default(&x.severity),
                order: copy_strings(&x.order),
            },
        ),
        None => None,
    }
}

/// `Rc::clone`: another handle on the same abstraction.
#[verifier::external_body]
fn rc_clone(r: &AbstractionConfigRef) -> (res: AbstractionConfigRef)
    ensures
        res == *r,
{
    Rc::clone(r)
}

/// A copy of a list of children, sharing the child abstractions.
fn copy_children(v: &Vec<(String, AbstractionConfigRef)>) -> (res: Vec<(String, AbstractionConfigRef)>)
    ensures
        children_view(res@) == children_view(v@),
{
    let mut res: Vec<(String, AbstractionConfigRef)> = Vec::new();
    let mut i: usize = 0;
    while i < v.len()
        invariant
            i <= v.len(),
            res@.len() == i,
            forall|k: int| 0 <= k < i ==> (#[trigger] res@[k]).0@ == v@[k].0@ && res@[k].1 == v@[k].1,
        decreases v.len() - i,
    {
        let entry = &v[i];
        res.push((entry.0.clone(), rc_clone(&entry.1)));
        i = i + 1;
    }
    assert(children_view(res@) =~= children_view(v@));
    res
}

/// A copy of a list of rules.
fn copy_rules(v: &Vec<RuleConfig>) -> (res: Vec<RuleConfig>)
    ensures
        rules_view(res@) == rules_view(v@),
{
    let mut res: Vec<RuleConfig> = Vec::new();
    let mut i: usize = 0;
    while i < v.len()
        invariant
            i <= v.len(),
            res@.len() == i,
            forall|k: int| 0 <= k < i ==> (#[trigger] res@[k])@ == v@[k]@,
        decreases v.len() - i,
    {
        res.push(copy_rule(&v[i]));
        i = i + 1;
    }
    assert(rules_view(res@) =~= rules_view(v@));
    res
}

/// Position of the first child under `matcher`.
fn child_position(children: &Vec<(String, AbstractionConfigRef)>, matcher: &String) -> (res: Option<usize>)
    ensures
        (match res {
            Some(i) => first_index_of(children_view(children@), matcher@) == Some(i as int),
            None => first_index_of(children_view(children@), matcher@) is None,
        }),
{
    let ghost cv = children_view(children@);
    let mut i: usize = 0;
    assert(cv.skip(0) =~= cv);
    while i < children.len()
        invariant
            i <= children.len(),
            cv == children_view(children@),
            first_index_of(cv, matcher@) == (match first_index_of(cv.skip(i as int), matcher@) {
                Some(j) => Some(j + i),
                None => None::<int>,
            }),
        decreases children.len() - i,
    {
        assert(cv.skip(i as int)[0] == cv[i as int]);
        if children[i].0 == *matcher {
            return Some(i);
        }
        assert(cv.skip(i as int).drop_first() =~= cv.skip(i + 1));
        i = i + 1;
    }
    None
}

/// The children of a base overridden, one by one in order, by `own`.
fn merge_child_lists(
    base: &Vec<(String, AbstractionConfigRef)>,
    own: &Vec<(String, AbstractionConfigRef)>,
) -> (res: Vec<(String, AbstractionConfigRef)>)
    ensures
        children_view(res@) == merge_children(children_view(base@), children_view(own@)),
        res.len() >= base.len(),
        forall|i: int| 0 <= i < base.len() ==> (#[trigger] res@[i]).0@ == base@[i].0@,
{
    let mut merged = copy_children(base);
    let ghost b = children_view(base@);
    let ghost o = children_view(own@);
    let mut i: usize = 0;
    assert(o.take(0) =~= Seq::<(Seq<char>, AbstractionModel)>::empty());
    while i < own.len()
        invariant
            i <= own.len(),
            o == children_view(own@),
            b == children_view(base@),
            children_view(merged@) == merge_children(b, o.take(i as int)),
        decreases own.len() - i,
    {
        let entry = &own[i];
        let child = (entry.0.clone(), rc_clone(&entry.1));
        assert(o.take(i + 1).drop_last() =~= o.take(i as int));
        let ghost cx = (child.0@, child.1@);
        let ghost before = children_view(merged@);
        assert(o.take(i + 1).last() == cx);
        proof {
            lemma_first_index_of(before, cx.0);
        }
        match child_position(&merged, &entry.0) {
            Some(pos) => {
                merged.set(pos, child);
                assert(children_view(merged@) =~= before.update(pos as int, cx));
            },
            None => {
                merged.push(child);
                assert(children_view(merged@) =~= before.push(cx));
            },
        }
        i = i + 1;
    }
    assert(o.take(own.len() as int) =~= o);
    proof {
        law_children_keep_base_order(b, o);
        assert forall|i: int| 0 <= i < base.len() implies (#[trigger] merged@[i]).0@ == base@[i].0@ by {
            assert(children_view(merged@)[i].0 == b[i].0);
            assert(children_view(merged@)[i].0 == merged@[i].0@);
            assert(b[i].0 == base@[i].0@);
        }
    }
    merged
}

/// `rules` without the rules of the same kind as `rule`, in order.
fn without_kind(rules: &Vec<RuleConfig>, rule: &RuleConfig) -> (res: Vec<RuleConfig>)
    ensures
        rules_view(res@) == drop_kind(rules_view(rules@), rule@),
{
    let ghost rv = rules_view(rules@);
    let mut res: Vec<RuleConfig> = Vec::new();
    let mut i: usize = 0;
    assert(rv.take(0) =~= Seq::<RuleModel>::empty());
    while i < rules.len()
        invariant
            i <= rules.len(),
            rv == rules_view(rules@),
            rules_view(res@) == drop_kind(rv.take(i as int), rule@),
        decreases rules.len() - i,
    {
        assert(rv.take(i + 1).drop_last() =~= rv.take(i as int));
        assert(rv.take(i + 1).last() == rules@[i as int]@);
        if !is_same_rule_type(&rules[i], rule) {
            let kept = copy_rule(&rules[i]);
            proof {
                lemma_rules_view_push(res@, kept);
            }
            res.push(kept);
        }
        i = i + 1;
    }
    assert(rv.take(rules.len() as int) =~= rv);
    res
}

/// The rules of a base overridden, one by one in order, by `own`.
fn merge_rule_lists(base: &Vec<RuleConfig>, own: &Vec<RuleConfig>) -> (res: Vec<RuleConfig>)
    ensures
        rules_view(res@) == merge_rules(rules_view(base@), rules_view(own@)),
{
    let mut merged = copy_rules(base);
    let ghost o = rules_view(own@);
    let mut i: usize = 0;
    assert(o.take(0) =~= Seq::<RuleModel>::empty());
    while i < own.len()
        invariant
            i <= own.len(),
            o == rules_view(own@),
            rules_view(merged@) == merge_rules(rules_view(base@), o.take(i as int)),
        decreases own.len() - i,
    {
        assert(o.take(i + 1).drop_last() =~= o.take(i as int));
        assert(o.take(i + 1).last() == own@[i as int]@);
        let mut kept = without_kind(&merged, &own[i]);
        let rule = copy_rule(&own[i]);
        proof {
            lemma_rules_view_push(kept@, rule);
        }
        kept.push(rule);
        merged = kept;
        i = i + 1;
    }
    assert(o.take(own.len() as int) =~= o);
    merged
}

/// How an executable resolution step reports `r`: the abstraction it resolved, or
/// `InvalidConfig` with `r`'s message; either way the cache has grown by exactly
/// what `r` wrote, its keys in the order `r` wrote them.
pub open spec fn realizes(
    res: Result<AbstractionConfigRef, ConfigError>,
    r: Resolution<AbstractionModel>,
    before: AbstractionCache,
    after: AbstractionCache,
) -> bool {
    &&& match r.0 {
        Ok(m) => res matches Ok(a) && a@ == m,
        Err(msg) => res matches Err(ConfigError::InvalidConfig(s)) && s@ == msg,
    }
    &&& cache_contents(after) == cache_contents(before).union_prefer_right(r.1)
    &&& cache_keys(after) == add_keys(cache_keys(before), r.2)
}

/// The children resolved so far (`done`, which wrote `written` under `keys`)
/// followed by the resolution of the remaining ones.
pub open spec fn prepend_resolved(
    done: Seq<(Seq<char>, AbstractionModel)>,
    written: Cache,
    keys: Seq<Seq<char>>,
    rest: Resolution<Seq<(Seq<char>, AbstractionModel)>>,
) -> Resolution<Seq<(Seq<char>, AbstractionModel)>> {
    (
        match rest.0 {
            Ok(ms) => Ok(done + ms),
            Err(e) => Err(e),
        },
        written.union_prefer_right(rest.1),
        keys + rest.2,
    )
}

proof fn lemma_prepend_step(
    done: Seq<(Seq<char>, AbstractionModel)>,
    written: Cache,
    keys: Seq<Seq<char>>,
    x: (Seq<char>, AbstractionModel),
    wrote: Cache,
    wrote_keys: Seq<Seq<char>>,
    rest: Resolution<Seq<(Seq<char>, AbstractionModel)>>,
)
    ensures
        prepend_resolved(
            done,
            written,
            keys,
            (
                match rest.0 {
                    Ok(ms) => Ok(seq![x] + ms),
                    Err(e) => Err(e),
                },
                wrote.union_prefer_right(rest.1),
                wrote_keys + rest.2,
            ),
        ) == prepend_resolved(
            done.push(x),
            written.union_prefer_right(wrote),
            keys + wrote_keys,
            rest,
        ),
{
    lemma_union_assoc(written, wrote, rest.1);
    assert(keys + (wrote_keys + rest.2) =~= (keys + wrote_keys) + rest.2);
    if let Ok(ms) = rest.0 {
        assert(done + (seq![x] + ms) =~= done.push(x) + ms);
    }
}

/// The children as (matcher, child) pairs.
pub open spec fn ref_entries(v: Seq<(&String, &AbstractionFieldValueSchema)>) -> ChildEntries {
    v.map_values(|p: (&String, &AbstractionFieldValueSchema)| (p.0@, *p.1))
}

/// The (matcher, child) pairs of a list, by reference.
fn written_refs<'a>(v: &'a Vec<(String, AbstractionFieldValueSchema)>) -> (res: Vec<
    (&'a String, &'a AbstractionFieldValueSchema),
>)
    ensures
        ref_entries(res@) == v@.map_values(
            |p: (String, AbstractionFieldValueSchema)| (p.0@, p.1),
        ),
{
    let mut res: Vec<(&'a String, &'a AbstractionFieldValueSchema)> = Vec::new();
    let mut i: usize = 0;
    while i < v.len()
        invariant
            i <= v.len(),
            res@.len() == i,
            forall|k: int| 0 <= k < i ==> (#[trigger] res@[k]).0@ == v@[k].0@ && *res@[k].1 == v@[k].1,
        decreases v.len() - i,
    {
        let entry = &v[i];
        res.push((&entry.0, &entry.1));
        i = i + 1;
    }
    assert(ref_entries(res@) =~= v@.map_values(
        |p: (String, AbstractionFieldValueSchema)| (p.0@, p.1),
    ));
    res
}

/// The error for a link to an abstraction that the table lacks.
fn link_error_message(r: &String) -> (res: String)
    ensures
        res@ == link_error(r@),
{
    String::from_str("Abstraction not found by link: ").concat(r.as_str())
}

/// The error for an `extend` of an abstraction that the table lacks.
fn base_error_message(r: &String) -> (res: String)
    ensures
        res@ == base_error(r@),
{
    String::from_str("Base abstraction not found: ").concat(r.as_str())
}

/// Resolves a child: one written in place as such; a link by its text in the
/// cache, else by the name it refers to in the table of abstractions.
fn convert_abstraction_field_value(
    cache: &mut AbstractionCache,
    link: &AbstractionFieldValueSchema,
    abstractions: &IndexMap<String, AbstractionSchema>,
) -> (res: Result<AbstractionConfigRef, ConfigError>)
    ensures
        realizes(
            res,
            resolve_field(schema_entries(*abstractions), cache_contents(*old(cache)), *link),
            *old(cache),
            *final(cache),
        ),
    decreases unresolved(schema_entries(*abstractions), cache_contents(*cache)), field_size(*link),
{
    let ghost abs = schema_entries(*abstractions);
    match link {
        AbstractionFieldValueSchema::Schema(schema) => {
            proof {
                lemma_inline_size(*schema);
            }
            convert_inline_abstraction_schema(cache, schema, abstractions)
        },
        AbstractionFieldValueSchema::Link(link) => {
            if let Some(config) = cache_get(cache, link.ref_.as_str()) {
                proof {
                    lemma_union_empty(cache_contents(*cache));
                    lemma_add_keys_none(cache_keys(*cache));
                }
                return Ok(config);
            }
            let ref_name = ref_to_name(link.ref_.as_str());
            match schema_table_get(abstractions, ref_name.as_str()) {
                Some(schema) => {
                    proof {
                        lemma_lookup_names(abs, ref_name@);
                    }
                    convert_abstraction_schema(cache, schema, abstractions, ref_name.as_str())
                },
                None => {
                    proof {
                        lemma_union_empty(cache_contents(*cache));
                        lemma_add_keys_none(cache_keys(*cache));
                    }
                    Err(ConfigError::InvalidConfig(link_error_message(&link.ref_)))
                },
            }
        },
    }
}

/// Resolves the reusable abstraction `schema` under `name`: the cached one if
/// there is one; else it is cached as an empty placeholder, built, and cached.
fn convert_abstraction_schema(
    cache: &mut AbstractionCache,
    schema: &AbstractionSchema,
    abstractions: &IndexMap<String, AbstractionSchema>,
    name: &str,
) -> (res: Result<AbstractionConfigRef, ConfigError>)
    ensures
        realizes(
            res,
            resolve_named(schema_entries(*abstractions), cache_contents(*old(cache)), *schema, name@),
            *old(cache),
            *final(cache),
        ),
    decreases
        unresolved(schema_entries(*abstractions), cache_contents(*cache)) + unlisted_uncached(
            schema_entries(*abstractions),
            cache_contents(*cache),
            name@,
        ),
        0nat,
{
    let ghost abs = schema_entries(*abstractions);
    let ghost c0 = cache_contents(*cache);
    let ghost k0 = cache_keys(*cache);
    if let Some(cached) = cache_get(cache, name) {
        proof {
            lemma_union_empty(c0);
            lemma_add_keys_none(k0);
        }
        return Ok(cached);
    }
    let empty_abstraction = Rc::new(AbstractionConfig::new(String::from_str(name)));
    cache_insert(cache, String::from_str(name), empty_abstraction);
    let ghost placeholder = map![name@ => crate::config::empty_abstraction(name@)];
    proof {
        lemma_union_single(c0, name@, crate::config::empty_abstraction(name@));
        lemma_add_keys_one(k0, name@);
        lemma_unresolved_grow(abs, c0, placeholder);
    }
    let children = match &schema.children {
        Some(m) => child_table_entries(m),
        None => Vec::new(),
    };
    assert(ref_entries(children@) =~= table_children(*schema));
    let name_string = String::from_str(name);
    let res = build_abstraction(
        cache,
        &name_string,
        &schema.extend,
        &children,
        &schema.rules,
        abstractions,
    );
    proof {
        let r = resolve_body(
            abs,
            c0.union_prefer_right(placeholder),
            name@,
            schema.extend,
            table_children(*schema),
            schema.rules,
        );
        lemma_union_assoc(c0, placeholder, r.1);
        lemma_add_keys_concat(k0, seq![name@], r.2);
    }
    res
}

/// Resolves an abstraction written in place, under its own name: the cached one
/// if there is one; else it is cached as an empty placeholder, built, and cached.
fn convert_inline_abstraction_schema(
    cache: &mut AbstractionCache,
    schema: &NamedAbstractionSchema,
    abstractions: &IndexMap<String, AbstractionSchema>,
) -> (res: Result<AbstractionConfigRef, ConfigError>)
    ensures
        realizes(
            res,
            resolve_inline(schema_entries(*abstractions), cache_contents(*old(cache)), *schema),
            *old(cache),
            *final(cache),
        ),
    decreases
        unresolved(schema_entries(*abstractions), cache_contents(*cache)),
        entries_size(written_children(*schema)) + 3,
{
    let ghost abs = schema_entries(*abstractions);
    let ghost c0 = cache_contents(*cache);
    let ghost k0 = cache_keys(*cache);
    let name = schema.name.clone();
    if let Some(cached) = cache_get(cache, name.as_str()) {
        proof {
            lemma_union_empty(c0);
            lemma_add_keys_none(k0);
        }
        return Ok(cached);
    }
    let empty_abstraction = Rc::new(AbstractionConfig::new(name.clone()));
    cache_insert(cache, name.clone(), empty_abstraction);
    let ghost placeholder = map![name@ => crate::config::empty_abstraction(name@)];
    proof {
        lemma_union_single(c0, name@, crate::config::empty_abstraction(name@));
        lemma_add_keys_one(k0, name@);
        lemma_unresolved_grow(abs, c0, placeholder);
    }
    let children = match &schema.children {
        Some(v) => written_refs(v),
        None => Vec::new(),
    };
    assert(ref_entries(children@) =~= written_children(*schema));
    let res = build_abstraction(
        cache,
        &name,
        &schema.extend,
        &children,
        &schema.rules,
        abstractions,
    );
    proof {
        let r = resolve_body(
            abs,
            c0.union_prefer_right(placeholder),
            name@,
            schema.extend,
            written_children(*schema),
            schema.rules,
        );
        lemma_union_assoc(c0, placeholder, r.1);
        lemma_add_keys_concat(k0, seq![name@], r.2);
    }
    res
}

/// Builds an abstraction whose placeholder is cached: resolves its base, then its
/// children in order, merges them over the base, and caches the result.
fn build_abstraction(
    cache: &mut AbstractionCache,
    name: &String,
    extend: &Option<AbstractionLinkSchema>,
    children: &Vec<(&String, &AbstractionFieldValueSchema)>,
    rules: &Option<RulesConfigSchema>,
    abstractions: &IndexMap<String, AbstractionSchema>,
) -> (res: Result<AbstractionConfigRef, ConfigError>)
    ensures
        realizes(
            res,
            resolve_body(
                schema_entries(*abstractions),
                cache_contents(*old(cache)),
                name@,
                *extend,
                ref_entries(children@),
                *rules,
            ),
            *old(cache),
            *final(cache),
        ),
    decreases
        unresolved(schema_entries(*abstractions), cache_contents(*cache)),
        entries_size(ref_entries(children@)) + 2,
{
    let ghost abs = schema_entries(*abstractions);
    let ghost c1 = cache_contents(*cache);
    let ghost k1 = cache_keys(*cache);
    let ghost e = ref_entries(children@);
    let ghost base_r = resolve_base(abs, c1, *extend);

    let base: Option<AbstractionConfigRef> = match extend {
        Some(extend) => {
            let ref_name = ref_to_name(extend.ref_.as_str());
            match schema_table_get(abstractions, ref_name.as_str()) {
                Some(base_schema) => {
                    proof {
                        lemma_lookup_names(abs, ref_name@);
                    }
                    match convert_abstraction_schema(cache, base_schema, abstractions, ref_name.as_str()) {
                        Ok(b) => Some(b),
                        Err(err) => {
                            return Err(err);
                        },
                    }
                },
                None => {
                    proof {
                        lemma_union_empty(c1);
                        lemma_add_keys_none(k1);
                    }
                    return Err(ConfigError::InvalidConfig(base_error_message(&extend.ref_)));
                },
            }
        },
        None => {
            proof {
                lemma_union_empty(c1);
                lemma_add_keys_none(k1);
            }
            None
        },
    };
    let ghost c2 = cache_contents(*cache);
    assert(base_r.0 == Ok::<Option<AbstractionModel>, Seq<char>>(
        match base {
            Some(b) => Some(b@),
            None => None,
        },
    ));
    assert(c2 == c1.union_prefer_right(base_r.1));
    assert(cache_keys(*cache) == add_keys(k1, base_r.2));
    proof {
        lemma_unresolved_grow(abs, c1, base_r.1);
    }

    let ghost mut written: Cache = Map::empty();
    let ghost mut wkeys: Seq<Seq<char>> = Seq::empty();
    let mut resolved: Vec<(String, AbstractionConfigRef)> = Vec::new();
    let mut i: usize = 0;
    proof {
        lemma_union_empty(c2);
        assert(base_r.2 + wkeys =~= base_r.2);
        assert(e.skip(0) =~= e);
        assert(wkeys + resolve_children(abs, c2, e).2 =~= resolve_children(abs, c2, e).2);
        let r = resolve_children(abs, c2, e);
        if let Ok(ms) = r.0 {
            assert(children_view(resolved@) + ms =~= ms);
        }
    }
    while i < children.len()
        invariant
            i <= children.len(),
            e == ref_entries(children@),
            abs == schema_entries(*abstractions),
            cache_contents(*cache) == c2.union_prefer_right(written),
            cache_keys(*cache) == add_keys(k1, base_r.2 + wkeys),
            k1 == cache_keys(*old(cache)),
            unresolved(abs, c2) <= unresolved(abs, c1),
            c1 == cache_contents(*old(cache)),
            base_r == resolve_base(abs, c1, *extend),
            c2 == c1.union_prefer_right(base_r.1),
            base_r.0 == Ok::<Option<AbstractionModel>, Seq<char>>(
                match base {
                    Some(b) => Some(b@),
                    None => None,
                },
            ),
            prepend_resolved(
                children_view(resolved@),
                written,
                wkeys,
                resolve_children(abs, cache_contents(*cache), e.skip(i as int)),
            ) == resolve_children(abs, c2, e),
        decreases children.len() - i,
    {
        let ghost ci = cache_contents(*cache);
        let ghost step = resolve_field(abs, ci, e[i as int].1);
        proof {
            lemma_entry_size(e, i as int);
            lemma_unresolved_grow(abs, c2, written);
            assert(e.skip(i as int)[0] == e[i as int]);
            assert(e.skip(i as int).drop_first() =~= e.skip(i + 1));
        }
        let entry = children[i];
        match convert_abstraction_field_value(cache, entry.1, abstractions) {
            Ok(child) => {
                proof {
                    let rest = resolve_children(abs, ci.union_prefer_right(step.1), e.skip(i + 1));
                    lemma_prepend_step(
                        children_view(resolved@),
                        written,
                        wkeys,
                        (e[i as int].0, child@),
                        step.1,
                        step.2,
                        rest,
                    );
                    lemma_union_assoc(c2, written, step.1);
                    lemma_add_keys_concat(k1, base_r.2 + wkeys, step.2);
                    assert((base_r.2 + wkeys) + step.2 =~= base_r.2 + (wkeys + step.2));
                    written = written.union_prefer_right(step.1);
                    wkeys = wkeys + step.2;
                }
                let ghost before = children_view(resolved@);
                resolved.push((entry.0.clone(), child));
                assert(children_view(resolved@) =~= before.push((e[i as int].0, child@)));
                i = i + 1;
            },
            Err(err) => {
                proof {
                    lemma_union_assoc(c2, written, step.1);
                    lemma_union_assoc(c1, base_r.1, written.union_prefer_right(step.1));
                    lemma_add_keys_concat(k1, base_r.2 + wkeys, step.2);
                    assert((base_r.2 + wkeys) + step.2 =~= base_r.2 + (wkeys + step.2));
                }
                return Err(err);
            },
        }
    }
    proof {
        assert(e.skip(i as int) =~= Seq::<(Seq<char>, AbstractionFieldValueSchema)>::empty());
        assert(children_view(resolved@) + Seq::empty() =~= children_view(resolved@));
        lemma_union_empty(written);
        assert(wkeys + Seq::<Seq<char>>::empty() =~= wkeys);
    }

    let current_rules = match rules {
        Some(r) => convert_rules(r),
        None => Vec::new(),
    };
    assert(rules_view(current_rules@) =~= optional_rules_model(*rules));

    let node = match base {
        Some(b) => {
            proof {
                lemma_abstraction_model(&*b);
            }
            Rc::new(
                AbstractionConfig {
                    name: name.clone(),
                    children: merge_child_lists(&b.children, &resolved),
                    rules: merge_rule_lists(&b.rules, &current_rules),
                },
            )
        },
        None => Rc::new(AbstractionConfig { name: name.clone(), children: resolved, rules: current_rules }),
    };
    proof {
        lemma_abstraction_model(&*node);
        let ch = resolve_children(abs, c2, e);
        lemma_union_assoc(c1, base_r.1, written);
        lemma_union_insert(c1, base_r.1.union_prefer_right(written), name@, node@);
        lemma_add_keys_one(add_keys(k1, base_r.2 + wkeys), name@);
        lemma_add_keys_concat(k1, base_r.2 + wkeys, seq![name@]);
    }
    cache_insert(cache, name.clone(), rc_clone(&node));
    Ok(node)
}

/// The reusable abstractions of a configuration; none where it has no table.
pub open spec fn config_abstractions(schema: ConfigSchema) -> SchemaEntries {
    match schema.abstractions {
        Some(m) => schema_entries(m),
        None => Seq::empty(),
    }
}

/// What a configuration resolves to: its root resolved from an empty cache, and
/// its base url and file globs, each taken from the defaults where left out.
pub open spec fn resolve_config(schema: ConfigSchema, defaults: DefaultsModel) -> Result<
    ConfigModel,
    Seq<char>,
> {
    match resolve_field(config_abstractions(schema), Map::empty(), schema.root).0 {
        Ok(root) => Ok(
            ConfigModel {
                root,
                base_url: match schema.base_url {
                    Some(u) => u@,
                    None => defaults.base_url,
                },
                files: match schema.files {
                    Some(f) => f.deep_view(),
                    None => defaults.files,
                },
                ignores: match schema.ignores {
                    Some(f) => f.deep_view(),
                    None => defaults.ignores,
                },
            },
        ),
        Err(e) => Err(e),
    }
}

/// Turns a configuration schema into a configuration, resolving its links.
/// Succeeds exactly when [`resolve_config`] does, with its value; else fails with
/// `InvalidConfig` and its message.
pub fn convert_schema_to_config(schema: ConfigSchema, defaults: &ConfigDefaults) -> (res: Result<
    Config,
    ConfigError,
>)
    ensures
        (match resolve_config(schema, defaults@) {
            Ok(m) => res matches Ok(c) && c@ == m,
            Err(msg) => res matches Err(ConfigError::InvalidConfig(s)) && s@ == msg,
        }),
        (res matches Ok(c) ==> c@.base_url == (match schema.base_url {
            Some(u) => u@,
            None => defaults@.base_url,
        })),
        (res matches Ok(c) ==> c@.files == (match schema.files {
            Some(f) => f.deep_view(),
            None => defaults@.files,
        })),
        (res matches Ok(c) ==> c@.ignores == (match schema.ignores {
            Some(f) => f.deep_view(),
            None => defaults@.ignores,
        })),
{
    let base_url = match schema.base_url {
        Some(u) => u,
        None => defaults.base_url.clone(),
    };
    let files = match schema.files {
        Some(f) => f,
        None => copy_strings(&defaults.files),
    };
    let ignores = match schema.ignores {
        Some(f) => f,
        None => copy_strings(&defaults.ignores),
    };
    let abstractions = match schema.abstractions {
        Some(m) => m,
        None => schema_table_new(),
    };
    assert(schema_entries(abstractions) =~= config_abstractions(schema));
    let mut converted_abstractions = cache_new();
    let root = match convert_abstraction_field_value(
        &mut converted_abstractions,
        &schema.root,
        &abstractions,
    ) {
        Ok(root) => root,
        Err(err) => {
            return Err(err);
        },
    };
    Ok(Config { root, base_url, files, ignores })
}

} // verus!

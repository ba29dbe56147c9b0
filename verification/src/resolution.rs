//! What resolving a configuration schema means: each abstraction is resolved
//! once, under its name, into a tree; links are followed through the table of
//! reusable abstractions; an abstraction that extends another one takes over its
//! children and rules and overrides them with its own.
//!
//! Resolution goes through a cache keyed by name. An abstraction is entered in
//! the cache as an empty placeholder before its base and children are resolved,
//! so that a reference back to it (a cycle) resolves to that placeholder.
//! Each step below gives its outcome and the cache entries it wrote, in order.
use vstd::prelude::*;
use vstd::set_lib::{lemma_len_subset};
use vstd::seq_lib::{seq_to_set_is_finite};

use crate::config::{empty_abstraction, AbstractionModel, RuleModel, Severity};
use crate::config_schema::{
    AbstractionFieldValueSchema, AbstractionLinkSchema, AbstractionSchema, NamedAbstractionSchema,
    RulesConfigSchema,
};
use crate::index_map::{child_entries, entry_lookup};

verus! {

/// Resolved abstractions by the name they were resolved under.
pub type Cache = Map<Seq<char>, AbstractionModel>;

/// The table of reusable abstractions, in order.
pub type SchemaEntries = Seq<(Seq<char>, AbstractionSchema)>;

/// The children of an abstraction as (matcher, child) pairs, in order.
pub type ChildEntries = Seq<(Seq<char>, AbstractionFieldValueSchema)>;

/// The outcome of a step (a value or an error message), the cache entries it
/// wrote, and the keys it wrote them under, in the order of writing.
pub type Resolution<T> = (Result<T, Seq<char>>, Cache, Seq<Seq<char>>);

/// The key order of a cache after writing under `written`, in order: a key new to
/// the cache goes last, a key already there keeps its place.
pub open spec fn add_keys(keys: Seq<Seq<char>>, written: Seq<Seq<char>>) -> Seq<Seq<char>>
    decreases written.len(),
{
    if written.len() == 0 {
        keys
    } else {
        let before = add_keys(keys, written.drop_last());
        if before.contains(written.last()) {
            before
        } else {
            before.push(written.last())
        }
    }
}

/// Writing under `a` and then under `b` orders the keys as writing under `a + b`.
pub proof fn lemma_add_keys_concat(keys: Seq<Seq<char>>, a: Seq<Seq<char>>, b: Seq<Seq<char>>)
    ensures
        add_keys(add_keys(keys, a), b) == add_keys(keys, a + b),
    decreases b.len(),
{
    if b.len() == 0 {
        assert(a + b =~= a);
    } else {
        lemma_add_keys_concat(keys, a, b.drop_last());
        assert((a + b).drop_last() =~= a + b.drop_last());
        assert((a + b).last() == b.last());
    }
}

/// Writing under one key puts it last unless it is there already.
pub proof fn lemma_add_keys_one(keys: Seq<Seq<char>>, k: Seq<char>)
    ensures
        add_keys(keys, seq![k]) == if keys.contains(k) {
            keys
        } else {
            keys.push(k)
        },
{
    assert(seq![k].drop_last() =~= Seq::<Seq<char>>::empty());
    assert(add_keys(keys, Seq::<Seq<char>>::empty()) == keys);
    assert(seq![k].last() == k);
}

/// Writing under no key leaves the key order as it is.
pub proof fn lemma_add_keys_none(keys: Seq<Seq<char>>)
    ensures
        add_keys(keys, Seq::empty()) == keys,
{
}

// ----- names and links -----

/// `s` with every occurrence of `pat` removed, scanning from the left
/// (matches do not overlap).
pub open spec fn remove_all(s: Seq<char>, pat: Seq<char>) -> Seq<char>
    decreases s.len(),
{
    if s.len() == 0 {
        s
    } else if 0 < pat.len() <= s.len() && s.subrange(0, pat.len() as int) == pat {
        remove_all(s.subrange(pat.len() as int, s.len() as int), pat)
    } else {
        seq![s[0]] + remove_all(s.subrange(1, s.len() as int), pat)
    }
}

/// The prefix of a link to a reusable abstraction.
pub open spec fn link_prefix() -> Seq<char> {
    "#/abstractions/"@
}

/// The name that a link refers to.
pub open spec fn link_target(r: Seq<char>) -> Seq<char> {
    remove_all(r, link_prefix())
}

/// Error message for a link to an abstraction that the table lacks.
pub open spec fn link_error(r: Seq<char>) -> Seq<char> {
    "Abstraction not found by link: "@ + r
}

/// Error message for an `extend` of an abstraction that the table lacks.
pub open spec fn base_error(r: Seq<char>) -> Seq<char> {
    "Base abstraction not found: "@ + r
}

// ----- rules -----

/// A rule's severity, `Error` where none is written.
pub open spec fn severity_or_error(s: Option<Severity>) -> Severity {
    match s {
        Some(v) => v,
        None => Severity::Error,
    }
}

/// The rules of a rules section, in the fixed order required children,
/// no unabstraction files, restrict cross imports, public api, dependencies port,
/// dependencies direction; each one present only where it is written.
pub open spec fn rules_model(r: RulesConfigSchema) -> Seq<RuleModel> {
    required_children_rule(r) + no_unabstraction_files_rule(r) + restrict_cross_imports_rule(r)
        + public_api_rule(r) + dependencies_port_rule(r) + dependencies_direction_rule(r)
}

/// The required-children rule of a rules section, if written.
pub open spec fn required_children_rule(r: RulesConfigSchema) -> Seq<RuleModel> {
    match r.required_children {
        Some(x) => seq![
            RuleModel::RequiredChildren {
                severity: severity_or_error(x.severity),
                names: x.names.deep_view(),
                pattern: x.pattern.deep_view(),
                ignore_pattern: x.ignore_pattern.deep_view(),
            },
        ],
        None => Seq::empty(),
    }
}

/// The no-unabstraction-files rule of a rules section, if written.
pub open spec fn no_unabstraction_files_rule(r: RulesConfigSchema) -> Seq<RuleModel> {
    match r.no_unabstraction_files {
        Some(x) => seq![RuleModel::NoUnabstractionFiles { severity: severity_or_error(x.severity) }],
        None => Seq::empty(),
    }
}

/// The restrict-cross-imports rule of a rules section, if written.
pub open spec fn restrict_cross_imports_rule(r: RulesConfigSchema) -> Seq<RuleModel> {
    match r.restrict_cross_imports {
        Some(x) => seq![
            RuleModel::RestrictCrossImports {
                severity: severity_or_error(x.severity),
                ignore_pattern: x.ignore_pattern.deep_view(),
            },
        ],
        None => Seq::empty(),
    }
}

/// The public-api rule of a rules section, if written.
pub open spec fn public_api_rule(r: RulesConfigSchema) -> Seq<RuleModel> {
    match r.public_api {
        Some(x) => seq![
            RuleModel::PublicApi {
                severity: severity_or_error(x.severity),
                names: x.names.deep_view(),
                pattern: x.pattern.deep_view(),
                ignore_pattern: x.ignore_pattern.deep_view(),
            },
        ],
        None => Seq::empty(),
    }
}

/// The dependencies-port rule of a rules section, if written.
pub open spec fn dependencies_port_rule(r: RulesConfigSchema) -> Seq<RuleModel> {
    match r.dependencies_port {
        Some(x) => seq![
            RuleModel::DependenciesPort {
                severity: severity_or_error(x.severity),
                names: x.names.deep_view(),
                pattern: x.pattern.deep_view(),
                ignore_pattern: x.ignore_pattern.deep_view(),
            },
        ],
        None => Seq::empty(),
    }
}

/// The dependencies-direction rule of a rules section, if written.
pub open spec fn dependencies_direction_rule(r: RulesConfigSchema) -> Seq<RuleModel> {
    match r.dependencies_direction {
        Some(x) => seq![
            RuleModel::DependenciesDirection {
                severity: severity_or_error(x.severity),
                order: x.order.deep_view(),
            },
        ],
        None => Seq::empty(),
    }
}

/// The rules of an optional rules section.
pub open spec fn optional_rules_model(r: Option<RulesConfigSchema>) -> Seq<RuleModel> {
    match r {
        Some(r) => rules_model(r),
        None => Seq::empty(),
    }
}

/// Whether two rules are of the same kind.
pub open spec fn same_rule_kind(a: RuleModel, b: RuleModel) -> bool {
    match (a, b) {
        (RuleModel::RequiredChildren { .. }, RuleModel::RequiredChildren { .. }) => true,
        (RuleModel::NoUnabstractionFiles { .. }, RuleModel::NoUnabstractionFiles { .. }) => true,
        (RuleModel::RestrictCrossImports { .. }, RuleModel::RestrictCrossImports { .. }) => true,
        (RuleModel::PublicApi { .. }, RuleModel::PublicApi { .. }) => true,
        (RuleModel::DependenciesPort { .. }, RuleModel::DependenciesPort { .. }) => true,
        (RuleModel::DependenciesDirection { .. }, RuleModel::DependenciesDirection { .. }) => true,
        _ => false,
    }
}

// ----- merging with a base abstraction -----

/// Position of the first entry whose key is `key`.
pub open spec fn first_index_of<V>(entries: Seq<(Seq<char>, V)>, key: Seq<char>) -> Option<int>
    decreases entries.len(),
{
    if entries.len() == 0 {
        None
    } else if entries[0].0 == key {
        Some(0)
    } else {
        match first_index_of(entries.drop_first(), key) {
            Some(i) => Some(i + 1),
            None => None,
        }
    }
}

/// The first index of a key holds that key, and no earlier one does; with no
/// index, no entry holds the key.
pub proof fn lemma_first_index_of<V>(entries: Seq<(Seq<char>, V)>, key: Seq<char>)
    ensures
        (match first_index_of(entries, key) {
            Some(i) => 0 <= i < entries.len() && entries[i].0 == key && forall|j: int|
                0 <= j < i ==> entries[j].0 != key,
            None => forall|j: int| 0 <= j < entries.len() ==> entries[j].0 != key,
        }),
    decreases entries.len(),
{
    if entries.len() > 0 {
        lemma_first_index_of(entries.drop_first(), key);
        if entries[0].0 != key {
            match first_index_of(entries.drop_first(), key) {
                Some(i) => {
                    assert forall|j: int| 0 <= j < i + 1 implies entries[j].0 != key by {
                        if j > 0 {
                            assert(entries[j] == entries.drop_first()[j - 1]);
                        }
                    }
                },
                None => {
                    assert forall|j: int| 0 <= j < entries.len() implies entries[j].0 != key by {
                        if j > 0 {
                            assert(entries[j] == entries.drop_first()[j - 1]);
                        }
                    }
                },
            }
        }
    }
}

/// `acc` with `child` put in place of the first child under the same matcher,
/// or appended where there is none.
pub open spec fn put_child(
    acc: Seq<(Seq<char>, AbstractionModel)>,
    child: (Seq<char>, AbstractionModel),
) -> Seq<(Seq<char>, AbstractionModel)> {
    match first_index_of(acc, child.0) {
        Some(i) => acc.update(i, child),
        None => acc.push(child),
    }
}

/// The children of a base abstraction overridden, one by one in order, by `own`.
pub open spec fn merge_children(
    base: Seq<(Seq<char>, AbstractionModel)>,
    own: Seq<(Seq<char>, AbstractionModel)>,
) -> Seq<(Seq<char>, AbstractionModel)>
    decreases own.len(),
{
    if own.len() == 0 {
        base
    } else {
        put_child(merge_children(base, own.drop_last()), own.last())
    }
}

/// `rules` without the rules of the same kind as `r`, in order.
pub open spec fn drop_kind(rules: Seq<RuleModel>, r: RuleModel) -> Seq<RuleModel>
    decreases rules.len(),
{
    if rules.len() == 0 {
        rules
    } else if same_rule_kind(rules.last(), r) {
        drop_kind(rules.drop_last(), r)
    } else {
        drop_kind(rules.drop_last(), r).push(rules.last())
    }
}

/// The rules of a base abstraction overridden, one by one in order, by `own`:
/// each own rule replaces every rule of its kind and goes to the end.
pub open spec fn merge_rules(base: Seq<RuleModel>, own: Seq<RuleModel>) -> Seq<RuleModel>
    decreases own.len(),
{
    if own.len() == 0 {
        base
    } else {
        drop_kind(merge_rules(base, own.drop_last()), own.last()).push(own.last())
    }
}

/// The abstraction built from its name, its resolved base (if it extends one),
/// its resolved children and its rules.
pub open spec fn assemble(
    name: Seq<char>,
    base: Option<AbstractionModel>,
    children: Seq<(Seq<char>, AbstractionModel)>,
    rules: Seq<RuleModel>,
) -> AbstractionModel {
    match base {
        Some(b) => AbstractionModel {
            name,
            children: merge_children(b.children, children),
            rules: merge_rules(b.rules, rules),
        },
        None => AbstractionModel { name, children, rules },
    }
}

// ----- sizes, for termination -----

/// Size of a child as written.
pub open spec fn field_size(fv: AbstractionFieldValueSchema) -> nat
    decreases fv,
{
    match fv {
        AbstractionFieldValueSchema::Link(_) => 1,
        AbstractionFieldValueSchema::Schema(s) => match s.children {
            Some(v) => {
                proof {
                    assert(decreases_to!(fv => s));
                    assert(decreases_to!(s => s.children));
                    assert(decreases_to!(s.children => v));
                    assert(decreases_to!(v => v@));
                }
                4 + pairs_size(v@)
            },
            None => 4,
        },
    }
}

/// Size of a sequence of written (matcher, child) pairs.
pub open spec fn pairs_size(s: Seq<(String, AbstractionFieldValueSchema)>) -> nat
    decreases s,
{
    if s.len() == 0 {
        0
    } else {
        proof {
            assert(decreases_to!(s => s[0]));
            assert(decreases_to!(s[0] => s[0].1));
            assert(decreases_to!(s => s.subrange(1, s.len() as int)));
        }
        1 + field_size(s[0].1) + pairs_size(s.subrange(1, s.len() as int))
    }
}

/// Size of a sequence of children.
pub open spec fn entries_size(e: ChildEntries) -> nat
    decreases e.len(),
{
    if e.len() == 0 {
        0
    } else {
        1 + field_size(e[0].1) + entries_size(e.drop_first())
    }
}

/// The children of an abstraction written in place.
pub open spec fn written_children(s: NamedAbstractionSchema) -> ChildEntries {
    match s.children {
        Some(v) => v@.map_values(|p: (String, AbstractionFieldValueSchema)| (p.0@, p.1)),
        None => Seq::empty(),
    }
}

/// The children of a reusable abstraction.
pub open spec fn table_children(s: AbstractionSchema) -> ChildEntries {
    match s.children {
        Some(m) => child_entries(m),
        None => Seq::empty(),
    }
}

pub proof fn lemma_pairs_size(v: Seq<(String, AbstractionFieldValueSchema)>)
    ensures
        entries_size(v.map_values(|p: (String, AbstractionFieldValueSchema)| (p.0@, p.1)))
            == pairs_size(v),
    decreases v.len(),
{
    let e = v.map_values(|p: (String, AbstractionFieldValueSchema)| (p.0@, p.1));
    if v.len() > 0 {
        let rest = v.subrange(1, v.len() as int);
        lemma_pairs_size(rest);
        assert(e.drop_first() =~= rest.map_values(
            |p: (String, AbstractionFieldValueSchema)| (p.0@, p.1),
        ));
    }
}

pub proof fn lemma_inline_size(s: NamedAbstractionSchema)
    ensures
        entries_size(written_children(s)) + 3 < field_size(AbstractionFieldValueSchema::Schema(s)),
{
    if let Some(v) = s.children {
        lemma_pairs_size(v@);
    }
}

/// The names of the reusable abstractions.
pub open spec fn schema_names(abs: SchemaEntries) -> Set<Seq<char>> {
    abs.map_values(|e: (Seq<char>, AbstractionSchema)| e.0).to_set()
}

/// How many reusable abstractions the cache does not hold yet.
pub open spec fn unresolved(abs: SchemaEntries, cache: Cache) -> nat {
    schema_names(abs).difference(cache.dom()).len()
}

/// Writing to the cache never raises the count of unresolved abstractions, and
/// writing a reusable abstraction the cache lacks lowers it.
pub proof fn lemma_unresolved_grow(abs: SchemaEntries, cache: Cache, more: Cache)
    ensures
        unresolved(abs, cache.union_prefer_right(more)) <= unresolved(abs, cache),
        forall|k: Seq<char>|
            more.dom().contains(k) && schema_names(abs).contains(k) && !cache.contains_key(k)
                ==> unresolved(abs, cache.union_prefer_right(more)) < unresolved(abs, cache),
{
    broadcast use seq_to_set_is_finite;

    let names = schema_names(abs);
    let before = names.difference(cache.dom());
    let after = names.difference(cache.union_prefer_right(more).dom());
    assert(after.subset_of(before));
    lemma_len_subset(before, names);
    lemma_len_subset(after, before);
    assert forall|k: Seq<char>|
        more.dom().contains(k) && names.contains(k) && !cache.contains_key(k) implies after.len()
        < before.len() by {
        assert(after.subset_of(before.remove(k)));
        lemma_len_subset(after, before.remove(k));
    }
}

/// A name found in the table is one of its names.
pub proof fn lemma_lookup_names(abs: SchemaEntries, key: Seq<char>)
    ensures
        entry_lookup(abs, key) is Some ==> schema_names(abs).contains(key),
    decreases abs.len(),
{
    if abs.len() > 0 && abs[0].0 != key {
        lemma_lookup_names(abs.drop_first(), key);
        if entry_lookup(abs, key) is Some {
            let names = abs.drop_first().map_values(|e: (Seq<char>, AbstractionSchema)| e.0);
            let i = choose|i: int| 0 <= i < names.len() && names[i] == key;
            assert(abs.map_values(|e: (Seq<char>, AbstractionSchema)| e.0)[i + 1] == key);
        }
    } else if abs.len() > 0 {
        assert(abs.map_values(|e: (Seq<char>, AbstractionSchema)| e.0)[0] == key);
    }
}

/// Writing `b` then `c` writes `b` overridden by `c`.
pub proof fn lemma_union_assoc(a: Cache, b: Cache, c: Cache)
    ensures
        a.union_prefer_right(b).union_prefer_right(c) == a.union_prefer_right(
            b.union_prefer_right(c),
        ),
{
    assert(a.union_prefer_right(b).union_prefer_right(c) =~= a.union_prefer_right(
        b.union_prefer_right(c),
    ));
}

/// Writing `b` then one more entry writes `b` with that entry.
pub proof fn lemma_union_insert(a: Cache, b: Cache, k: Seq<char>, v: AbstractionModel)
    ensures
        a.union_prefer_right(b).insert(k, v) == a.union_prefer_right(b.insert(k, v)),
{
    assert(a.union_prefer_right(b).insert(k, v) =~= a.union_prefer_right(b.insert(k, v)));
}

/// Writing nothing leaves a cache as it is.
pub proof fn lemma_union_empty(a: Cache)
    ensures
        a.union_prefer_right(Map::empty()) == a,
        Map::empty().union_prefer_right(a) == a,
{
    assert(a.union_prefer_right(Map::empty()) =~= a);
    assert(Map::<Seq<char>, AbstractionModel>::empty().union_prefer_right(a) =~= a);
}

/// Writing one entry is inserting it.
pub proof fn lemma_union_single(a: Cache, k: Seq<char>, v: AbstractionModel)
    ensures
        a.union_prefer_right(map![k => v]) == a.insert(k, v),
{
    assert(a.union_prefer_right(map![k => v]) =~= a.insert(k, v));
}

/// A child of a sequence is smaller than the sequence.
pub proof fn lemma_entry_size(e: ChildEntries, i: int)
    requires
        0 <= i < e.len(),
    ensures
        field_size(e[i].1) < entries_size(e),
    decreases i,
{
    if i > 0 {
        lemma_entry_size(e.drop_first(), i - 1);
    }
}

/// One where `name` is neither a reusable abstraction nor cached, else zero:
/// resolving it writes a name that [`unresolved`] does not count.
pub open spec fn unlisted_uncached(abs: SchemaEntries, cache: Cache, name: Seq<char>) -> nat {
    if !schema_names(abs).contains(name) && !cache.contains_key(name) {
        1
    } else {
        0
    }
}

// ----- resolution -----

/// Resolving a child: a child written in place is resolved as such; a link is
/// looked up in the cache by its text, then resolved by the name it refers to.
pub open spec fn resolve_field(
    abs: SchemaEntries,
    cache: Cache,
    fv: AbstractionFieldValueSchema,
) -> Resolution<AbstractionModel>
    decreases unresolved(abs, cache), field_size(fv),
{
    match fv {
        AbstractionFieldValueSchema::Schema(s) => {
            proof {
                lemma_inline_size(s);
            }
            resolve_inline(abs, cache, s)
        },
        AbstractionFieldValueSchema::Link(l) => {
            if cache.contains_key(l.ref_@) {
                (Ok(cache[l.ref_@]), Map::empty(), Seq::empty())
            } else {
                let n = link_target(l.ref_@);
                match entry_lookup(abs, n) {
                    Some(s) => {
                        proof {
                            lemma_lookup_names(abs, n);
                        }
                        resolve_named(abs, cache, s, n)
                    },
                    None => (Err(link_error(l.ref_@)), Map::empty(), Seq::empty()),
                }
            }
        },
    }
}

/// Resolving the reusable abstraction `schema` under `name`: the cached one if
/// there is one; else a placeholder is written, then the abstraction is built.
pub open spec fn resolve_named(
    abs: SchemaEntries,
    cache: Cache,
    schema: AbstractionSchema,
    name: Seq<char>,
) -> Resolution<AbstractionModel>
    decreases unresolved(abs, cache) + unlisted_uncached(abs, cache, name), 0nat,
{
    if cache.contains_key(name) {
        (Ok(cache[name]), Map::empty(), Seq::empty())
    } else {
        let placeholder = map![name => empty_abstraction(name)];
        proof {
            lemma_unresolved_grow(abs, cache, placeholder);
        }
        let r = resolve_body(
            abs,
            cache.union_prefer_right(placeholder),
            name,
            schema.extend,
            table_children(schema),
            schema.rules,
        );
        (r.0, placeholder.union_prefer_right(r.1), seq![name] + r.2)
    }
}

/// Resolving an abstraction written in place, under its own name: the cached
/// one if there is one; else a placeholder is written, then it is built.
pub open spec fn resolve_inline(
    abs: SchemaEntries,
    cache: Cache,
    schema: NamedAbstractionSchema,
) -> Resolution<AbstractionModel>
    decreases unresolved(abs, cache), entries_size(written_children(schema)) + 3,
{
    let name = schema.name@;
    if cache.contains_key(name) {
        (Ok(cache[name]), Map::empty(), Seq::empty())
    } else {
        let placeholder = map![name => empty_abstraction(name)];
        proof {
            lemma_unresolved_grow(abs, cache, placeholder);
        }
        let r = resolve_body(
            abs,
            cache.union_prefer_right(placeholder),
            name,
            schema.extend,
            written_children(schema),
            schema.rules,
        );
        (r.0, placeholder.union_prefer_right(r.1), seq![name] + r.2)
    }
}

/// Building an abstraction once its placeholder is in the cache: its base first,
/// then its children in order, then its rules; the result is written to the cache.
pub open spec fn resolve_body(
    abs: SchemaEntries,
    cache: Cache,
    name: Seq<char>,
    extend: Option<AbstractionLinkSchema>,
    children: ChildEntries,
    rules: Option<RulesConfigSchema>,
) -> Resolution<AbstractionModel>
    decreases unresolved(abs, cache), entries_size(children) + 2,
{
    let base = resolve_base(abs, cache, extend);
    match base.0 {
        Err(e) => (Err(e), base.1, base.2),
        Ok(b) => {
            proof {
                lemma_unresolved_grow(abs, cache, base.1);
            }
            let ch = resolve_children(abs, cache.union_prefer_right(base.1), children);
            let written = base.1.union_prefer_right(ch.1);
            match ch.0 {
                Err(e) => (Err(e), written, base.2 + ch.2),
                Ok(cs) => {
                    let node = assemble(name, b, cs, optional_rules_model(rules));
                    (Ok(node), written.insert(name, node), base.2 + ch.2 + seq![name])
                },
            }
        },
    }
}

/// Resolving the base that an abstraction extends, if any.
pub open spec fn resolve_base(
    abs: SchemaEntries,
    cache: Cache,
    extend: Option<AbstractionLinkSchema>,
) -> Resolution<Option<AbstractionModel>>
    decreases unresolved(abs, cache), 1nat,
{
    match extend {
        None => (Ok(None), Map::empty(), Seq::empty()),
        Some(l) => {
            let n = link_target(l.ref_@);
            match entry_lookup(abs, n) {
                Some(s) => {
                    proof {
                        lemma_lookup_names(abs, n);
                    }
                    let r = resolve_named(abs, cache, s, n);
                    (
                        match r.0 {
                            Ok(m) => Ok(Some(m)),
                            Err(e) => Err(e),
                        },
                        r.1,
                        r.2,
                    )
                },
                None => (Err(base_error(l.ref_@)), Map::empty(), Seq::empty()),
            }
        },
    }
}

/// Resolving children one after the other, each seeing what the ones before wrote.
pub open spec fn resolve_children(
    abs: SchemaEntries,
    cache: Cache,
    children: ChildEntries,
) -> Resolution<Seq<(Seq<char>, AbstractionModel)>>
    decreases unresolved(abs, cache), entries_size(children),
{
    if children.len() == 0 {
        (Ok(Seq::empty()), Map::empty(), Seq::empty())
    } else {
        let first = resolve_field(abs, cache, children[0].1);
        match first.0 {
            Err(e) => (Err(e), first.1, first.2),
            Ok(m) => {
                proof {
                    lemma_unresolved_grow(abs, cache, first.1);
                }
                let rest = resolve_children(
                    abs,
                    cache.union_prefer_right(first.1),
                    children.drop_first(),
                );
                (
                    match rest.0 {
                        Ok(ms) => Ok(seq![(children[0].0, m)] + ms),
                        Err(e) => Err(e),
                    },
                    first.1.union_prefer_right(rest.1),
                    first.2 + rest.2,
                )
            },
        }
    }
}

} // verus!

//! Properties of resolution that hold for every input.
use vstd::prelude::*;

use crate::config::{AbstractionModel, RuleModel, Severity};
use crate::resolution::{
    add_keys,
    drop_kind, first_index_of, lemma_first_index_of, link_prefix, link_target, merge_children,
    merge_rules, put_child, remove_all, same_rule_kind, rules_model, optional_rules_model,
    required_children_rule, no_unabstraction_files_rule, restrict_cross_imports_rule,
    public_api_rule, dependencies_port_rule, dependencies_direction_rule, entries_size,
    field_size, lemma_inline_size, lemma_lookup_names, lemma_unresolved_grow, resolve_base,
    resolve_body, resolve_children, resolve_field, resolve_inline, resolve_named, schema_names,
    table_children, unresolved, unlisted_uncached, written_children, Cache, ChildEntries, SchemaEntries,
};
use crate::config::empty_abstraction;
use crate::config_schema::{
    AbstractionFieldValueSchema, AbstractionLinkSchema, AbstractionSchema, NamedAbstractionSchema,
    RulesConfigSchema,
};
use crate::config_schema::ConfigSchema;
use crate::index_map::entry_lookup;
use crate::schema_to_config::{config_abstractions, resolve_config, DefaultsModel};

verus! {

/// Whether `pat` occurs in `s` at position `i`.
pub open spec fn occurs_at(s: Seq<char>, pat: Seq<char>, i: int) -> bool {
    0 <= i && i + pat.len() <= s.len() && s.subrange(i, i + pat.len()) == pat
}

/// Whether `pat` occurs nowhere in `s`.
pub open spec fn occurs_nowhere(s: Seq<char>, pat: Seq<char>) -> bool {
    forall|i: int| !#[trigger] occurs_at(s, pat, i)
}

proof fn lemma_remove_nothing(s: Seq<char>, pat: Seq<char>)
    requires
        pat.len() > 0,
        occurs_nowhere(s, pat),
    ensures
        remove_all(s, pat) == s,
    decreases s.len(),
{
    if s.len() > 0 {
        let rest = s.subrange(1, s.len() as int);
        assert forall|i: int| !#[trigger] occurs_at(rest, pat, i) by {
            if 0 <= i && i + pat.len() <= rest.len() {
                assert(rest.subrange(i, i + pat.len()) =~= s.subrange(i + 1, i + 1 + pat.len()));
                assert(!occurs_at(s, pat, i + 1));
            }
        }
        lemma_remove_nothing(rest, pat);
        assert(!occurs_at(s, pat, 0));
        assert(seq![s[0]] + rest =~= s);
    }
}

/// A link `#/abstractions/<name>` refers to `<name>`, for every name in which
/// `#/abstractions/` does not occur.
pub proof fn law_link_names_target(name: Seq<char>)
    requires
        occurs_nowhere(name, link_prefix()),
    ensures
        link_target(link_prefix() + name) == name,
{
    reveal_strlit("#/abstractions/");
    let pat = link_prefix();
    let s = pat + name;
    assert(s.subrange(0, pat.len() as int) =~= pat);
    assert(s.subrange(pat.len() as int, s.len() as int) =~= name);
    lemma_remove_nothing(name, pat);
}

/// Whether `pat` occurs in `s` at some position before `n`.
pub open spec fn occurs_before(s: Seq<char>, pat: Seq<char>, n: int) -> bool {
    exists|i: int| 0 <= i < n && #[trigger] occurs_at(s, pat, i)
}

proof fn lemma_remove_after(a: Seq<char>, pat: Seq<char>, b: Seq<char>)
    requires
        pat.len() > 0,
        !occurs_before(a + pat, pat, a.len() as int),
    ensures
        remove_all(a + pat + b, pat) == a + remove_all(b, pat),
    decreases a.len(),
{
    let s = a + pat + b;
    if a.len() == 0 {
        assert(a + pat + b =~= pat + b);
        assert((pat + b).subrange(0, pat.len() as int) =~= pat);
        assert((pat + b).subrange(pat.len() as int, (pat + b).len() as int) =~= b);
        assert(a + remove_all(b, pat) =~= remove_all(b, pat));
    } else {
        let a1 = a.subrange(1, a.len() as int);
        assert(!occurs_at(a + pat, pat, 0));
        assert((a + pat).subrange(0, pat.len() as int) =~= s.subrange(0, pat.len() as int));
        assert forall|i: int| 0 <= i < a1.len() implies !#[trigger] occurs_at(a1 + pat, pat, i) by {
            assert(!occurs_at(a + pat, pat, i + 1));
            if 0 <= i && i + pat.len() <= (a1 + pat).len() {
                assert((a1 + pat).subrange(i, i + pat.len()) =~= (a + pat).subrange(
                    i + 1,
                    i + 1 + pat.len(),
                ));
            }
        }
        lemma_remove_after(a1, pat, b);
        assert(s.subrange(1, s.len() as int) =~= a1 + pat + b);
        assert(seq![a[0]] + (a1 + remove_all(b, pat)) =~= a + remove_all(b, pat));
    }
}

/// Every `#/abstractions/` of a link is dropped, not only the first: wherever the
/// prefix occurs after a part `a` in which it does not begin, the name keeps `a`
/// and goes on with the name of what follows. In particular a link with the
/// prefix written in front refers to what the rest refers to.
pub proof fn law_link_drops_each_prefix(a: Seq<char>, b: Seq<char>)
    requires
        !occurs_before(a + link_prefix(), link_prefix(), a.len() as int),
    ensures
        link_target(a + link_prefix() + b) == a + link_target(b),
        a.len() == 0 ==> link_target(link_prefix() + b) == link_target(b),
{
    reveal_strlit("#/abstractions/");
    lemma_remove_after(a, link_prefix(), b);
    if a.len() == 0 {
        assert(a + link_prefix() + b =~= link_prefix() + b);
        assert(a + link_target(b) =~= link_target(b));
    }
}

// ----- children -----

/// The value of the last entry whose key is `key`, if any.
pub open spec fn last_value_of<V>(entries: Seq<(Seq<char>, V)>, key: Seq<char>) -> Option<V>
    decreases entries.len(),
{
    if entries.len() == 0 {
        None
    } else if entries.last().0 == key {
        Some(entries.last().1)
    } else {
        last_value_of(entries.drop_last(), key)
    }
}

/// The value of the first entry whose key is `key`, if any.
pub open spec fn first_value_of<V>(entries: Seq<(Seq<char>, V)>, key: Seq<char>) -> Option<V> {
    match first_index_of(entries, key) {
        Some(i) => Some(entries[i].1),
        None => None,
    }
}

proof fn lemma_put_child_lookup(
    acc: Seq<(Seq<char>, AbstractionModel)>,
    child: (Seq<char>, AbstractionModel),
    key: Seq<char>,
)
    ensures
        first_value_of(put_child(acc, child), key) == if key == child.0 {
            Some(child.1)
        } else {
            first_value_of(acc, key)
        },
{
    let res = put_child(acc, child);
    lemma_first_index_of(acc, child.0);
    lemma_first_index_of(acc, key);
    lemma_first_index_of(res, key);
    match first_index_of(acc, child.0) {
        Some(p) => {
            // the entry at p changes its value, not its key
            match first_index_of(res, key) {
                Some(i) => {
                    match first_index_of(acc, key) {
                        Some(j) => {
                            assert(i == j) by {
                                if i < j {
                                    assert(acc[i].0 == key);
                                }
                                if j < i {
                                    assert(res[j].0 == key);
                                }
                            }
                        },
                        None => {
                            assert(acc[i].0 == key);
                        },
                    }
                },
                None => {
                    if let Some(j) = first_index_of(acc, key) {
                        assert(res[j].0 == key);
                    }
                },
            }
        },
        None => {
            match first_index_of(res, key) {
                Some(i) => {
                    if i < acc.len() {
                        match first_index_of(acc, key) {
                            Some(j) => {
                                assert(i == j) by {
                                    if i < j {
                                        assert(acc[i].0 == key);
                                    }
                                    if j < i {
                                        assert(res[j].0 == key);
                                    }
                                }
                            },
                            None => {
                                assert(acc[i].0 == key);
                            },
                        }
                    }
                },
                None => {
                    if let Some(j) = first_index_of(acc, key) {
                        assert(res[j].0 == key);
                    }
                    assert(res[acc.len() as int].0 == child.0);
                },
            }
        },
    }
}

/// Extending a base abstraction: under each matcher, the merged children hold
/// the last own child written under it, and otherwise the base's child.
pub proof fn law_children_override(
    base: Seq<(Seq<char>, AbstractionModel)>,
    own: Seq<(Seq<char>, AbstractionModel)>,
    key: Seq<char>,
)
    ensures
        first_value_of(merge_children(base, own), key) == match last_value_of(own, key) {
            Some(c) => Some(c),
            None => first_value_of(base, key),
        },
    decreases own.len(),
{
    if own.len() > 0 {
        law_children_override(base, own.drop_last(), key);
        lemma_put_child_lookup(merge_children(base, own.drop_last()), own.last(), key);
    }
}

/// Extending a base abstraction keeps the base's matchers where they stand: the
/// merged children begin with one child for each base child, under the same
/// matcher and in the same order, and the children after them have matchers
/// that no base child has. An own child whose matcher a base child has takes the
/// place of the first base child with that matcher (the last such own child,
/// where several are written).
pub proof fn law_children_keep_base_order(
    base: Seq<(Seq<char>, AbstractionModel)>,
    own: Seq<(Seq<char>, AbstractionModel)>,
)
    ensures
        merge_children(base, own).len() >= base.len(),
        forall|i: int| 0 <= i < base.len() ==> (#[trigger] merge_children(base, own)[i]).0 == base[i].0,
        forall|i: int, j: int|
            0 <= j < base.len() <= i < merge_children(base, own).len() ==> (
            #[trigger] merge_children(base, own)[i]).0 != (#[trigger] base[j]).0,
        forall|key: Seq<char>|
            #![trigger first_index_of(base, key), last_value_of(own, key)]
            first_index_of(base, key) is Some && last_value_of(own, key) is Some
                ==> merge_children(base, own)[first_index_of(base, key)->0] == (
                key,
                last_value_of(own, key)->0,
            ),
    decreases own.len(),
{
    let m = merge_children(base, own);
    if own.len() > 0 {
        let acc = merge_children(base, own.drop_last());
        let child = own.last();
        law_children_keep_base_order(base, own.drop_last());
        lemma_first_index_of(acc, child.0);
        match first_index_of(acc, child.0) {
            Some(p) => {
                assert(m == acc.update(p, child));
                assert forall|i: int| 0 <= i < base.len() implies (#[trigger] m[i]).0 == base[i].0 by {
                    assert(acc[i].0 == base[i].0);
                }
                assert forall|i: int, j: int|
                    0 <= j < base.len() <= i < m.len() implies (#[trigger] m[i]).0 != (
                    #[trigger] base[j]).0 by {
                    assert(acc[i].0 != base[j].0);
                }
            },
            None => {
                assert(m == acc.push(child));
                assert forall|i: int| 0 <= i < base.len() implies (#[trigger] m[i]).0 == base[i].0 by {
                    assert(acc[i].0 == base[i].0);
                }
                assert forall|i: int, j: int|
                    0 <= j < base.len() <= i < m.len() implies (#[trigger] m[i]).0 != (
                    #[trigger] base[j]).0 by {
                    if i < acc.len() {
                        assert(acc[i].0 != base[j].0);
                    } else {
                        assert(m[i] == child);
                        assert(acc[j].0 == base[j].0);
                    }
                }
            },
        }
    }
    assert forall|key: Seq<char>|
        #![trigger first_index_of(base, key), last_value_of(own, key)]
        first_index_of(base, key) is Some && last_value_of(own, key) is Some implies m[first_index_of(
            base,
            key,
        )->0] == (key, last_value_of(own, key)->0) by {
        let p = first_index_of(base, key)->0;
        lemma_first_index_of(base, key);
        lemma_first_index_of(m, key);
        law_children_override(base, own, key);
        assert(m[p].0 == key);
        match first_index_of(m, key) {
            Some(q) => {
                assert(q == p) by {
                    if q < p {
                        assert(m[q].0 == base[q].0);
                    }
                }
            },
            None => {
                assert(m[p].0 == key);
            },
        }
    }
}

// ----- rules -----

proof fn lemma_drop_kind(rules: Seq<RuleModel>, r: RuleModel, x: RuleModel)
    ensures
        drop_kind(rules, r).contains(x) <==> rules.contains(x) && !same_rule_kind(x, r),
    decreases rules.len(),
{
    if rules.len() > 0 {
        lemma_drop_kind(rules.drop_last(), r, x);
        let d = drop_kind(rules.drop_last(), r);
        if rules.contains(x) && x != rules.last() {
            let i = choose|i: int| 0 <= i < rules.len() && rules[i] == x;
            assert(rules.drop_last()[i] == x);
        }
        if rules.drop_last().contains(x) {
            let i = choose|i: int| 0 <= i < rules.drop_last().len() && rules.drop_last()[i] == x;
            assert(rules[i] == x);
        }
        if !same_rule_kind(rules.last(), r) {
            assert(d.push(rules.last())[d.len() as int] == rules.last());
            if d.contains(x) {
                let i = choose|i: int| 0 <= i < d.len() && d[i] == x;
                assert(d.push(rules.last())[i] == x);
            }
            if d.push(rules.last()).contains(x) && x != rules.last() {
                let i = choose|i: int| 0 <= i < d.len() + 1 && d.push(rules.last())[i] == x;
                assert(d[i] == x);
            }
        }
        assert(rules[rules.len() - 1] == rules.last());
    }
}

/// Whether no two rules of `rules` are of the same kind.
pub open spec fn kinds_distinct(rules: Seq<RuleModel>) -> bool {
    forall|i: int, j: int|
        0 <= i < j < rules.len() ==> !same_rule_kind(#[trigger] rules[i], #[trigger] rules[j])
}

/// Extending a base abstraction whose own rules are of distinct kinds: a rule
/// is in the merged rules exactly when it is one of the own rules, or a base
/// rule of a kind that no own rule has.
pub proof fn law_rules_override(base: Seq<RuleModel>, own: Seq<RuleModel>, x: RuleModel)
    requires
        kinds_distinct(own),
    ensures
        merge_rules(base, own).contains(x) <==> own.contains(x) || (base.contains(x) && forall|
            i: int,
        |
            0 <= i < own.len() ==> !same_rule_kind(x, #[trigger] own[i])),
    decreases own.len(),
{
    if own.len() > 0 {
        let prev = own.drop_last();
        let last = own.last();
        assert(kinds_distinct(prev)) by {
            assert forall|i: int, j: int| 0 <= i < j < prev.len() implies !same_rule_kind(
                #[trigger] prev[i],
                #[trigger] prev[j],
            ) by {
                assert(prev[i] == own[i] && prev[j] == own[j]);
            }
        }
        law_rules_override(base, prev, x);
        let m = merge_rules(base, prev);
        lemma_drop_kind(m, last, x);
        assert(drop_kind(m, last).push(last)[drop_kind(m, last).len() as int] == last);
        if drop_kind(m, last).push(last).contains(x) && x != last {
            let i = choose|i: int|
                0 <= i < drop_kind(m, last).len() + 1 && drop_kind(m, last).push(last)[i] == x;
            assert(drop_kind(m, last)[i] == x);
        }
        if drop_kind(m, last).contains(x) {
            let i = choose|i: int| 0 <= i < drop_kind(m, last).len() && drop_kind(m, last)[i] == x;
            assert(drop_kind(m, last).push(last)[i] == x);
        }
        if own.contains(x) && x != last {
            let i = choose|i: int| 0 <= i < own.len() && own[i] == x;
            assert(prev[i] == x);
        }
        if prev.contains(x) {
            let i = choose|i: int| 0 <= i < prev.len() && prev[i] == x;
            assert(own[i] == x);
            // x is of a kind that the last own rule does not have
            assert(!same_rule_kind(own[i], own[own.len() - 1]));
        }
        assert(own[own.len() - 1] == last);
        assert((forall|i: int| 0 <= i < own.len() ==> !same_rule_kind(x, #[trigger] own[i])) <==> (
        (forall|i: int| 0 <= i < prev.len() ==> !same_rule_kind(x, #[trigger] prev[i]))
            && !same_rule_kind(x, last))) by {
            if (forall|i: int| 0 <= i < prev.len() ==> !same_rule_kind(x, #[trigger] prev[i]))
                && !same_rule_kind(x, last) {
                assert forall|i: int| 0 <= i < own.len() implies !same_rule_kind(
                    x,
                    #[trigger] own[i],
                ) by {
                    if i < prev.len() {
                        assert(prev[i] == own[i]);
                    }
                }
            }
            if forall|i: int| 0 <= i < own.len() ==> !same_rule_kind(x, #[trigger] own[i]) {
                assert forall|i: int| 0 <= i < prev.len() implies !same_rule_kind(
                    x,
                    #[trigger] prev[i],
                ) by {
                    assert(prev[i] == own[i]);
                }
                assert(!same_rule_kind(x, own[own.len() - 1]));
            }
        }
        if prev.contains(x) && same_rule_kind(x, last) {
            let i = choose|i: int| 0 <= i < prev.len() && prev[i] == x;
            assert(own[i] == x);
            assert(!same_rule_kind(own[i], own[own.len() - 1]));
        }
    }
}

/// Position of a rule's kind in the order in which a rules section lists them.
pub open spec fn rule_rank(r: RuleModel) -> int {
    match r {
        RuleModel::RequiredChildren { .. } => 0,
        RuleModel::NoUnabstractionFiles { .. } => 1,
        RuleModel::RestrictCrossImports { .. } => 2,
        RuleModel::PublicApi { .. } => 3,
        RuleModel::DependenciesPort { .. } => 4,
        RuleModel::DependenciesDirection { .. } => 5,
    }
}

/// Whether the kinds of `rules` come in strictly increasing rank, all below `bound`.
pub open spec fn ranks_increasing_below(rules: Seq<RuleModel>, bound: int) -> bool {
    &&& forall|i: int, j: int|
        0 <= i < j < rules.len() ==> rule_rank(#[trigger] rules[i]) < rule_rank(#[trigger] rules[j])
    &&& forall|i: int| 0 <= i < rules.len() ==> rule_rank(#[trigger] rules[i]) < bound
}

proof fn lemma_ranks_append(s: Seq<RuleModel>, part: Seq<RuleModel>, k: int)
    requires
        ranks_increasing_below(s, k),
        part.len() <= 1,
        forall|i: int| 0 <= i < part.len() ==> rule_rank(#[trigger] part[i]) == k,
    ensures
        ranks_increasing_below(s + part, k + 1),
{
    let t = s + part;
    assert forall|i: int, j: int| 0 <= i < j < t.len() implies rule_rank(#[trigger] t[i])
        < rule_rank(#[trigger] t[j]) by {
        if j >= s.len() {
            assert(t[j] == part[j - s.len()]);
            assert(t[i] == s[i]);
        } else {
            assert(t[i] == s[i] && t[j] == s[j]);
        }
    }
    assert forall|i: int| 0 <= i < t.len() implies rule_rank(#[trigger] t[i]) < k + 1 by {
        if i >= s.len() {
            assert(t[i] == part[i - s.len()]);
        } else {
            assert(t[i] == s[i]);
        }
    }
}

/// A rules section yields at most one rule of each kind.
pub proof fn law_rules_kinds_distinct(r: RulesConfigSchema)
    ensures
        kinds_distinct(rules_model(r)),
        kinds_distinct(optional_rules_model(Some(r))),
{
    let e = Seq::<RuleModel>::empty();
    assert(ranks_increasing_below(e, 0));
    lemma_ranks_append(e, required_children_rule(r), 0);
    let s1 = e + required_children_rule(r);
    lemma_ranks_append(s1, no_unabstraction_files_rule(r), 1);
    let s2 = s1 + no_unabstraction_files_rule(r);
    lemma_ranks_append(s2, restrict_cross_imports_rule(r), 2);
    let s3 = s2 + restrict_cross_imports_rule(r);
    lemma_ranks_append(s3, public_api_rule(r), 3);
    let s4 = s3 + public_api_rule(r);
    lemma_ranks_append(s4, dependencies_port_rule(r), 4);
    let s5 = s4 + dependencies_port_rule(r);
    lemma_ranks_append(s5, dependencies_direction_rule(r), 5);
    let s6 = s5 + dependencies_direction_rule(r);
    assert(s6 =~= rules_model(r));
    assert forall|i: int, j: int| 0 <= i < j < s6.len() implies !same_rule_kind(
        #[trigger] s6[i],
        #[trigger] s6[j],
    ) by {
        assert(rule_rank(s6[i]) < rule_rank(s6[j]));
    }
}

/// Whether a rule's severity is the one written for it: the written severity
/// where there is one, and `Error` where none is written.
pub open spec fn severity_as_written(severity: Severity, written: Option<Severity>) -> bool {
    match written {
        Some(v) => severity == v,
        None => severity == Severity::Error,
    }
}

/// Whether a rules section writes a rule of the kind of rank `k`.
pub open spec fn kind_written(r: RulesConfigSchema, k: int) -> bool {
    ||| k == 0 && r.required_children is Some
    ||| k == 1 && r.no_unabstraction_files is Some
    ||| k == 2 && r.restrict_cross_imports is Some
    ||| k == 3 && r.public_api is Some
    ||| k == 4 && r.dependencies_port is Some
    ||| k == 5 && r.dependencies_direction is Some
}

/// Whether `x` is the rule that the rules section `r` writes for its kind: the
/// section writes that kind, `x` has the written severity (`Error` where none is
/// written), and each list of `x` is the written list of the same name.
pub open spec fn rule_as_written(x: RuleModel, r: RulesConfigSchema) -> bool {
    match x {
        RuleModel::RequiredChildren { severity, names, pattern, ignore_pattern } => {
            &&& r.required_children matches Some(w)
            &&& severity_as_written(severity, w.severity)
            &&& names == w.names.deep_view()
            &&& pattern == w.pattern.deep_view()
            &&& ignore_pattern == w.ignore_pattern.deep_view()
        },
        RuleModel::NoUnabstractionFiles { severity } => {
            &&& r.no_unabstraction_files matches Some(w)
            &&& severity_as_written(severity, w.severity)
        },
        RuleModel::RestrictCrossImports { severity, ignore_pattern } => {
            &&& r.restrict_cross_imports matches Some(w)
            &&& severity_as_written(severity, w.severity)
            &&& ignore_pattern == w.ignore_pattern.deep_view()
        },
        RuleModel::PublicApi { severity, names, pattern, ignore_pattern } => {
            &&& r.public_api matches Some(w)
            &&& severity_as_written(severity, w.severity)
            &&& names == w.names.deep_view()
            &&& pattern == w.pattern.deep_view()
            &&& ignore_pattern == w.ignore_pattern.deep_view()
        },
        RuleModel::DependenciesPort { severity, names, pattern, ignore_pattern } => {
            &&& r.dependencies_port matches Some(w)
            &&& severity_as_written(severity, w.severity)
            &&& names == w.names.deep_view()
            &&& pattern == w.pattern.deep_view()
            &&& ignore_pattern == w.ignore_pattern.deep_view()
        },
        RuleModel::DependenciesDirection { severity, order } => {
            &&& r.dependencies_direction matches Some(w)
            &&& severity_as_written(severity, w.severity)
            &&& order == w.order.deep_view()
        },
    }
}

/// Whether some rule of `rules` is of the kind of rank `k`.
pub open spec fn has_rank(rules: Seq<RuleModel>, k: int) -> bool {
    exists|i: int| 0 <= i < rules.len() && rule_rank(#[trigger] rules[i]) == k
}

/// The rules listed so far for the kinds of rank below `k`: each as written,
/// in increasing rank, one for each kind below `k` that is written.
spec fn listed_below(s: Seq<RuleModel>, r: RulesConfigSchema, k: int) -> bool {
    &&& forall|i: int| 0 <= i < s.len() ==> rule_as_written(#[trigger] s[i], r)
    &&& ranks_increasing_below(s, k)
    &&& forall|j: int| 0 <= j < k && kind_written(r, j) ==> #[trigger] has_rank(s, j)
}

/// What a rules section yields for the kind of rank `k`: the written rule, if any.
spec fn part_for_kind(part: Seq<RuleModel>, r: RulesConfigSchema, k: int) -> bool {
    &&& part.len() <= 1
    &&& part.len() == 1 <==> kind_written(r, k)
    &&& forall|i: int| 0 <= i < part.len() ==> rule_rank(#[trigger] part[i]) == k
    &&& forall|i: int| 0 <= i < part.len() ==> rule_as_written(#[trigger] part[i], r)
}

proof fn lemma_listed_append(s: Seq<RuleModel>, part: Seq<RuleModel>, r: RulesConfigSchema, k: int)
    requires
        listed_below(s, r, k),
        part_for_kind(part, r, k),
    ensures
        listed_below(s + part, r, k + 1),
{
    let t = s + part;
    lemma_ranks_append(s, part, k);
    assert forall|i: int| 0 <= i < t.len() implies rule_as_written(#[trigger] t[i], r) by {
        if i < s.len() {
            assert(t[i] == s[i]);
        } else {
            assert(t[i] == part[i - s.len()]);
        }
    }
    assert forall|j: int| 0 <= j < k + 1 && kind_written(r, j) implies #[trigger] has_rank(t, j) by {
        if j < k {
            assert(has_rank(s, j));
            let i = choose|i: int| 0 <= i < s.len() && rule_rank(#[trigger] s[i]) == j;
            assert(t[i] == s[i]);
        } else {
            assert(t[s.len() as int] == part[0]);
        }
    }
}

/// A rules section yields exactly the rules it writes, in the fixed order
/// required children, no unabstraction files, restrict cross imports, public
/// api, dependencies port, dependencies direction: every rule yielded is of a
/// written kind, carries the written severity (`Error` where none is written,
/// for every kind) and the written names, pattern, ignore pattern and order in
/// the fields of the same name; every written kind yields a rule; and the kinds
/// come in that order, each once.
pub proof fn law_rules_as_written(r: RulesConfigSchema)
    ensures
        forall|i: int|
            0 <= i < rules_model(r).len() ==> rule_as_written(#[trigger] rules_model(r)[i], r),
        forall|k: int| 0 <= k < 6 && kind_written(r, k) ==> #[trigger] has_rank(rules_model(r), k),
        ranks_increasing_below(rules_model(r), 6),
{
    let e = Seq::<RuleModel>::empty();
    assert(listed_below(e, r, 0));
    assert(part_for_kind(required_children_rule(r), r, 0));
    lemma_listed_append(e, required_children_rule(r), r, 0);
    let s1 = e + required_children_rule(r);
    assert(part_for_kind(no_unabstraction_files_rule(r), r, 1));
    lemma_listed_append(s1, no_unabstraction_files_rule(r), r, 1);
    let s2 = s1 + no_unabstraction_files_rule(r);
    assert(part_for_kind(restrict_cross_imports_rule(r), r, 2));
    lemma_listed_append(s2, restrict_cross_imports_rule(r), r, 2);
    let s3 = s2 + restrict_cross_imports_rule(r);
    assert(part_for_kind(public_api_rule(r), r, 3));
    lemma_listed_append(s3, public_api_rule(r), r, 3);
    let s4 = s3 + public_api_rule(r);
    assert(part_for_kind(dependencies_port_rule(r), r, 4));
    lemma_listed_append(s4, dependencies_port_rule(r), r, 4);
    let s5 = s4 + dependencies_port_rule(r);
    assert(part_for_kind(dependencies_direction_rule(r), r, 5));
    lemma_listed_append(s5, dependencies_direction_rule(r), r, 5);
    let s6 = s5 + dependencies_direction_rule(r);
    assert(s6 =~= rules_model(r));
}

// ----- names in the cache -----

/// Whether every abstraction of a cache is stored under its own name.
pub open spec fn stored_under_own_name(c: Cache) -> bool {
    forall|k: Seq<char>| c.contains_key(k) ==> (#[trigger] c[k]).name == k
}

proof fn lemma_stored_union(a: Cache, b: Cache)
    requires
        stored_under_own_name(a),
        stored_under_own_name(b),
    ensures
        stored_under_own_name(a.union_prefer_right(b)),
{
}

/// The name that resolving a child gives: an abstraction written in place keeps
/// its own name; a link gives its text or the name it refers to.
pub open spec fn resolved_name_fits(fv: AbstractionFieldValueSchema, m: AbstractionModel) -> bool {
    match fv {
        AbstractionFieldValueSchema::Schema(s) => m.name == s.name@,
        AbstractionFieldValueSchema::Link(l) => m.name == l.ref_@ || m.name == link_target(l.ref_@),
    }
}

/// Resolving a child from a cache that stores each abstraction under its own name
/// writes only abstractions under their own names, and gives a fitting name.
pub proof fn law_field_names(abs: SchemaEntries, cache: Cache, fv: AbstractionFieldValueSchema)
    requires
        stored_under_own_name(cache),
    ensures
        stored_under_own_name(resolve_field(abs, cache, fv).1),
        resolve_field(abs, cache, fv).0 matches Ok(m) ==> resolved_name_fits(fv, m),
    decreases unresolved(abs, cache), field_size(fv),
{
    match fv {
        AbstractionFieldValueSchema::Schema(s) => {
            lemma_inline_size(s);
            law_inline_names(abs, cache, s);
        },
        AbstractionFieldValueSchema::Link(l) => {
            if !cache.contains_key(l.ref_@) {
                let n = link_target(l.ref_@);
                if let Some(s) = entry_lookup(abs, n) {
                    lemma_lookup_names(abs, n);
                    law_named_names(abs, cache, s, n);
                }
            }
        },
    }
}

/// Resolving a reusable abstraction under `name` from a cache that stores each
/// abstraction under its own name writes only abstractions under their own
/// names, and gives an abstraction named `name`.
pub proof fn law_named_names(
    abs: SchemaEntries,
    cache: Cache,
    schema: AbstractionSchema,
    name: Seq<char>,
)
    requires
        stored_under_own_name(cache),
    ensures
        stored_under_own_name(resolve_named(abs, cache, schema, name).1),
        resolve_named(abs, cache, schema, name).0 matches Ok(m) ==> m.name == name,
    decreases unresolved(abs, cache) + unlisted_uncached(abs, cache, name), 0nat,
{
    if !cache.contains_key(name) {
        let placeholder = map![name => empty_abstraction(name)];
        lemma_unresolved_grow(abs, cache, placeholder);
        lemma_stored_union(cache, placeholder);
        let c1 = cache.union_prefer_right(placeholder);
        law_body_names(abs, c1, name, schema.extend, table_children(schema), schema.rules);
        let r = resolve_body(abs, c1, name, schema.extend, table_children(schema), schema.rules);
        lemma_stored_union(placeholder, r.1);
    }
}

/// Resolving an abstraction written in place from a cache that stores each
/// abstraction under its own name writes only abstractions under their own
/// names, and gives an abstraction with its own name.
pub proof fn law_inline_names(abs: SchemaEntries, cache: Cache, schema: NamedAbstractionSchema)
    requires
        stored_under_own_name(cache),
    ensures
        stored_under_own_name(resolve_inline(abs, cache, schema).1),
        resolve_inline(abs, cache, schema).0 matches Ok(m) ==> m.name == schema.name@,
    decreases unresolved(abs, cache), entries_size(written_children(schema)) + 3,
{
    let name = schema.name@;
    if !cache.contains_key(name) {
        let placeholder = map![name => empty_abstraction(name)];
        lemma_unresolved_grow(abs, cache, placeholder);
        lemma_stored_union(cache, placeholder);
        let c1 = cache.union_prefer_right(placeholder);
        law_body_names(abs, c1, name, schema.extend, written_children(schema), schema.rules);
        let r = resolve_body(abs, c1, name, schema.extend, written_children(schema), schema.rules);
        lemma_stored_union(placeholder, r.1);
    }
}

/// Building an abstraction from a cache that stores each abstraction under its
/// own name writes only abstractions under their own names, and names the
/// abstraction as asked.
pub proof fn law_body_names(
    abs: SchemaEntries,
    cache: Cache,
    name: Seq<char>,
    extend: Option<AbstractionLinkSchema>,
    children: ChildEntries,
    rules: Option<RulesConfigSchema>,
)
    requires
        stored_under_own_name(cache),
    ensures
        stored_under_own_name(resolve_body(abs, cache, name, extend, children, rules).1),
        resolve_body(abs, cache, name, extend, children, rules).0 matches Ok(m) ==> m.name == name,
    decreases unresolved(abs, cache), entries_size(children) + 2,
{
    law_base_names(abs, cache, extend);
    let base = resolve_base(abs, cache, extend);
    if base.0 is Ok {
        lemma_unresolved_grow(abs, cache, base.1);
        lemma_stored_union(cache, base.1);
        let c2 = cache.union_prefer_right(base.1);
        law_children_names(abs, c2, children);
        let ch = resolve_children(abs, c2, children);
        lemma_stored_union(base.1, ch.1);
    }
}

/// Resolving a base from a cache that stores each abstraction under its own
/// name writes only abstractions under their own names.
pub proof fn law_base_names(abs: SchemaEntries, cache: Cache, extend: Option<AbstractionLinkSchema>)
    requires
        stored_under_own_name(cache),
    ensures
        stored_under_own_name(resolve_base(abs, cache, extend).1),
    decreases unresolved(abs, cache), 1nat,
{
    if let Some(l) = extend {
        let n = link_target(l.ref_@);
        if let Some(s) = entry_lookup(abs, n) {
            lemma_lookup_names(abs, n);
            law_named_names(abs, cache, s, n);
        }
    }
}

/// Resolving children from a cache that stores each abstraction under its own
/// name writes only abstractions under their own names.
pub proof fn law_children_names(abs: SchemaEntries, cache: Cache, children: ChildEntries)
    requires
        stored_under_own_name(cache),
    ensures
        stored_under_own_name(resolve_children(abs, cache, children).1),
    decreases unresolved(abs, cache), entries_size(children),
{
    if children.len() > 0 {
        law_field_names(abs, cache, children[0].1);
        let first = resolve_field(abs, cache, children[0].1);
        if first.0 is Ok {
            lemma_unresolved_grow(abs, cache, first.1);
            lemma_stored_union(cache, first.1);
            let c = cache.union_prefer_right(first.1);
            law_children_names(abs, c, children.drop_first());
            lemma_stored_union(first.1, resolve_children(abs, c, children.drop_first()).1);
        }
    }
}

/// A configuration resolves to a root with a fitting name: its own name where
/// the root is written in place, the link's text or target where it is a link.
pub proof fn law_root_name(schema: ConfigSchema, defaults: DefaultsModel)
    ensures
        resolve_config(schema, defaults) matches Ok(m) ==> resolved_name_fits(schema.root, m.root),
{
    law_field_names(config_abstractions(schema), Map::empty(), schema.root);
}

// ----- one rule per kind -----

proof fn lemma_drop_kind_distinct(rules: Seq<RuleModel>, r: RuleModel)
    requires
        kinds_distinct(rules),
    ensures
        kinds_distinct(drop_kind(rules, r)),
        forall|i: int|
            0 <= i < drop_kind(rules, r).len() ==> !same_rule_kind(
                #[trigger] drop_kind(rules, r)[i],
                r,
            ),
    decreases rules.len(),
{
    if rules.len() > 0 {
        let prev = rules.drop_last();
        assert(kinds_distinct(prev)) by {
            assert forall|i: int, j: int| 0 <= i < j < prev.len() implies !same_rule_kind(
                #[trigger] prev[i],
                #[trigger] prev[j],
            ) by {
                assert(prev[i] == rules[i] && prev[j] == rules[j]);
            }
        }
        lemma_drop_kind_distinct(prev, r);
        let d = drop_kind(prev, r);
        if !same_rule_kind(rules.last(), r) {
            let t = d.push(rules.last());
            assert forall|i: int, j: int| 0 <= i < j < t.len() implies !same_rule_kind(
                #[trigger] t[i],
                #[trigger] t[j],
            ) by {
                if j == d.len() {
                    assert(t[i] == d[i]);
                    lemma_drop_kind(prev, r, d[i]);
                    assert(d.contains(d[i]));
                    let k = choose|k: int| 0 <= k < prev.len() && prev[k] == d[i];
                    assert(rules[k] == prev[k]);
                    assert(!same_rule_kind(rules[k], rules[rules.len() - 1]));
                } else {
                    assert(t[i] == d[i] && t[j] == d[j]);
                }
            }
            assert forall|i: int| 0 <= i < t.len() implies !same_rule_kind(#[trigger] t[i], r) by {
                if i < d.len() {
                    assert(t[i] == d[i]);
                }
            }
        }
    }
}

/// Extending a base with at most one rule per kind keeps at most one rule per kind.
pub proof fn law_merge_rules_one_per_kind(base: Seq<RuleModel>, own: Seq<RuleModel>)
    requires
        kinds_distinct(base),
    ensures
        kinds_distinct(merge_rules(base, own)),
    decreases own.len(),
{
    if own.len() > 0 {
        law_merge_rules_one_per_kind(base, own.drop_last());
        let m = merge_rules(base, own.drop_last());
        lemma_drop_kind_distinct(m, own.last());
        let d = drop_kind(m, own.last());
        let t = d.push(own.last());
        assert forall|i: int, j: int| 0 <= i < j < t.len() implies !same_rule_kind(
            #[trigger] t[i],
            #[trigger] t[j],
        ) by {
            assert(t[i] == d[i]);
            if j < d.len() {
                assert(t[j] == d[j]);
            }
        }
    }
}

/// Whether every abstraction of a cache has at most one rule of each kind.
pub open spec fn one_rule_per_kind(c: Cache) -> bool {
    forall|k: Seq<char>| c.contains_key(k) ==> kinds_distinct((#[trigger] c[k]).rules)
}

proof fn lemma_one_rule_per_kind_union(a: Cache, b: Cache)
    requires
        one_rule_per_kind(a),
        one_rule_per_kind(b),
    ensures
        one_rule_per_kind(a.union_prefer_right(b)),
{
}

/// Resolving a child keeps at most one rule per kind in every abstraction it
/// writes and gives.
pub proof fn law_field_rule_kinds(abs: SchemaEntries, cache: Cache, fv: AbstractionFieldValueSchema)
    requires
        one_rule_per_kind(cache),
    ensures
        one_rule_per_kind(resolve_field(abs, cache, fv).1),
        resolve_field(abs, cache, fv).0 matches Ok(m) ==> kinds_distinct(m.rules),
    decreases unresolved(abs, cache), field_size(fv),
{
    match fv {
        AbstractionFieldValueSchema::Schema(s) => {
            lemma_inline_size(s);
            law_inline_rule_kinds(abs, cache, s);
        },
        AbstractionFieldValueSchema::Link(l) => {
            if !cache.contains_key(l.ref_@) {
                let n = link_target(l.ref_@);
                if let Some(s) = entry_lookup(abs, n) {
                    lemma_lookup_names(abs, n);
                    law_named_rule_kinds(abs, cache, s, n);
                }
            }
        },
    }
}

/// Resolving a reusable abstraction keeps at most one rule per kind in every
/// abstraction it writes and gives.
pub proof fn law_named_rule_kinds(
    abs: SchemaEntries,
    cache: Cache,
    schema: AbstractionSchema,
    name: Seq<char>,
)
    requires
        one_rule_per_kind(cache),
    ensures
        one_rule_per_kind(resolve_named(abs, cache, schema, name).1),
        resolve_named(abs, cache, schema, name).0 matches Ok(m) ==> kinds_distinct(m.rules),
    decreases unresolved(abs, cache) + unlisted_uncached(abs, cache, name), 0nat,
{
    if !cache.contains_key(name) {
        let placeholder = map![name => empty_abstraction(name)];
        lemma_unresolved_grow(abs, cache, placeholder);
        lemma_one_rule_per_kind_union(cache, placeholder);
        let c1 = cache.union_prefer_right(placeholder);
        law_body_rule_kinds(abs, c1, name, schema.extend, table_children(schema), schema.rules);
        let r = resolve_body(abs, c1, name, schema.extend, table_children(schema), schema.rules);
        lemma_one_rule_per_kind_union(placeholder, r.1);
    }
}

/// Resolving an abstraction written in place keeps at most one rule per kind in
/// every abstraction it writes and gives.
pub proof fn law_inline_rule_kinds(abs: SchemaEntries, cache: Cache, schema: NamedAbstractionSchema)
    requires
        one_rule_per_kind(cache),
    ensures
        one_rule_per_kind(resolve_inline(abs, cache, schema).1),
        resolve_inline(abs, cache, schema).0 matches Ok(m) ==> kinds_distinct(m.rules),
    decreases unresolved(abs, cache), entries_size(written_children(schema)) + 3,
{
    let name = schema.name@;
    if !cache.contains_key(name) {
        let placeholder = map![name => empty_abstraction(name)];
        lemma_unresolved_grow(abs, cache, placeholder);
        lemma_one_rule_per_kind_union(cache, placeholder);
        let c1 = cache.union_prefer_right(placeholder);
        law_body_rule_kinds(abs, c1, name, schema.extend, written_children(schema), schema.rules);
        let r = resolve_body(abs, c1, name, schema.extend, written_children(schema), schema.rules);
        lemma_one_rule_per_kind_union(placeholder, r.1);
    }
}

/// Building an abstraction keeps at most one rule per kind in every abstraction
/// it writes and gives.
pub proof fn law_body_rule_kinds(
    abs: SchemaEntries,
    cache: Cache,
    name: Seq<char>,
    extend: Option<AbstractionLinkSchema>,
    children: ChildEntries,
    rules: Option<RulesConfigSchema>,
)
    requires
        one_rule_per_kind(cache),
    ensures
        one_rule_per_kind(resolve_body(abs, cache, name, extend, children, rules).1),
        resolve_body(abs, cache, name, extend, children, rules).0 matches Ok(m) ==> kinds_distinct(
            m.rules,
        ),
    decreases unresolved(abs, cache), entries_size(children) + 2,
{
    law_base_rule_kinds(abs, cache, extend);
    let base = resolve_base(abs, cache, extend);
    if let Ok(b) = base.0 {
        lemma_unresolved_grow(abs, cache, base.1);
        lemma_one_rule_per_kind_union(cache, base.1);
        let c2 = cache.union_prefer_right(base.1);
        law_children_rule_kinds(abs, c2, children);
        let ch = resolve_children(abs, c2, children);
        lemma_one_rule_per_kind_union(base.1, ch.1);
        let own = optional_rules_model(rules);
        if let Some(r) = rules {
            law_rules_kinds_distinct(r);
        }
        if let Some(bm) = b {
            law_merge_rules_one_per_kind(bm.rules, own);
        }
    }
}

/// Resolving a base keeps at most one rule per kind in every abstraction it
/// writes and gives.
pub proof fn law_base_rule_kinds(
    abs: SchemaEntries,
    cache: Cache,
    extend: Option<AbstractionLinkSchema>,
)
    requires
        one_rule_per_kind(cache),
    ensures
        one_rule_per_kind(resolve_base(abs, cache, extend).1),
        resolve_base(abs, cache, extend).0 matches Ok(Some(m)) ==> kinds_distinct(m.rules),
    decreases unresolved(abs, cache), 1nat,
{
    if let Some(l) = extend {
        let n = link_target(l.ref_@);
        if let Some(s) = entry_lookup(abs, n) {
            lemma_lookup_names(abs, n);
            law_named_rule_kinds(abs, cache, s, n);
        }
    }
}

/// Resolving children keeps at most one rule per kind in every abstraction it
/// writes.
pub proof fn law_children_rule_kinds(abs: SchemaEntries, cache: Cache, children: ChildEntries)
    requires
        one_rule_per_kind(cache),
    ensures
        one_rule_per_kind(resolve_children(abs, cache, children).1),
    decreases unresolved(abs, cache), entries_size(children),
{
    if children.len() > 0 {
        law_field_rule_kinds(abs, cache, children[0].1);
        let first = resolve_field(abs, cache, children[0].1);
        if first.0 is Ok {
            lemma_unresolved_grow(abs, cache, first.1);
            lemma_one_rule_per_kind_union(cache, first.1);
            let c = cache.union_prefer_right(first.1);
            law_children_rule_kinds(abs, c, children.drop_first());
            lemma_one_rule_per_kind_union(first.1, resolve_children(abs, c, children.drop_first()).1);
        }
    }
}

/// The root of a configuration has at most one rule of each kind.
pub proof fn law_root_rule_kinds(schema: ConfigSchema, defaults: DefaultsModel)
    ensures
        resolve_config(schema, defaults) matches Ok(m) ==> kinds_distinct(m.root.rules),
{
    law_field_rule_kinds(config_abstractions(schema), Map::empty(), schema.root);
}

// ----- kinds of rules -----

/// Being of the same kind is an equivalence: reflexive, symmetric, transitive.
pub proof fn law_same_kind_equivalence(a: RuleModel, b: RuleModel, c: RuleModel)
    ensures
        same_rule_kind(a, a),
        same_rule_kind(a, b) == same_rule_kind(b, a),
        same_rule_kind(a, b) && same_rule_kind(b, c) ==> same_rule_kind(a, c),
{
}

// ----- memoisation -----

/// A reusable abstraction already cached under `name` is resolved to the cached
/// one, and nothing is written.
pub proof fn law_named_memo(abs: SchemaEntries, cache: Cache, schema: AbstractionSchema, name: Seq<char>)
    requires
        cache.contains_key(name),
    ensures
        resolve_named(abs, cache, schema, name) == (
        Ok::<AbstractionModel, Seq<char>>(cache[name]),
        Map::<Seq<char>, AbstractionModel>::empty(),
        Seq::<Seq<char>>::empty(),
        ),
{
}

/// An abstraction written in place whose name is already cached is resolved to
/// the cached one, whatever it writes itself, and nothing is written.
pub proof fn law_inline_memo(abs: SchemaEntries, cache: Cache, schema: NamedAbstractionSchema)
    requires
        cache.contains_key(schema.name@),
    ensures
        resolve_inline(abs, cache, schema) == (
        Ok::<AbstractionModel, Seq<char>>(cache[schema.name@]),
        Map::<Seq<char>, AbstractionModel>::empty(),
        Seq::<Seq<char>>::empty(),
        ),
{
}

/// Once a reusable abstraction has been resolved under `name`, resolving it
/// again from the grown cache gives the same abstraction and writes nothing.
pub proof fn law_named_resolved_once(
    abs: SchemaEntries,
    cache: Cache,
    schema: AbstractionSchema,
    other: AbstractionSchema,
    name: Seq<char>,
)
    requires
        resolve_named(abs, cache, schema, name).0 is Ok,
    ensures
        ({
            let first = resolve_named(abs, cache, schema, name);
            resolve_named(abs, cache.union_prefer_right(first.1), other, name) == (
            first.0,
            Map::<Seq<char>, AbstractionModel>::empty(),
            Seq::<Seq<char>>::empty(),
            )
        }),
{
    let first = resolve_named(abs, cache, schema, name);
    if !cache.contains_key(name) {
        let placeholder = map![name => empty_abstraction(name)];
        let c1 = cache.union_prefer_right(placeholder);
        let r = resolve_body(abs, c1, name, schema.extend, table_children(schema), schema.rules);
        // building ends by writing the abstraction under its name
        let base = resolve_base(abs, c1, schema.extend);
        let ch = resolve_children(abs, c1.union_prefer_right(base.1), table_children(schema));
        assert(r.1 == base.1.union_prefer_right(ch.1).insert(name, r.0->Ok_0));
        assert(cache.union_prefer_right(first.1).contains_key(name));
        assert(cache.union_prefer_right(first.1)[name] == r.0->Ok_0);
    }
}

// ----- the two resolvers -----

/// A reusable abstraction and one written in place resolve alike when they have
/// the same name, base, children and rules.
pub proof fn law_resolvers_agree(
    abs: SchemaEntries,
    cache: Cache,
    reusable: AbstractionSchema,
    written: NamedAbstractionSchema,
)
    requires
        reusable.extend == written.extend,
        reusable.rules == written.rules,
        table_children(reusable) == written_children(written),
    ensures
        resolve_named(abs, cache, reusable, written.name@) == resolve_inline(abs, cache, written),
{
}

// ----- matchers stay unique -----

/// Whether no two entries have the same key.
pub open spec fn keys_unique<V>(entries: Seq<(Seq<char>, V)>) -> bool {
    forall|i: int, j: int|
        0 <= i < j < entries.len() ==> (#[trigger] entries[i]).0 != (#[trigger] entries[j]).0
}

/// Extending a base whose children have distinct matchers keeps them distinct.
pub proof fn law_merge_children_unique(
    base: Seq<(Seq<char>, AbstractionModel)>,
    own: Seq<(Seq<char>, AbstractionModel)>,
)
    requires
        keys_unique(base),
    ensures
        keys_unique(merge_children(base, own)),
    decreases own.len(),
{
    if own.len() > 0 {
        law_merge_children_unique(base, own.drop_last());
        let acc = merge_children(base, own.drop_last());
        let x = own.last();
        lemma_first_index_of(acc, x.0);
        let res = put_child(acc, x);
        assert forall|i: int, j: int| 0 <= i < j < res.len() implies (#[trigger] res[i]).0 != (
        #[trigger] res[j]).0 by {
            match first_index_of(acc, x.0) {
                Some(p) => {
                    assert(res[i].0 == acc[i].0 && res[j].0 == acc[j].0);
                },
                None => {
                    if j == acc.len() {
                        assert(res[i] == acc[i]);
                    } else {
                        assert(res[i] == acc[i] && res[j] == acc[j]);
                    }
                },
            }
        }
    }
}

/// Extending a base with children under matchers that are new and distinct
/// appends them after the base's children.
pub proof fn law_children_append(
    base: Seq<(Seq<char>, AbstractionModel)>,
    own: Seq<(Seq<char>, AbstractionModel)>,
)
    requires
        keys_unique(own),
        forall|i: int, j: int| 0 <= i < base.len() && 0 <= j < own.len() ==> (#[trigger] base[i]).0
            != (#[trigger] own[j]).0,
    ensures
        merge_children(base, own) == base + own,
    decreases own.len(),
{
    if own.len() > 0 {
        let prev = own.drop_last();
        assert(keys_unique(prev)) by {
            assert forall|i: int, j: int| 0 <= i < j < prev.len() implies (#[trigger] prev[i]).0
                != (#[trigger] prev[j]).0 by {
                assert(prev[i] == own[i] && prev[j] == own[j]);
            }
        }
        assert forall|i: int, j: int| 0 <= i < base.len() && 0 <= j < prev.len() implies (
        #[trigger] base[i]).0 != (#[trigger] prev[j]).0 by {
            assert(prev[j] == own[j]);
        }
        law_children_append(base, prev);
        let acc = base + prev;
        let x = own.last();
        lemma_first_index_of(acc, x.0);
        if let Some(p) = first_index_of(acc, x.0) {
            if p < base.len() {
                assert(acc[p] == base[p]);
                assert(own[own.len() - 1] == x);
            } else {
                assert(acc[p] == prev[p - base.len()]);
                assert(prev[p - base.len()] == own[p - base.len()]);
                assert(own[own.len() - 1] == x);
            }
        }
        assert(acc.push(x) =~= base + own);
    }
}

// ----- cached abstractions stay -----

/// Whether `written` touches no key of `cache`, except possibly `except`.
pub open spec fn leaves_cached(cache: Cache, written: Cache, except: Option<Seq<char>>) -> bool {
    forall|k: Seq<char>|
        cache.contains_key(k) && except != Some(k) ==> !#[trigger] written.contains_key(k)
}

/// Resolving a child, successfully or not, rewrites no cached abstraction.
pub proof fn law_field_leaves_cached(abs: SchemaEntries, cache: Cache, fv: AbstractionFieldValueSchema)
    ensures
        leaves_cached(cache, resolve_field(abs, cache, fv).1, None),
    decreases unresolved(abs, cache), field_size(fv),
{
    match fv {
        AbstractionFieldValueSchema::Schema(s) => {
            lemma_inline_size(s);
            law_inline_leaves_cached(abs, cache, s);
        },
        AbstractionFieldValueSchema::Link(l) => {
            if !cache.contains_key(l.ref_@) {
                let n = link_target(l.ref_@);
                if let Some(s) = entry_lookup(abs, n) {
                    lemma_lookup_names(abs, n);
                    law_named_leaves_cached(abs, cache, s, n);
                }
            }
        },
    }
}

/// Resolving a reusable abstraction, successfully or not, rewrites no cached
/// abstraction.
pub proof fn law_named_leaves_cached(
    abs: SchemaEntries,
    cache: Cache,
    schema: AbstractionSchema,
    name: Seq<char>,
)
    ensures
        leaves_cached(cache, resolve_named(abs, cache, schema, name).1, None),
    decreases unresolved(abs, cache) + unlisted_uncached(abs, cache, name), 0nat,
{
    if !cache.contains_key(name) {
        let placeholder = map![name => empty_abstraction(name)];
        lemma_unresolved_grow(abs, cache, placeholder);
        let c1 = cache.union_prefer_right(placeholder);
        law_body_leaves_cached(abs, c1, name, schema.extend, table_children(schema), schema.rules);
    }
}

/// Resolving an abstraction written in place, successfully or not, rewrites no
/// cached abstraction.
pub proof fn law_inline_leaves_cached(abs: SchemaEntries, cache: Cache, schema: NamedAbstractionSchema)
    ensures
        leaves_cached(cache, resolve_inline(abs, cache, schema).1, None),
    decreases unresolved(abs, cache), entries_size(written_children(schema)) + 3,
{
    let name = schema.name@;
    if !cache.contains_key(name) {
        let placeholder = map![name => empty_abstraction(name)];
        lemma_unresolved_grow(abs, cache, placeholder);
        let c1 = cache.union_prefer_right(placeholder);
        law_body_leaves_cached(abs, c1, name, schema.extend, written_children(schema), schema.rules);
    }
}

/// Building an abstraction rewrites no cached abstraction but its own placeholder.
pub proof fn law_body_leaves_cached(
    abs: SchemaEntries,
    cache: Cache,
    name: Seq<char>,
    extend: Option<AbstractionLinkSchema>,
    children: ChildEntries,
    rules: Option<RulesConfigSchema>,
)
    ensures
        leaves_cached(cache, resolve_body(abs, cache, name, extend, children, rules).1, Some(name)),
    decreases unresolved(abs, cache), entries_size(children) + 2,
{
    law_base_leaves_cached(abs, cache, extend);
    let base = resolve_base(abs, cache, extend);
    if base.0 is Ok {
        lemma_unresolved_grow(abs, cache, base.1);
        let c2 = cache.union_prefer_right(base.1);
        law_children_leaves_cached(abs, c2, children);
    }
}

/// Resolving a base rewrites no cached abstraction.
pub proof fn law_base_leaves_cached(abs: SchemaEntries, cache: Cache, extend: Option<AbstractionLinkSchema>)
    ensures
        leaves_cached(cache, resolve_base(abs, cache, extend).1, None),
    decreases unresolved(abs, cache), 1nat,
{
    if let Some(l) = extend {
        let n = link_target(l.ref_@);
        if let Some(s) = entry_lookup(abs, n) {
            lemma_lookup_names(abs, n);
            law_named_leaves_cached(abs, cache, s, n);
        }
    }
}

/// Resolving children, successfully or not, rewrites no cached abstraction.
pub proof fn law_children_leaves_cached(abs: SchemaEntries, cache: Cache, children: ChildEntries)
    ensures
        leaves_cached(cache, resolve_children(abs, cache, children).1, None),
    decreases unresolved(abs, cache), entries_size(children),
{
    if children.len() > 0 {
        law_field_leaves_cached(abs, cache, children[0].1);
        let first = resolve_field(abs, cache, children[0].1);
        if first.0 is Ok {
            lemma_unresolved_grow(abs, cache, first.1);
            let c = cache.union_prefer_right(first.1);
            law_children_leaves_cached(abs, c, children.drop_first());
        }
    }
}

// ----- rules as whole sequences -----

/// Whether `x` is of the kind of one of `own`.
pub open spec fn kind_in(x: RuleModel, own: Seq<RuleModel>) -> bool {
    exists|i: int| 0 <= i < own.len() && same_rule_kind(x, #[trigger] own[i])
}

/// The rules of `base` of a kind that no rule of `own` has, in order.
pub open spec fn keep_unlike(base: Seq<RuleModel>, own: Seq<RuleModel>) -> Seq<RuleModel>
    decreases base.len(),
{
    if base.len() == 0 {
        base
    } else if kind_in(base.last(), own) {
        keep_unlike(base.drop_last(), own)
    } else {
        keep_unlike(base.drop_last(), own).push(base.last())
    }
}

proof fn lemma_drop_kind_concat(x: Seq<RuleModel>, y: Seq<RuleModel>, r: RuleModel)
    ensures
        drop_kind(x + y, r) == drop_kind(x, r) + drop_kind(y, r),
    decreases y.len(),
{
    if y.len() == 0 {
        assert(x + y =~= x);
        assert(drop_kind(x, r) + drop_kind(y, r) =~= drop_kind(x, r));
    } else {
        assert((x + y).drop_last() =~= x + y.drop_last());
        assert((x + y).last() == y.last());
        lemma_drop_kind_concat(x, y.drop_last(), r);
        if !same_rule_kind(y.last(), r) {
            assert(drop_kind(x, r) + drop_kind(y.drop_last(), r).push(y.last()) =~= (drop_kind(
                x,
                r,
            ) + drop_kind(y.drop_last(), r)).push(y.last()));
        }
    }
}

proof fn lemma_drop_kind_none(y: Seq<RuleModel>, r: RuleModel)
    requires
        forall|i: int| 0 <= i < y.len() ==> !same_rule_kind(#[trigger] y[i], r),
    ensures
        drop_kind(y, r) == y,
    decreases y.len(),
{
    if y.len() > 0 {
        assert(!same_rule_kind(y[y.len() - 1], r));
        lemma_drop_kind_none(y.drop_last(), r);
        assert(y.drop_last().push(y.last()) =~= y);
    }
}

proof fn lemma_keep_unlike_push(base: Seq<RuleModel>, own: Seq<RuleModel>, r: RuleModel)
    ensures
        drop_kind(keep_unlike(base, own), r) == keep_unlike(base, own.push(r)),
    decreases base.len(),
{
    if base.len() > 0 {
        lemma_keep_unlike_push(base.drop_last(), own, r);
        let x = base.last();
        let o2 = own.push(r);
        let kept = keep_unlike(base.drop_last(), own);
        assert(kept.push(x).drop_last() =~= kept);
        assert(kept.push(x).last() == x);
        assert(kind_in(x, o2) <==> kind_in(x, own) || same_rule_kind(x, r)) by {
            if kind_in(x, own) {
                let i = choose|i: int| 0 <= i < own.len() && same_rule_kind(x, #[trigger] own[i]);
                assert(o2[i] == own[i]);
            }
            if same_rule_kind(x, r) {
                assert(o2[own.len() as int] == r);
            }
            if kind_in(x, o2) {
                let i = choose|i: int| 0 <= i < o2.len() && same_rule_kind(x, #[trigger] o2[i]);
                if i < own.len() {
                    assert(o2[i] == own[i]);
                }
            }
        }
    }
}

/// Extending a base with own rules of distinct kinds gives the base's rules of
/// the other kinds, in order, followed by the own rules.
pub proof fn law_rules_sequence(base: Seq<RuleModel>, own: Seq<RuleModel>)
    requires
        kinds_distinct(own),
    ensures
        merge_rules(base, own) == keep_unlike(base, own) + own,
    decreases own.len(),
{
    if own.len() == 0 {
        assert forall|k: int| 0 <= k < base.len() implies !kind_in(#[trigger] base[k], own) by {}
        lemma_keep_unlike_all(base, own);
        assert(keep_unlike(base, own) + own =~= base);
    } else {
        let prev = own.drop_last();
        let last = own.last();
        assert(kinds_distinct(prev)) by {
            assert forall|i: int, j: int| 0 <= i < j < prev.len() implies !same_rule_kind(
                #[trigger] prev[i],
                #[trigger] prev[j],
            ) by {
                assert(prev[i] == own[i] && prev[j] == own[j]);
            }
        }
        law_rules_sequence(base, prev);
        lemma_drop_kind_concat(keep_unlike(base, prev), prev, last);
        assert forall|i: int| 0 <= i < prev.len() implies !same_rule_kind(#[trigger] prev[i], last) by {
            assert(prev[i] == own[i]);
            assert(own[own.len() - 1] == last);
        }
        lemma_drop_kind_none(prev, last);
        lemma_keep_unlike_push(base, prev, last);
        assert(prev.push(last) =~= own);
        assert((keep_unlike(base, own) + prev).push(last) =~= keep_unlike(base, own) + own);
    }
}

proof fn lemma_keep_unlike_all(base: Seq<RuleModel>, own: Seq<RuleModel>)
    requires
        own.len() == 0,
    ensures
        keep_unlike(base, own) == base,
    decreases base.len(),
{
    if base.len() > 0 {
        lemma_keep_unlike_all(base.drop_last(), own);
        assert(base.drop_last().push(base.last()) =~= base);
    }
}

// ----- key order of the cache -----

/// Writing to the cache keeps the keys it had first, in their order, and adds
/// each written key that is new, in the order of writing.
pub proof fn law_keys_keep_order(keys: Seq<Seq<char>>, written: Seq<Seq<char>>)
    ensures
        keys.len() <= add_keys(keys, written).len(),
        add_keys(keys, written).subrange(0, keys.len() as int) == keys,
        forall|i: int| 0 <= i < written.len() ==> add_keys(keys, written).contains(#[trigger] written[i]),
    decreases written.len(),
{
    if written.len() > 0 {
        let prev = written.drop_last();
        law_keys_keep_order(keys, prev);
        let before = add_keys(keys, prev);
        if !before.contains(written.last()) {
            assert(before.push(written.last()).subrange(0, keys.len() as int) =~= before.subrange(
                0,
                keys.len() as int,
            ));
            assert(before.push(written.last())[before.len() as int] == written.last());
        }
        assert forall|i: int| 0 <= i < written.len() implies add_keys(keys, written).contains(
            #[trigger] written[i],
        ) by {
            if i < prev.len() {
                assert(prev[i] == written[i]);
                assert(before.contains(prev[i]));
                if !before.contains(written.last()) {
                    let j = choose|j: int| 0 <= j < before.len() && before[j] == prev[i];
                    assert(before.push(written.last())[j] == prev[i]);
                }
            } else {
                assert(written[i] == written.last());
                if !before.contains(written.last()) {
                    assert(before.push(written.last())[before.len() as int] == written.last());
                }
            }
        }
    }
}

// ----- the configuration's own fields -----

/// A resolved configuration takes its base url, files and ignores each from its
/// own field of the schema where that is written, and else from the same field of
/// the defaults; none depends on another field (ignores, for one, are the
/// default ignores whenever the schema writes none, whatever it writes as files).
pub proof fn law_config_fields(schema: ConfigSchema, defaults: DefaultsModel)
    ensures
        resolve_config(schema, defaults) matches Ok(m) ==> m.base_url == (match schema.base_url {
            Some(u) => u@,
            None => defaults.base_url,
        }),
        resolve_config(schema, defaults) matches Ok(m) ==> m.files == (match schema.files {
            Some(f) => f.deep_view(),
            None => defaults.files,
        }),
        resolve_config(schema, defaults) matches Ok(m) ==> m.ignores == (match schema.ignores {
            Some(f) => f.deep_view(),
            None => defaults.ignores,
        }),
{
}

} // verus!

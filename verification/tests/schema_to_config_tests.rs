use indexmap::IndexMap;

use edlint_config::config_schema::{
    AbstractionFieldValueSchema, AbstractionLinkSchema, AbstractionSchema,
    DependenciesDirectionRuleSchema, NamedAbstractionSchema, NoUnabstractionFilesRuleSchema,
    PublicApiRuleSchema, RequiredChildrenRuleSchema, RestrictCrossImportsRuleSchema,
    RulesConfigSchema, DependenciesPortRuleSchema,
};
use edlint_config::config_format::is_yaml_extension;
use edlint_config::schema_to_config::{convert_rules, ref_to_name};
use edlint_config::{
    convert_schema_to_config, AbstractionConfig, Config, ConfigDefaults, ConfigError, ConfigSchema,
    RuleConfig, Severity,
};

fn link(target: &str) -> AbstractionFieldValueSchema {
    AbstractionFieldValueSchema::Link(AbstractionLinkSchema { ref_: format!("#/abstractions/{}", target) })
}

fn no_rules() -> RulesConfigSchema {
    RulesConfigSchema {
        required_children: None,
        no_unabstraction_files: None,
        public_api: None,
        restrict_cross_imports: None,
        dependencies_direction: None,
        dependencies_port: None,
    }
}

fn inline(
    name: &str,
    extend: Option<&str>,
    children: Vec<(&str, AbstractionFieldValueSchema)>,
    rules: Option<RulesConfigSchema>,
) -> AbstractionFieldValueSchema {
    AbstractionFieldValueSchema::Schema(NamedAbstractionSchema {
        name: name.to_string(),
        extend: extend.map(|e| AbstractionLinkSchema { ref_: format!("#/abstractions/{}", e) }),
        children: if children.is_empty() {
            None
        } else {
            Some(children.into_iter().map(|(m, c)| (m.to_string(), c)).collect())
        },
        rules,
    })
}

fn reusable(
    extend: Option<&str>,
    children: Vec<(&str, AbstractionFieldValueSchema)>,
    rules: Option<RulesConfigSchema>,
) -> AbstractionSchema {
    let mut map = IndexMap::new();
    let has_children = !children.is_empty();
    for (m, c) in children {
        map.insert(m.to_string(), c);
    }
    AbstractionSchema {
        extend: extend.map(|e| AbstractionLinkSchema { ref_: format!("#/abstractions/{}", e) }),
        children: if has_children { Some(map) } else { None },
        rules,
    }
}

fn schema(
    root: AbstractionFieldValueSchema,
    abstractions: Vec<(&str, AbstractionSchema)>,
) -> ConfigSchema {
    let mut map = IndexMap::new();
    for (k, v) in abstractions {
        map.insert(k.to_string(), v);
    }
    ConfigSchema {
        root,
        base_url: None,
        files: None,
        ignores: None,
        abstractions: Some(map),
    }
}

fn convert(s: ConfigSchema) -> Result<Config, ConfigError> {
    convert_schema_to_config(s, &ConfigDefaults::default())
}

fn child_names(a: &AbstractionConfig) -> Vec<(String, String)> {
    a.children.iter().map(|(m, c)| (m.clone(), c.name.clone())).collect()
}

fn invalid_message(res: Result<Config, ConfigError>) -> String {
    match res {
        Err(ConfigError::InvalidConfig(msg)) => msg,
        other => panic!("expected InvalidConfig, got {:?}", other.map(|c| c.root.name.clone())),
    }
}

#[test]
fn converts_a_small_schema() {
    let s = schema(
        inline(
            "root",
            None,
            vec![("app", link("app")), ("shared", link("shared")), ("pages", link("pages"))],
            None,
        ),
        vec![
            ("app", reusable(None, vec![], None)),
            ("shared", reusable(None, vec![], None)),
            ("pages", reusable(None, vec![], None)),
        ],
    );
    let config = convert(s).unwrap();
    assert_eq!(config.root.name, "root");
    assert_eq!(config.root.children.len(), 3);
}

#[test]
fn defaults_fill_what_is_left_out() {
    let s = schema(inline("root", None, vec![], None), vec![]);
    let config = convert(s).unwrap();
    assert_eq!(config.base_url, ".");
    assert_eq!(config.files, vec!["**/*.ts", "**/*.tsx", "**/*.js", "**/*.jsx"]);
    assert_eq!(config.ignores, vec!["**/node_modules/**"]);
}

#[test]
fn written_values_override_defaults() {
    let mut s = schema(inline("root", None, vec![], None), vec![]);
    s.base_url = Some("src".to_string());
    s.files = Some(vec!["**/*.rs".to_string()]);
    s.ignores = Some(vec![]);
    s.abstractions = None;
    let config = convert(s).unwrap();
    assert_eq!(config.base_url, "src");
    assert_eq!(config.files, vec!["**/*.rs"]);
    assert!(config.ignores.is_empty());
}

#[test]
fn links_resolve_through_the_table() {
    let s = schema(
        link("root"),
        vec![
            ("root", reusable(None, vec![("src/*", link("module"))], None)),
            ("module", reusable(None, vec![("ui", link("leaf"))], None)),
            ("leaf", reusable(None, vec![], None)),
        ],
    );
    let config = convert(s).unwrap();
    assert_eq!(config.root.name, "root");
    assert_eq!(child_names(&config.root), vec![("src/*".to_string(), "module".to_string())]);
    let module = &config.root.children[0].1;
    assert_eq!(child_names(module), vec![("ui".to_string(), "leaf".to_string())]);
}

#[test]
fn missing_link_is_an_error() {
    let s = schema(inline("root", None, vec![("x", link("missing"))], None), vec![]);
    assert_eq!(invalid_message(convert(s)), "Abstraction not found by link: #/abstractions/missing");
}

#[test]
fn missing_base_is_an_error() {
    let s = schema(inline("root", Some("nowhere"), vec![], None), vec![]);
    assert_eq!(invalid_message(convert(s)), "Base abstraction not found: #/abstractions/nowhere");
    let s = schema(link("a"), vec![("a", reusable(Some("nowhere"), vec![], None))]);
    assert_eq!(invalid_message(convert(s)), "Base abstraction not found: #/abstractions/nowhere");
}

#[test]
fn first_error_in_child_order_is_reported() {
    let s = schema(
        inline("root", None, vec![("a", link("first")), ("b", link("second"))], None),
        vec![],
    );
    assert_eq!(invalid_message(convert(s)), "Abstraction not found by link: #/abstractions/first");
}

#[test]
fn extending_overrides_children_and_rules() {
    let mut base_rules = no_rules();
    base_rules.no_unabstraction_files = Some(NoUnabstractionFilesRuleSchema { severity: Some(Severity::Warn) });
    base_rules.public_api = Some(PublicApiRuleSchema {
        severity: Some(Severity::Off),
        names: None,
        pattern: None,
        ignore_pattern: None,
    });
    let mut own_rules = no_rules();
    own_rules.public_api = Some(PublicApiRuleSchema {
        severity: None,
        names: Some(vec!["index".to_string()]),
        pattern: None,
        ignore_pattern: None,
    });
    let s = schema(
        inline(
            "root",
            Some("base"),
            vec![("b", link("other")), ("c", link("leaf"))],
            Some(own_rules),
        ),
        vec![
            ("base", reusable(None, vec![("a", link("leaf")), ("b", link("leaf"))], Some(base_rules))),
            ("leaf", reusable(None, vec![], None)),
            ("other", reusable(None, vec![], None)),
        ],
    );
    let config = convert(s).unwrap();
    let root = &config.root;
    assert_eq!(root.name, "root");
    assert_eq!(
        child_names(root),
        vec![
            ("a".to_string(), "leaf".to_string()),
            ("b".to_string(), "other".to_string()),
            ("c".to_string(), "leaf".to_string()),
        ]
    );
    assert_eq!(root.rules.len(), 2);
    assert!(matches!(root.rules[0], RuleConfig::NoUnabstractionFiles { severity: Severity::Warn }));
    match &root.rules[1] {
        RuleConfig::PublicApi { severity, names, pattern, ignore_pattern } => {
            assert_eq!(*severity, Severity::Error);
            assert_eq!(names.as_deref(), Some(&["index".to_string()][..]));
            assert!(pattern.is_none());
            assert!(ignore_pattern.is_none());
        },
        _ => panic!("expected the public api rule"),
    }
}

#[test]
fn a_cycle_resolves_to_the_placeholder() {
    let s = schema(
        link("a"),
        vec![("a", reusable(None, vec![("self", link("a")), ("b", link("b"))], None)),
             ("b", reusable(None, vec![], None))],
    );
    let config = convert(s).unwrap();
    let root = &config.root;
    assert_eq!(root.name, "a");
    assert_eq!(root.children.len(), 2);
    let inner = &root.children[0].1;
    assert_eq!(inner.name, "a");
    assert!(inner.children.is_empty());
    assert!(inner.rules.is_empty());
}

#[test]
fn extending_itself_extends_the_placeholder() {
    let mut rules = no_rules();
    rules.restrict_cross_imports = Some(RestrictCrossImportsRuleSchema { severity: None, ignore_pattern: None });
    let s = schema(link("a"), vec![("a", reusable(Some("a"), vec![("x", link("b"))], Some(rules))),
        ("b", reusable(None, vec![], None))]);
    let config = convert(s).unwrap();
    assert_eq!(child_names(&config.root), vec![("x".to_string(), "b".to_string())]);
    assert_eq!(config.root.rules.len(), 1);
    assert!(matches!(config.root.rules[0], RuleConfig::RestrictCrossImports { severity: Severity::Error, .. }));
}

#[test]
fn a_repeated_inline_name_reuses_the_first() {
    let mut rules = no_rules();
    rules.no_unabstraction_files = Some(NoUnabstractionFilesRuleSchema { severity: None });
    let s = schema(
        inline(
            "root",
            None,
            vec![
                ("one", inline("dup", None, vec![], None)),
                ("two", inline("dup", None, vec![("z", link("leaf"))], Some(rules))),
            ],
            None,
        ),
        vec![("leaf", reusable(None, vec![], None))],
    );
    let config = convert(s).unwrap();
    let second = &config.root.children[1].1;
    assert_eq!(second.name, "dup");
    assert!(second.children.is_empty());
    assert!(second.rules.is_empty());
}

#[test]
fn a_shared_abstraction_is_resolved_once() {
    let s = schema(
        inline("root", None, vec![("x", link("shared")), ("y", link("shared"))], None),
        vec![("shared", reusable(None, vec![("leaf", link("leaf"))], None)),
             ("leaf", reusable(None, vec![], None))],
    );
    let config = convert(s).unwrap();
    let x = &config.root.children[0].1;
    let y = &config.root.children[1].1;
    assert!(std::rc::Rc::ptr_eq(x, y));
    assert_eq!(child_names(y), vec![("leaf".to_string(), "leaf".to_string())]);
}

#[test]
fn ref_to_name_strips_the_prefix() {
    assert_eq!(ref_to_name("#/abstractions/module"), "module");
    assert_eq!(ref_to_name("module"), "module");
    assert_eq!(ref_to_name(""), "");
    assert_eq!(ref_to_name("a#/abstractions/b#/abstractions/c"), "abc");
    assert_eq!(ref_to_name("#/abstractions/#/abstractions/"), "");
    assert_eq!(ref_to_name("#/abstraction/x"), "#/abstraction/x");
}

#[test]
fn convert_rules_in_fixed_order_with_default_severity() {
    let rules = RulesConfigSchema {
        required_children: Some(RequiredChildrenRuleSchema {
            severity: None,
            names: Some(vec!["a".to_string()]),
            pattern: Some(vec!["p*".to_string()]),
            ignore_pattern: None,
        }),
        no_unabstraction_files: Some(NoUnabstractionFilesRuleSchema { severity: Some(Severity::Off) }),
        public_api: Some(PublicApiRuleSchema { severity: None, names: None, pattern: None, ignore_pattern: None }),
        restrict_cross_imports: Some(RestrictCrossImportsRuleSchema {
            severity: Some(Severity::Warn),
            ignore_pattern: Some(vec!["i".to_string()]),
        }),
        dependencies_direction: Some(DependenciesDirectionRuleSchema {
            severity: None,
            order: vec!["ui".to_string(), "core".to_string()],
        }),
        dependencies_port: Some(DependenciesPortRuleSchema {
            names: None,
            severity: Some(Severity::Warn),
            pattern: None,
            ignore_pattern: None,
        }),
    };
    let out = convert_rules(&rules);
    assert_eq!(out.len(), 6);
    match &out[0] {
        RuleConfig::RequiredChildren { severity, names, pattern, ignore_pattern } => {
            assert_eq!(*severity, Severity::Error);
            assert_eq!(names.clone().unwrap(), vec!["a"]);
            assert_eq!(pattern.clone().unwrap(), vec!["p*"]);
            assert!(ignore_pattern.is_none());
        },
        _ => panic!("required children first"),
    }
    assert!(matches!(out[1], RuleConfig::NoUnabstractionFiles { severity: Severity::Off }));
    match &out[2] {
        RuleConfig::RestrictCrossImports { severity, ignore_pattern } => {
            assert_eq!(*severity, Severity::Warn);
            assert_eq!(ignore_pattern.clone().unwrap(), vec!["i"]);
        },
        _ => panic!("restrict cross imports third"),
    }
    assert!(matches!(out[3], RuleConfig::PublicApi { severity: Severity::Error, .. }));
    assert!(matches!(out[4], RuleConfig::DependenciesPort { severity: Severity::Warn, .. }));
    match &out[5] {
        RuleConfig::DependenciesDirection { severity, order } => {
            assert_eq!(*severity, Severity::Error);
            assert_eq!(order, &vec!["ui".to_string(), "core".to_string()]);
        },
        _ => panic!("dependencies direction last"),
    }
    assert!(convert_rules(&no_rules()).is_empty());
}

#[test]
fn abstraction_config_new_is_empty() {
    let a = AbstractionConfig::new("name".to_string());
    assert_eq!(a.name, "name");
    assert!(a.children.is_empty());
    assert!(a.rules.is_empty());
}

#[test]
fn io_error_converts_into_config_error() {
    let err = std::io::Error::new(std::io::ErrorKind::NotFound, "gone");
    assert!(matches!(ConfigError::from(err), ConfigError::IoError(_)));
    let json_err = serde_json::from_str::<serde_json::Value>("{").unwrap_err();
    assert!(matches!(
        ConfigError::from(json_err),
        ConfigError::ParseError(edlint_config::error::ParseError::Json(_))
    ));
}

#[test]
fn yaml_is_chosen_by_extension() {
    assert!(is_yaml_extension("yml"));
    assert!(is_yaml_extension("yaml"));
    assert!(!is_yaml_extension("json"));
    assert!(!is_yaml_extension(""));
    assert!(!is_yaml_extension("YAML"));
    assert!(!is_yaml_extension("yamll"));
}

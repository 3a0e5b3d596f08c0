use ocelot::config::error::{Error, ValidationError};
use ocelot::modules::depfile::{parse_dep_file, parse_dep_text};
use ocelot::modules::resolve::{collect_transitive_deps, resolve_module_order};
use ocelot::modules::ModulesConfig;

fn names(v: &[&str]) -> Vec<String> {
    v.iter().map(|s| s.to_string()).collect()
}

#[test]
fn test_parse_tabs_crlf_and_extra_spaces() {
    let map = parse_dep_text("  kernel/a.ko :\tkernel/x/b.ko   kernel/c.ko\r\n");
    assert_eq!(map.get("a.ko"), Some(&names(&["b.ko", "c.ko"])));
}

#[test]
fn test_parse_later_line_overrides_earlier() {
    let map = parse_dep_file(b"a.ko: b.ko\nk/a.ko: c.ko d.ko\n");
    assert_eq!(map.get("a.ko"), Some(&names(&["c.ko", "d.ko"])));
    assert_eq!(map.len(), 1);
}

#[test]
fn test_parse_line_without_colon_is_ignored() {
    let map = parse_dep_file(b"kernel/a.ko kernel/b.ko\n\n   \nkernel/c.ko:\n");
    assert!(map.get("a.ko").is_none());
    assert_eq!(map.get("c.ko"), Some(&Vec::new()));
    assert_eq!(map.len(), 1);
}

#[test]
fn test_parse_only_first_colon_splits() {
    let map = parse_dep_file(b"kernel/a.ko: dir:x/b.ko\n");
    assert_eq!(map.get("a.ko"), Some(&names(&["b.ko"])));
}

#[test]
fn test_parse_trailing_slash_gives_empty_basename() {
    let map = parse_dep_file(b"kernel/: a/\n");
    assert_eq!(map.get(""), Some(&names(&[""])));
}

#[test]
fn test_parse_invalid_utf8_is_replaced() {
    let map = parse_dep_file(b"kernel/\xffa.ko: b.ko\n");
    assert_eq!(map.get("\u{FFFD}a.ko"), Some(&names(&["b.ko"])));
}

#[test]
fn test_collect_needs_targets_and_dependencies_once() {
    let map = parse_dep_file(b"a.ko: b.ko c.ko\nb.ko: c.ko\nc.ko:\nd.ko: a.ko\n");
    let needed = collect_transitive_deps(&map, &names(&["a.ko", "b.ko"])).unwrap();
    let mut sorted = needed.clone();
    sorted.sort();
    assert_eq!(sorted, names(&["a.ko", "b.ko", "c.ko"]));
}

#[test]
fn test_missing_dependency_is_named() {
    let map = parse_dep_file(b"a.ko: b.ko\n");
    let err = resolve_module_order(&map, &names(&["a.ko"])).unwrap_err();
    assert_eq!(err, ValidationError::ModuleNotFound { name: "b.ko".to_string() });
    assert_eq!(err.message(), "Module not found: b.ko");
}

#[test]
fn test_cycle_is_closed_and_described() {
    let map = parse_dep_file(b"a.ko: b.ko\nb.ko: a.ko\n");
    let err = resolve_module_order(&map, &names(&["a.ko"])).unwrap_err();
    match &err {
        ValidationError::CyclicDependency { cycle } => {
            assert!(cycle.len() >= 2);
            assert_eq!(cycle.first(), cycle.last());
        }
        _ => panic!("expected a cycle"),
    }
    assert!(err.message().starts_with("Cyclic dependency detected: "));
    assert!(err.message().contains(" → "));
}

#[test]
fn test_cycle_is_sought_from_where_the_sort_stopped() {
    // The needed modules are a, b, c (nodes 0, 1, 2). The topological sort
    // meets the cycle at c, and the search from c follows c -> a -> b -> c.
    let map = parse_dep_file(b"a.ko: b.ko\nb.ko: c.ko\nc.ko: a.ko\n");
    let err = resolve_module_order(&map, &names(&["a.ko"])).unwrap_err();
    assert_eq!(
        err,
        ValidationError::CyclicDependency { cycle: names(&["c.ko", "a.ko", "b.ko", "c.ko"]) }
    );
}

#[test]
fn test_extra_entries_do_not_change_the_order_set() {
    let small = parse_dep_file(b"a.ko: b.ko\nb.ko:\n");
    let large = parse_dep_file(b"a.ko: b.ko\nb.ko:\nz.ko: z.ko\ny.ko: a.ko\n");
    let o1 = resolve_module_order(&small, &names(&["a.ko"])).unwrap();
    let o2 = resolve_module_order(&large, &names(&["a.ko"])).unwrap();
    assert_eq!(o1, names(&["b.ko", "a.ko"]));
    assert_eq!(o2, names(&["b.ko", "a.ko"]));
}

#[test]
fn test_empty_targets_give_empty_order() {
    let map = parse_dep_file(b"a.ko: b.ko\n");
    assert_eq!(resolve_module_order(&map, &[]).unwrap(), Vec::<String>::new());
}

#[test]
fn test_validate_names_reports_first_missing() {
    let config = ModulesConfig::List {
        dir: None,
        names: names(&["a.ko", "x.ko", "y.ko"]),
        dep_file_path: Some("/lib/modules/modules.dep".to_string()),
    };
    let map = parse_dep_file(b"a.ko:\n");
    assert_eq!(config.dep_file_path(), Some("/lib/modules/modules.dep".to_string()));
    assert_eq!(
        config.validate_names(&map),
        Err(Error::InvalidConfig { message: "Module not found in dep file: x.ko".to_string() })
    );
}

#[test]
fn test_validate_names_without_dep_file_checks_nothing() {
    let config =
        ModulesConfig::List { dir: None, names: names(&["x.ko"]), dep_file_path: None };
    let map = parse_dep_file(b"");
    assert_eq!(config.dep_file_path(), None);
    assert!(config.validate_names(&map).is_ok());
}

#[test]
fn test_validate_names_scan_without_filter_checks_nothing() {
    let config = ModulesConfig::Scan {
        dir: "/lib/modules".to_string(),
        dep_file_path: "/lib/modules/modules.dep".to_string(),
        names: None,
    };
    let map = parse_dep_file(b"");
    assert!(config.validate_names(&map).is_ok());
}

#[test]
fn test_resolve_dependencies_orders_list_names() {
    let mut config = ModulesConfig::List {
        dir: Some("/lib/modules".to_string()),
        names: names(&["a.ko"]),
        dep_file_path: Some("modules.dep".to_string()),
    };
    let map = parse_dep_file(b"a.ko: b.ko\nb.ko: c.ko\nc.ko:\n");
    assert!(config.resolve_dependencies_with(&map).is_ok());
    assert_eq!(
        config,
        ModulesConfig::List {
            dir: Some("/lib/modules".to_string()),
            names: names(&["c.ko", "b.ko", "a.ko"]),
            dep_file_path: Some("modules.dep".to_string()),
        }
    );
}

#[test]
fn test_resolve_dependencies_orders_scan_filter() {
    let mut config = ModulesConfig::Scan {
        dir: "/lib/modules".to_string(),
        dep_file_path: "modules.dep".to_string(),
        names: Some(names(&["a.ko"])),
    };
    let map = parse_dep_file(b"a.ko: b.ko\nb.ko:\n");
    assert!(config.resolve_dependencies_with(&map).is_ok());
    assert!(matches!(config, ModulesConfig::Scan { names: Some(ref n), .. } if *n == names(&["b.ko", "a.ko"])));
}

#[test]
fn test_resolve_dependencies_failure_changes_nothing() {
    let original = ModulesConfig::List {
        dir: None,
        names: names(&["a.ko"]),
        dep_file_path: Some("modules.dep".to_string()),
    };
    let mut config = original.clone();
    let map = parse_dep_file(b"a.ko: a.ko\n");
    let result = config.resolve_dependencies_with(&map);
    assert!(matches!(
        result,
        Err(Error::Validate { source: ValidationError::CyclicDependency { .. } })
    ));
    assert_eq!(config, original);
}

#[test]
fn test_resolve_dependencies_without_dep_file_keeps_names() {
    let mut config =
        ModulesConfig::List { dir: None, names: names(&["b.ko", "a.ko"]), dep_file_path: None };
    let map = parse_dep_file(b"a.ko: b.ko\n");
    assert!(config.resolve_dependencies_with(&map).is_ok());
    assert_eq!(
        config,
        ModulesConfig::List { dir: None, names: names(&["b.ko", "a.ko"]), dep_file_path: None }
    );
}

#[test]
fn test_validate_list_no_depfile() {
    let config = ModulesConfig::List {
        dir: None,
        names: vec!["foo.ko.xz".to_string()],
        dep_file_path: None,
    };
    assert_eq!(config.dep_file_path(), None);
    assert!(config.validate_names(&parse_dep_file(&[])).is_ok());
}

#[test]
fn test_validate_list_with_valid_depfile() {
    let data = br"kernel/foo.ko.xz:";
    let map = parse_dep_file(data);

    let config = ModulesConfig::List {
        dir: None,
        names: vec!["foo.ko.xz".to_string()],
        dep_file_path: None,
    };
    assert!(config.validate_names(&map).is_ok());
}

#[test]
fn test_resolve_dependencies_list_no_depfile() {
    let mut config = ModulesConfig::List {
        dir: None,
        names: vec!["foo.ko.xz".to_string(), "bar.ko.xz".to_string()],
        dep_file_path: None,
    };
    let result = config.resolve_dependencies_with(&parse_dep_file(&[]));
    assert!(result.is_ok());
    if let ModulesConfig::List { names, .. } = config {
        assert_eq!(names, vec!["foo.ko.xz".to_string(), "bar.ko.xz".to_string()]);
    }
}

#[test]
fn test_resolve_dependencies_list_no_depfile_preserves_order() {
    let mut config = ModulesConfig::List {
        dir: None,
        names: vec!["a.ko.xz".to_string()],
        dep_file_path: None,
    };
    let result = config.resolve_dependencies_with(&parse_dep_file(&[]));
    assert!(result.is_ok());
    if let ModulesConfig::List { names, .. } = config {
        assert_eq!(names, vec!["a.ko.xz".to_string()]);
    }
}

#[test]
fn test_missing_module_reported_is_the_first_the_search_meets() {
    // The search pops the last target first, then the last dependency.
    let map = parse_dep_file(b"a.ko: x.ko y.ko\n");
    assert_eq!(
        resolve_module_order(&map, &names(&["a.ko"])),
        Err(ValidationError::ModuleNotFound { name: "y.ko".to_string() })
    );
    let map = parse_dep_file(b"");
    assert_eq!(
        collect_transitive_deps(&map, &names(&["p.ko", "q.ko"])),
        Err(ValidationError::ModuleNotFound { name: "q.ko".to_string() })
    );
}

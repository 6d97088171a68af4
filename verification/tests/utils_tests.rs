use chimera::dependency::{
    topological_sort, validate_dependency_graph, CreationTracker, DependencyGraph,
    DependencyValidationError,
};
use chimera::naming::{field_name_to_config_key, is_reserved_method_name, to_camel_case, to_kebab_case, to_snake_case};

fn graph(entries: &[(&str, &[&str])]) -> DependencyGraph {
    let mut g = DependencyGraph::new();
    for (name, deps) in entries {
        g.insert(name.to_string(), deps.iter().map(|d| d.to_string()).collect());
    }
    g
}

#[test]
fn test_to_camel_case() {
    assert_eq!(to_camel_case("UserService"), "userService");
    assert_eq!(to_camel_case("DatabaseService"), "databaseService");
    assert_eq!(to_camel_case("A"), "a");
    assert_eq!(to_camel_case("AB"), "aB");
    assert_eq!(to_camel_case(""), "");
    assert_eq!(to_camel_case("lowerCase"), "lowerCase");
}

#[test]
fn test_to_snake_case() {
    assert_eq!(to_snake_case("UserService"), "user_service");
    assert_eq!(to_snake_case("DatabaseConnectionPool"), "database_connection_pool");
    assert_eq!(to_snake_case("HTTPServer"), "h_t_t_p_server");
    assert_eq!(to_snake_case(""), "");
    assert_eq!(to_snake_case("lowercase"), "lowercase");
}

#[test]
fn test_to_kebab_case() {
    assert_eq!(to_kebab_case("UserService"), "user-service");
    assert_eq!(to_kebab_case("DatabaseConnectionPool"), "database-connection-pool");
    assert_eq!(to_kebab_case(""), "");
}

#[test]
fn test_creation_tracker() {
    let mut tracker = CreationTracker::new();

    assert_eq!(tracker.is_creating("serviceA").unwrap(), false);

    assert_eq!(tracker.start_creating("serviceA").unwrap(), true);
    assert_eq!(tracker.is_creating("serviceA").unwrap(), true);

    assert_eq!(tracker.start_creating("serviceA").unwrap(), false);

    tracker.finish_creating("serviceA").unwrap();
    assert_eq!(tracker.is_creating("serviceA").unwrap(), false);
}

#[test]
fn test_current_creating() {
    let mut tracker = CreationTracker::new();

    tracker.start_creating("serviceA").unwrap();
    tracker.start_creating("serviceB").unwrap();

    let creating = tracker.current_creating().unwrap();
    assert_eq!(creating.len(), 2);
    assert!(creating.contains(&"serviceA".to_string()));
    assert!(creating.contains(&"serviceB".to_string()));
}

#[test]
fn test_validate_missing_dependency() {
    let deps = graph(&[("serviceA", &["serviceB"])]);

    let result = validate_dependency_graph(&deps);
    assert!(result.is_err());

    if let Err(DependencyValidationError::MissingDependency { bean, missing }) = result {
        assert_eq!(bean, "serviceA");
        assert_eq!(missing, "serviceB");
    } else {
        panic!("Expected MissingDependency error");
    }
}

#[test]
fn test_validate_circular_dependency() {
    let deps = graph(&[
        ("serviceA", &["serviceB"]),
        ("serviceB", &["serviceC"]),
        ("serviceC", &["serviceA"]),
    ]);

    let result = validate_dependency_graph(&deps);
    assert!(result.is_err());

    if let Err(DependencyValidationError::CircularDependency { cycle }) = result {
        assert!(cycle.len() >= 3);
        let cycle_str = cycle.join(" -> ");
        assert!(cycle_str.contains("serviceA"));
        assert!(cycle_str.contains("serviceB"));
        assert!(cycle_str.contains("serviceC"));
    } else {
        panic!("Expected CircularDependency error");
    }
}

#[test]
fn test_validate_valid_graph() {
    let deps = graph(&[
        ("config", &[]),
        ("database", &["config"]),
        ("userService", &["database", "config"]),
    ]);

    let result = validate_dependency_graph(&deps);
    assert!(result.is_ok());
}

#[test]
fn test_validate_self_dependency() {
    let deps = graph(&[("serviceA", &["serviceA"])]);

    let result = validate_dependency_graph(&deps);
    assert!(result.is_err());

    if let Err(DependencyValidationError::CircularDependency { cycle }) = result {
        assert_eq!(cycle.len(), 2);
    } else {
        panic!("Expected CircularDependency error");
    }
}

#[test]
fn missing_dependency_message_names_both_beans() {
    let deps = graph(&[("a", &[]), ("b", &["a", "ghost"])]);
    let err = validate_dependency_graph(&deps).unwrap_err();
    assert_eq!(err.to_string(), "Bean 'b' depends on 'ghost' which is not registered");
}

#[test]
fn first_missing_dependency_is_reported() {
    let deps = graph(&[("a", &["x"]), ("b", &["y"])]);
    match validate_dependency_graph(&deps) {
        Err(DependencyValidationError::MissingDependency { bean, missing }) => {
            assert_eq!(bean, "a");
            assert_eq!(missing, "x");
        }
        _ => panic!("expected a missing dependency"),
    }
}

#[test]
fn circular_dependency_message_lists_the_cycle() {
    let deps = graph(&[("a", &["b"]), ("b", &["a"])]);
    let err = validate_dependency_graph(&deps).unwrap_err();
    let text = err.to_string();
    assert!(text.starts_with("Circular dependency detected: "));
    match err {
        DependencyValidationError::CircularDependency { cycle } => {
            assert_eq!(cycle.first(), cycle.last());
            assert_eq!(text, format!("Circular dependency detected: {}", cycle.join(" -> ")));
        }
        _ => panic!("expected a cycle"),
    }
}

#[test]
fn topological_sort_puts_dependencies_first() {
    let deps = graph(&[
        ("userService", &["database", "config"]),
        ("database", &["config"]),
        ("config", &[]),
    ]);
    let order = topological_sort(&deps).unwrap();
    assert_eq!(order.len(), 3);
    let pos = |n: &str| order.iter().position(|x| x == n).unwrap();
    assert!(pos("config") < pos("database"));
    assert!(pos("database") < pos("userService"));
    assert!(pos("config") < pos("userService"));
}

#[test]
fn topological_sort_includes_undeclared_dependencies() {
    let deps = graph(&[("a", &["external"])]);
    let order = topological_sort(&deps).unwrap();
    assert_eq!(order, vec!["external".to_string(), "a".to_string()]);
}

#[test]
fn topological_sort_refuses_cycles() {
    let deps = graph(&[("a", &["b"]), ("b", &["c"]), ("c", &["a"])]);
    assert_eq!(
        topological_sort(&deps).unwrap_err(),
        "Circular dependency detected during topological sort"
    );
}

#[test]
fn graph_insert_replaces_dependencies() {
    let mut g = graph(&[("a", &["b"])]);
    g.insert("a".to_string(), vec![]);
    assert_eq!(g.len(), 1);
    assert!(g.contains_key(&"a".to_string()));
    assert!(g.deps_at(0).is_empty());
    assert!(validate_dependency_graph(&g).is_ok());
}

#[test]
fn config_key_of_field_uses_hyphens() {
    assert_eq!(field_name_to_config_key("max_pool_size"), "max-pool-size");
    assert_eq!(field_name_to_config_key("port"), "port");
}

#[test]
fn kebab_case_of_acronym() {
    assert_eq!(to_kebab_case("HTTPServer"), "h-t-t-p-server");
    assert_eq!(to_camel_case("Über"), "über");
}

#[test]
fn reserved_component_method_names() {
    for n in [
        "bean_name", "scope", "lazy", "dependencies", "init_callback", "destroy_callback",
        "is_event_listener", "as_event_listener", "create_from_context", "register",
    ] {
        assert!(is_reserved_method_name(n), "{}", n);
    }
    assert!(!is_reserved_method_name("user_register"));
    assert!(!is_reserved_method_name("Register"));
}

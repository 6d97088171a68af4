use chimera::binding::{bind_required, inject_value, property_key};
use chimera::component::{
    bean_method_registration, component_bean_name, component_dependencies, is_core_component_type,
    scope_of_attribute, AutowiredField,
};
use chimera::config::{
    config_load_plan, first_source_with_key, ConfigValue, EnvironmentPropertySource, ENVIRONMENT_PRIORITY,
};
use chimera::container::{app_name_of, Scope};
use chimera::dependency::{validate_dependency_graph, DependencyGraph, DependencyValidationError};
use chimera::validator::{validate_fields, FieldCheck, ValidationError};

fn field(ty: &str, qualifier: Option<&str>, optional: bool) -> AutowiredField {
    AutowiredField { injected_type: ty.to_string(), qualifier: qualifier.map(|q| q.to_string()), optional }
}

#[test]
fn dependencies_follow_autowired_fields_in_order() {
    let fields = vec![
        field("UserRepository", None, false),
        field("MailService", Some("smtpMail"), false),
        field("CacheService", None, true),
        field("Environment", None, false),
        field("AuditLog", Some("audit"), true),
        field("ApplicationContext", Some("ctx"), false),
        field("chimera_core :: event :: AsyncEventPublisher", None, false),
        field("OrderService", None, false),
    ];
    assert_eq!(
        component_dependencies(&fields),
        vec!["userRepository".to_string(), "smtpMail".to_string(), "orderService".to_string()]
    );
    assert!(component_dependencies(&Vec::new()).is_empty());
}

#[test]
fn component_name_defaults_to_camel_case() {
    assert_eq!(component_bean_name(None, "UserService"), "userService");
    assert_eq!(component_bean_name(Some("custom".to_string()), "UserService"), "custom");
    assert_eq!(component_bean_name(None, ""), "");
}

#[test]
fn bean_methods_register_under_their_name_by_default() {
    let (name, scope, lazy) = bean_method_registration("data_source", None, None, false);
    assert_eq!(name, "data_source");
    assert_eq!(scope, Scope::Singleton);
    assert!(!lazy);
    let (name, scope, lazy) =
        bean_method_registration("data_source", Some("primaryDb".to_string()), Some("prototype".to_string()), true);
    assert_eq!(name, "primaryDb");
    assert_eq!(scope, Scope::Prototype);
    assert!(lazy);
    let (_, scope, _) = bean_method_registration("m", None, Some("request".to_string()), false);
    assert_eq!(scope, Scope::Singleton);
    assert_eq!(scope_of_attribute(&Some("singleton".to_string())), Scope::Singleton);
    assert_eq!(scope_of_attribute(&None), Scope::Singleton);
}

#[test]
fn property_keys_join_prefix_and_kebab_field() {
    assert_eq!(property_key("database", "max_size", None), "database.max-size");
    assert_eq!(property_key("", "max_size", None), "max-size");
    assert_eq!(property_key("app.db", "url", Some("jdbc_url".to_string())), "app.db.jdbc_url");
    assert_eq!(property_key("", "x", Some("custom-key".to_string())), "custom-key");
}

#[test]
fn missing_required_config_is_reported_with_its_key() {
    match bind_required("database.url", None) {
        Err(m) => assert_eq!(m, "Required config 'database.url' not found"),
        Ok(_) => panic!("expected an error"),
    }
    match bind_required("database.port", Some(ConfigValue::Int(5432))) {
        Ok(ConfigValue::Int(p)) => assert_eq!(p, 5432),
        _ => panic!("expected the value"),
    }
}

#[test]
fn application_name_defaults_to_application() {
    assert_eq!(app_name_of(None), "application");
    assert_eq!(app_name_of(Some("shop".to_string())), "shop");
}

#[test]
fn property_lookup_prefers_highest_priority_then_earliest() {
    assert_eq!(first_source_with_key(&vec![0, 10, 5], &vec![true, true, true]), Some(1));
    assert_eq!(first_source_with_key(&vec![0, 10, 5], &vec![true, false, true]), Some(2));
    assert_eq!(first_source_with_key(&vec![5, 5, 5], &vec![false, true, true]), Some(1));
    assert_eq!(first_source_with_key(&vec![1, 2], &vec![false, false]), None);
    assert_eq!(first_source_with_key(&vec![], &vec![]), None);
    assert_eq!(first_source_with_key(&vec![-3, 100], &vec![true]), Some(0));
}

fn messages(e: &ValidationError, f: &str) -> Vec<String> {
    match e {
        ValidationError::FieldErrors(m) => m.get(f).cloned().unwrap_or_default(),
        ValidationError::ValidationFailed(_) => Vec::new(),
    }
}

#[test]
fn field_validation_collects_every_failure() {
    let plan = vec![
        ("name".to_string(), FieldCheck::NotBlank("   ".to_string())),
        ("name".to_string(), FieldCheck::Length("   ".to_string(), Some(5), None)),
        ("email".to_string(), FieldCheck::Email("not-an-email".to_string())),
        ("age".to_string(), FieldCheck::Range(200, Some(0), Some(150))),
        ("code".to_string(), FieldCheck::Pattern("abc".to_string(), "^[0-9]+$".to_string())),
        ("title".to_string(), FieldCheck::NotEmpty("ok".to_string())),
    ];
    let e = validate_fields(&plan).unwrap_err();
    assert_eq!(
        messages(&e, "name"),
        vec!["name must not be blank".to_string(), "name length must be at least 5, but was 3".to_string()]
    );
    assert_eq!(messages(&e, "email"), vec!["email must be a valid email address".to_string()]);
    assert_eq!(messages(&e, "age"), vec!["age must be at most 150, but was 200".to_string()]);
    assert_eq!(messages(&e, "code"), vec!["code must match pattern: ^[0-9]+$".to_string()]);
    assert!(messages(&e, "title").is_empty());
}

#[test]
fn field_validation_passes_when_every_check_passes() {
    let plan = vec![
        ("name".to_string(), FieldCheck::NotEmpty("Ann".to_string())),
        ("email".to_string(), FieldCheck::Email("ann@example.com".to_string())),
        ("age".to_string(), FieldCheck::Range(30, Some(0), None)),
        ("code".to_string(), FieldCheck::Pattern("x".to_string(), "(".to_string())),
    ];
    assert!(validate_fields(&plan).is_ok());
    assert!(validate_fields(&Vec::new()).is_ok());
}

#[test]
fn reported_cycle_lists_each_bean_once() {
    let mut g = DependencyGraph::new();
    g.insert("a".to_string(), vec!["b".to_string()]);
    g.insert("b".to_string(), vec!["c".to_string()]);
    g.insert("c".to_string(), vec!["b".to_string()]);
    match validate_dependency_graph(&g) {
        Err(DependencyValidationError::CircularDependency { cycle }) => {
            assert_eq!(cycle, vec!["b".to_string(), "c".to_string(), "b".to_string()]);
        }
        _ => panic!("expected a cycle"),
    }
}

#[test]
fn core_component_types_are_recognised_by_name() {
    assert!(is_core_component_type("ApplicationContext"));
    assert!(is_core_component_type("chimera_core :: config :: Environment"));
    assert!(is_core_component_type("AsyncEventPublisher"));
    assert!(is_core_component_type("MyEnvironmentHolder"));
    assert!(!is_core_component_type("UserService"));
    assert!(!is_core_component_type("Environ"));
    assert!(!is_core_component_type(""));
}

#[test]
fn injected_values_fall_back_to_their_default() {
    match inject_value("server.port", Some(ConfigValue::Int(8080)), Some(ConfigValue::Int(80))) {
        Ok(ConfigValue::Int(p)) => assert_eq!(p, 8080),
        _ => panic!("expected the configured value"),
    }
    match inject_value("server.port", None, Some(ConfigValue::Int(80))) {
        Ok(ConfigValue::Int(p)) => assert_eq!(p, 80),
        _ => panic!("expected the default"),
    }
    match inject_value("server.port", None, None) {
        Err(m) => assert_eq!(m, "Required config 'server.port' not found"),
        Ok(_) => panic!("expected an error"),
    }
}

#[test]
fn environment_priority_is_above_planned_files() {
    let env = EnvironmentPropertySource::new("CHIMERA_".to_string());
    assert_eq!(env.priority(), ENVIRONMENT_PRIORITY);
    let profiles: Vec<String> = (0..90).map(|i| format!("p{}", i)).collect();
    let plan = config_load_plan(&vec!["application.toml".to_string()], &profiles);
    assert!(plan.iter().all(|(_, p)| *p < ENVIRONMENT_PRIORITY));
    assert_eq!(plan.last().map(|e| e.1), Some(99));
}

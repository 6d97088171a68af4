use chimera::container::{
    BeanDefinition, BeanRequest, ContainerError, DefaultListableBeanFactory, Scope,
    APPLICATION_CONTEXT_BEAN_NAME, ENV_PREFIX,
};

fn def(name: &str, ty: &str) -> BeanDefinition {
    BeanDefinition::new(name.to_string(), ty.to_string())
}

fn factory_with(defs: Vec<BeanDefinition>) -> DefaultListableBeanFactory {
    let mut f = DefaultListableBeanFactory::new();
    for d in defs {
        let name = d.name.clone();
        f.register_bean_definition(name, d).unwrap();
    }
    f
}

#[test]
fn registered_beans_can_be_found() {
    let f = factory_with(vec![def("a", "A"), def("b", "B")]);
    assert!(f.contains_bean("a"));
    assert!(f.contains_bean_definition("b"));
    assert!(!f.contains_bean("c"));
    assert_eq!(f.get_bean_names(), vec!["a".to_string(), "b".to_string()]);
    assert_eq!(f.get_bean_definition_count(), 2);
    let d = f.get_bean_definition("b").unwrap();
    assert_eq!(d.bean_type, "B");
    assert_eq!(d.scope, Scope::Singleton);
}

#[test]
fn duplicate_names_are_refused() {
    let mut f = factory_with(vec![def("a", "A")]);
    match f.register_bean_definition("a".to_string(), def("a", "Other")) {
        Err(ContainerError::BeanAlreadyExists(n)) => assert_eq!(n, "a"),
        other => panic!("unexpected {:?}", other),
    }
    assert_eq!(f.get_bean_definition("a").unwrap().bean_type, "A");
}

#[test]
fn frozen_configuration_refuses_changes() {
    let mut f = factory_with(vec![def("a", "A")]);
    assert!(!f.is_configuration_frozen());
    f.freeze_configuration();
    assert!(f.is_configuration_frozen());
    match f.register_bean_definition("b".to_string(), def("b", "B")) {
        Err(ContainerError::Other(m)) => {
            assert_eq!(m, "Cannot register bean definition: configuration is frozen")
        }
        other => panic!("unexpected {:?}", other),
    }
    match f.remove_bean_definition("a") {
        Err(ContainerError::Other(m)) => {
            assert_eq!(m, "Cannot remove bean definition: configuration is frozen")
        }
        other => panic!("unexpected {:?}", other),
    }
    match f.modify_bean_definition("a", |d| d.with_lazy(true)) {
        Err(ContainerError::Other(m)) => {
            assert_eq!(m, "Cannot modify bean definition: configuration is frozen")
        }
        other => panic!("unexpected {:?}", other),
    }
}

#[test]
fn removal_and_modification() {
    let mut f = factory_with(vec![def("a", "A"), def("b", "B"), def("c", "C")]);
    f.remove_bean_definition("b").unwrap();
    assert_eq!(f.get_bean_names(), vec!["a".to_string(), "c".to_string()]);
    match f.remove_bean_definition("b") {
        Err(ContainerError::BeanNotFound(n)) => assert_eq!(n, "b"),
        other => panic!("unexpected {:?}", other),
    }
    f.modify_bean_definition("c", |d| d.with_scope(Scope::Prototype)).unwrap();
    assert_eq!(f.get_bean_definition("c").unwrap().scope, Scope::Prototype);
    match f.modify_bean_definition("zzz", |d| d) {
        Err(ContainerError::BeanNotFound(n)) => assert_eq!(n, "zzz"),
        other => panic!("unexpected {:?}", other),
    }
    match f.get_bean_definition("b") {
        Err(ContainerError::BeanNotFound(n)) => assert_eq!(n, "b"),
        other => panic!("unexpected {:?}", other),
    }
}

#[test]
fn singletons_are_created_once_then_cached() {
    let mut f = factory_with(vec![def("a", "A")]);
    assert_eq!(f.begin_bean_request("a").unwrap(), BeanRequest::Create);
    f.finish_bean_creation("a", true);
    assert_eq!(f.begin_bean_request("a").unwrap(), BeanRequest::UseCached);
    assert_eq!(f.begin_bean_request("a").unwrap(), BeanRequest::UseCached);
}

#[test]
fn prototypes_are_created_every_time() {
    let mut f = factory_with(vec![def("p", "P").with_scope(Scope::Prototype)]);
    assert_eq!(f.begin_bean_request("p").unwrap(), BeanRequest::Create);
    f.finish_bean_creation("p", true);
    assert_eq!(f.begin_bean_request("p").unwrap(), BeanRequest::Create);
    f.finish_bean_creation("p", true);
}

#[test]
fn failed_creation_is_not_cached() {
    let mut f = factory_with(vec![def("a", "A")]);
    assert_eq!(f.begin_bean_request("a").unwrap(), BeanRequest::Create);
    f.finish_bean_creation("a", false);
    assert_eq!(f.begin_bean_request("a").unwrap(), BeanRequest::Create);
}

#[test]
fn unknown_bean_is_refused() {
    let mut f = DefaultListableBeanFactory::new();
    match f.begin_bean_request("ghost") {
        Err(ContainerError::BeanNotFound(n)) => assert_eq!(n, "ghost"),
        other => panic!("unexpected {:?}", other),
    }
}

#[test]
fn circular_creation_is_reported_with_the_chain() {
    let mut f = factory_with(vec![def("a", "A"), def("b", "B")]);
    assert_eq!(f.begin_bean_request("a").unwrap(), BeanRequest::Create);
    match f.begin_bean_request("a") {
        Err(ContainerError::CircularDependency(m)) => assert_eq!(m, "a -> a"),
        other => panic!("unexpected {:?}", other),
    }
    assert_eq!(f.begin_bean_request("b").unwrap(), BeanRequest::Create);
    match f.begin_bean_request("b") {
        Err(ContainerError::CircularDependency(m)) => {
            assert!(m == "a -> b -> b" || m == "b -> a -> b", "{}", m)
        }
        other => panic!("unexpected {:?}", other),
    }
    f.finish_bean_creation("b", true);
    f.finish_bean_creation("a", true);
    assert_eq!(f.begin_bean_request("b").unwrap(), BeanRequest::UseCached);
}

#[test]
fn beans_by_type() {
    let mut f = factory_with(vec![def("a", "Repo"), def("b", "Repo"), def("c", "Svc")]);
    assert_eq!(f.bean_name_for_type("Repo").unwrap(), "b");
    assert_eq!(f.get_bean_names_for_type("Repo"), vec!["a".to_string(), "b".to_string()]);
    assert!(f.contains_bean_by_type("Svc"));
    assert!(!f.contains_bean_by_type("Nothing"));
    assert_eq!(f.bean_name_for_type("Nothing"), None);
    match f.begin_bean_request_by_type("Nothing") {
        Err(ContainerError::BeanNotFound(m)) => assert_eq!(m, "No bean found for type 'Nothing'"),
        other => panic!("unexpected {:?}", other),
    }
    let (n, r) = f.begin_bean_request_by_type("Svc").unwrap();
    assert_eq!(n, "c");
    assert_eq!(r, BeanRequest::Create);
}

#[test]
fn preinstantiation_and_shutdown() {
    let mut f = factory_with(vec![
        def("eager", "E").with_destroy(),
        def("lazy", "L").with_lazy(true),
        def("proto", "P").with_scope(Scope::Prototype),
        def("other", "O"),
    ]);
    let eager = f.singletons_to_preinstantiate();
    assert_eq!(eager, vec!["eager".to_string(), "other".to_string()]);
    for n in &eager {
        assert_eq!(f.begin_bean_request(n).unwrap(), BeanRequest::Create);
        f.finish_bean_creation(n, true);
    }
    let mut drained = f.drain_singletons();
    drained.sort();
    assert_eq!(drained, vec![("eager".to_string(), true), ("other".to_string(), false)]);
    assert!(f.drain_singletons().is_empty());
    assert_eq!(f.begin_bean_request("eager").unwrap(), BeanRequest::Create);
}

#[test]
fn dependency_validation_of_definitions() {
    let f = factory_with(vec![
        def("a", "A").with_dependencies(vec!["b".to_string()]),
        def("b", "B"),
    ]);
    assert!(f.validate_dependencies().is_ok());
    let g = f.get_bean_definitions();
    assert_eq!(g.len(), 2);
    let bad = factory_with(vec![def("a", "A").with_dependencies(vec!["zzz".to_string()])]);
    match bad.validate_dependencies() {
        Err(ContainerError::DependencyValidationFailed(m)) => {
            assert_eq!(m, "Bean 'a' depends on 'zzz' which is not registered")
        }
        other => panic!("unexpected {:?}", other),
    }
    let cyc = factory_with(vec![
        def("a", "A").with_dependencies(vec!["b".to_string()]),
        def("b", "B").with_dependencies(vec!["a".to_string()]),
    ]);
    match cyc.validate_dependencies() {
        Err(ContainerError::DependencyValidationFailed(m)) => {
            assert!(m.starts_with("Circular dependency detected: "))
        }
        other => panic!("unexpected {:?}", other),
    }
}

#[test]
fn definition_builders() {
    let d = def("a", "A")
        .with_scope(Scope::Prototype)
        .with_lazy(true)
        .with_dependencies(vec!["x".to_string()])
        .with_init()
        .with_destroy();
    assert_eq!(d.scope, Scope::Prototype);
    assert!(d.lazy);
    assert_eq!(d.dependencies, vec!["x".to_string()]);
    assert!(d.has_init_callback && d.has_destroy_callback);
    let c = d.copy();
    assert_eq!(c.name, "a");
    assert_eq!(c.dependencies, vec!["x".to_string()]);
    assert_eq!(Scope::default(), Scope::Singleton);
    assert_eq!(APPLICATION_CONTEXT_BEAN_NAME, "applicationContext");
    assert_eq!(ENV_PREFIX, "CHIMERA_");
}

#[test]
fn registering_then_removing_restores_the_names() {
    let mut f = factory_with(vec![def("a", "A"), def("b", "B")]);
    let before = f.get_bean_names();
    f.register_bean_definition("x".to_string(), def("x", "X")).unwrap();
    f.remove_bean_definition("x").unwrap();
    assert_eq!(f.get_bean_names(), before);
    assert!(!f.contains_bean("x"));
}

#[test]
fn scope_names() {
    assert_eq!(Scope::from_name("prototype"), Scope::Prototype);
    assert_eq!(Scope::from_name("singleton"), Scope::Singleton);
    assert_eq!(Scope::from_name("request"), Scope::Singleton);
}

#[test]
fn initialization_levels_follow_dependencies() {
    let f = factory_with(vec![
        def("web", "W").with_dependencies(vec!["service".to_string(), "config".to_string()]),
        def("service", "S").with_dependencies(vec!["repo".to_string()]),
        def("repo", "R").with_dependencies(vec!["config".to_string()]),
        def("config", "C"),
        def("cache", "K").with_lazy(true),
        def("job", "J").with_dependencies(vec!["cache".to_string()]),
    ]);
    let levels = f.initialization_levels().unwrap();
    let level_of = |n: &str| levels.iter().position(|row| row.iter().any(|x| x == n));
    assert_eq!(level_of("config"), Some(0));
    assert_eq!(level_of("job"), Some(0));
    assert_eq!(level_of("repo"), Some(1));
    assert_eq!(level_of("service"), Some(2));
    assert_eq!(level_of("web"), Some(3));
    assert_eq!(level_of("cache"), None);
    let total: usize = levels.iter().map(|r| r.len()).sum();
    assert_eq!(total, 5);
}

#[test]
fn initialization_levels_refuse_cycles() {
    let f = factory_with(vec![
        def("a", "A").with_dependencies(vec!["b".to_string()]),
        def("b", "B").with_dependencies(vec!["a".to_string()]),
    ]);
    match f.initialization_levels() {
        Err(ContainerError::CircularDependency(m)) => {
            assert_eq!(m, "Circular dependency detected during topological sort")
        }
        other => panic!("unexpected {:?}", other),
    }
    assert!(DefaultListableBeanFactory::new().initialization_levels().unwrap().is_empty());
}

#[test]
fn context_requests_do_not_track_prototypes() {
    let mut f = factory_with(vec![def("p", "P").with_scope(Scope::Prototype), def("s", "S")]);
    assert_eq!(f.begin_context_bean_request("p").unwrap(), BeanRequest::Create);
    assert_eq!(f.begin_context_bean_request("p").unwrap(), BeanRequest::Create);
    assert_eq!(f.begin_context_bean_request("s").unwrap(), BeanRequest::Create);
    match f.begin_context_bean_request("s") {
        Err(ContainerError::CircularDependency(m)) => assert_eq!(m, "s -> s"),
        other => panic!("unexpected {:?}", other),
    }
    match f.begin_context_bean_request("nope") {
        Err(ContainerError::BeanNotFound(n)) => assert_eq!(n, "nope"),
        other => panic!("unexpected {:?}", other),
    }
}

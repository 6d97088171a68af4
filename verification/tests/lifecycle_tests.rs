use chimera::aop::{first_advice_step, next_advice_step, AdviceStep};
use chimera::config::{flatten_into, lookup_in_sources, ConfigValue, PropertyMap};
use chimera::container::{
    creation_failure, factory_post_processor_failure, next_creation_step, next_shutdown_step, shutdown_app_name,
    ContainerError, CreationStep, ShutdownStep,
};
use chimera::validator::{check_for_keyword, FieldCheck, FieldValue, ValidationRules};

fn creation_order(n: usize, has_init: bool) -> Vec<CreationStep> {
    let mut out = vec![CreationStep::Factory];
    let mut step = CreationStep::Factory;
    while let Some(next) = next_creation_step(step, n, has_init) {
        out.push(next);
        step = next;
    }
    out
}

#[test]
fn creation_runs_factory_processors_init_in_order() {
    assert_eq!(
        creation_order(2, true),
        vec![
            CreationStep::Factory,
            CreationStep::BeforeInit(0),
            CreationStep::BeforeInit(1),
            CreationStep::Init,
            CreationStep::AfterInit(0),
            CreationStep::AfterInit(1),
        ]
    );
    assert_eq!(creation_order(0, false), vec![CreationStep::Factory]);
    assert_eq!(creation_order(0, true), vec![CreationStep::Factory, CreationStep::Init]);
    assert_eq!(
        creation_order(1, false),
        vec![CreationStep::Factory, CreationStep::BeforeInit(0), CreationStep::AfterInit(0)]
    );
}

#[test]
fn creation_failures_are_reported_by_step() {
    match creation_failure(CreationStep::Factory, "repo", ContainerError::Other("boom".to_string()), "boom") {
        ContainerError::BeanCreationFailed(m) => assert_eq!(m, "repo: boom"),
        other => panic!("unexpected {:?}", other),
    }
    match creation_failure(CreationStep::Factory, "repo", ContainerError::CircularDependency("a -> b".to_string()), "x") {
        ContainerError::CircularDependency(m) => assert_eq!(m, "a -> b"),
        other => panic!("unexpected {:?}", other),
    }
    match creation_failure(CreationStep::Init, "repo", ContainerError::Other("bad".to_string()), "bad") {
        ContainerError::BeanCreationFailed(m) => assert_eq!(m, "repo init failed: bad"),
        other => panic!("unexpected {:?}", other),
    }
    match creation_failure(CreationStep::AfterInit(0), "repo", ContainerError::Other("kept".to_string()), "x") {
        ContainerError::Other(m) => assert_eq!(m, "kept"),
        other => panic!("unexpected {:?}", other),
    }
    match factory_post_processor_failure("oops") {
        ContainerError::BeanCreationFailed(m) => assert_eq!(m, "BeanFactoryPostProcessor failed: oops"),
        other => panic!("unexpected {:?}", other),
    }
}

#[test]
fn shutdown_publishes_then_runs_every_hook_then_destroys() {
    let mut order = vec![ShutdownStep::PublishEvent];
    let mut step = ShutdownStep::PublishEvent;
    while let Some(next) = next_shutdown_step(step, 3) {
        order.push(next);
        step = next;
    }
    assert_eq!(
        order,
        vec![
            ShutdownStep::PublishEvent,
            ShutdownStep::Hook(0),
            ShutdownStep::Hook(1),
            ShutdownStep::Hook(2),
            ShutdownStep::DestroySingletons,
        ]
    );
    assert_eq!(next_shutdown_step(ShutdownStep::PublishEvent, 0), Some(ShutdownStep::DestroySingletons));
    assert_eq!(shutdown_app_name(None), "Application");
    assert_eq!(shutdown_app_name(Some("shop".to_string())), "shop");
}

fn advice_order(n: usize, failed: bool) -> Vec<AdviceStep> {
    let mut step = first_advice_step(n);
    let mut out = vec![step];
    while let Some(next) = next_advice_step(step, n, failed) {
        out.push(next);
        step = next;
    }
    out
}

#[test]
fn advice_runs_before_call_outcome_after() {
    assert_eq!(
        advice_order(2, false),
        vec![
            AdviceStep::Before(0),
            AdviceStep::Before(1),
            AdviceStep::Proceed,
            AdviceStep::AfterReturning(0),
            AdviceStep::AfterReturning(1),
            AdviceStep::After(0),
            AdviceStep::After(1),
        ]
    );
    assert_eq!(
        advice_order(1, true),
        vec![AdviceStep::Before(0), AdviceStep::Proceed, AdviceStep::AfterThrowing(0), AdviceStep::After(0)]
    );
    assert_eq!(advice_order(0, true), vec![AdviceStep::Proceed]);
}

#[test]
fn lookup_takes_the_highest_priority_holder() {
    let found = vec![
        Some(ConfigValue::Int(1)),
        Some(ConfigValue::Int(2)),
        None,
        Some(ConfigValue::Int(3)),
    ];
    match lookup_in_sources(&vec![0, 100, 200, 100], found) {
        Some(ConfigValue::Int(v)) => assert_eq!(v, 2),
        other => panic!("unexpected {:?}", other),
    }
    assert!(lookup_in_sources(&vec![0, 1], vec![None, None]).is_none());
    assert!(lookup_in_sources(&vec![], vec![]).is_none());
}

#[test]
fn flattening_nests_keys_with_dots() {
    let doc = ConfigValue::Object(vec![
        (
            "server".to_string(),
            ConfigValue::Object(vec![
                ("port".to_string(), ConfigValue::Int(8080)),
                ("host".to_string(), ConfigValue::String("localhost".to_string())),
            ]),
        ),
        ("debug".to_string(), ConfigValue::Bool(true)),
        ("debug".to_string(), ConfigValue::Bool(false)),
    ]);
    let m = flatten_into(doc, String::new(), PropertyMap::new());
    assert!(matches!(m.get("server.port"), Some(ConfigValue::Int(8080))));
    assert!(matches!(m.get("server.host"), Some(ConfigValue::String(h)) if h == "localhost"));
    assert!(matches!(m.get("debug"), Some(ConfigValue::Bool(false))));
    assert!(m.get("server").is_none());
    let m = flatten_into(ConfigValue::Int(5), "app.level".to_string(), PropertyMap::new());
    assert!(matches!(m.get("app.level"), Some(ConfigValue::Int(5))));
}

#[test]
fn validate_keywords_map_to_checks() {
    assert!(matches!(
        check_for_keyword("not_blank", FieldValue::Text("x".to_string()), None, None, None),
        Some(FieldCheck::NotBlank(v)) if v == "x"
    ));
    assert!(matches!(
        check_for_keyword("length", FieldValue::Text("x".to_string()), Some(2), None, None),
        Some(FieldCheck::Length(_, Some(2), None))
    ));
    assert!(matches!(
        check_for_keyword("length_max", FieldValue::Text("x".to_string()), None, Some(9), None),
        Some(FieldCheck::Length(_, None, Some(9)))
    ));
    assert!(check_for_keyword("length_min", FieldValue::Text("x".to_string()), None, None, None).is_none());
    assert!(matches!(
        check_for_keyword("min", FieldValue::Number(5), Some(18), None, None),
        Some(FieldCheck::Range(5, Some(18), None))
    ));
    assert!(matches!(
        check_for_keyword("pattern", FieldValue::Text("a".to_string()), None, None, Some("^a$".to_string())),
        Some(FieldCheck::Pattern(_, p)) if p == "^a$"
    ));
    assert!(check_for_keyword("email", FieldValue::Number(1), None, None, None).is_none());
    assert!(check_for_keyword("unknown", FieldValue::Text("x".to_string()), None, None, None).is_none());
}

#[test]
fn range_checks_any_integer_type() {
    assert!(ValidationRules::range(u64::MAX, "big", Some(0u64), None).is_ok());
    match ValidationRules::range(u64::MAX, "big", None, Some(10u64)) {
        Err(chimera::validator::ValidationError::FieldErrors(m)) => assert_eq!(
            m.get("big").cloned().unwrap(),
            vec!["big must be at most 10, but was 18446744073709551615".to_string()]
        ),
        _ => panic!("expected a field error"),
    }
    assert!(ValidationRules::range(3u8, "b", Some(1u8), Some(5u8)).is_ok());
}

use chimera::config::{
    config_load_plan, resolve_active_profiles, profile_config_path, ConfigValue, EnvironmentPropertySource,
    TomlPropertySource,
};

#[test]
fn values_as_text_numbers_and_flags() {
    assert_eq!(ConfigValue::String("x".to_string()).as_str(), Some("x"));
    assert_eq!(ConfigValue::Int(3).as_str(), None);
    assert_eq!(ConfigValue::Int(-4).as_i64(), Some(-4));
    assert_eq!(ConfigValue::String("+42".to_string()).as_i64(), Some(42));
    assert_eq!(ConfigValue::String(" 42".to_string()).as_i64(), None);
    assert_eq!(ConfigValue::String("99999999999999999999".to_string()).as_i64(), None);
    assert_eq!(ConfigValue::Bool(true).as_i64(), None);
    assert_eq!(ConfigValue::String("Yes".to_string()).as_bool(), Some(true));
    assert_eq!(ConfigValue::String("0".to_string()).as_bool(), Some(false));
    assert_eq!(ConfigValue::String("maybe".to_string()).as_bool(), None);
    assert_eq!(ConfigValue::Bool(false).as_bool(), Some(false));
    assert_eq!(ConfigValue::Float(1.5f64.to_bits()).as_bool(), None);
}

#[test]
fn string_arrays() {
    let v = ConfigValue::String(" dev, prod ,,test ".to_string());
    assert_eq!(
        v.as_string_array().unwrap(),
        vec!["dev".to_string(), "prod".to_string(), "test".to_string()]
    );
    let a = ConfigValue::Array(vec![
        ConfigValue::String("a".to_string()),
        ConfigValue::Int(1),
        ConfigValue::String("b".to_string()),
    ]);
    assert_eq!(a.as_string_array().unwrap(), vec!["a".to_string(), "b".to_string()]);
    assert!(ConfigValue::Int(1).as_string_array().is_none());
    assert!(ConfigValue::String(" , ".to_string()).as_string_array().unwrap().is_empty());
}

#[test]
fn environment_keys() {
    let s = EnvironmentPropertySource::new("CHIMERA_".to_string());
    assert_eq!(s.key_to_env("server.port"), "CHIMERA_SERVER_PORT");
    assert_eq!(s.env_to_key("CHIMERA_SERVER_PORT"), "server.port");
    assert_eq!(s.env_to_key("OTHER_VALUE"), "other.value");
    assert_eq!(s.env_to_key(&s.key_to_env("app.name")), "app.name");
    assert_eq!(s.priority(), 100);
    assert_eq!(s.name(), "environment");
}

#[test]
fn profile_paths() {
    assert_eq!(profile_config_path("application.toml", "dev"), "application-dev.toml");
    assert_eq!(profile_config_path("config/app.v2.toml", "prod"), "config/app.v2-prod.toml");
    assert_eq!(profile_config_path("settings", "test"), "settings-test");
}

#[test]
fn load_plan_orders_profiles_after_base_files() {
    let plan = config_load_plan(
        &vec!["application.toml".to_string()],
        &vec!["dev".to_string(), "local".to_string()],
    );
    assert_eq!(
        plan,
        vec![
            ("application.toml".to_string(), 0),
            ("application-dev.toml".to_string(), 10),
            ("application-local.toml".to_string(), 11),
        ]
    );
}

#[test]
fn toml_documents_flatten_to_dotted_keys() {
    let text = "name = \"demo\"\n[server]\nport = 8080\nhosts = [\"a\", \"b\"]\n[server.tls]\nenabled = true\n";
    let src = TomlPropertySource::from_str(text, "app.toml".to_string()).unwrap();
    assert_eq!(src.name(), "app.toml");
    assert_eq!(src.priority(), 0);
    assert_eq!(src.get("name").unwrap().as_str(), Some("demo"));
    assert_eq!(src.get("server.port").unwrap().as_i64(), Some(8080));
    assert_eq!(src.get("server.tls.enabled").unwrap().as_bool(), Some(true));
    assert_eq!(
        src.get("server.hosts").unwrap().as_string_array().unwrap(),
        vec!["a".to_string(), "b".to_string()]
    );
    assert!(src.get("server").is_none());
    let mut keys = src.keys();
    keys.sort();
    assert_eq!(keys, vec!["name", "server.hosts", "server.port", "server.tls.enabled"]);
    let src = src.with_priority(7);
    assert_eq!(src.priority(), 7);
}

#[test]
fn broken_toml_is_refused() {
    match TomlPropertySource::from_str("= nope", "bad".to_string()) {
        Err(m) => assert!(m.starts_with("Failed to parse TOML: ")),
        Ok(_) => panic!("expected an error"),
    }
}

#[test]
fn active_profiles_precedence() {
    let code = vec!["local".to_string()];
    assert_eq!(
        resolve_active_profiles(Some("prod, eu ".to_string()), Some(vec!["dev".to_string()]), &code),
        vec!["prod".to_string(), "eu".to_string()]
    );
    assert_eq!(
        resolve_active_profiles(Some(" , ".to_string()), Some(vec!["dev".to_string()]), &code),
        vec!["dev".to_string()]
    );
    assert_eq!(resolve_active_profiles(None, Some(vec![]), &code), vec!["local".to_string()]);
    assert_eq!(resolve_active_profiles(None, None, &Vec::new()), Vec::<String>::new());
}

#[test]
fn integer_text_edges() {
    let int = |s: &str| ConfigValue::String(s.to_string()).as_i64();
    assert_eq!(int("-9223372036854775808"), Some(i64::MIN));
    assert_eq!(int("9223372036854775807"), Some(i64::MAX));
    assert_eq!(int("9223372036854775808"), None);
    assert_eq!(int("-9223372036854775809"), None);
    assert_eq!(int("123456789012345678901234567890"), None);
    assert_eq!(int("-"), None);
    assert_eq!(int("+"), None);
    assert_eq!(int(""), None);
    assert_eq!(int("12a"), None);
    assert_eq!(int("-0"), Some(0));
    assert_eq!(int("007"), Some(7));
}

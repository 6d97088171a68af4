use chimera::validator::{
    FieldErrorMap, Validate, ValidationError, ValidationRules, ValidatorBuilder, ValidatorPlugin,
    EMAIL_PATTERN,
};

fn messages(e: &ValidationError, field: &str) -> Vec<String> {
    match e {
        ValidationError::FieldErrors(m) => m.get(field).cloned().unwrap_or_default(),
        ValidationError::ValidationFailed(_) => Vec::new(),
    }
}

fn single(r: Result<(), ValidationError>, field: &str) -> String {
    let e = r.unwrap_err();
    let m = messages(&e, field);
    assert_eq!(m.len(), 1);
    m[0].clone()
}

#[test]
fn presence_rules() {
    assert!(ValidationRules::not_null(&Some(1), "id").is_ok());
    assert_eq!(single(ValidationRules::not_null::<i32>(&None, "id"), "id"), "id must not be null");
    assert!(ValidationRules::not_empty("x", "name").is_ok());
    assert_eq!(single(ValidationRules::not_empty("", "name"), "name"), "name must not be empty");
    assert!(ValidationRules::not_blank(" x ", "name").is_ok());
    assert_eq!(single(ValidationRules::not_blank(" \t\n", "name"), "name"), "name must not be blank");
    assert_eq!(single(ValidationRules::not_blank("", "name"), "name"), "name must not be blank");
}

#[test]
fn length_counts_bytes() {
    assert!(ValidationRules::length("abc", "code", Some(3), Some(3)).is_ok());
    assert_eq!(
        single(ValidationRules::length("ab", "code", Some(3), None), "code"),
        "code length must be at least 3, but was 2"
    );
    assert_eq!(
        single(ValidationRules::length("héllo", "code", None, Some(5)), "code"),
        "code length must be at most 5, but was 6"
    );
    assert!(ValidationRules::length("", "code", None, None).is_ok());
}

#[test]
fn range_messages() {
    assert!(ValidationRules::range(5, "age", Some(0), Some(10)).is_ok());
    assert_eq!(
        single(ValidationRules::range(-3, "age", Some(0), None), "age"),
        "age must be at least 0, but was -3"
    );
    assert_eq!(
        single(ValidationRules::range(150, "age", Some(0), Some(120)), "age"),
        "age must be at most 120, but was 150"
    );
    assert_eq!(
        single(ValidationRules::range(i64::MIN, "v", Some(-1), None), "v"),
        "v must be at least -1, but was -9223372036854775808"
    );
}

#[test]
fn size_messages() {
    let items = vec![1, 2, 3];
    assert!(ValidationRules::size(&items, "items", Some(1), Some(3)).is_ok());
    assert_eq!(
        single(ValidationRules::size(&items, "items", None, Some(2)), "items"),
        "items size must be at most 2, but was 3"
    );
    assert_eq!(
        single(ValidationRules::size::<u8>(&[], "items", Some(1), None), "items"),
        "items size must be at least 1, but was 0"
    );
}

#[test]
fn email_and_pattern() {
    assert!(ValidationRules::email("user@example.com", "email").is_ok());
    assert_eq!(
        single(ValidationRules::email("not-an-email", "email"), "email"),
        "email must be a valid email address"
    );
    assert!(ValidationRules::pattern("abc123", "code", "^[a-z]+[0-9]+$").is_ok());
    assert_eq!(
        single(ValidationRules::pattern("123", "code", "^[a-z]+$"), "code"),
        "code must match pattern: ^[a-z]+$"
    );
    match ValidationRules::pattern("x", "code", "(") {
        Err(ValidationError::ValidationFailed(m)) => assert!(m.starts_with("Invalid regex pattern: ")),
        other => panic!("unexpected {:?}", other),
    }
    assert!(EMAIL_PATTERN.starts_with('^'));
}

#[test]
fn errors_merge_field_by_field() {
    let mut e = ValidationError::field_error("a".to_string(), "m1".to_string());
    e.add_field_error("a".to_string(), "m2".to_string());
    e.add_field_error("b".to_string(), "m3".to_string());
    let mut other = ValidationError::field_error("b".to_string(), "m4".to_string());
    other.add_field_error("c".to_string(), "m5".to_string());
    e.merge(other);
    assert_eq!(messages(&e, "a"), vec!["m1", "m2"]);
    assert_eq!(messages(&e, "b"), vec!["m3", "m4"]);
    assert_eq!(messages(&e, "c"), vec!["m5"]);
    assert_eq!(e.to_string(), "Field validation errors");
    let mut failed = ValidationError::new("broken".to_string());
    failed.add_field_error("a".to_string(), "x".to_string());
    failed.merge(ValidationError::field_error("a".to_string(), "y".to_string()));
    assert_eq!(failed.to_string(), "Validation failed: broken");
}

#[test]
fn builder_collects_results() {
    let mut b = ValidatorBuilder::new();
    b.add_result(ValidationRules::not_empty("ok", "name"));
    assert!(ValidatorBuilder::new().build().is_ok());
    b.add_result(ValidationRules::not_empty("", "name"));
    b.add_error("name".to_string(), "custom".to_string());
    b.add_result(Err(ValidationError::new("ignored".to_string())));
    let e = b.build().unwrap_err();
    assert_eq!(messages(&e, "name"), vec!["name must not be empty", "custom"]);
}

#[test]
fn error_map_accessors() {
    let mut m = FieldErrorMap::new();
    assert!(m.is_empty());
    m.add("x".to_string(), "one".to_string());
    m.extend("y".to_string(), vec!["two".to_string(), "three".to_string()]);
    m.add("x".to_string(), "four".to_string());
    assert_eq!(m.len(), 2);
    assert_eq!(m.fields(), vec!["x".to_string(), "y".to_string()]);
    assert_eq!(m.get("y").unwrap(), &vec!["two".to_string(), "three".to_string()]);
    assert!(m.get("z").is_none());
}

struct Account {
    email: String,
    age: i64,
}

impl Validate for Account {
    fn validate(&self) -> Result<(), ValidationError> {
        let mut b = ValidatorBuilder::new();
        b.add_result(ValidationRules::email(&self.email, "email"));
        b.add_result(ValidationRules::range(self.age, "age", Some(18), None));
        b.build()
    }
}

#[test]
fn user_defined_validation() {
    assert!(Account { email: "a@b.io".to_string(), age: 30 }.validate().is_ok());
    let e = Account { email: "nope".to_string(), age: 3 }.validate().unwrap_err();
    assert_eq!(messages(&e, "age"), vec!["age must be at least 18, but was 3"]);
    assert_eq!(ValidatorPlugin::new().name(), "chimera-validator");
}

#[test]
fn merging_is_associative_and_empty_is_neutral() {
    let build = |pairs: &[(&str, &str)]| {
        let mut e = ValidationError::field_error("seed".to_string(), "s".to_string());
        for (f, m) in pairs {
            e.add_field_error(f.to_string(), m.to_string());
        }
        e
    };
    let mut left = build(&[("a", "1")]);
    let mut bc = build(&[("b", "2")]);
    bc.merge(build(&[("a", "3")]));
    left.merge(bc);
    let mut right = build(&[("a", "1")]);
    right.merge(build(&[("b", "2")]));
    right.merge(build(&[("a", "3")]));
    for f in ["seed", "a", "b"] {
        assert_eq!(messages(&left, f), messages(&right, f));
    }
    assert_eq!(messages(&left, "a"), vec!["1", "3"]);
    let mut same = build(&[("a", "1")]);
    same.merge(ValidationError::FieldErrors(FieldErrorMap::new()));
    assert_eq!(messages(&same, "a"), vec!["1"]);
    assert_eq!(messages(&same, "seed"), vec!["s"]);
}

#[test]
fn unicode_whitespace_is_blank() {
    assert!(ValidationRules::not_blank("\u{3000}\u{00A0}", "name").is_err());
    assert!(ValidationRules::not_blank("\u{3000}x", "name").is_ok());
}

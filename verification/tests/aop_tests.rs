use chimera::aop::{AdviceType, AopBeanPostProcessor, AopPlugin, ErrorInfo, JoinPoint, PointcutExpression};

#[test]
fn test_should_apply_aop() {
    let processor = AopBeanPostProcessor::new();

    assert!(processor.should_apply_aop("userService"));
    assert!(processor.should_apply_aop("orderService"));
    assert!(processor.should_apply_aop("paymentService"));

    assert!(!processor.should_apply_aop("userController"));
    assert!(!processor.should_apply_aop("appConfig"));
    assert!(!processor.should_apply_aop("repository"));
}

#[test]
fn test_disabled_processor() {
    let processor = AopBeanPostProcessor::disabled();

    assert!(!processor.should_apply_aop("userService"));
    assert!(!processor.should_apply_aop("orderService"));
}

#[test]
fn test_processor_order() {
    let processor = AopBeanPostProcessor::new();

    assert_eq!(processor.order(), 2000);
}

#[test]
fn test_plugin_creation() {
    let plugin = AopPlugin::new();
    assert_eq!(plugin.name(), "AopPlugin");
    assert!(plugin.enabled);
}

#[test]
fn test_disabled_plugin() {
    let plugin = AopPlugin::disabled();
    assert!(!plugin.enabled);
}

#[test]
fn test_custom_name() {
    let plugin = AopPlugin::new().with_name("CustomAopPlugin");
    assert_eq!(plugin.name(), "CustomAopPlugin");
}

#[test]
fn aspects_need_registered_aspects_and_a_service() {
    let p = AopBeanPostProcessor::new();
    assert!(p.matches_any_aspect("userService", 1));
    assert!(!p.matches_any_aspect("userService", 0));
    assert!(!p.matches_any_aspect("appConfig", 3));
    assert!(p.should_apply_aop("Service"));
    assert_eq!(p.name(), "AopBeanPostProcessor");
}

#[test]
fn join_point_signature() {
    let jp = JoinPoint::new("UserService", "get_user");
    assert_eq!(jp.signature(), "UserService::get_user");
    assert_eq!(jp.get_target_type(), "UserService");
    assert_eq!(jp.get_method_name(), "get_user");
    assert!(jp.get_timestamp().elapsed().as_secs() < 60);
}

#[test]
fn wildcard_patterns() {
    assert!(PointcutExpression::pattern_matches("*", "anything"));
    assert!(PointcutExpression::pattern_matches("UserService", "UserService"));
    assert!(!PointcutExpression::pattern_matches("UserService", "OrderService"));
    assert!(PointcutExpression::pattern_matches("User*", "UserService"));
    assert!(PointcutExpression::pattern_matches("*Service", "OrderService"));
    assert!(PointcutExpression::pattern_matches("*Serv*", "OrderServiceImpl"));
    assert!(!PointcutExpression::pattern_matches("*Service", "ServiceImpl"));
    assert!(!PointcutExpression::pattern_matches("User*", "AdminUser"));
}

#[test]
fn execution_expressions() {
    let jp = JoinPoint::new("UserService", "get_user");
    let e = PointcutExpression::execution("* UserService.get_user(..)");
    assert_eq!(e.describe(), "Execution(UserService.get_user)");
    assert!(e.matches(&jp));
    let m = PointcutExpression::execution("* get_*");
    assert_eq!(m.describe(), "MethodPattern(get_*)");
    assert!(m.matches(&jp));
    let all = PointcutExpression::execution("*");
    assert_eq!(all.describe(), "All");
    let other = PointcutExpression::execution("  *   OrderService.*(..)(..) ");
    assert_eq!(other.describe(), "Execution(OrderService.*)");
    assert!(!other.matches(&jp));
}

#[test]
fn combined_expressions() {
    let jp = JoinPoint::new("UserService", "delete_user");
    let t = PointcutExpression::TypePattern("*Service".to_string());
    let m = PointcutExpression::MethodPattern("get_*".to_string());
    let e = t.and(m.not());
    assert!(e.matches(&jp));
    assert_eq!(e.describe(), "And(TypePattern(*Service), Not(MethodPattern(get_*)))");
    let o = PointcutExpression::MethodPattern("get_*".to_string())
        .or(PointcutExpression::TypeRegex("^User".to_string()));
    assert!(o.matches(&jp));
    assert_eq!(o.describe(), "Or(MethodPattern(get_*), TypeRegex(...))");
    assert!(!PointcutExpression::MethodRegex("(".to_string()).matches(&jp));
    assert!(PointcutExpression::MethodRegex("delete".to_string()).matches(&jp));
    assert!(PointcutExpression::All.matches(&jp));
}

#[test]
fn error_details() {
    let simple = ErrorInfo::simple("boom".to_string());
    assert_eq!(simple.error_type, "Unknown");
    assert_eq!(simple.full_description(), "boom");
    let chained = ErrorInfo {
        message: "top".to_string(),
        error_type: "E".to_string(),
        source_chain: vec!["mid".to_string(), "root".to_string()],
    };
    assert_eq!(chained.full_description(), "top\nCaused by:\n  mid\n  root");
}

#[test]
fn advice_kinds_compare() {
    assert_eq!(AdviceType::Before, AdviceType::Before);
    assert_ne!(AdviceType::After, AdviceType::Around);
}

#[test]
fn wildcard_pattern_treats_other_characters_literally() {
    assert!(!PointcutExpression::pattern_matches("User.Svc*", "UserXSvcImpl"));
    assert!(PointcutExpression::pattern_matches("User.Svc*", "User.SvcImpl"));
    assert!(!PointcutExpression::pattern_matches("a+b*", "aab"));
    assert!(PointcutExpression::pattern_matches("a+b*", "a+bc"));
    assert!(PointcutExpression::pattern_matches("*", ""));
    assert!(PointcutExpression::pattern_matches("**", "x"));
    assert!(PointcutExpression::pattern_matches("a*b*c", "aXbYc"));
    assert!(!PointcutExpression::pattern_matches("a*b*c", "aXcYb"));
    assert!(!PointcutExpression::pattern_matches("", "a"));
    assert!(PointcutExpression::pattern_matches("", ""));
}

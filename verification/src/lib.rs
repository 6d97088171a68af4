//! Chimera: the verified core of a Spring-style dependency-injection framework.
//!
//! The library holds the framework's decision logic: bean naming, dependency
//! graph validation and ordering, the bean-definition registry, the event
//! listener registry, logging configuration, parameter validation rules and
//! the aspect-oriented pointcut language.

pub mod text;
pub mod naming;
pub mod dependency;
pub mod container;
pub mod matching;
pub mod validator;
pub mod aop;
pub mod logging;
pub mod event;
pub mod ordering;
pub mod config;
pub mod component;
pub mod binding;

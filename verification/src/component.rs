//! What a component declaration and a bean method declare to the container:
//! the bean name, the scope, and the beans a component's autowired fields
//! make it depend on.

use vstd::prelude::*;
use crate::aop::{lemma_infix_pattern, occurs_at, PointcutExpression};
use crate::container::Scope;
use crate::naming::{camel_case_of, to_camel_case};
use crate::text::{owned, string_views};

verus! {

/// An autowired field of a component: the type it injects (`T` of
/// `Arc<T>`), the bean name given with it (if any), and whether the field is
/// optional (`Option<Arc<T>>`).
pub struct AutowiredField {
    /// The injected type, as written.
    pub injected_type: String,
    /// The bean name given in `#[autowired("name")]`.
    pub qualifier: Option<String>,
    /// Whether the field is optional.
    pub optional: bool,
}

/// `w` occurs somewhere in `t`.
pub open spec fn mentions(t: Seq<char>, w: Seq<char>) -> bool {
    exists|k: int| #[trigger] occurs_at(w, t, k)
}

/// Whether `t` names a type that contains `w`, by the wildcard pattern `*w*`.
fn type_mentions(t: &str, pattern: &str, w: &str) -> (r: bool)
    requires
        pattern@ == seq!['*'] + w@.push('*'),
        !w@.contains('*'),
    ensures
        r == mentions(t@, w@),
{
    let r = PointcutExpression::pattern_matches(pattern, t);
    proof {
        lemma_infix_pattern(w@, t@);
    }
    r
}

/// A type of the container's own components, which are injected from the
/// context rather than looked up as beans: one whose name mentions
/// `ApplicationContext`, `Environment` or `AsyncEventPublisher`.
pub open spec fn is_core_type(t: Seq<char>) -> bool {
    mentions(t, "ApplicationContext"@) || mentions(t, "Environment"@) || mentions(t, "AsyncEventPublisher"@)
}

/// Whether an injected type is one of the container's own components, which
/// are injected from the context: a type whose name mentions
/// `ApplicationContext`, `Environment` or `AsyncEventPublisher`.
pub fn is_core_component_type(injected_type: &str) -> (r: bool)
    ensures
        r == is_core_type(injected_type@),
{
    proof {
        reveal_strlit("ApplicationContext");
        reveal_strlit("*ApplicationContext*");
        reveal_strlit("Environment");
        reveal_strlit("*Environment*");
        reveal_strlit("AsyncEventPublisher");
        reveal_strlit("*AsyncEventPublisher*");
        assert("*ApplicationContext*"@ =~= seq!['*'] + "ApplicationContext"@.push('*'));
        assert("*Environment*"@ =~= seq!['*'] + "Environment"@.push('*'));
        assert("*AsyncEventPublisher*"@ =~= seq!['*'] + "AsyncEventPublisher"@.push('*'));
    }
    type_mentions(injected_type, "*ApplicationContext*", "ApplicationContext")
        || type_mentions(injected_type, "*Environment*", "Environment")
        || type_mentions(injected_type, "*AsyncEventPublisher*", "AsyncEventPublisher")
}

/// The bean an autowired field asks for: the bean name given with it, else
/// the camelCase form of its type.
pub open spec fn field_dependency(f: AutowiredField) -> Seq<char> {
    match f.qualifier {
        Some(q) => q@,
        None => camel_case_of(f.injected_type@),
    }
}

/// The beans a component depends on, in field order: one per autowired field
/// that is neither optional nor of a core component type.
pub open spec fn autowired_dependencies(fields: Seq<AutowiredField>) -> Seq<Seq<char>>
    decreases fields.len(),
{
    if fields.len() == 0 {
        Seq::empty()
    } else {
        let rest = autowired_dependencies(fields.drop_last());
        let f = fields.last();
        if !f.optional && !is_core_type(f.injected_type@) {
            rest.push(field_dependency(f))
        } else {
            rest
        }
    }
}

/// The beans a component depends on, in field order: for each autowired
/// field that is neither optional nor of a core component type, the bean
/// name given with it, else the camelCase form of its type.
pub fn component_dependencies(fields: &Vec<AutowiredField>) -> (r: Vec<String>)
    ensures
        string_views(r@) == autowired_dependencies(fields@),
{
    let mut out: Vec<String> = Vec::new();
    let mut i: usize = 0;
    while i < fields.len()
        invariant
            i <= fields@.len(),
            string_views(out@) == autowired_dependencies(fields@.take(i as int)),
        decreases fields.len() - i,
    {
        let f = &fields[i];
        let ghost before = out@;
        assert(fields@.take(i + 1).drop_last() =~= fields@.take(i as int));
        assert(fields@.take(i + 1).last() == fields@[i as int]);
        if !f.optional && !is_core_component_type(f.injected_type.as_str()) {
            let name = match &f.qualifier {
                Some(q) => q.clone(),
                None => to_camel_case(f.injected_type.as_str()),
            };
            assert(name@ == field_dependency(fields@[i as int]));
            out.push(name);
            assert(string_views(out@) =~= string_views(before).push(name@));
        }
        i = i + 1;
    }
    assert(fields@.take(i as int) =~= fields@);
    out
}

/// The bean name of a component: the name given in `#[bean("name")]`, else
/// the camelCase form of the type name.
pub fn component_bean_name(attr: Option<String>, struct_name: &str) -> (r: String)
    ensures
        r@ == match attr {
            Some(n) => n@,
            None => camel_case_of(struct_name@),
        },
{
    match attr {
        Some(n) => n,
        None => to_camel_case(struct_name),
    }
}

/// The scope a `#[scope("...")]` attribute gives: `prototype` gives the
/// prototype scope; any other name, or no attribute, the singleton scope.
pub fn scope_of_attribute(attr: &Option<String>) -> (s: Scope)
    ensures
        s == match attr {
            Some(n) => if n@ == "prototype"@ { Scope::Prototype } else { Scope::Singleton },
            None => Scope::Singleton,
        },
{
    match attr {
        Some(n) => Scope::from_name(n.as_str()),
        None => Scope::Singleton,
    }
}

/// How a `#[bean]` method of a configuration is registered: under the name
/// given in `#[bean("name")]`, else under the method's name; in the scope of
/// its `#[scope]` attribute; lazy when marked `#[lazy]`.
pub fn bean_method_registration(method: &str, name_attr: Option<String>, scope_attr: Option<String>, lazy: bool) -> (r: (String, Scope, bool))
    ensures
        r.0@ == match name_attr {
            Some(n) => n@,
            None => method@,
        },
        r.1 == match scope_attr {
            Some(n) => if n@ == "prototype"@ { Scope::Prototype } else { Scope::Singleton },
            None => Scope::Singleton,
        },
        r.2 == lazy,
{
    let name = match name_attr {
        Some(n) => n,
        None => owned(method),
    };
    let scope = scope_of_attribute(&scope_attr);
    (name, scope, lazy)
}

} // verus!

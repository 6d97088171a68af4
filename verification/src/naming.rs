//! Bean naming conventions: camelCase bean names, snake_case and
//! kebab-case identifiers.

use vstd::prelude::*;
use crate::text::{
    char_is_upper, char_is_uppercase, char_lowercase, char_to_lower, chars_of, replace_char,
    str_equal, string_of,
};

verus! {

/// The camelCase form of a PascalCase name: the first character lowercased,
/// the rest kept.
pub open spec fn camel_case_of(s: Seq<char>) -> Seq<char> {
    if s.len() == 0 {
        Seq::empty()
    } else {
        char_lowercase(s[0]) + s.drop_first()
    }
}

/// The snake_case form of `s`: each uppercase character is lowercased and,
/// unless nothing has been written yet, preceded by an underscore.
pub open spec fn snake_case_of(s: Seq<char>) -> Seq<char>
    decreases s.len(),
{
    if s.len() == 0 {
        Seq::empty()
    } else {
        let prev = snake_case_of(s.drop_last());
        let c = s.last();
        if char_is_uppercase(c) {
            (if prev.len() > 0 {
                prev.push('_')
            } else {
                prev
            }) + char_lowercase(c)
        } else {
            prev.push(c)
        }
    }
}

/// Converts a PascalCase type name to camelCase for bean naming
/// (`UserService` becomes `userService`).
pub fn to_camel_case(s: &str) -> (r: String)
    ensures
        r@ == camel_case_of(s@),
{
    let v = chars_of(s);
    if v.len() == 0 {
        return String::new();
    }
    let mut out = char_to_lower(v[0]);
    let mut i: usize = 1;
    while i < v.len()
        invariant
            v@ == s@,
            1 <= i <= v.len(),
            out@ == char_lowercase(v@[0]) + v@.subrange(1, i as int),
        decreases v.len() - i,
    {
        out.push(v[i]);
        i = i + 1;
        assert(out@ =~= char_lowercase(v@[0]) + v@.subrange(1, i as int));
    }
    assert(v@.subrange(1, v@.len() as int) =~= v@.drop_first());
    string_of(&out)
}

/// Converts a string to snake_case (`UserService` becomes `user_service`,
/// `HTTPServer` becomes `h_t_t_p_server`).
pub fn to_snake_case(s: &str) -> (r: String)
    ensures
        r@ == snake_case_of(s@),
{
    let v = chars_of(s);
    let mut out: Vec<char> = Vec::new();
    let mut i: usize = 0;
    while i < v.len()
        invariant
            v@ == s@,
            i <= v.len(),
            out@ == snake_case_of(v@.subrange(0, i as int)),
        decreases v.len() - i,
    {
        let c = v[i];
        assert(v@.subrange(0, i + 1).drop_last() =~= v@.subrange(0, i as int));
        assert(v@.subrange(0, i + 1).last() == c);
        if char_is_upper(c) {
            if out.len() > 0 {
                out.push('_');
            }
            let mut low = char_to_lower(c);
            out.append(&mut low);
        } else {
            out.push(c);
        }
        i = i + 1;
    }
    assert(v@.subrange(0, v@.len() as int) =~= v@);
    string_of(&out)
}

/// `v` with every `from` replaced by `to`.
pub(crate) fn replace_in(v: &Vec<char>, from: char, to: char) -> (r: Vec<char>)
    ensures
        r@ == replace_char(v@, from, to),
{
    let mut out: Vec<char> = Vec::new();
    let mut i: usize = 0;
    while i < v.len()
        invariant
            i <= v.len(),
            out@ == replace_char(v@.subrange(0, i as int), from, to),
        decreases v.len() - i,
    {
        if v[i] == from {
            out.push(to);
        } else {
            out.push(v[i]);
        }
        i = i + 1;
        assert(out@ =~= replace_char(v@.subrange(0, i as int), from, to));
    }
    assert(v@.subrange(0, v@.len() as int) =~= v@);
    out
}

/// Converts a string to kebab-case: its snake_case form with every
/// underscore turned into a hyphen (`UserService` becomes `user-service`).
pub fn to_kebab_case(s: &str) -> (r: String)
    ensures
        r@ == replace_char(snake_case_of(s@), '_', '-'),
{
    let snake = to_snake_case(s);
    let v = chars_of(snake.as_str());
    let out = replace_in(&v, '_', '-');
    string_of(&out)
}

/// The configuration key of a struct field: its name with every underscore
/// turned into a hyphen (`max_size` becomes `max-size`).
pub fn field_name_to_config_key(field_name: &str) -> (r: String)
    ensures
        r@ == replace_char(field_name@, '_', '-'),
{
    let v = chars_of(field_name);
    let out = replace_in(&v, '_', '-');
    string_of(&out)
}

/// A name without uppercase characters is its own snake_case form.
pub proof fn lemma_snake_case_keeps_names_without_uppercase(s: Seq<char>)
    requires
        forall|i: int| 0 <= i < s.len() ==> !char_is_uppercase(#[trigger] s[i]),
    ensures
        snake_case_of(s) == s,
    decreases s.len(),
{
    if s.len() > 0 {
        let p = s.drop_last();
        assert forall|i: int| 0 <= i < p.len() implies !char_is_uppercase(#[trigger] p[i]) by {
            assert(p[i] == s[i]);
        }
        lemma_snake_case_keeps_names_without_uppercase(p);
        assert(!char_is_uppercase(s[s.len() - 1]));
        assert(p.push(s.last()) =~= s);
    }
}

/// The kebab-case form of a name never contains an underscore.
pub proof fn lemma_kebab_case_has_no_underscore(s: Seq<char>)
    ensures
        !replace_char(snake_case_of(s), '_', '-').contains('_'),
{
    let k = replace_char(snake_case_of(s), '_', '-');
    if k.contains('_') {
        let i = choose|i: int| 0 <= i < k.len() && k[i] == '_';
        assert(k[i] == '_');
    }
}

/// The method names a component type cannot define, because the component
/// trait already does.
pub open spec fn is_reserved_method(name: Seq<char>) -> bool {
    ||| name == "bean_name"@
    ||| name == "scope"@
    ||| name == "lazy"@
    ||| name == "dependencies"@
    ||| name == "init_callback"@
    ||| name == "destroy_callback"@
    ||| name == "is_event_listener"@
    ||| name == "as_event_listener"@
    ||| name == "create_from_context"@
    ||| name == "register"@
}

/// Whether a component type may not define a method called `name`.
pub fn is_reserved_method_name(name: &str) -> (r: bool)
    ensures
        r == is_reserved_method(name@),
{
    str_equal(name, "bean_name") || str_equal(name, "scope") || str_equal(name, "lazy")
        || str_equal(name, "dependencies") || str_equal(name, "init_callback")
        || str_equal(name, "destroy_callback") || str_equal(name, "is_event_listener")
        || str_equal(name, "as_event_listener") || str_equal(name, "create_from_context")
        || str_equal(name, "register")
}

} // verus!

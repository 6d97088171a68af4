//! Validation of values: the rules that check a field, the error that
//! collects the messages of the fields that failed, and a builder that
//! gathers the outcome of several rules.

use vstd::prelude::*;
use crate::dependency::lemma_push_to_set;
use crate::matching::{regex_compiles, regex_error_text, regex_is_match, regex_match};
use crate::text::{
    char_is_space, char_is_whitespace, chars_of, clone_strings, concat2, decimal, owned,
    push_decimal, push_signed_decimal, signed_decimal, str_equal, string_views,
};

verus! {

/// The field names of a list of entries.
pub open spec fn error_keys(e: Seq<(String, Vec<String>)>) -> Seq<Seq<char>> {
    e.map_values(|p: (String, Vec<String>)| p.0@)
}

/// The map from field name to messages that a list of entries holds, taking
/// the first entry of each field.
pub open spec fn error_map(e: Seq<(String, Vec<String>)>) -> Map<Seq<char>, Seq<Seq<char>>> {
    Map::new(
        |k: Seq<char>| error_keys(e).contains(k),
        |k: Seq<char>| string_views(e[error_keys(e).index_of(k)].1@),
    )
}

/// The messages recorded for `k`, none when it has no entry.
pub open spec fn messages_of(m: Map<Seq<char>, Seq<Seq<char>>>, k: Seq<char>) -> Seq<Seq<char>> {
    if m.dom().contains(k) {
        m[k]
    } else {
        Seq::empty()
    }
}

/// The messages of `a` followed, field by field, by those of `b`.
pub open spec fn merged(a: Map<Seq<char>, Seq<Seq<char>>>, b: Map<Seq<char>, Seq<Seq<char>>>) -> Map<
    Seq<char>,
    Seq<Seq<char>>,
> {
    Map::new(
        |k: Seq<char>| a.dom().contains(k) || b.dom().contains(k),
        |k: Seq<char>| messages_of(a, k) + messages_of(b, k),
    )
}

/// Appending an entry for a new field adds that field to the map.
proof fn lemma_error_map_push(e: Seq<(String, Vec<String>)>, x: (String, Vec<String>))
    requires
        error_keys(e).no_duplicates(),
        !error_keys(e).contains(x.0@),
    ensures
        error_keys(e.push(x)) == error_keys(e).push(x.0@),
        error_keys(e.push(x)).no_duplicates(),
        error_map(e.push(x)) == error_map(e).insert(x.0@, string_views(x.1@)),
{
    let t = e.push(x);
    assert(error_keys(t) =~= error_keys(e).push(x.0@));
    lemma_push_to_set(error_keys(e), x.0@);
    let m = error_map(e).insert(x.0@, string_views(x.1@));
    assert forall|k: Seq<char>| error_map(t).dom().contains(k) <==> m.dom().contains(k) by {
        if error_keys(e).contains(k) {
            let q = choose|q: int| 0 <= q < error_keys(e).len() && error_keys(e)[q] == k;
            assert(error_keys(t)[q] == k);
        }
        if error_keys(t).contains(k) && k != x.0@ {
            let q = choose|q: int| 0 <= q < error_keys(t).len() && error_keys(t)[q] == k;
            assert(q < e.len());
            assert(error_keys(e)[q] == k);
        }
        if k == x.0@ {
            assert(error_keys(t)[e.len() as int] == k);
        }
    }
    assert forall|k: Seq<char>| #![auto] error_map(t).dom().contains(k) implies error_map(t)[k] == m[k] by {
        let p = error_keys(t).index_of(k);
        assert(error_keys(t)[p] == k);
        if k == x.0@ {
            assert(error_keys(t)[e.len() as int] == k);
            assert(p == e.len());
        } else {
            assert(p < e.len());
            assert(error_keys(e)[p] == k);
            let q = error_keys(e).index_of(k);
            assert(error_keys(e)[q] == k);
            assert(error_keys(t)[q] == k);
        }
    }
    assert(error_map(t) =~= m);
}

/// Replacing the messages of the entry at `p` changes only that field.
proof fn lemma_error_map_set(e: Seq<(String, Vec<String>)>, p: int, x: (String, Vec<String>))
    requires
        error_keys(e).no_duplicates(),
        0 <= p < e.len(),
        x.0@ == e[p].0@,
    ensures
        error_keys(e.update(p, x)) == error_keys(e),
        error_map(e.update(p, x)) == error_map(e).insert(x.0@, string_views(x.1@)),
{
    let t = e.update(p, x);
    assert(error_keys(t) =~= error_keys(e));
    assert(error_keys(e)[p] == x.0@);
    let m = error_map(e).insert(x.0@, string_views(x.1@));
    assert forall|k: Seq<char>| #![auto] error_map(t).dom().contains(k) implies error_map(t)[k] == m[k] by {
        let q = error_keys(t).index_of(k);
        assert(error_keys(t)[q] == k);
        if k == x.0@ {
            assert(error_keys(t)[p] == k);
            assert(q == p);
        }
    }
    assert(error_map(t) =~= m);
}

/// With distinct fields, the map has one field per entry.
proof fn lemma_error_map_len(e: Seq<(String, Vec<String>)>)
    requires
        error_keys(e).no_duplicates(),
    ensures
        error_map(e).dom() == error_keys(e).to_set(),
        error_map(e).dom().len() == e.len(),
{
    assert(error_map(e).dom() =~= error_keys(e).to_set());
    error_keys(e).unique_seq_to_set();
}

/// For each field that failed validation, the messages saying why, in the
/// order they were recorded. A field appears once.
#[derive(Debug)]
pub struct FieldErrorMap {
    entries: Vec<(String, Vec<String>)>,
}

impl View for FieldErrorMap {
    type V = Map<Seq<char>, Seq<Seq<char>>>;

    closed spec fn view(&self) -> Map<Seq<char>, Seq<Seq<char>>> {
        error_map(self.entries@)
    }
}

impl FieldErrorMap {
    #[verifier::type_invariant]
    closed spec fn fields_distinct(&self) -> bool {
        error_keys(self.entries@).no_duplicates()
    }

    /// The fields that have messages, in the order they were first recorded.
    pub closed spec fn field_order(&self) -> Seq<Seq<char>> {
        error_keys(self.entries@)
    }

    /// A map without fields.
    pub fn new() -> (m: Self)
        ensures
            m@ == Map::<Seq<char>, Seq<Seq<char>>>::empty(),
            m.field_order() == Seq::<Seq<char>>::empty(),
    {
        let m = FieldErrorMap { entries: Vec::new() };
        assert(m@ =~= Map::<Seq<char>, Seq<Seq<char>>>::empty());
        assert(m.field_order() =~= Seq::<Seq<char>>::empty());
        m
    }

    /// Position of the entry of `field`.
    fn position(&self, field: &String) -> (r: Option<usize>)
        ensures
            match r {
                Some(i) => i < self.entries@.len() && self.entries@[i as int].0@ == field@
                    && error_keys(self.entries@).index_of(field@) == i,
                None => !self@.dom().contains(field@),
            },
    {
        proof {
            use_type_invariant(self);
        }
        let mut i: usize = 0;
        while i < self.entries.len()
            invariant
                i <= self.entries@.len(),
                error_keys(self.entries@).no_duplicates(),
                forall|j: int| 0 <= j < i ==> self.entries@[j].0@ != field@,
            decreases self.entries.len() - i,
        {
            if self.entries[i].0 == *field {
                proof {
                    let keys = error_keys(self.entries@);
                    assert(keys[i as int] == field@);
                    assert(keys.contains(field@));
                    let k = keys.index_of(field@);
                    assert(keys[k] == field@);
                }
                return Some(i);
            }
            i = i + 1;
        }
        proof {
            let keys = error_keys(self.entries@);
            if keys.contains(field@) {
                let k = choose|k: int| 0 <= k < keys.len() && keys[k] == field@;
                assert(self.entries@[k].0@ == field@);
            }
        }
        None
    }

    /// Appends `messages` to those of `field`, adding the field when it has
    /// none yet.
    pub fn extend(&mut self, field: String, messages: Vec<String>)
        ensures
            final(self)@ == old(self)@.insert(field@, messages_of(old(self)@, field@) + string_views(messages@)),
            old(self)@.dom().contains(field@) ==> final(self).field_order() == old(self).field_order(),
            !old(self)@.dom().contains(field@) ==> final(self).field_order() == old(self).field_order().push(field@),
    {
        proof {
            use_type_invariant(&*self);
        }
        match self.position(&field) {
            Some(p) => {
                let mut all = clone_strings(&self.entries[p].1);
                let mut j: usize = 0;
                let ghost start = all@;
                while j < messages.len()
                    invariant
                        j <= messages@.len(),
                        all@ == start + messages@.take(j as int),
                    decreases messages.len() - j,
                {
                    all.push(messages[j].clone());
                    j = j + 1;
                    assert(all@ =~= start + messages@.take(j as int));
                }
                assert(messages@.take(j as int) =~= messages@);
                let ghost old_entries = self.entries@;
                let ghost fv = field@;
                proof {
                    lemma_error_map_set(old_entries, p as int, (field, all));
                    assert(string_views(all@) =~= string_views(old_entries[p as int].1@) + string_views(messages@));
                }
                let mut v: Vec<(String, Vec<String>)> = Vec::new();
                std::mem::swap(&mut v, &mut self.entries);
                v.set(p, (field, all));
                self.entries = v;
            },
            None => {
                let ghost old_entries = self.entries@;
                proof {
                    lemma_error_map_push(old_entries, (field, messages));
                    assert(messages_of(error_map(old_entries), field@) + string_views(messages@)
                        =~= string_views(messages@));
                }
                let mut v: Vec<(String, Vec<String>)> = Vec::new();
                std::mem::swap(&mut v, &mut self.entries);
                v.push((field, messages));
                self.entries = v;
            },
        }
    }

    /// Appends `message` to the messages of `field`, adding the field when it
    /// has none yet.
    pub fn add(&mut self, field: String, message: String)
        ensures
            final(self)@ == old(self)@.insert(field@, messages_of(old(self)@, field@).push(message@)),
            old(self)@.dom().contains(field@) ==> final(self).field_order() == old(self).field_order(),
            !old(self)@.dom().contains(field@) ==> final(self).field_order() == old(self).field_order().push(field@),
    {
        let ghost mv = message@;
        let mut one: Vec<String> = Vec::new();
        one.push(message);
        assert(string_views(one@) =~= seq![mv]);
        self.extend(field, one);
        assert(messages_of(old(self)@, field@) + seq![mv] =~= messages_of(old(self)@, field@).push(mv));
    }

    /// Appends, field by field, the messages of `other` to those of `self`.
    pub fn merge_from(&mut self, other: FieldErrorMap)
        ensures
            final(self)@ == merged(old(self)@, other@),
    {
        proof {
            use_type_invariant(&other);
        }
        let ghost start = self@;
        let mut i: usize = 0;
        while i < other.entries.len()
            invariant
                i <= other.entries@.len(),
                error_keys(other.entries@).no_duplicates(),
                self@ == merged(start, error_map(other.entries@.take(i as int))),
            decreases other.entries.len() - i,
        {
            let ghost prefix = other.entries@.take(i as int);
            let ghost x = other.entries@[i as int];
            proof {
                assert(other.entries@.take(i + 1) =~= prefix.push(x));
                assert(error_keys(prefix) =~= error_keys(other.entries@).take(i as int));
                if error_keys(prefix).contains(x.0@) {
                    let q = choose|q: int| 0 <= q < error_keys(prefix).len() && error_keys(prefix)[q] == x.0@;
                    assert(error_keys(other.entries@)[q] == error_keys(other.entries@)[i as int]);
                }
                lemma_error_map_push(prefix, x);
            }
            let field = other.entries[i].0.clone();
            let messages = clone_strings(&other.entries[i].1);
            self.extend(field, messages);
            i = i + 1;
            proof {
                let a = start;
                let b = error_map(prefix);
                let b2 = error_map(other.entries@.take(i as int));
                assert(b2 == b.insert(x.0@, string_views(x.1@)));
                assert(!b.dom().contains(x.0@));
                assert(self@ =~= merged(a, b2));
            }
        }
        assert(other.entries@.take(i as int) =~= other.entries@);
    }

    /// The messages of `field`, if it has any.
    pub fn get(&self, field: &str) -> (r: Option<&Vec<String>>)
        ensures
            match r {
                Some(v) => self@.dom().contains(field@) && string_views(v@) == self@[field@],
                None => !self@.dom().contains(field@),
            },
    {
        let f = owned(field);
        match self.position(&f) {
            Some(i) => {
                proof {
                    assert(error_keys(self.entries@)[i as int] == field@);
                }
                Some(&self.entries[i].1)
            },
            None => None,
        }
    }

    /// Whether no field has messages.
    pub fn is_empty(&self) -> (r: bool)
        ensures
            r == (self@.dom().len() == 0),
    {
        proof {
            use_type_invariant(self);
            lemma_error_map_len(self.entries@);
        }
        self.entries.len() == 0
    }

    /// The number of fields with messages.
    pub fn len(&self) -> (n: usize)
        ensures
            n == self@.dom().len(),
    {
        proof {
            use_type_invariant(self);
            lemma_error_map_len(self.entries@);
        }
        self.entries.len()
    }

    /// The fields with messages, in the order they were first recorded.
    pub fn fields(&self) -> (r: Vec<String>)
        ensures
            string_views(r@) == self.field_order(),
    {
        let mut out: Vec<String> = Vec::new();
        let mut i: usize = 0;
        while i < self.entries.len()
            invariant
                i <= self.entries@.len(),
                string_views(out@) == error_keys(self.entries@).take(i as int),
            decreases self.entries.len() - i,
        {
            let ghost before = out@;
            let n = self.entries[i].0.clone();
            out.push(n);
            assert(string_views(out@) =~= string_views(before).push(n@));
            i = i + 1;
            assert(error_keys(self.entries@).take(i as int) =~= error_keys(self.entries@).take(i - 1).push(n@));
        }
        assert(error_keys(self.entries@).take(i as int) =~= error_keys(self.entries@));
        out
    }
}

/// A failed validation.
#[derive(Debug)]
pub enum ValidationError {
    /// The validation could not be carried out, for the given reason.
    ValidationFailed(String),
    /// Fields whose values broke a rule, with the messages saying why.
    FieldErrors(FieldErrorMap),
}

/// `r` reports, for `field` alone, the single message `msg`.
pub open spec fn field_failure(r: Result<(), ValidationError>, field: Seq<char>, msg: Seq<char>) -> bool {
    match r {
        Err(ValidationError::FieldErrors(m)) => m@ == map![field => seq![msg]],
        _ => false,
    }
}

impl ValidationError {
    /// A validation that failed with `message`.
    pub fn new(message: String) -> (e: Self)
        ensures
            e matches ValidationError::ValidationFailed(m) && m@ == message@,
    {
        ValidationError::ValidationFailed(message)
    }

    /// A field error: `field` with the single message `message`.
    pub fn field_error(field: String, message: String) -> (e: Self)
        ensures
            field_failure(Err(e), field@, message@),
    {
        let ghost fv = field@;
        let ghost mv = message@;
        let mut errors = FieldErrorMap::new();
        errors.add(field, message);
        assert(errors@ =~= map![fv => seq![mv]]);
        ValidationError::FieldErrors(errors)
    }

    /// Adds `message` to the messages of `field`. A validation that failed
    /// for another reason is left as it is.
    pub fn add_field_error(&mut self, field: String, message: String)
        ensures
            match *old(self) {
                ValidationError::FieldErrors(m) => *final(self) matches ValidationError::FieldErrors(n)
                    && n@ == m@.insert(field@, messages_of(m@, field@).push(message@)),
                ValidationError::ValidationFailed(_) => *final(self) == *old(self),
            },
    {
        match self {
            ValidationError::FieldErrors(errors) => {
                errors.add(field, message);
            },
            ValidationError::ValidationFailed(_) => {},
        }
    }

    /// Appends the field messages of `other` to those of `self`, field by
    /// field. Only two sets of field errors merge; otherwise `self` is left
    /// as it is.
    pub fn merge(&mut self, other: ValidationError)
        ensures
            match (*old(self), other) {
                (ValidationError::FieldErrors(m), ValidationError::FieldErrors(o)) =>
                    *final(self) matches ValidationError::FieldErrors(n) && n@ == merged(m@, o@),
                _ => *final(self) == *old(self),
            },
    {
        match self {
            ValidationError::FieldErrors(errors) => {
                match other {
                    ValidationError::FieldErrors(o) => {
                        errors.merge_from(o);
                    },
                    ValidationError::ValidationFailed(_) => {},
                }
            },
            ValidationError::ValidationFailed(_) => {},
        }
    }

    /// The human-readable description of the error.
    pub fn to_string(&self) -> (r: String)
        ensures
            match self {
                ValidationError::ValidationFailed(m) => r@ == "Validation failed: "@ + m@,
                ValidationError::FieldErrors(_) => r@ == "Field validation errors"@,
            },
    {
        match self {
            ValidationError::ValidationFailed(m) => concat2("Validation failed: ", m.as_str()),
            ValidationError::FieldErrors(_) => owned("Field validation errors"),
        }
    }
}

/// The pattern an email address must match.
pub const EMAIL_PATTERN: &'static str = r"^[a-zA-Z0-9._%+-]+@[a-zA-Z0-9.-]+\.[a-zA-Z]{2,}$";

/// `field` followed by `rest`.
fn message(field: &str, rest: &str) -> (r: String)
    ensures
        r@ == field@ + rest@,
{
    concat2(field, rest)
}

/// The message of a bound that a count breaks: `field`, the `what`, the
/// bound and the count.
fn bound_message(field: &str, what: &str, bound: usize, count: usize) -> (r: String)
    ensures
        r@ == field@ + what@ + decimal(bound as nat) + ", but was "@ + decimal(count as nat),
{
    let mut r = concat2(field, what);
    push_decimal(&mut r, bound as u128);
    r.append(", but was ");
    push_decimal(&mut r, count as u128);
    r
}

/// The outcome of checking a count against optional bounds: the lower
/// bound is checked first, with messages made of `field`, `noun` and the
/// numbers.
pub open spec fn count_check(r: Result<(), ValidationError>, field: Seq<char>, noun: Seq<char>, count: nat, min: Option<usize>, max: Option<usize>) -> bool {
    if min is Some && count < min->Some_0 {
        field_failure(r, field, field + noun + " must be at least "@ + decimal(min->Some_0 as nat) + ", but was "@ + decimal(count))
    } else if max is Some && count > max->Some_0 {
        field_failure(r, field, field + noun + " must be at most "@ + decimal(max->Some_0 as nat) + ", but was "@ + decimal(count))
    } else {
        r is Ok
    }
}

/// Checks `count` against the bounds, as `count_check` says.
fn check_count(field: &str, noun: &str, count: usize, min: Option<usize>, max: Option<usize>) -> (r: Result<(), ValidationError>)
    ensures
        count_check(r, field@, noun@, count as nat, min, max),
{
    if let Some(lo) = min {
        if count < lo {
            let what = concat2(noun, " must be at least ");
            let m = bound_message(field, what.as_str(), lo, count);
            assert(m@ =~= field@ + noun@ + " must be at least "@ + decimal(lo as nat) + ", but was "@ + decimal(count as nat));
            return Err(ValidationError::field_error(owned(field), m));
        }
    }
    if let Some(hi) = max {
        if count > hi {
            let what = concat2(noun, " must be at most ");
            let m = bound_message(field, what.as_str(), hi, count);
            assert(m@ =~= field@ + noun@ + " must be at most "@ + decimal(hi as nat) + ", but was "@ + decimal(count as nat));
            return Err(ValidationError::field_error(owned(field), m));
        }
    }
    Ok(())
}

/// An integer type whose values `ValidationRules::range` checks: each value
/// stands for a mathematical integer and is written in decimal.
pub trait WholeNumber {
    /// The integer the value stands for.
    spec fn whole_value(&self) -> int;

    /// The value as an `i128`.
    fn to_i128(&self) -> (r: i128)
        ensures
            r as int == self.whole_value();
}

impl WholeNumber for i8 {
    open spec fn whole_value(&self) -> int {
        *self as int
    }

    fn to_i128(&self) -> (r: i128) {
        *self as i128
    }
}

impl WholeNumber for i16 {
    open spec fn whole_value(&self) -> int {
        *self as int
    }

    fn to_i128(&self) -> (r: i128) {
        *self as i128
    }
}

impl WholeNumber for i32 {
    open spec fn whole_value(&self) -> int {
        *self as int
    }

    fn to_i128(&self) -> (r: i128) {
        *self as i128
    }
}

impl WholeNumber for i64 {
    open spec fn whole_value(&self) -> int {
        *self as int
    }

    fn to_i128(&self) -> (r: i128) {
        *self as i128
    }
}

impl WholeNumber for i128 {
    open spec fn whole_value(&self) -> int {
        *self as int
    }

    fn to_i128(&self) -> (r: i128) {
        *self as i128
    }
}

impl WholeNumber for isize {
    open spec fn whole_value(&self) -> int {
        *self as int
    }

    fn to_i128(&self) -> (r: i128) {
        *self as i128
    }
}

impl WholeNumber for u8 {
    open spec fn whole_value(&self) -> int {
        *self as int
    }

    fn to_i128(&self) -> (r: i128) {
        *self as i128
    }
}

impl WholeNumber for u16 {
    open spec fn whole_value(&self) -> int {
        *self as int
    }

    fn to_i128(&self) -> (r: i128) {
        *self as i128
    }
}

impl WholeNumber for u32 {
    open spec fn whole_value(&self) -> int {
        *self as int
    }

    fn to_i128(&self) -> (r: i128) {
        *self as i128
    }
}

impl WholeNumber for u64 {
    open spec fn whole_value(&self) -> int {
        *self as int
    }

    fn to_i128(&self) -> (r: i128) {
        *self as i128
    }
}

impl WholeNumber for usize {
    open spec fn whole_value(&self) -> int {
        *self as int
    }

    fn to_i128(&self) -> (r: i128) {
        *self as i128
    }
}

/// The common validation rules. Each checks one value of the field `field`
/// and, when the value breaks the rule, reports that field with one message.
pub struct ValidationRules;

impl ValidationRules {
    /// The value must be present.
    pub fn not_null<T>(value: &Option<T>, field: &str) -> (r: Result<(), ValidationError>)
        ensures
            value is Some ==> r is Ok,
            value is None ==> field_failure(r, field@, field@ + " must not be null"@),
    {
        if value.is_none() {
            return Err(ValidationError::field_error(owned(field), message(field, " must not be null")));
        }
        Ok(())
    }

    /// The string must not be empty.
    pub fn not_empty(value: &str, field: &str) -> (r: Result<(), ValidationError>)
        ensures
            value@.len() > 0 ==> r is Ok,
            value@.len() == 0 ==> field_failure(r, field@, field@ + " must not be empty"@),
    {
        if value.is_empty() {
            return Err(ValidationError::field_error(owned(field), message(field, " must not be empty")));
        }
        Ok(())
    }

    /// The string must hold a character that is not whitespace.
    pub fn not_blank(value: &str, field: &str) -> (r: Result<(), ValidationError>)
        ensures
            (exists|i: int| 0 <= i < value@.len() && !char_is_whitespace(#[trigger] value@[i])) ==> r is Ok,
            (forall|i: int| 0 <= i < value@.len() ==> char_is_whitespace(#[trigger] value@[i]))
                ==> field_failure(r, field@, field@ + " must not be blank"@),
    {
        let chars = chars_of(value);
        let mut i: usize = 0;
        while i < chars.len()
            invariant
                chars@ == value@,
                i <= chars@.len(),
                forall|j: int| 0 <= j < i ==> char_is_whitespace(#[trigger] value@[j]),
            decreases chars.len() - i,
        {
            if !char_is_space(chars[i]) {
                return Ok(());
            }
            i = i + 1;
        }
        Err(ValidationError::field_error(owned(field), message(field, " must not be blank")))
    }

    /// The string's length in bytes must lie within the bounds that are
    /// given.
    pub fn length(value: &str, field: &str, min: Option<usize>, max: Option<usize>) -> (r: Result<(), ValidationError>)
        ensures
            count_check(r, field@, " length"@, value.len() as nat, min, max),
    {
        let len = value.len();
        check_count(field, " length", len, min, max)
    }

    /// The number must lie within the bounds that are given. Any integer
    /// type up to 64 bits, and `i128`, can be checked.
    pub fn range<T: WholeNumber>(value: T, field: &str, min: Option<T>, max: Option<T>) -> (r: Result<(), ValidationError>)
        ensures
            if min is Some && value.whole_value() < min->Some_0.whole_value() {
                field_failure(r, field@, field@ + " must be at least "@ + signed_decimal(min->Some_0.whole_value())
                    + ", but was "@ + signed_decimal(value.whole_value()))
            } else if max is Some && value.whole_value() > max->Some_0.whole_value() {
                field_failure(r, field@, field@ + " must be at most "@ + signed_decimal(max->Some_0.whole_value())
                    + ", but was "@ + signed_decimal(value.whole_value()))
            } else {
                r is Ok
            },
    {
        let v = value.to_i128();
        if let Some(lo) = min {
            let l = lo.to_i128();
            if v < l {
                let mut m = message(field, " must be at least ");
                push_signed_decimal(&mut m, l);
                m.append(", but was ");
                push_signed_decimal(&mut m, v);
                return Err(ValidationError::field_error(owned(field), m));
            }
        }
        if let Some(hi) = max {
            let h = hi.to_i128();
            if v > h {
                let mut m = message(field, " must be at most ");
                push_signed_decimal(&mut m, h);
                m.append(", but was ");
                push_signed_decimal(&mut m, v);
                return Err(ValidationError::field_error(owned(field), m));
            }
        }
        Ok(())
    }

    /// The string must be an email address: it must match `EMAIL_PATTERN`.
    pub fn email(value: &str, field: &str) -> (r: Result<(), ValidationError>)
        ensures
            regex_compiles(EMAIL_PATTERN@) && regex_is_match(EMAIL_PATTERN@, value@) ==> r is Ok,
            !(regex_compiles(EMAIL_PATTERN@) && regex_is_match(EMAIL_PATTERN@, value@))
                ==> field_failure(r, field@, field@ + " must be a valid email address"@),
    {
        match regex_match(EMAIL_PATTERN, value) {
            Ok(true) => Ok(()),
            _ => Err(ValidationError::field_error(owned(field), message(field, " must be a valid email address"))),
        }
    }

    /// The string must match the regular expression `pattern` somewhere. A
    /// pattern that does not compile fails the validation itself.
    pub fn pattern(value: &str, field: &str, pattern: &str) -> (r: Result<(), ValidationError>)
        ensures
            !regex_compiles(pattern@) ==> (r matches Err(ValidationError::ValidationFailed(m))
                && m@ == "Invalid regex pattern: "@ + regex_error_text(pattern@)),
            regex_compiles(pattern@) && regex_is_match(pattern@, value@) ==> r is Ok,
            regex_compiles(pattern@) && !regex_is_match(pattern@, value@)
                ==> field_failure(r, field@, field@ + " must match pattern: "@ + pattern@),
    {
        match regex_match(pattern, value) {
            Err(e) => Err(ValidationError::new(concat2("Invalid regex pattern: ", e.as_str()))),
            Ok(true) => Ok(()),
            Ok(false) => {
                let mut m = message(field, " must match pattern: ");
                m.append(pattern);
                Err(ValidationError::field_error(owned(field), m))
            },
        }
    }

    /// The collection's number of items must lie within the bounds that are
    /// given.
    pub fn size<T>(value: &[T], field: &str, min: Option<usize>, max: Option<usize>) -> (r: Result<(), ValidationError>)
        ensures
            count_check(r, field@, " size"@, value@.len(), min, max),
    {
        check_count(field, " size", value.len(), min, max)
    }
}

/// Gathers the messages of several checks, field by field.
pub struct ValidatorBuilder {
    errors: FieldErrorMap,
}

impl View for ValidatorBuilder {
    type V = Map<Seq<char>, Seq<Seq<char>>>;

    closed spec fn view(&self) -> Map<Seq<char>, Seq<Seq<char>>> {
        self.errors@
    }
}

impl ValidatorBuilder {
    /// A builder without messages.
    pub fn new() -> (b: Self)
        ensures
            b@ == Map::<Seq<char>, Seq<Seq<char>>>::empty(),
    {
        ValidatorBuilder { errors: FieldErrorMap::new() }
    }

    /// Records `message` for `field`.
    pub fn add_error(&mut self, field: String, message: String)
        ensures
            final(self)@ == old(self)@.insert(field@, messages_of(old(self)@, field@).push(message@)),
    {
        self.errors.add(field, message);
    }

    /// Records the field messages of a failed check; a success, or a
    /// validation that failed for another reason, records nothing.
    pub fn add_result(&mut self, result: Result<(), ValidationError>)
        ensures
            match result {
                Err(ValidationError::FieldErrors(m)) => final(self)@ == merged(old(self)@, m@),
                _ => final(self)@ == old(self)@,
            },
    {
        if let Err(ValidationError::FieldErrors(m)) = result {
            self.errors.merge_from(m);
        }
    }

    /// Succeeds when no message was recorded, and otherwise fails with all
    /// the recorded field messages.
    pub fn build(self) -> (r: Result<(), ValidationError>)
        ensures
            self@.dom().len() == 0 ==> r is Ok,
            self@.dom().len() != 0 ==> (r matches Err(ValidationError::FieldErrors(m)) && m@ == self@),
    {
        if self.errors.is_empty() {
            Ok(())
        } else {
            Err(ValidationError::FieldErrors(self.errors))
        }
    }
}

/// One rule of a `#[validate(...)]` attribute applied to the value of a
/// field.
pub enum FieldCheck {
    /// `not_empty` on a string.
    NotEmpty(String),
    /// `not_blank` on a string.
    NotBlank(String),
    /// `email` on a string.
    Email(String),
    /// `length`, `length_min` or `length_max` on a string, with the bounds
    /// given.
    Length(String, Option<usize>, Option<usize>),
    /// `range`, `min` or `max` on a number, with the bounds given.
    Range(i128, Option<i128>, Option<i128>),
    /// `pattern` on a string: the value and the regular expression.
    Pattern(String, String),
}

/// The value of a field that a `#[validate(...)]` rule is applied to.
pub enum FieldValue {
    /// A string field.
    Text(String),
    /// A numeric field (any integer type up to 64 bits).
    Number(i128),
}

/// An integer literal given to a rule, as a length bound.
pub open spec fn length_bound(b: Option<u64>) -> Option<usize> {
    match b {
        Some(n) => if n <= usize::MAX { Some(n as usize) } else { None },
        None => None,
    }
}

/// An integer literal given to a rule, as a numeric bound.
pub open spec fn number_bound(b: Option<u64>) -> Option<i128> {
    match b {
        Some(n) => Some(n as i128),
        None => None,
    }
}

/// The check that the rule named `keyword` makes on a field's value, given
/// the integer literals written for `min` and `max` (`length_min = n` and
/// `min = n` give `min`; `length_max = n` and `max = n` give `max`) and the
/// string written for `pattern`. `None` when the keyword names no rule, when
/// the rule does not apply to the value's kind, or when a bound the rule
/// cannot do without is missing.
pub open spec fn check_for(keyword: Seq<char>, value: FieldValue, min: Option<u64>, max: Option<u64>, pattern: Option<String>) -> Option<FieldCheck> {
    match value {
        FieldValue::Text(v) => if keyword == "not_blank"@ {
            Some(FieldCheck::NotBlank(v))
        } else if keyword == "not_empty"@ {
            Some(FieldCheck::NotEmpty(v))
        } else if keyword == "email"@ {
            Some(FieldCheck::Email(v))
        } else if keyword == "length"@ {
            Some(FieldCheck::Length(v, length_bound(min), length_bound(max)))
        } else if keyword == "length_min"@ {
            if length_bound(min) is Some { Some(FieldCheck::Length(v, length_bound(min), None)) } else { None }
        } else if keyword == "length_max"@ {
            if length_bound(max) is Some { Some(FieldCheck::Length(v, None, length_bound(max))) } else { None }
        } else if keyword == "pattern"@ {
            match pattern {
                Some(p) => Some(FieldCheck::Pattern(v, p)),
                None => None,
            }
        } else {
            None
        },
        FieldValue::Number(n) => if keyword == "range"@ {
            Some(FieldCheck::Range(n, number_bound(min), number_bound(max)))
        } else if keyword == "min"@ {
            if number_bound(min) is Some { Some(FieldCheck::Range(n, number_bound(min), None)) } else { None }
        } else if keyword == "max"@ {
            if number_bound(max) is Some { Some(FieldCheck::Range(n, None, number_bound(max))) } else { None }
        } else {
            None
        },
    }
}

/// The bound keywords check what their names say, on every value: `max = b`
/// refuses exactly the numbers above `b` and `min = b` exactly those below
/// it, each with the message naming the bound and the value; `range` with
/// both bounds refuses exactly the numbers outside them; `length_max = b`
/// and `length_min = b` do the same for the length of a text in bytes.
pub proof fn lemma_bound_keywords(field: Seq<char>, n: i128, v: String, b: u64, c: u64, p: Option<String>)
    ensures
        check_for("max"@, FieldValue::Number(n), None, Some(b), p) matches Some(k) && (check_message(field, k) is Some
            <==> n > b),
        n > b ==> (check_for("max"@, FieldValue::Number(n), None, Some(b), p) matches Some(k) && check_message(field, k)
            == Some(field + " must be at most "@ + signed_decimal(b as int) + ", but was "@ + signed_decimal(n as int))),
        check_for("min"@, FieldValue::Number(n), Some(b), None, p) matches Some(k) && (check_message(field, k) is Some
            <==> n < b),
        n < b ==> (check_for("min"@, FieldValue::Number(n), Some(b), None, p) matches Some(k) && check_message(field, k)
            == Some(field + " must be at least "@ + signed_decimal(b as int) + ", but was "@ + signed_decimal(n as int))),
        check_for("range"@, FieldValue::Number(n), Some(b), Some(c), p) matches Some(k) && (check_message(field, k)
            is Some <==> (n < b || n > c)),
        b <= usize::MAX ==> (check_for("length_max"@, FieldValue::Text(v), None, Some(b), p) matches Some(k)
            && (check_message(field, k) is Some <==> byte_len(v@) > b)),
        b <= usize::MAX ==> (check_for("length_min"@, FieldValue::Text(v), Some(b), None, p) matches Some(k)
            && (check_message(field, k) is Some <==> byte_len(v@) < b)),
{
    reveal_strlit("not_blank");
    reveal_strlit("not_empty");
    reveal_strlit("email");
    reveal_strlit("length");
    reveal_strlit("length_min");
    reveal_strlit("length_max");
    reveal_strlit("pattern");
    reveal_strlit("range");
    reveal_strlit("min");
    reveal_strlit("max");
    assert("max"@.len() == 3 && "min"@.len() == 3 && "range"@.len() == 5);
    assert("max"@[1] != "min"@[1]);
    assert("max"@ != "min"@);
    assert("length_max"@.len() == 10 && "length_min"@.len() == 10 && "not_blank"@.len() == 9
        && "not_empty"@.len() == 9 && "email"@.len() == 5 && "length"@.len() == 6);
    assert("length_max"@[8] != "length_min"@[8]);
    assert("length_max"@ != "length_min"@);
}

/// Turns an integer literal into a length bound.
fn to_length_bound(b: Option<u64>) -> (r: Option<usize>)
    ensures
        r == length_bound(b),
{
    match b {
        Some(n) => if n <= usize::MAX as u64 { Some(n as usize) } else { None },
        None => None,
    }
}

/// Turns an integer literal into a numeric bound.
fn to_number_bound(b: Option<u64>) -> (r: Option<i128>)
    ensures
        r == number_bound(b),
{
    match b {
        Some(n) => Some(n as i128),
        None => None,
    }
}

/// The check that a `#[validate(...)]` rule makes on a field, as
/// `check_for` says: `not_blank`, `not_empty`, `email`, `length`,
/// `length_min`, `length_max` and `pattern` on strings, `range`, `min` and
/// `max` on numbers; any other keyword is ignored.
pub fn check_for_keyword(keyword: &str, value: FieldValue, min: Option<u64>, max: Option<u64>, pattern: Option<String>) -> (r: Option<FieldCheck>)
    ensures
        r == check_for(keyword@, value, min, max, pattern),
{
    proof {
        reveal_strlit("not_blank");
        reveal_strlit("not_empty");
        reveal_strlit("email");
        reveal_strlit("length");
        reveal_strlit("length_min");
        reveal_strlit("length_max");
        reveal_strlit("pattern");
        reveal_strlit("range");
        reveal_strlit("min");
        reveal_strlit("max");
    }
    match value {
        FieldValue::Text(v) => if str_equal(keyword, "not_blank") {
            Some(FieldCheck::NotBlank(v))
        } else if str_equal(keyword, "not_empty") {
            Some(FieldCheck::NotEmpty(v))
        } else if str_equal(keyword, "email") {
            Some(FieldCheck::Email(v))
        } else if str_equal(keyword, "length") {
            Some(FieldCheck::Length(v, to_length_bound(min), to_length_bound(max)))
        } else if str_equal(keyword, "length_min") {
            match to_length_bound(min) {
                Some(b) => Some(FieldCheck::Length(v, Some(b), None)),
                None => None,
            }
        } else if str_equal(keyword, "length_max") {
            match to_length_bound(max) {
                Some(b) => Some(FieldCheck::Length(v, None, Some(b))),
                None => None,
            }
        } else if str_equal(keyword, "pattern") {
            match pattern {
                Some(p) => Some(FieldCheck::Pattern(v, p)),
                None => None,
            }
        } else {
            None
        },
        FieldValue::Number(n) => if str_equal(keyword, "range") {
            Some(FieldCheck::Range(n, to_number_bound(min), to_number_bound(max)))
        } else if str_equal(keyword, "min") {
            match to_number_bound(min) {
                Some(b) => Some(FieldCheck::Range(n, Some(b), None)),
                None => None,
            }
        } else if str_equal(keyword, "max") {
            match to_number_bound(max) {
                Some(b) => Some(FieldCheck::Range(n, None, Some(b))),
                None => None,
            }
        } else {
            None
        },
    }
}

/// The message with which a count breaks its bounds, if it does: the lower
/// bound is checked first.
pub open spec fn count_message(field: Seq<char>, noun: Seq<char>, count: nat, min: Option<usize>, max: Option<usize>) -> Option<Seq<char>> {
    if min is Some && count < min->Some_0 {
        Some(field + noun + " must be at least "@ + decimal(min->Some_0 as nat) + ", but was "@ + decimal(count))
    } else if max is Some && count > max->Some_0 {
        Some(field + noun + " must be at most "@ + decimal(max->Some_0 as nat) + ", but was "@ + decimal(count))
    } else {
        None
    }
}

/// The length in bytes of a string, as `str::len` gives it.
pub open spec fn byte_len(s: Seq<char>) -> nat {
    (vstd::utf8::encode_utf8(s).len() as usize) as nat
}

/// The message that the check records for `field`, if the value breaks the
/// rule; a pattern that does not compile records nothing.
pub open spec fn check_message(field: Seq<char>, c: FieldCheck) -> Option<Seq<char>> {
    match c {
        FieldCheck::NotEmpty(v) => if v@.len() == 0 {
            Some(field + " must not be empty"@)
        } else {
            None
        },
        FieldCheck::NotBlank(v) => if forall|i: int| 0 <= i < v@.len() ==> char_is_whitespace(#[trigger] v@[i]) {
            Some(field + " must not be blank"@)
        } else {
            None
        },
        FieldCheck::Email(v) => if regex_compiles(EMAIL_PATTERN@) && regex_is_match(EMAIL_PATTERN@, v@) {
            None
        } else {
            Some(field + " must be a valid email address"@)
        },
        FieldCheck::Length(v, min, max) => count_message(field, " length"@, byte_len(v@), min, max),
        FieldCheck::Range(v, min, max) => if min is Some && v < min->Some_0 {
            Some(field + " must be at least "@ + signed_decimal(min->Some_0 as int) + ", but was "@ + signed_decimal(v as int))
        } else if max is Some && v > max->Some_0 {
            Some(field + " must be at most "@ + signed_decimal(max->Some_0 as int) + ", but was "@ + signed_decimal(v as int))
        } else {
            None
        },
        FieldCheck::Pattern(v, p) => if regex_compiles(p@) && !regex_is_match(p@, v@) {
            Some(field + " must match pattern: "@ + p@)
        } else {
            None
        },
    }
}

/// The field messages that the checks of `plan` record, in order, each
/// failing check adding its message to those of its field.
pub open spec fn plan_errors(plan: Seq<(String, FieldCheck)>) -> Map<Seq<char>, Seq<Seq<char>>>
    decreases plan.len(),
{
    if plan.len() == 0 {
        Map::empty()
    } else {
        let prev = plan_errors(plan.drop_last());
        let (field, c) = plan.last();
        match check_message(field@, c) {
            Some(m) => merged(prev, map![field@ => seq![m]]),
            None => prev,
        }
    }
}

/// What each rule refuses, on every value: `not_empty` the empty text,
/// `not_blank` a text of whitespace only, `email` a text the email pattern
/// does not match, `pattern` a text its (compiling) expression does not
/// match, `length` a text whose byte length is outside the bounds, `range` a
/// number outside them; each with its message.
pub proof fn lemma_rule_outcomes(field: Seq<char>, v: String, p: String, n: i128, lo: Option<i128>, hi: Option<i128>, min: Option<usize>, max: Option<usize>)
    ensures
        check_message(field, FieldCheck::NotEmpty(v)) is Some <==> v@.len() == 0,
        v@.len() == 0 ==> check_message(field, FieldCheck::NotEmpty(v)) == Some(field + " must not be empty"@),
        check_message(field, FieldCheck::NotBlank(v)) is Some <==> (forall|i: int| 0 <= i < v@.len() ==> char_is_whitespace(#[trigger] v@[i])),
        check_message(field, FieldCheck::Email(v)) is Some <==> !(regex_compiles(EMAIL_PATTERN@) && regex_is_match(EMAIL_PATTERN@, v@)),
        check_message(field, FieldCheck::Pattern(v, p)) is Some <==> (regex_compiles(p@) && !regex_is_match(p@, v@)),
        check_message(field, FieldCheck::Length(v, min, max)) is Some <==> ((min is Some && byte_len(v@) < min->Some_0)
            || (max is Some && byte_len(v@) > max->Some_0)),
        check_message(field, FieldCheck::Range(n, lo, hi)) is Some <==> ((lo is Some && n < lo->Some_0)
            || (hi is Some && n > hi->Some_0)),
{
    if forall|i: int| 0 <= i < v@.len() ==> char_is_whitespace(#[trigger] v@[i]) {
        assert(check_message(field, FieldCheck::NotBlank(v)) is Some);
    } else {
        let i = choose|i: int| !(0 <= i < v@.len() ==> char_is_whitespace(#[trigger] v@[i]));
        assert(!char_is_whitespace(v@[i]));
        assert(!(forall|j: int| 0 <= j < v@.len() ==> char_is_whitespace(#[trigger] v@[j])));
        let c = FieldCheck::NotBlank(v);
        assert(c matches FieldCheck::NotBlank(w) && w@ == v@);
        assert(check_message(field, c) is None);
    }
}

/// Validation collects every failure: the message of each failing check of
/// the plan is among the messages of its field.
pub proof fn lemma_plan_errors_collect(plan: Seq<(String, FieldCheck)>, k: int)
    requires
        0 <= k < plan.len(),
        check_message(plan[k].0@, plan[k].1) is Some,
    ensures
        plan_errors(plan).dom().contains(plan[k].0@),
        plan_errors(plan)[plan[k].0@].contains(check_message(plan[k].0@, plan[k].1)->Some_0),
    decreases plan.len(),
{
    let f = plan[k].0@;
    let m = check_message(f, plan[k].1)->Some_0;
    let prev = plan_errors(plan.drop_last());
    let (lf, lc) = plan.last();
    if k == plan.len() - 1 {
        let cur = merged(prev, map![lf@ => seq![m]]);
        assert(cur[f] == messages_of(prev, f) + seq![m]);
        assert(cur[f][messages_of(prev, f).len() as int] == m);
    } else {
        assert(plan.drop_last()[k] == plan[k]);
        lemma_plan_errors_collect(plan.drop_last(), k);
        let j = choose|j: int| 0 <= j < prev[f].len() && prev[f][j] == m;
        match check_message(lf@, lc) {
            Some(m2) => {
                let cur = merged(prev, map![lf@ => seq![m2]]);
                assert(cur[f] == messages_of(prev, f) + messages_of(map![lf@ => seq![m2]], f));
                assert(cur[f][j] == m);
            },
            None => {},
        }
    }
}

/// Validation reports nothing else: a field has messages only when some
/// check of the plan on that field failed.
pub proof fn lemma_plan_errors_only_failures(plan: Seq<(String, FieldCheck)>, f: Seq<char>)
    requires
        plan_errors(plan).dom().contains(f),
    ensures
        exists|k: int| 0 <= k < plan.len() && (#[trigger] plan[k]).0@ == f && check_message(f, plan[k].1) is Some,
    decreases plan.len(),
{
    if plan.len() == 0 {
        assert(false);
    } else {
        let prev = plan_errors(plan.drop_last());
        let (lf, lc) = plan.last();
        let k = plan.len() - 1;
        if lf@ == f && check_message(f, lc) is Some {
            assert(plan[k].0@ == f);
        } else {
            assert(prev.dom().contains(f));
            lemma_plan_errors_only_failures(plan.drop_last(), f);
            let j = choose|j: int| 0 <= j < plan.drop_last().len() && (#[trigger] plan.drop_last()[j]).0@ == f
                && check_message(f, plan.drop_last()[j].1) is Some;
            assert(plan[j] == plan.drop_last()[j]);
        }
    }
}

/// A plan none of whose checks fails reports no field.
pub proof fn lemma_plan_errors_none(plan: Seq<(String, FieldCheck)>)
    requires
        forall|k: int| 0 <= k < plan.len() ==> check_message((#[trigger] plan[k]).0@, plan[k].1) is None,
    ensures
        plan_errors(plan) == Map::<Seq<char>, Seq<Seq<char>>>::empty(),
    decreases plan.len(),
{
    if plan.len() > 0 {
        assert forall|k: int| 0 <= k < plan.drop_last().len() implies check_message(
            (#[trigger] plan.drop_last()[k]).0@,
            plan.drop_last()[k].1,
        ) is None by {
            assert(plan.drop_last()[k] == plan[k]);
        }
        lemma_plan_errors_none(plan.drop_last());
        assert(check_message(plan[plan.len() - 1].0@, plan[plan.len() - 1].1) is None);
    }
}

/// Runs one check of a field, with the rule it names.
fn run_check(field: &str, c: &FieldCheck) -> (r: Result<(), ValidationError>)
    ensures
        match check_message(field@, *c) {
            Some(m) => field_failure(r, field@, m),
            None => !(r matches Err(ValidationError::FieldErrors(_))),
        },
{
    match c {
        FieldCheck::NotEmpty(v) => {
            let s = v.as_str();
            assert(s@ == v@);
            ValidationRules::not_empty(s, field)
        },
        FieldCheck::NotBlank(v) => {
            let s = v.as_str();
            assert(s@ == v@);
            ValidationRules::not_blank(s, field)
        },
        FieldCheck::Email(v) => {
            let s = v.as_str();
            assert(s@ == v@);
            ValidationRules::email(s, field)
        },
        FieldCheck::Length(v, min, max) => {
            let s = v.as_str();
            assert(s@ == v@);
            ValidationRules::length(s, field, *min, *max)
        },
        FieldCheck::Range(v, min, max) => ValidationRules::range(*v, field, *min, *max),
        FieldCheck::Pattern(v, p) => {
            let s = v.as_str();
            let q = p.as_str();
            assert(s@ == v@ && q@ == p@);
            ValidationRules::pattern(s, field, q)
        },
    }
}

/// Validates a value field by field, as `#[derive(Validate)]` does: every
/// check of `plan` runs, in order, and the messages of all that fail are
/// collected. Succeeds when none failed, and otherwise fails with the
/// messages of every failing check, field by field.
pub fn validate_fields(plan: &Vec<(String, FieldCheck)>) -> (r: Result<(), ValidationError>)
    ensures
        plan_errors(plan@).dom().len() == 0 ==> r is Ok,
        plan_errors(plan@).dom().len() != 0 ==> (r matches Err(ValidationError::FieldErrors(m))
            && m@ == plan_errors(plan@)),
{
    let mut builder = ValidatorBuilder::new();
    let mut i: usize = 0;
    while i < plan.len()
        invariant
            i <= plan@.len(),
            builder@ == plan_errors(plan@.take(i as int)),
        decreases plan.len() - i,
    {
        let (field, c) = &plan[i];
        let r = run_check(field.as_str(), c);
        assert(plan@.take(i + 1).drop_last() =~= plan@.take(i as int));
        assert(plan@.take(i + 1).last() == plan@[i as int]);
        builder.add_result(r);
        i = i + 1;
    }
    assert(plan@.take(i as int) =~= plan@);
    builder.build()
}

/// A value that can check itself.
pub trait Validate {
    /// Checks the value.
    fn validate(&self) -> Result<(), ValidationError>;
}

/// The plugin that makes validation available to an application.
pub struct ValidatorPlugin;

impl ValidatorPlugin {
    /// The plugin.
    pub fn new() -> (p: Self) {
        ValidatorPlugin
    }

    /// The plugin's name, "chimera-validator".
    pub fn name(&self) -> (r: &'static str)
        ensures
            r@ == "chimera-validator"@,
    {
        "chimera-validator"
    }
}

/// Merging in a map without fields changes nothing, and merging into one
/// gives the other map.
pub proof fn lemma_merge_with_empty(a: Map<Seq<char>, Seq<Seq<char>>>)
    ensures
        merged(a, Map::empty()) == a,
        merged(Map::empty(), a) == a,
{
    assert forall|k: Seq<char>| #![auto] a.dom().contains(k) implies merged(a, Map::empty())[k] == a[k] by {
        assert(messages_of(a, k) + Seq::<Seq<char>>::empty() =~= a[k]);
    }
    assert(merged(a, Map::empty()) =~= a);
    assert forall|k: Seq<char>| #![auto] a.dom().contains(k) implies merged(Map::empty(), a)[k] == a[k] by {
        assert(Seq::<Seq<char>>::empty() + messages_of(a, k) =~= a[k]);
    }
    assert(merged(Map::empty(), a) =~= a);
}

/// Merging is associative: merging `b` and then `c` into `a` gives what
/// merging `b` and `c` first and then the result into `a` gives.
pub proof fn lemma_merge_associative(
    a: Map<Seq<char>, Seq<Seq<char>>>,
    b: Map<Seq<char>, Seq<Seq<char>>>,
    c: Map<Seq<char>, Seq<Seq<char>>>,
)
    ensures
        merged(merged(a, b), c) == merged(a, merged(b, c)),
{
    let l = merged(merged(a, b), c);
    let r = merged(a, merged(b, c));
    assert forall|k: Seq<char>| #![auto] l.dom().contains(k) implies l[k] == r[k] by {
        assert(messages_of(merged(a, b), k) == messages_of(a, k) + messages_of(b, k));
        assert(messages_of(merged(b, c), k) == messages_of(b, k) + messages_of(c, k));
        assert(l[k] =~= r[k]);
    }
    assert(l =~= r);
}

} // verus!

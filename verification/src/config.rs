//! Configuration values, how they read as numbers, flags and lists, and how
//! configuration keys map to environment variables.

use vstd::prelude::*;
use crate::text::{
    ascii_lower, ascii_upper, char_is_space, decimal, digit_char, join, signed_decimal, char_is_whitespace, chars_of, concat2, replace_char,
    str_equal, str_lowercase, str_to_lower, str_to_upper, str_uppercase, string_of, string_views,
};

verus! {

/// A configuration value.
#[derive(Debug)]
pub enum ConfigValue {
    /// Text.
    String(String),
    /// A whole number.
    Int(i64),
    /// A floating-point number, held as its IEEE 754 bit pattern.
    Float(u64),
    /// A flag.
    Bool(bool),
    /// A list of values.
    Array(Vec<ConfigValue>),
    /// Named values, in the order they were read.
    Object(Vec<(String, ConfigValue)>),
}

/// The value of the decimal digits `d`.
pub open spec fn digits_value(d: Seq<char>) -> int
    decreases d.len(),
{
    if d.len() == 0 {
        0
    } else {
        10 * digits_value(d.drop_last()) + (d.last() as int - '0' as int)
    }
}

/// `d` is a non-empty run of decimal digits.
pub open spec fn all_digits(d: Seq<char>) -> bool {
    d.len() > 0 && forall|i: int| 0 <= i < d.len() ==> '0' <= #[trigger] d[i] && d[i] <= '9'
}

/// The integer that `s` writes: an optional `+` or `-` followed by decimal
/// digits and nothing else.
pub open spec fn integer_text(s: Seq<char>) -> Option<int> {
    if s.len() > 0 && (s[0] == '+' || s[0] == '-') {
        let d = s.subrange(1, s.len() as int);
        if all_digits(d) {
            Some(if s[0] == '-' { -digits_value(d) } else { digits_value(d) })
        } else {
            None
        }
    } else if all_digits(s) {
        Some(digits_value(s))
    } else {
        None
    }
}

/// The `i64` that `s` writes, as `str::parse::<i64>` reads it: an optional
/// sign followed by decimal digits and nothing else, whose value fits in an
/// `i64`; anything else gives `None`.
fn parse_i64(s: &str) -> (r: Option<i64>)
    ensures
        r == match integer_text(s@) {
            Some(v) => if i64::MIN <= v <= i64::MAX { Some(v as i64) } else { None },
            None => None,
        },
{
    let v = chars_of(s);
    let n = v.len();
    if n == 0 {
        return None;
    }
    let signed = v[0] == '+' || v[0] == '-';
    let neg = v[0] == '-';
    let start: usize = if signed { 1 } else { 0 };
    if start == n {
        proof {
            assert(v@.subrange(1, n as int).len() == 0);
        }
        return None;
    }
    let mut acc: u128 = 0;
    let mut too_big = false;
    let mut i: usize = start;
    proof {
        assert(v@.subrange(start as int, start as int) =~= Seq::<char>::empty());
    }
    while i < n
        invariant
            v@ == s@,
            n == v@.len(),
            start < n,
            signed == (s@[0] == '+' || s@[0] == '-'),
            start == (if signed { 1usize } else { 0usize }),
            start <= i <= n,
            forall|j: int| start <= j < i ==> '0' <= #[trigger] v@[j] && v@[j] <= '9',
            digits_value(v@.subrange(start as int, i as int)) >= 0,
            !too_big ==> acc == digits_value(v@.subrange(start as int, i as int)) && acc <= 9223372036854775808u128,
            too_big ==> digits_value(v@.subrange(start as int, i as int)) > 9223372036854775808,
        decreases n - i,
    {
        let c = v[i];
        if c < '0' || c > '9' {
            proof {
                let d = v@.subrange(start as int, n as int);
                assert(d[i - start] == c);
                assert(!all_digits(d));
                if signed {
                    assert(d =~= s@.subrange(1, s@.len() as int));
                } else {
                    assert(d =~= s@);
                }
            }
            return None;
        }
        let dgt: u128 = (c as u32 - '0' as u32) as u128;
        proof {
            assert(v@.subrange(start as int, i + 1).drop_last() =~= v@.subrange(start as int, i as int));
            assert(v@.subrange(start as int, i + 1).last() == c);
        }
        if !too_big {
            let next = acc * 10 + dgt;
            if next > 9223372036854775808u128 {
                too_big = true;
            } else {
                acc = next;
            }
        }
        i = i + 1;
    }
    let ghost d = v@.subrange(start as int, n as int);
    proof {
        assert(all_digits(d));
        if signed {
            assert(d =~= s@.subrange(1, s@.len() as int));
        } else {
            assert(d =~= s@);
        }
    }
    if too_big {
        return None;
    }
    if neg {
        if acc == 9223372036854775808u128 {
            Some(i64::MIN)
        } else {
            let m = acc as i64;
            Some(-m)
        }
    } else if acc > 9223372036854775807u128 {
        None
    } else {
        Some(acc as i64)
    }
}

/// The decimal numeral of `n` is made of digits and has the value `n`.
proof fn lemma_numeral_value(n: nat)
    ensures
        all_digits(decimal(n)),
        digits_value(decimal(n)) == n,
    decreases n,
{
    let c = digit_char(n % 10);
    assert(c as int == 48 + n % 10) by {
        let d: nat = n % 10;
        assert(d < 10);
        assert(((48 + d) as u8) as int == 48 + d);
    }
    if n >= 10 {
        lemma_numeral_value(n / 10);
        let p = decimal(n / 10);
        let q = p.push(c);
        assert(q.drop_last() =~= p);
        assert forall|i: int| 0 <= i < q.len() implies '0' <= #[trigger] q[i] && q[i] <= '9' by {
            if i < p.len() {
                assert(q[i] == p[i]);
            }
        }
        assert(q.last() == c);
        assert(digits_value(q) == 10 * digits_value(p) + (c as int - '0' as int));
        assert(n == 10 * (n / 10) + n % 10) by (nonlinear_arith);
    } else {
        assert(seq![c].drop_last() =~= Seq::<char>::empty());
        assert(seq![c].last() == c);
        assert(digits_value(seq![c]) == 10 * digits_value(Seq::<char>::empty()) + (c as int - '0' as int));
    }
}

/// Reading a numeral gives its number back: the text `str::parse` reads
/// from the decimal numeral of any integer (with a minus sign when
/// negative, or with a plus sign in front of a natural number) is that
/// integer.
pub proof fn lemma_read_numeral(i: int, n: nat)
    ensures
        integer_text(signed_decimal(i)) == Some(i),
        integer_text(seq!['+'] + decimal(n)) == Some(n as int),
{
    let m: nat = if i < 0 { (-i) as nat } else { i as nat };
    lemma_numeral_value(m);
    lemma_numeral_value(n);
    let d = decimal(m);
    assert('0' <= d[0] && d[0] <= '9');
    if i < 0 {
        let s = seq!['-'] + d;
        assert(s.subrange(1, s.len() as int) =~= d);
    }
    let t = seq!['+'] + decimal(n);
    assert(t.subrange(1, t.len() as int) =~= decimal(n));
}

/// The flag that `s` (already lowercased) names: `true`, `yes` and `1` are
/// true, `false`, `no` and `0` are false.
pub open spec fn flag_named(s: Seq<char>) -> Option<bool> {
    if s == "true"@ || s == "yes"@ || s == "1"@ {
        Some(true)
    } else if s == "false"@ || s == "no"@ || s == "0"@ {
        Some(false)
    } else {
        None
    }
}

/// The words that name a flag: `true`, `yes` and `1` name true, `false`,
/// `no` and `0` name false, and no other text names a flag.
pub proof fn lemma_flag_words(s: Seq<char>)
    ensures
        flag_named(s) == Some(true) <==> (s == "true"@ || s == "yes"@ || s == "1"@),
        flag_named(s) == Some(false) <==> (s == "false"@ || s == "no"@ || s == "0"@),
        flag_named(s) is None <==> !(s == "true"@ || s == "yes"@ || s == "1"@ || s == "false"@ || s == "no"@
            || s == "0"@),
{
    reveal_strlit("true");
    reveal_strlit("yes");
    reveal_strlit("1");
    reveal_strlit("false");
    reveal_strlit("no");
    reveal_strlit("0");
    assert("true"@.len() == 4 && "yes"@.len() == 3 && "1"@.len() == 1);
    assert("false"@.len() == 5 && "no"@.len() == 2 && "0"@.len() == 1);
    assert("1"@[0] != "0"@[0]);
    assert("1"@ != "0"@);
}

/// `s` split at every comma.
pub open spec fn comma_split(s: Seq<char>) -> Seq<Seq<char>>
    decreases s.len(),
{
    if s.len() == 0 {
        seq![Seq::<char>::empty()]
    } else {
        let p = comma_split(s.drop_last());
        if s.last() == ',' {
            p.push(Seq::empty())
        } else {
            p.update(p.len() - 1, p.last().push(s.last()))
        }
    }
}

/// Splitting at commas loses nothing and keeps no comma: the parts hold no
/// comma, there is at least one, and joined with commas they give the text
/// back.
pub proof fn lemma_comma_split_join(s: Seq<char>)
    ensures
        comma_split(s).len() >= 1,
        join(comma_split(s), seq![',']) == s,
        forall|k: int, i: int| 0 <= k < comma_split(s).len() && 0 <= i < comma_split(s)[k].len()
            ==> #[trigger] comma_split(s)[k][i] != ',',
    decreases s.len(),
{
    if s.len() == 0 {
        assert(join(seq![Seq::<char>::empty()], seq![',']) == Seq::<char>::empty());
    } else {
        let w = s.drop_last();
        lemma_comma_split_join(w);
        let p = comma_split(w);
        let c = s.last();
        if c == ',' {
            let q = p.push(Seq::<char>::empty());
            assert(q.drop_last() =~= p);
            assert(join(q, seq![',']) =~= s);
            assert forall|k: int, i: int| 0 <= k < q.len() && 0 <= i < q[k].len() implies #[trigger] q[k][i] != ',' by {
                assert(q[k] == p[k]);
            }
        } else {
            let q = p.update(p.len() - 1, p.last().push(c));
            if p.len() == 1 {
                assert(join(q, seq![',']) == q[0]);
                assert(join(p, seq![',']) == p[0]);
                assert(q[0] =~= p[0].push(c));
            } else {
                assert(q.drop_last() =~= p.drop_last());
                assert(q.last() =~= p.last().push(c));
                assert(join(q, seq![',']) == join(p.drop_last(), seq![',']) + seq![','] + p.last().push(c));
                assert(join(p, seq![',']) == join(p.drop_last(), seq![',']) + seq![','] + p.last());
            }
            assert(join(q, seq![',']) =~= join(p, seq![',']).push(c));
            assert(s =~= w.push(c));
            assert(join(q, seq![',']) =~= s);
            assert forall|k: int, i: int| 0 <= k < q.len() && 0 <= i < q[k].len() implies #[trigger] q[k][i] != ',' by {
                if k == p.len() - 1 {
                    if i < p[k].len() {
                        assert(q[k][i] == p[k][i]);
                    }
                } else {
                    assert(q[k] == p[k]);
                }
            }
        }
    }
}

/// `s` without leading whitespace.
pub open spec fn trim_start(s: Seq<char>) -> Seq<char>
    decreases s.len(),
{
    if s.len() > 0 && char_is_whitespace(s[0]) {
        trim_start(s.subrange(1, s.len() as int))
    } else {
        s
    }
}

/// `s` without trailing whitespace.
pub open spec fn trim_end(s: Seq<char>) -> Seq<char>
    decreases s.len(),
{
    if s.len() > 0 && char_is_whitespace(s.last()) {
        trim_end(s.drop_last())
    } else {
        s
    }
}

/// `s` without leading or trailing whitespace.
pub open spec fn trimmed(s: Seq<char>) -> Seq<char> {
    trim_end(trim_start(s))
}

/// The trimmed parts that are not empty, in order.
pub open spec fn nonblank_parts(parts: Seq<Seq<char>>) -> Seq<Seq<char>>
    decreases parts.len(),
{
    if parts.len() == 0 {
        Seq::empty()
    } else {
        let r = nonblank_parts(parts.drop_last());
        if trimmed(parts.last()).len() > 0 {
            r.push(trimmed(parts.last()))
        } else {
            r
        }
    }
}

/// The text values among `values`, in order.
pub open spec fn text_items(values: Seq<ConfigValue>) -> Seq<Seq<char>>
    decreases values.len(),
{
    if values.len() == 0 {
        Seq::empty()
    } else {
        let r = text_items(values.drop_last());
        match values.last() {
            ConfigValue::String(s) => r.push(s@),
            _ => r,
        }
    }
}

/// `v` with leading and trailing whitespace removed.
fn trim_chars(v: &Vec<char>) -> (r: Vec<char>)
    ensures
        r@ == trimmed(v@),
{
    let n = v.len();
    let mut a: usize = 0;
    assert(v@.subrange(0, n as int) =~= v@);
    while a < n && char_is_space(v[a])
        invariant
            n == v@.len(),
            a <= n,
            trim_start(v@) == trim_start(v@.subrange(a as int, n as int)),
        decreases n - a,
    {
        assert(v@.subrange(a as int, n as int).subrange(1, (n - a) as int) =~= v@.subrange(a + 1, n as int));
        assert(v@.subrange(a as int, n as int)[0] == v@[a as int]);
        a = a + 1;
    }
    proof {
        assert(v@.subrange(0, n as int) =~= v@);
        if a < n {
            assert(v@.subrange(a as int, n as int)[0] == v@[a as int]);
        }
    }
    let mut b: usize = n;
    while b > a && char_is_space(v[b - 1])
        invariant
            n == v@.len(),
            a <= b <= n,
            trim_start(v@) == v@.subrange(a as int, n as int),
            trim_end(v@.subrange(a as int, n as int)) == trim_end(v@.subrange(a as int, b as int)),
        decreases b - a,
    {
        assert(v@.subrange(a as int, b as int).drop_last() =~= v@.subrange(a as int, b - 1));
        b = b - 1;
    }
    proof {
        if b > a {
            assert(v@.subrange(a as int, b as int).last() == v@[b - 1]);
        }
    }
    let mut out: Vec<char> = Vec::new();
    let mut i = a;
    while i < b
        invariant
            a <= i <= b,
            b <= v@.len(),
            out@ == v@.subrange(a as int, i as int),
        decreases b - i,
    {
        out.push(v[i]);
        i = i + 1;
        assert(out@ =~= v@.subrange(a as int, i as int));
    }
    out
}

/// The parts of `v` between commas.
fn split_commas(v: &Vec<char>) -> (r: Vec<Vec<char>>)
    ensures
        r@.map_values(|p: Vec<char>| p@) == comma_split(v@),
{
    let mut out: Vec<Vec<char>> = Vec::new();
    out.push(Vec::new());
    let mut i: usize = 0;
    proof {
        assert(out@.map_values(|p: Vec<char>| p@) =~= comma_split(v@.take(0)));
    }
    while i < v.len()
        invariant
            i <= v@.len(),
            out@.len() >= 1,
            out@.map_values(|p: Vec<char>| p@) == comma_split(v@.take(i as int)),
        decreases v.len() - i,
    {
        let c = v[i];
        let ghost before = out@.map_values(|p: Vec<char>| p@);
        assert(v@.take(i + 1).drop_last() =~= v@.take(i as int));
        if c == ',' {
            out.push(Vec::new());
            assert(out@.map_values(|p: Vec<char>| p@) =~= before.push(Seq::empty()));
        } else {
            let last = out.len() - 1;
            let mut w = out.remove(last);
            w.push(c);
            out.push(w);
            assert(out@.map_values(|p: Vec<char>| p@) =~= before.update(before.len() - 1, before.last().push(c)));
        }
        i = i + 1;
    }
    assert(v@.take(i as int) =~= v@);
    out
}

impl ConfigValue {
    /// The text, for a text value.
    pub fn as_str(&self) -> (r: Option<&str>)
        ensures
            match self {
                ConfigValue::String(s) => r is Some && r->Some_0@ == s@,
                _ => r is None,
            },
    {
        match self {
            ConfigValue::String(s) => Some(s.as_str()),
            _ => None,
        }
    }

    /// The number, for a whole number or a text that reads as one.
    pub fn as_i64(&self) -> (r: Option<i64>)
        ensures
            match self {
                ConfigValue::Int(i) => r == Some(*i),
                ConfigValue::String(s) => r == match integer_text(s@) {
                    Some(v) => if i64::MIN <= v <= i64::MAX { Some(v as i64) } else { None },
                    None => None,
                },
                _ => r is None,
            },
    {
        match self {
            ConfigValue::Int(i) => Some(*i),
            ConfigValue::String(s) => parse_i64(s.as_str()),
            _ => None,
        }
    }

    /// The flag, for a flag or a text that names one, ignoring case.
    pub fn as_bool(&self) -> (r: Option<bool>)
        ensures
            match self {
                ConfigValue::Bool(b) => r == Some(*b),
                ConfigValue::String(s) => {
                    &&& r == flag_named(str_lowercase(s@))
                    &&& (str_lowercase(s@) == "true"@ || str_lowercase(s@) == "yes"@ || str_lowercase(s@) == "1"@)
                        ==> r == Some(true)
                    &&& (str_lowercase(s@) == "false"@ || str_lowercase(s@) == "no"@ || str_lowercase(s@) == "0"@)
                        ==> r == Some(false)
                },
                _ => r is None,
            },
    {
        proof {
            if let ConfigValue::String(s) = self {
                lemma_flag_words(str_lowercase(s@));
            }
        }
        match self {
            ConfigValue::Bool(b) => Some(*b),
            ConfigValue::String(s) => {
                let lower = str_to_lower(s.as_str());
                let t = lower.as_str();
                if str_equal(t, "true") || str_equal(t, "yes") || str_equal(t, "1") {
                    Some(true)
                } else if str_equal(t, "false") || str_equal(t, "no") || str_equal(t, "0") {
                    Some(false)
                } else {
                    None
                }
            },
            _ => None,
        }
    }

    /// The value as a list of texts: the text items of a list, or the
    /// comma-separated parts of a text, trimmed, without the empty ones.
    /// Other values give none.
    pub fn as_string_array(&self) -> (r: Option<Vec<String>>)
        ensures
            match self {
                ConfigValue::Array(a) => r is Some && string_views(r->Some_0@) == text_items(a@),
                ConfigValue::String(s) => r is Some && string_views(r->Some_0@) == nonblank_parts(comma_split(s@)),
                _ => r is None,
            },
    {
        match self {
            ConfigValue::Array(a) => {
                let mut out: Vec<String> = Vec::new();
                let mut i: usize = 0;
                while i < a.len()
                    invariant
                        i <= a@.len(),
                        string_views(out@) == text_items(a@.take(i as int)),
                    decreases a.len() - i,
                {
                    let ghost before = out@;
                    assert(a@.take(i + 1).drop_last() =~= a@.take(i as int));
                    match &a[i] {
                        ConfigValue::String(s) => {
                            let c = s.clone();
                            out.push(c);
                            assert(string_views(out@) =~= string_views(before).push(s@));
                        },
                        _ => {},
                    }
                    i = i + 1;
                }
                assert(a@.take(i as int) =~= a@);
                Some(out)
            },
            ConfigValue::String(s) => {
                let chars = chars_of(s.as_str());
                let parts = split_commas(&chars);
                let ghost ps = parts@.map_values(|p: Vec<char>| p@);
                let mut out: Vec<String> = Vec::new();
                let mut i: usize = 0;
                while i < parts.len()
                    invariant
                        i <= parts@.len(),
                        ps == parts@.map_values(|p: Vec<char>| p@),
                        string_views(out@) == nonblank_parts(ps.take(i as int)),
                    decreases parts.len() - i,
                {
                    let ghost before = out@;
                    assert(ps.take(i + 1).drop_last() =~= ps.take(i as int));
                    assert(ps.take(i + 1).last() == parts@[i as int]@);
                    let t = trim_chars(&parts[i]);
                    if t.len() > 0 {
                        let ts = string_of(&t);
                        out.push(ts);
                        assert(string_views(out@) =~= string_views(before).push(t@));
                    }
                    i = i + 1;
                }
                assert(ps.take(i as int) =~= ps);
                Some(out)
            },
            _ => None,
        }
    }
}

/// `env` without `prefix` when it starts with it.
pub open spec fn strip_env_prefix(prefix: Seq<char>, env: Seq<char>) -> Seq<char> {
    if env.len() >= prefix.len() && env.subrange(0, prefix.len() as int) == prefix {
        env.subrange(prefix.len() as int, env.len() as int)
    } else {
        env
    }
}

/// The configuration key an environment variable stands for: the name
/// without the prefix, lowercased, with underscores turned into dots.
pub open spec fn config_key_of(prefix: Seq<char>, env: Seq<char>) -> Seq<char> {
    replace_char(str_lowercase(strip_env_prefix(prefix, env)), '_', '.')
}

/// The environment variable a configuration key is read from: the prefix
/// followed by the key with dots turned into underscores, uppercased.
pub open spec fn env_name_of(prefix: Seq<char>, key: Seq<char>) -> Seq<char> {
    prefix + str_uppercase(replace_char(key, '.', '_'))
}

/// `config_key_of` for a variable name made of ASCII characters.
pub open spec fn ascii_config_key_of(prefix: Seq<char>, env: Seq<char>) -> Seq<char> {
    replace_char(ascii_lower(strip_env_prefix(prefix, env)), '_', '.')
}

/// `env_name_of` for a key made of ASCII characters.
pub open spec fn ascii_env_name_of(prefix: Seq<char>, key: Seq<char>) -> Seq<char> {
    prefix + ascii_upper(replace_char(key, '.', '_'))
}

/// The priority of configuration read from environment variables.
pub const ENVIRONMENT_PRIORITY: i32 = 100;

/// Configuration read from environment variables whose names start with a
/// prefix.
pub struct EnvironmentPropertySource {
    prefix: String,
    priority: i32,
}

impl EnvironmentPropertySource {
    /// The source for the variables starting with `prefix`, at priority 100,
    /// above configuration files.
    pub fn new(prefix: String) -> (s: Self)
        ensures
            s.prefix() == prefix@,
            s.priority_spec() == ENVIRONMENT_PRIORITY,
    {
        EnvironmentPropertySource { prefix, priority: ENVIRONMENT_PRIORITY }
    }

    /// The prefix of the variables read.
    pub closed spec fn prefix(&self) -> Seq<char> {
        self.prefix@
    }

    /// The source's priority.
    pub closed spec fn priority_spec(&self) -> i32 {
        self.priority
    }

    /// The source's name, `environment`.
    pub fn name(&self) -> (r: &'static str)
        ensures
            r@ == "environment"@,
    {
        "environment"
    }

    /// The source's priority.
    pub fn priority(&self) -> (r: i32)
        ensures
            r == self.priority_spec(),
    {
        self.priority
    }

    /// The configuration key the variable `env_key` stands for.
    pub fn env_to_key(&self, env_key: &str) -> (r: String)
        ensures
            r@ == config_key_of(self.prefix(), env_key@),
            crate::text::all_ascii(env_key@) ==> r@ == ascii_config_key_of(self.prefix(), env_key@),
    {
        let p = chars_of(self.prefix.as_str());
        let e = chars_of(env_key);
        let mut starts = e.len() >= p.len();
        let mut i: usize = 0;
        while starts && i < p.len()
            invariant
                p@ == self.prefix@,
                e@ == env_key@,
                starts ==> e@.len() >= p@.len(),
                i <= p@.len(),
                starts ==> forall|j: int| 0 <= j < i ==> e@[j] == p@[j],
                !starts ==> !(e@.len() >= p@.len() && e@.subrange(0, p@.len() as int) == p@),
            decreases p.len() - i,
        {
            if e[i] != p[i] {
                starts = false;
                proof {
                    if e@.len() >= p@.len() && e@.subrange(0, p@.len() as int) == p@ {
                        assert(e@.subrange(0, p@.len() as int)[i as int] == e@[i as int]);
                    }
                }
            }
            i = i + 1;
        }
        let mut base: Vec<char> = Vec::new();
        let start = if starts { p.len() } else { 0 };
        proof {
            if starts {
                assert(e@.subrange(0, p@.len() as int) =~= p@);
            }
        }
        let mut k = start;
        while k < e.len()
            invariant
                start <= k <= e@.len(),
                base@ == e@.subrange(start as int, k as int),
            decreases e.len() - k,
        {
            base.push(e[k]);
            k = k + 1;
            assert(base@ =~= e@.subrange(start as int, k as int));
        }
        assert(base@ =~= strip_env_prefix(self.prefix@, env_key@));
        let b = string_of(&base);
        let lower = str_to_lower(b.as_str());
        let lv = chars_of(lower.as_str());
        let out = crate::naming::replace_in(&lv, '_', '.');
        proof {
            let st = strip_env_prefix(self.prefix@, env_key@);
            if crate::text::all_ascii(env_key@) {
                assert forall|j: int| 0 <= j < st.len() implies crate::text::is_ascii_char(#[trigger] st[j]) by {
                    if starts {
                        assert(st[j] == env_key@[j + p@.len()]);
                    } else {
                        assert(st[j] == env_key@[j]);
                    }
                }
            }
        }
        string_of(&out)
    }

    /// The environment variable the configuration key `key` is read from.
    pub fn key_to_env(&self, key: &str) -> (r: String)
        ensures
            r@ == env_name_of(self.prefix(), key@),
            crate::text::all_ascii(key@) ==> r@ == ascii_env_name_of(self.prefix(), key@),
    {
        let kv = chars_of(key);
        let replaced = crate::naming::replace_in(&kv, '.', '_');
        let rs = string_of(&replaced);
        let upper = str_to_upper(rs.as_str());
        proof {
            if crate::text::all_ascii(key@) {
                assert forall|j: int| 0 <= j < replaced@.len() implies crate::text::is_ascii_char(#[trigger] replaced@[j]) by {
                    assert(key@[j] == kv@[j]);
                }
            }
        }
        concat2(self.prefix.as_str(), upper.as_str())
    }
}

/// A configuration key made of lowercase ASCII characters without
/// underscores comes back unchanged from the environment variable it is
/// read from: `env_to_key(key_to_env(key)) == key`.
pub proof fn lemma_env_key_round_trip(prefix: Seq<char>, key: Seq<char>)
    requires
        crate::text::all_ascii(key),
        !key.contains('_'),
        forall|i: int| 0 <= i < key.len() ==> !crate::text::is_ascii_upper(#[trigger] key[i]),
    ensures
        ascii_config_key_of(prefix, ascii_env_name_of(prefix, key)) == key,
{
    let env = ascii_env_name_of(prefix, key);
    assert(env.subrange(0, prefix.len() as int) =~= prefix);
    let rest = env.subrange(prefix.len() as int, env.len() as int);
    assert(rest =~= ascii_upper(replace_char(key, '.', '_')));
    let back = replace_char(ascii_lower(rest), '_', '.');
    assert forall|i: int| 0 <= i < key.len() implies back[i] == key[i] by {
        let c = key[i];
        assert(c != '_') by {
            if c == '_' {
                assert(key.contains('_'));
            }
        }
        assert(crate::text::is_ascii_char(c));
        assert(!crate::text::is_ascii_upper(c));
    }
    assert(back =~= key);
}

/// The path of the profile-specific variant of a configuration file:
/// `-` and the profile inserted before the extension (the part from the
/// last dot), or appended when the path has no dot.
pub open spec fn is_profile_path(r: Seq<char>, base: Seq<char>, profile: Seq<char>) -> bool {
    if base.contains('.') {
        exists|k: int| 0 <= k < base.len() && #[trigger] base[k] == '.'
            && (forall|j: int| k < j < base.len() ==> base[j] != '.')
            && r == base.subrange(0, k) + "-"@ + profile + base.subrange(k, base.len() as int)
    } else {
        r == base + "-"@ + profile
    }
}

/// The profile-specific variant of the configuration file `base_path`:
/// `application.toml` becomes `application-dev.toml` for the profile `dev`.
pub fn profile_config_path(base_path: &str, profile: &str) -> (r: String)
    ensures
        is_profile_path(r@, base_path@, profile@),
{
    let v = chars_of(base_path);
    let mut k = v.len();
    while k > 0 && v[k - 1] != '.'
        invariant
            v@ == base_path@,
            k <= v@.len(),
            forall|j: int| k <= j < v@.len() ==> v@[j] != '.',
        decreases k,
    {
        k = k - 1;
    }
    if k == 0 {
        proof {
            if base_path@.contains('.') {
                let j = choose|j: int| 0 <= j < base_path@.len() && base_path@[j] == '.';
                assert(v@[j] == '.');
            }
        }
        let mut r = concat2(base_path, "-");
        r.append(profile);
        return r;
    }
    let dot = k - 1;
    let mut head: Vec<char> = Vec::new();
    let mut i: usize = 0;
    while i < dot
        invariant
            dot < v@.len(),
            i <= dot,
            head@ == v@.subrange(0, i as int),
        decreases dot - i,
    {
        head.push(v[i]);
        i = i + 1;
        assert(head@ =~= v@.subrange(0, i as int));
    }
    let mut tail: Vec<char> = Vec::new();
    let mut j = dot;
    while j < v.len()
        invariant
            dot <= j <= v@.len(),
            tail@ == v@.subrange(dot as int, j as int),
        decreases v.len() - j,
    {
        tail.push(v[j]);
        j = j + 1;
        assert(tail@ =~= v@.subrange(dot as int, j as int));
    }
    let hs = string_of(&head);
    let ts = string_of(&tail);
    let mut r = concat2(hs.as_str(), "-");
    r.append(profile);
    r.append(ts.as_str());
    proof {
        assert(base_path@[dot as int] == '.');
        assert(base_path@.contains('.'));
        assert(r@ == base_path@.subrange(0, dot as int) + "-"@ + profile@ + base_path@.subrange(dot as int, base_path@.len() as int));
    }
    r
}

/// An entry of an earlier row comes before the rows from `i` on.
proof fn lemma_row_bound(a: int, i: int, h: int, n: int)
    requires
        0 <= a < i,
        0 <= h < n,
    ensures
        a * n + h < i * n,
        0 <= a * n,
{
    assert(a * n + n <= i * n) by (nonlinear_arith)
        requires 0 <= a < i, 0 <= n;
    assert(0 <= a * n) by (nonlinear_arith)
        requires 0 <= a, 0 <= n;
}

/// The configuration files to load and their priorities: each base file at
/// priority 0, then, for the `i`-th active profile, the profile variant of
/// each base file at priority `10 + i`.
pub open spec fn is_load_plan(plan: Seq<(Seq<char>, i32)>, files: Seq<Seq<char>>, profiles: Seq<Seq<char>>) -> bool {
    &&& plan.len() == files.len() + profiles.len() * files.len()
    &&& forall|f: int| 0 <= f < files.len() ==> #[trigger] plan[f] == (files[f], 0i32)
    &&& forall|i: int, f: int| 0 <= i < profiles.len() && 0 <= f < files.len() ==> {
        let e = #[trigger] plan[files.len() + i * files.len() + f];
        &&& e.1 == 10 + i
        &&& is_profile_path(e.0, files[f], profiles[i])
    }
}

/// Environment variables take precedence over every configuration file that
/// the load plan names, as long as at most 90 profiles are active: each
/// planned file has a priority below that of the environment source (a file
/// of the 91st profile would have the environment's own priority).
pub proof fn lemma_environment_overrides_files(plan: Seq<(Seq<char>, i32)>, files: Seq<Seq<char>>, profiles: Seq<Seq<char>>, k: int)
    requires
        is_load_plan(plan, files, profiles),
        profiles.len() <= 90,
        0 <= k < plan.len(),
    ensures
        0 <= plan[k].1 < ENVIRONMENT_PRIORITY,
{
    let nf = files.len() as int;
    let np = profiles.len() as int;
    if k < nf {
        assert(plan[k] == (files[k], 0i32));
    } else {
        let q = (k - nf) / nf;
        let r = (k - nf) % nf;
        assert(nf > 0) by (nonlinear_arith)
            requires
                k < nf + np * nf,
                k >= nf,
                np >= 0,
                nf >= 0,
        ;
        assert(k - nf == q * nf + r && 0 <= r < nf && 0 <= q < np) by (nonlinear_arith)
            requires
                nf > 0,
                k >= nf,
                k < nf + np * nf,
                q == (k - nf) / nf,
                r == (k - nf) % nf,
        ;
        assert(plan[k] == plan[files.len() + q * files.len() + r]);
    }
}

/// Among sources where only one has the highest priority, that source is
/// the one whose value is taken when it holds the key.
pub proof fn lemma_highest_priority_source_chosen(priorities: Seq<i32>, has_key: Seq<bool>, e: int)
    requires
        0 <= e < priorities.len(),
        e < has_key.len(),
        has_key[e],
        forall|j: int| 0 <= j < priorities.len() && j != e ==> #[trigger] priorities[j] < priorities[e],
    ensures
        is_chosen_source(priorities, has_key, e),
        forall|i: int| #[trigger] is_chosen_source(priorities, has_key, i) ==> i == e,
{
    assert forall|i: int| #[trigger] is_chosen_source(priorities, has_key, i) implies i == e by {
        if i != e {
            assert(has_key[e]);
            assert(priorities[i] < priorities[e]);
        }
    }
}

/// Plans which configuration files to load, and at which priority: the base
/// files first, then their variants for each active profile, later profiles
/// taking precedence.
pub fn config_load_plan(files: &Vec<String>, profiles: &Vec<String>) -> (plan: Vec<(String, i32)>)
    requires
        profiles@.len() + 10 <= i32::MAX,
    ensures
        is_load_plan(plan@.map_values(|e: (String, i32)| (e.0@, e.1)), string_views(files@), string_views(profiles@)),
{
    let ghost fs = string_views(files@);
    let ghost ps = string_views(profiles@);
    let mut plan: Vec<(String, i32)> = Vec::new();
    let mut f: usize = 0;
    while f < files.len()
        invariant
            fs == string_views(files@),
            f <= files@.len(),
            plan@.len() == f,
            forall|g: int| 0 <= g < f ==> (#[trigger] plan@[g]).0@ == fs[g] && plan@[g].1 == 0,
        decreases files.len() - f,
    {
        plan.push((files[f].clone(), 0));
        f = f + 1;
    }
    let n = files.len();
    let mut i: usize = 0;
    while i < profiles.len()
        invariant
            fs == string_views(files@),
            ps == string_views(profiles@),
            n == files@.len(),
            profiles@.len() + 10 <= i32::MAX,
            i <= profiles@.len(),
            plan@.len() == n + i * n,
            forall|g: int| 0 <= g < n ==> (#[trigger] plan@[g]).0@ == fs[g] && plan@[g].1 == 0,
            forall|a: int, g: int| 0 <= a < i && 0 <= g < n ==> {
                let e = #[trigger] plan@[n + a * n + g];
                &&& e.1 == 10 + a
                &&& is_profile_path(e.0@, fs[g], ps[a])
            },
        decreases profiles.len() - i,
    {
        let mut g: usize = 0;
        let prio: i32 = 10 + i as i32;
        while g < n
            invariant
                fs == string_views(files@),
                ps == string_views(profiles@),
                n == files@.len(),
                i < profiles@.len(),
                prio == 10 + i,
                g <= n,
                plan@.len() == n + i * n + g,
                forall|h: int| 0 <= h < n ==> (#[trigger] plan@[h]).0@ == fs[h] && plan@[h].1 == 0,
                forall|a: int, h: int| 0 <= a < i && 0 <= h < n ==> {
                    let e = #[trigger] plan@[n + a * n + h];
                    &&& e.1 == 10 + a
                    &&& is_profile_path(e.0@, fs[h], ps[a])
                },
                forall|h: int| 0 <= h < g ==> {
                    let e = #[trigger] plan@[n + i * n + h];
                    &&& e.1 == 10 + i
                    &&& is_profile_path(e.0@, fs[h], ps[i as int])
                },
            decreases n - g,
        {
            let path = profile_config_path(files[g].as_str(), profiles[i].as_str());
            proof {
                assert(n + i * n + g < n + i * n + n);
            }
            let ghost before = plan@;
            plan.push((path, prio));
            proof {
                assert forall|a: int, h: int| 0 <= a < i && 0 <= h < n implies
                    #[trigger] plan@[n + a * n + h] == before[n + a * n + h] by {
                    lemma_row_bound(a, i as int, h, n as int);
                }
            }
            g = g + 1;
        }
        proof {
            assert forall|a: int, h: int| 0 <= a < i + 1 && 0 <= h < n implies {
                let e = #[trigger] plan@[n + a * n + h];
                &&& e.1 == 10 + a
                &&& is_profile_path(e.0@, fs[h], ps[a])
            } by {
                if a == i {
                }
            }
            assert((i + 1) * n == i * n + n) by (nonlinear_arith);
        }
        i = i + 1;
    }
    proof {
        let pv = plan@.map_values(|e: (String, i32)| (e.0@, e.1));
        assert forall|a: int, h: int| 0 <= a < ps.len() && 0 <= h < fs.len() implies {
            let e = #[trigger] pv[fs.len() + a * fs.len() + h];
            &&& e.1 == 10 + a
            &&& is_profile_path(e.0, fs[h], ps[a])
        } by {
            assert(0 <= n + a * n + h < plan@.len()) by (nonlinear_arith)
                requires 0 <= a < i, 0 <= h < n, plan@.len() == n + i * n;
            assert(pv[n + a * n + h] == (plan@[n + a * n + h].0@, plan@[n + a * n + h].1));
        }
        assert forall|g: int| 0 <= g < fs.len() implies #[trigger] pv[g] == (fs[g], 0i32) by {
            assert(pv[g] == (plan@[g].0@, plan@[g].1));
        }
        assert(ps.len() * fs.len() == i * n);
    }
    plan
}

#[verifier::external_type_specification]
#[verifier::external_body]
pub struct ExTomlValue(toml::Value);

/// What `toml::from_str::<toml::Value>` reads from `content`, with each
/// TOML value turned into the configuration value of the same shape; `None`
/// when it refuses the text.
pub uninterp spec fn toml_document(content: Seq<char>) -> Option<ConfigValue>;

/// The text of the error `toml::from_str` gives for `content`.
pub uninterp spec fn toml_error_text(content: Seq<char>) -> Seq<char>;

/// Turns a parsed TOML value into the configuration value of the same
/// shape: strings, integers, booleans, arrays and tables alike, floats as
/// their bit pattern and date-times as their text.
#[verifier::external_body]
fn config_from_toml(value: &toml::Value) -> (r: ConfigValue) {
    match value {
        toml::Value::String(s) => ConfigValue::String(s.clone()),
        toml::Value::Integer(i) => ConfigValue::Int(*i),
        toml::Value::Float(f) => ConfigValue::Float(f.to_bits()),
        toml::Value::Boolean(b) => ConfigValue::Bool(*b),
        toml::Value::Datetime(d) => ConfigValue::String(d.to_string()),
        toml::Value::Array(a) => ConfigValue::Array(a.iter().map(config_from_toml).collect()),
        toml::Value::Table(t) => ConfigValue::Object(t.iter().map(|(k, v)| (k.clone(), config_from_toml(v))).collect()),
    }
}

/// Parses `content` with `toml::from_str::<toml::Value>` and turns the
/// document into a configuration value; on failure, returns the error's
/// text. The outcome depends on the text alone.
#[verifier::external_body]
fn parse_toml(content: &str) -> (r: Result<ConfigValue, String>)
    ensures
        match toml_document(content@) {
            Some(v) => r == Ok::<ConfigValue, String>(v),
            None => r matches Err(e) && e@ == toml_error_text(content@),
        },
{
    match toml::from_str::<toml::Value>(content) {
        Ok(v) => Ok(config_from_toml(&v)),
        Err(e) => Err(e.to_string()),
    }
}

/// The key of a nested entry: the entry's name after the parent key and a
/// dot, or alone at the top.
pub open spec fn child_key(prefix: Seq<char>, name: Seq<char>) -> Seq<char> {
    if prefix.len() == 0 {
        name
    } else {
        prefix + "."@ + name
    }
}

/// The flat entries a value gives under the key `prefix`: a table gives the
/// entries of its values under their nested keys, in order; any other value
/// is one entry.
pub open spec fn flat_entries(v: ConfigValue, prefix: Seq<char>) -> Seq<(Seq<char>, ConfigValue)>
    decreases v, 0int,
{
    match v {
        ConfigValue::Object(es) => flat_list(es@, prefix, es@.len() as int),
        _ => seq![(prefix, v)],
    }
}

/// The flat entries of the first `n` named values of a table under `prefix`.
pub open spec fn flat_list(es: Seq<(String, ConfigValue)>, prefix: Seq<char>, n: int) -> Seq<(Seq<char>, ConfigValue)>
    decreases es, n,
{
    if n <= 0 || n > es.len() {
        Seq::empty()
    } else {
        flat_list(es, prefix, n - 1) + flat_entries(es[n - 1].1, child_key(prefix, es[n - 1].0@))
    }
}

/// `m` with the entries of `s` inserted in order, later ones replacing
/// earlier ones with the same key.
pub open spec fn insert_all(m: Map<Seq<char>, ConfigValue>, s: Seq<(Seq<char>, ConfigValue)>) -> Map<Seq<char>, ConfigValue>
    decreases s.len(),
{
    if s.len() == 0 {
        m
    } else {
        insert_all(m, s.drop_last()).insert(s.last().0, s.last().1)
    }
}

/// Inserting two runs of entries one after the other inserts their
/// concatenation.
pub proof fn lemma_insert_all_concat(m: Map<Seq<char>, ConfigValue>, a: Seq<(Seq<char>, ConfigValue)>, b: Seq<(Seq<char>, ConfigValue)>)
    ensures
        insert_all(m, a + b) == insert_all(insert_all(m, a), b),
    decreases b.len(),
{
    if b.len() == 0 {
        assert(a + b =~= a);
    } else {
        assert((a + b).drop_last() =~= a + b.drop_last());
        lemma_insert_all_concat(m, a, b.drop_last());
    }
}

/// The keys of a list of properties.
pub open spec fn property_keys(e: Seq<(String, ConfigValue)>) -> Seq<Seq<char>> {
    e.map_values(|p: (String, ConfigValue)| p.0@)
}

/// Configuration properties by key; a key appears once.
pub struct PropertyMap {
    entries: Vec<(String, ConfigValue)>,
}

impl View for PropertyMap {
    type V = Map<Seq<char>, ConfigValue>;

    closed spec fn view(&self) -> Map<Seq<char>, ConfigValue> {
        Map::new(
            |k: Seq<char>| property_keys(self.entries@).contains(k),
            |k: Seq<char>| self.entries@[property_keys(self.entries@).index_of(k)].1,
        )
    }
}

impl PropertyMap {
    /// Well-formedness: no key appears twice.
    pub closed spec fn wf(&self) -> bool {
        property_keys(self.entries@).no_duplicates()
    }

    /// A map without properties.
    pub fn new() -> (m: Self)
        ensures
            m.wf(),
            m@ == Map::<Seq<char>, ConfigValue>::empty(),
    {
        let m = PropertyMap { entries: Vec::new() };
        assert(m@ =~= Map::<Seq<char>, ConfigValue>::empty());
        m
    }

    /// Position of the entry for `key`.
    fn position(&self, key: &str) -> (r: Option<usize>)
        requires
            self.wf(),
        ensures
            match r {
                Some(i) => i < self.entries@.len() && self.entries@[i as int].0@ == key@
                    && property_keys(self.entries@).index_of(key@) == i,
                None => !self@.dom().contains(key@),
            },
    {
        let mut i: usize = 0;
        while i < self.entries.len()
            invariant
                self.wf(),
                i <= self.entries@.len(),
                forall|j: int| 0 <= j < i ==> self.entries@[j].0@ != key@,
            decreases self.entries.len() - i,
        {
            if str_equal(self.entries[i].0.as_str(), key) {
                proof {
                    let keys = property_keys(self.entries@);
                    assert(keys[i as int] == key@);
                    assert(keys.contains(key@));
                    let k = keys.index_of(key@);
                    assert(keys[k] == key@);
                }
                return Some(i);
            }
            i = i + 1;
        }
        proof {
            let keys = property_keys(self.entries@);
            if keys.contains(key@) {
                let k = choose|k: int| 0 <= k < keys.len() && keys[k] == key@;
                assert(self.entries@[k].0@ == key@);
            }
        }
        None
    }

    /// Sets the property `key` to `value`, replacing any earlier value.
    pub fn insert(&mut self, key: String, value: ConfigValue)
        requires
            old(self).wf(),
        ensures
            final(self).wf(),
            final(self)@ == old(self)@.insert(key@, value),
    {
        let ghost old_e = self.entries@;
        let ghost kv = key@;
        let ghost vv = value;
        match self.position(key.as_str()) {
            Some(i) => {
                self.entries.set(i, (key, value));
                proof {
                    let t = self.entries@;
                    assert(property_keys(t) =~= property_keys(old_e));
                    assert forall|k: Seq<char>| #![auto] self@.dom().contains(k) implies self@[k] == old(self)@.insert(kv, vv)[k] by {
                        let p = property_keys(t).index_of(k);
                        assert(property_keys(t)[p] == k);
                        if k == kv {
                            assert(property_keys(t)[i as int] == kv);
                            assert(p == i as int);
                        }
                    }
                    assert(property_keys(t)[i as int] == kv);
                    assert(self@ =~= old(self)@.insert(kv, vv));
                }
            },
            None => {
                self.entries.push((key, value));
                proof {
                    let t = self.entries@;
                    assert(property_keys(t) =~= property_keys(old_e).push(kv));
                    crate::dependency::lemma_push_to_set(property_keys(old_e), kv);
                    assert forall|k: Seq<char>| self@.dom().contains(k) <==> old(self)@.insert(kv, vv).dom().contains(k) by {
                        if property_keys(old_e).contains(k) {
                            let q = choose|q: int| 0 <= q < property_keys(old_e).len() && property_keys(old_e)[q] == k;
                            assert(property_keys(t)[q] == k);
                        }
                        if property_keys(t).contains(k) && k != kv {
                            let q = choose|q: int| 0 <= q < property_keys(t).len() && property_keys(t)[q] == k;
                            assert(q < old_e.len());
                            assert(property_keys(old_e)[q] == k);
                        }
                        if k == kv {
                            assert(property_keys(t)[old_e.len() as int] == kv);
                        }
                    }
                    assert forall|k: Seq<char>| #![auto] self@.dom().contains(k) implies self@[k] == old(self)@.insert(kv, vv)[k] by {
                        let p = property_keys(t).index_of(k);
                        assert(property_keys(t)[p] == k);
                        if k == kv {
                            assert(property_keys(t)[old_e.len() as int] == kv);
                            assert(p == old_e.len());
                        } else {
                            assert(p < old_e.len());
                            assert(property_keys(old_e)[p] == k);
                            let q = property_keys(old_e).index_of(k);
                            assert(property_keys(old_e)[q] == k);
                            assert(property_keys(t)[q] == k);
                        }
                    }
                    assert(self@ =~= old(self)@.insert(kv, vv));
                }
            },
        }
    }

    /// The value of the property `key`, if set.
    pub fn get(&self, key: &str) -> (r: Option<&ConfigValue>)
        requires
            self.wf(),
        ensures
            match r {
                Some(v) => self@.dom().contains(key@) && *v == self@[key@],
                None => !self@.dom().contains(key@),
            },
    {
        match self.position(key) {
            Some(i) => {
                proof {
                    assert(property_keys(self.entries@)[i as int] == key@);
                }
                Some(&self.entries[i].1)
            },
            None => None,
        }
    }

    /// The keys of the properties.
    pub fn keys(&self) -> (r: Vec<String>)
        requires
            self.wf(),
        ensures
            forall|k: Seq<char>| string_views(r@).contains(k) <==> self@.dom().contains(k),
            string_views(r@).no_duplicates(),
    {
        let mut out: Vec<String> = Vec::new();
        let mut i: usize = 0;
        while i < self.entries.len()
            invariant
                self.wf(),
                i <= self.entries@.len(),
                string_views(out@) == property_keys(self.entries@).take(i as int),
            decreases self.entries.len() - i,
        {
            let ghost before = out@;
            let k = self.entries[i].0.clone();
            out.push(k);
            assert(string_views(out@) =~= string_views(before).push(k@));
            i = i + 1;
            assert(property_keys(self.entries@).take(i as int) =~= property_keys(self.entries@).take(i - 1).push(k@));
        }
        assert(property_keys(self.entries@).take(i as int) =~= property_keys(self.entries@));
        out
    }
}

/// `out` with the flat entries of `value` under `prefix` inserted: each
/// leaf of a table nested under keys `a`, `b`, ... is inserted under
/// `prefix.a.b...` (without the leading dot when `prefix` is empty), and any
/// other value under `prefix` itself, later entries replacing earlier ones.
pub fn flatten_into(value: ConfigValue, prefix: String, out: PropertyMap) -> (r: PropertyMap)
    requires
        out.wf(),
    ensures
        r.wf(),
        r@ == insert_all(out@, flat_entries(value, prefix@)),
    decreases value,
{
    let ghost orig = value;
    let ghost out0 = out;
    let mut acc = out;
    match value {
        ConfigValue::Object(es) => {
            let ghost es0 = es;
            let ghost all = es@;
            let ghost start = acc@;
            let ghost n = all.len();
            let mut rest = es;
            let total = rest.len();
            let mut j: usize = 0;
            while rest.len() > 0
                invariant
                    total == n,
                    orig == value,
                    orig == ConfigValue::Object(es0),
                    all == es0@,
                    n == all.len(),
                    acc.wf(),
                    j <= n,
                    rest@ == all.subrange(j as int, n as int),
                    acc@ == insert_all(start, flat_list(all, prefix@, j as int)),
                decreases rest.len(),
            {
                let (k, v) = rest.remove(0);
                let ghost kv = k@;
                proof {
                    assert(all[j as int] == (k, v));
                }
                let key = if prefix.as_str().is_empty() {
                    k
                } else {
                    let mut s = concat2(prefix.as_str(), ".");
                    s.append(k.as_str());
                    s
                };
                proof {
                    assert(key@ == child_key(prefix@, kv));
                    assert(decreases_to!(orig => orig->Object_0));
                    assert(orig->Object_0 == es0);
                    assert(decreases_to!(es0 => es0@));
                    assert(decreases_to!(es0@ => es0@[j as int]));
                    assert(decreases_to!(es0@[j as int] => es0@[j as int].1));
                    assert(es0@[j as int].1 == v);
                }
                let ghost ve = v;
                acc = flatten_into(v, key, acc);
                proof {
                    lemma_insert_all_concat(start, flat_list(all, prefix@, j as int), flat_entries(ve, child_key(prefix@, kv)));
                    assert(flat_list(all, prefix@, j + 1) == flat_list(all, prefix@, j as int)
                        + flat_entries(all[j as int].1, child_key(prefix@, all[j as int].0@)));
                }
                j = j + 1;
                assert(rest@ =~= all.subrange(j as int, n as int));
            }
            assert(j == n);
            assert(flat_entries(orig, prefix@) == flat_list(all, prefix@, n as int));
            acc
        },
        ConfigValue::String(x) => {
            let ghost p0 = prefix@;
            acc.insert(prefix, ConfigValue::String(x));
            assert(flat_entries(orig, p0) =~= seq![(p0, orig)]);
            proof {
                let s1 = seq![(p0, orig)];
                assert(s1.drop_last() =~= Seq::<(Seq<char>, ConfigValue)>::empty());
                assert(insert_all(out0@, s1.drop_last()) == out0@);
                assert(s1.last() == (p0, orig));
                assert(insert_all(out0@, s1) == out0@.insert(p0, orig));
                assert(acc@ == out0@.insert(p0, orig));
            }
            acc
        },
        ConfigValue::Int(x) => {
            let ghost p0 = prefix@;
            acc.insert(prefix, ConfigValue::Int(x));
            assert(flat_entries(orig, p0) =~= seq![(p0, orig)]);
            proof {
                let s1 = seq![(p0, orig)];
                assert(s1.drop_last() =~= Seq::<(Seq<char>, ConfigValue)>::empty());
                assert(insert_all(out0@, s1.drop_last()) == out0@);
                assert(s1.last() == (p0, orig));
                assert(insert_all(out0@, s1) == out0@.insert(p0, orig));
                assert(acc@ == out0@.insert(p0, orig));
            }
            acc
        },
        ConfigValue::Float(x) => {
            let ghost p0 = prefix@;
            acc.insert(prefix, ConfigValue::Float(x));
            assert(flat_entries(orig, p0) =~= seq![(p0, orig)]);
            proof {
                let s1 = seq![(p0, orig)];
                assert(s1.drop_last() =~= Seq::<(Seq<char>, ConfigValue)>::empty());
                assert(insert_all(out0@, s1.drop_last()) == out0@);
                assert(s1.last() == (p0, orig));
                assert(insert_all(out0@, s1) == out0@.insert(p0, orig));
                assert(acc@ == out0@.insert(p0, orig));
            }
            acc
        },
        ConfigValue::Bool(x) => {
            let ghost p0 = prefix@;
            acc.insert(prefix, ConfigValue::Bool(x));
            assert(flat_entries(orig, p0) =~= seq![(p0, orig)]);
            proof {
                let s1 = seq![(p0, orig)];
                assert(s1.drop_last() =~= Seq::<(Seq<char>, ConfigValue)>::empty());
                assert(insert_all(out0@, s1.drop_last()) == out0@);
                assert(s1.last() == (p0, orig));
                assert(insert_all(out0@, s1) == out0@.insert(p0, orig));
                assert(acc@ == out0@.insert(p0, orig));
            }
            acc
        },
        ConfigValue::Array(x) => {
            let ghost p0 = prefix@;
            acc.insert(prefix, ConfigValue::Array(x));
            assert(flat_entries(orig, p0) =~= seq![(p0, orig)]);
            proof {
                let s1 = seq![(p0, orig)];
                assert(s1.drop_last() =~= Seq::<(Seq<char>, ConfigValue)>::empty());
                assert(insert_all(out0@, s1.drop_last()) == out0@);
                assert(s1.last() == (p0, orig));
                assert(insert_all(out0@, s1) == out0@.insert(p0, orig));
                assert(acc@ == out0@.insert(p0, orig));
            }
            acc
        },
    }
}

/// Configuration read from a TOML document, flattened to dotted keys: the
/// value at `[server] port` is the property `server.port`.
pub struct TomlPropertySource {
    name: String,
    properties: PropertyMap,
    priority: i32,
}

impl TomlPropertySource {
    /// Reads the TOML document `content` under the source name `name`, at
    /// priority 0, below every other source. A document TOML refuses gives
    /// `Failed to parse TOML: ` and the parser's message.
    pub fn from_str(content: &str, name: String) -> (r: Result<TomlPropertySource, String>)
        ensures
            match toml_document(content@) {
                Some(doc) => r matches Ok(src) && src.wf() && src.name_spec() == name@ && src.priority_spec() == 0
                    && src.properties() == insert_all(Map::empty(), flat_entries(doc, Seq::empty())),
                None => r matches Err(m) && m@ == "Failed to parse TOML: "@ + toml_error_text(content@),
            },
    {
        match parse_toml(content) {
            Err(e) => Err(concat2("Failed to parse TOML: ", e.as_str())),
            Ok(doc) => {
                let prefix = String::new();
                assert(prefix@ =~= Seq::<char>::empty());
                let properties = flatten_into(doc, prefix, PropertyMap::new());
                Ok(TomlPropertySource { name, properties, priority: 0 })
            },
        }
    }

    /// Well-formedness of the properties.
    pub closed spec fn wf(&self) -> bool {
        self.properties.wf()
    }

    /// The properties by key.
    pub closed spec fn properties(&self) -> Map<Seq<char>, ConfigValue> {
        self.properties@
    }

    /// The source's name.
    pub closed spec fn name_spec(&self) -> Seq<char> {
        self.name@
    }

    /// The source's priority.
    pub closed spec fn priority_spec(&self) -> i32 {
        self.priority
    }

    /// The source at priority `priority`.
    pub fn with_priority(self, priority: i32) -> (s: Self)
        ensures
            s.wf() == self.wf(),
            s.properties() == self.properties(),
            s.name_spec() == self.name_spec(),
            s.priority_spec() == priority,
    {
        TomlPropertySource { priority, ..self }
    }

    /// The source's name.
    pub fn name(&self) -> (r: &str)
        ensures
            r@ == self.name_spec(),
    {
        self.name.as_str()
    }

    /// The source's priority.
    pub fn priority(&self) -> (r: i32)
        ensures
            r == self.priority_spec(),
    {
        self.priority
    }

    /// The value of the property `key`, if set.
    pub fn get(&self, key: &str) -> (r: Option<&ConfigValue>)
        requires
            self.wf(),
        ensures
            match r {
                Some(v) => self.properties().dom().contains(key@) && *v == self.properties()[key@],
                None => !self.properties().dom().contains(key@),
            },
    {
        self.properties.get(key)
    }

    /// The keys of the properties.
    pub fn keys(&self) -> (r: Vec<String>)
        requires
            self.wf(),
        ensures
            forall|k: Seq<char>| string_views(r@).contains(k) <==> self.properties().dom().contains(k),
            string_views(r@).no_duplicates(),
    {
        self.properties.keys()
    }
}

/// The active profiles: those the profiles variable lists, comma-separated,
/// when it names any; else those the configuration lists, when it names
/// any; else those the application was given.
pub open spec fn chosen_profiles(env_value: Option<Seq<char>>, from_config: Option<Seq<Seq<char>>>, from_code: Seq<Seq<char>>) -> Seq<Seq<char>> {
    let from_env = match env_value {
        Some(v) => nonblank_parts(comma_split(v)),
        None => Seq::empty(),
    };
    if from_env.len() > 0 {
        from_env
    } else if from_config is Some && from_config->Some_0.len() > 0 {
        from_config->Some_0
    } else {
        from_code
    }
}

/// The text an optional string holds.
pub open spec fn text_view(o: Option<String>) -> Option<Seq<char>> {
    match o {
        Some(v) => Some(v@),
        None => None,
    }
}

/// The texts an optional list of strings holds.
pub open spec fn list_view(o: Option<Vec<String>>) -> Option<Seq<Seq<char>>> {
    match o {
        Some(c) => Some(string_views(c@)),
        None => None,
    }
}

/// `v` names no profile: it holds nothing but commas and whitespace.
pub open spec fn only_separators(v: Seq<char>) -> bool {
    forall|i: int| 0 <= i < v.len() ==> #[trigger] v[i] == ',' || char_is_whitespace(v[i])
}

/// `s` is whitespace only.
pub open spec fn all_whitespace(s: Seq<char>) -> bool {
    forall|i: int| 0 <= i < s.len() ==> char_is_whitespace(#[trigger] s[i])
}

/// Whitespace trims away to nothing.
proof fn lemma_trim_whitespace(s: Seq<char>)
    requires
        all_whitespace(s),
    ensures
        trimmed(s).len() == 0,
    decreases s.len(),
{
    if s.len() > 0 {
        let t = s.subrange(1, s.len() as int);
        assert(char_is_whitespace(s[0]));
        assert forall|i: int| 0 <= i < t.len() implies char_is_whitespace(#[trigger] t[i]) by {
            assert(t[i] == s[i + 1]);
        }
        lemma_trim_whitespace(t);
        assert(trim_start(s) == trim_start(t));
    }
}

/// The parts of a text of commas and whitespace are whitespace only.
proof fn lemma_separator_parts(v: Seq<char>)
    requires
        only_separators(v),
    ensures
        forall|k: int| 0 <= k < comma_split(v).len() ==> all_whitespace(#[trigger] comma_split(v)[k]),
        comma_split(v).len() > 0,
    decreases v.len(),
{
    if v.len() > 0 {
        let w = v.drop_last();
        assert forall|i: int| 0 <= i < w.len() implies #[trigger] w[i] == ',' || char_is_whitespace(w[i]) by {
            assert(w[i] == v[i]);
        }
        lemma_separator_parts(w);
        let p = comma_split(w);
        let c = v.last();
        assert(c == v[v.len() - 1]);
        if c != ',' {
            assert(char_is_whitespace(c));
            let q = p.update(p.len() - 1, p.last().push(c));
            assert forall|k: int| 0 <= k < q.len() implies all_whitespace(#[trigger] q[k]) by {
                if k == p.len() - 1 {
                    assert(all_whitespace(p[k]));
                    assert forall|i: int| 0 <= i < q[k].len() implies char_is_whitespace(#[trigger] q[k][i]) by {
                        if i < p[k].len() {
                            assert(q[k][i] == p[k][i]);
                        }
                    }
                } else {
                    assert(q[k] == p[k]);
                }
            }
        } else {
            let q = p.push(Seq::<char>::empty());
            assert forall|k: int| 0 <= k < q.len() implies all_whitespace(#[trigger] q[k]) by {
                if k < p.len() {
                    assert(q[k] == p[k]);
                }
            }
        }
    }
}

/// Parts that are whitespace only name no profile.
proof fn lemma_blank_parts(parts: Seq<Seq<char>>)
    requires
        forall|k: int| 0 <= k < parts.len() ==> all_whitespace(#[trigger] parts[k]),
    ensures
        nonblank_parts(parts).len() == 0,
    decreases parts.len(),
{
    if parts.len() > 0 {
        let q = parts.drop_last();
        assert forall|k: int| 0 <= k < q.len() implies all_whitespace(#[trigger] q[k]) by {
            assert(q[k] == parts[k]);
        }
        lemma_blank_parts(q);
        assert(all_whitespace(parts[parts.len() - 1]));
        lemma_trim_whitespace(parts.last());
    }
}

/// The precedence of the sources of the active profiles: the profiles the
/// variable names win when it names any; when it is absent or names none
/// (nothing but commas and whitespace), the profiles the configuration
/// lists win when it lists any, whether or not the variable is present;
/// otherwise those the application was given.
pub proof fn lemma_profile_precedence(env_value: Option<Seq<char>>, from_config: Option<Seq<Seq<char>>>, from_code: Seq<Seq<char>>)
    ensures
        (env_value is None || only_separators(env_value->Some_0)) && from_config is Some
            && from_config->Some_0.len() > 0 ==> chosen_profiles(env_value, from_config, from_code)
            == from_config->Some_0,
        (env_value is None || only_separators(env_value->Some_0)) && (from_config is None
            || from_config->Some_0.len() == 0) ==> chosen_profiles(env_value, from_config, from_code)
            == from_code,
        env_value is Some && nonblank_parts(comma_split(env_value->Some_0)).len() > 0
            ==> chosen_profiles(env_value, from_config, from_code) == nonblank_parts(comma_split(env_value->Some_0)),
{
    if env_value is Some {
        let v = env_value->Some_0;
        if only_separators(v) {
            lemma_separator_parts(v);
            lemma_blank_parts(comma_split(v));
        }
    }
}

/// Decides the active profiles from the value of the profiles variable, the
/// profiles the configuration lists and those the application was given, in
/// that order of precedence.
pub fn resolve_active_profiles(env_value: Option<String>, from_config: Option<Vec<String>>, from_code: &Vec<String>) -> (r: Vec<String>)
    ensures
        string_views(r@) == chosen_profiles(
            match env_value { Some(v) => Some(v@), None => None },
            match from_config { Some(c) => Some(string_views(c@)), None => None },
            string_views(from_code@),
        ),
        (env_value is None || only_separators(env_value->Some_0@)) && from_config is Some
            && from_config->Some_0@.len() > 0 ==> string_views(r@) == string_views(from_config->Some_0@),
        (env_value is None || only_separators(env_value->Some_0@)) && (from_config is None
            || from_config->Some_0@.len() == 0) ==> string_views(r@) == string_views(from_code@),
{
    proof {
        lemma_profile_precedence(text_view(env_value), list_view(from_config), string_views(from_code@));
    }
    let mut active: Vec<String> = Vec::new();
    if let Some(v) = env_value {
        let value = ConfigValue::String(v);
        if let Some(parts) = value.as_string_array() {
            active = parts;
        }
    }
    if active.len() == 0 {
        if let Some(c) = from_config {
            active = c;
        }
    }
    if active.len() == 0 {
        active = crate::text::clone_strings(from_code);
    }
    active
}

} // verus!

verus! {

/// Source `i` is the one whose value for a key is taken: it holds the key,
/// and every other source that holds it has a lower priority, or the same
/// priority and was added later. Sources are given in the order they were
/// added, by their priorities and by whether each holds the key.
pub open spec fn is_chosen_source(priorities: Seq<i32>, has_key: Seq<bool>, i: int) -> bool {
    &&& 0 <= i < priorities.len()
    &&& i < has_key.len()
    &&& has_key[i]
    &&& forall|j: int|
        0 <= j < priorities.len() && j < has_key.len() && #[trigger] has_key[j] ==> priorities[j]
            < priorities[i] || (priorities[j] == priorities[i] && i <= j)
}

/// The source whose value for a key is taken, among sources given in the
/// order they were added by their priorities and by whether each holds the
/// key: the one of greatest priority that holds it, the earliest added on a
/// tie; `None` when no source holds the key. A position past the end of
/// either list holds nothing.
pub fn first_source_with_key(priorities: &Vec<i32>, has_key: &Vec<bool>) -> (r: Option<usize>)
    ensures
        match r {
            Some(i) => is_chosen_source(priorities@, has_key@, i as int),
            None => forall|j: int| 0 <= j < priorities@.len() && j < has_key@.len() ==> !#[trigger] has_key@[j],
        },
{
    let n = if priorities.len() < has_key.len() { priorities.len() } else { has_key.len() };
    let mut best: Option<usize> = None;
    let mut i: usize = 0;
    while i < n
        invariant
            n <= priorities@.len(),
            n <= has_key@.len(),
            n == priorities@.len() || n == has_key@.len(),
            i <= n,
            match best {
                Some(b) => {
                    &&& b < i
                    &&& has_key@[b as int]
                    &&& forall|j: int| 0 <= j < i && #[trigger] has_key@[j] ==> priorities@[j]
                        < priorities@[b as int] || (priorities@[j] == priorities@[b as int] && b <= j)
                },
                None => forall|j: int| 0 <= j < i ==> !#[trigger] has_key@[j],
            },
        decreases n - i,
    {
        if has_key[i] {
            match best {
                None => {
                    best = Some(i);
                },
                Some(b) => {
                    if priorities[i] > priorities[b] {
                        best = Some(i);
                    }
                },
            }
        }
        i = i + 1;
    }
    best
}

} // verus!

verus! {

/// Which sources hold a key, from what each of them gave for it.
pub open spec fn holders(found: Seq<Option<ConfigValue>>) -> Seq<bool> {
    found.map_values(|v: Option<ConfigValue>| v is Some)
}

/// At most one source is the chosen one.
pub proof fn lemma_chosen_source_unique(priorities: Seq<i32>, has_key: Seq<bool>, i: int, k: int)
    requires
        is_chosen_source(priorities, has_key, i),
        is_chosen_source(priorities, has_key, k),
    ensures
        i == k,
{
    assert(has_key[k] && has_key[i]);
}

/// The value a configuration lookup gives, from what each source (in the
/// order they were added, with their priorities) gave for the key: the value
/// of the chosen source, or `None` when no source holds the key.
pub open spec fn lookup_value(priorities: Seq<i32>, found: Seq<Option<ConfigValue>>) -> Option<ConfigValue> {
    if exists|i: int| #[trigger] is_chosen_source(priorities, holders(found), i) {
        found[choose|i: int| #[trigger] is_chosen_source(priorities, holders(found), i)]
    } else {
        None
    }
}

/// Looks a key up in the configuration sources, given what each source, in
/// the order they were added, gave for the key: the value of the source of
/// greatest priority that holds the key, the earliest added on a tie; `None`
/// when no source holds it. A source past the end of either list holds
/// nothing.
pub fn lookup_in_sources(priorities: &Vec<i32>, found: Vec<Option<ConfigValue>>) -> (r: Option<ConfigValue>)
    ensures
        r == lookup_value(priorities@, found@),
        r is None <==> forall|j: int| 0 <= j < priorities@.len() && j < found@.len() ==> #[trigger] found@[j] is None,
        forall|i: int| #[trigger] is_chosen_source(priorities@, holders(found@), i) ==> r == found@[i],
{
    let ghost fs = found@;
    let mut has_key: Vec<bool> = Vec::new();
    let mut i: usize = 0;
    while i < found.len()
        invariant
            found@ == fs,
            i <= fs.len(),
            has_key@ == holders(fs).take(i as int),
        decreases found.len() - i,
    {
        has_key.push(found[i].is_some());
        i = i + 1;
        assert(has_key@ =~= holders(fs).take(i as int));
    }
    assert(has_key@ =~= holders(fs));
    let mut found = found;
    match first_source_with_key(priorities, &has_key) {
        Some(k) => {
            proof {
                assert forall|i: int| #[trigger] is_chosen_source(priorities@, holders(fs), i) implies i == k by {
                    lemma_chosen_source_unique(priorities@, holders(fs), i, k as int);
                }
                let c = choose|i: int| #[trigger] is_chosen_source(priorities@, holders(fs), i);
                assert(c == k);
                assert(holders(fs)[k as int]);
            }
            found.remove(k)
        },
        None => {
            proof {
                assert forall|i: int| !#[trigger] is_chosen_source(priorities@, holders(fs), i) by {
                    if is_chosen_source(priorities@, holders(fs), i) {
                        assert(holders(fs)[i]);
                    }
                }
                assert forall|j: int| 0 <= j < priorities@.len() && j < fs.len() implies #[trigger] fs[j] is None by {
                    assert(!holders(fs)[j]);
                }
            }
            None
        },
    }
}

} // verus!

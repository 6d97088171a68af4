//! Aspect-oriented programming: join points, the pointcut language that
//! selects them, the error details handed to aspects, and the plugin and
//! post-processor that switch aspects on for service beans.

use vstd::prelude::*;
use crate::matching::{regex_compiles, regex_is_match, regex_match};
use crate::text::{char_is_space, char_is_whitespace, chars_of, concat2, join, join_strings, owned, str_equal, string_of, string_views};

verus! {

/// When an advice runs relative to the method it advises.
#[derive(Clone, Copy, Debug, PartialEq, Eq, Structural)]
pub enum AdviceType {
    /// Before the method.
    Before,
    /// After the method, whatever its outcome.
    After,
    /// After the method returned normally.
    AfterReturning,
    /// After the method failed.
    AfterThrowing,
    /// Around the method, deciding whether and how it runs.
    Around,
}

#[verifier::external_type_specification]
#[verifier::external_body]
pub struct ExInstant(std::time::Instant);

/// Reads the monotonic clock with `std::time::Instant::now`. Nothing is
/// stated of the result: it is the time of the call.
#[verifier::external_body]
fn instant_now() -> (t: std::time::Instant) {
    std::time::Instant::now()
}

/// A point in the execution of a program where an aspect may act: a call of
/// `method_name` on a value of type `target_type`, and when it happened.
pub struct JoinPoint {
    /// The type of the target object.
    pub target_type: &'static str,
    /// The called method.
    pub method_name: &'static str,
    /// When the join point was created.
    pub timestamp: std::time::Instant,
}

impl JoinPoint {
    /// A join point for a call of `method_name` on `target_type`, created
    /// now.
    pub fn new(target_type: &'static str, method_name: &'static str) -> (j: Self)
        ensures
            j.target_type@ == target_type@,
            j.method_name@ == method_name@,
    {
        JoinPoint { target_type, method_name, timestamp: instant_now() }
    }

    /// The method signature: the type, `::` and the method.
    pub fn signature(&self) -> (r: String)
        ensures
            r@ == self.target_type@ + "::"@ + self.method_name@,
    {
        let mut r = concat2(self.target_type, "::");
        r.append(self.method_name);
        r
    }

    /// The type of the target object.
    pub fn get_target_type(&self) -> (r: &'static str)
        ensures
            r@ == self.target_type@,
    {
        self.target_type
    }

    /// The called method.
    pub fn get_method_name(&self) -> (r: &'static str)
        ensures
            r@ == self.method_name@,
    {
        self.method_name
    }

    /// When the join point was created.
    pub fn get_timestamp(&self) -> (r: &std::time::Instant)
        ensures
            *r == self.timestamp,
    {
        &self.timestamp
    }
}

/// An expression selecting join points by the type and method they concern.
pub enum PointcutExpression {
    /// Every join point.
    All,
    /// Join points whose type matches the wildcard pattern.
    TypePattern(String),
    /// Join points whose method matches the wildcard pattern.
    MethodPattern(String),
    /// Join points whose type and method match the two wildcard patterns.
    Execution { type_pattern: String, method_pattern: String },
    /// Join points whose type the regular expression matches.
    TypeRegex(String),
    /// Join points whose method the regular expression matches.
    MethodRegex(String),
    /// Join points that both expressions select.
    And(Box<PointcutExpression>, Box<PointcutExpression>),
    /// Join points that either expression selects.
    Or(Box<PointcutExpression>, Box<PointcutExpression>),
    /// Join points that the expression does not select.
    Not(Box<PointcutExpression>),
}

/// Whether the wildcard pattern `p` matches all of `t`: `*` matches any run
/// of characters, the empty one included, and every other character of the
/// pattern matches only itself.
pub open spec fn glob_matches(p: Seq<char>, t: Seq<char>) -> bool
    decreases p.len(), t.len(),
{
    if p.len() == 0 {
        t.len() == 0
    } else if p[0] == '*' {
        glob_matches(p.drop_first(), t) || (t.len() > 0 && glob_matches(p, t.drop_first()))
    } else {
        t.len() > 0 && p[0] == t[0] && glob_matches(p.drop_first(), t.drop_first())
    }
}

/// Whether the suffix of `p` from `i` matches the suffix of `t` from `j`.
pub open spec fn glob_from(p: Seq<char>, t: Seq<char>, i: int, j: int) -> bool {
    glob_matches(p.skip(i), t.skip(j))
}

/// One step of `glob_matches` on suffixes.
proof fn lemma_glob_step(p: Seq<char>, t: Seq<char>, i: int, j: int)
    requires
        0 <= i <= p.len(),
        0 <= j <= t.len(),
    ensures
        i == p.len() ==> (glob_from(p, t, i, j) == (j == t.len())),
        i < p.len() && p[i] == '*' ==> glob_from(p, t, i, j) == (glob_from(p, t, i + 1, j) || (j
            < t.len() && glob_from(p, t, i, j + 1))),
        i < p.len() && p[i] != '*' ==> glob_from(p, t, i, j) == (j < t.len() && p[i] == t[j]
            && glob_from(p, t, i + 1, j + 1)),
{
    if i < p.len() {
        assert(p.skip(i).drop_first() =~= p.skip(i + 1));
        assert(p.skip(i)[0] == p[i]);
    }
    if j < t.len() {
        assert(t.skip(j).drop_first() =~= t.skip(j + 1));
        assert(t.skip(j)[0] == t[j]);
    }
}

/// Two non-empty sequences with the same head and the same tail are equal.
proof fn lemma_cons_equal(a: Seq<char>, b: Seq<char>)
    requires
        a.len() > 0,
        b.len() > 0,
        a[0] == b[0],
        a.drop_first() == b.drop_first(),
    ensures
        a == b,
{
    assert(a.drop_first().len() == a.len() - 1);
    assert(b.drop_first().len() == b.len() - 1);
    assert(a.len() == b.len());
    assert forall|i: int| 0 <= i < a.len() implies a[i] == b[i] by {
        if i > 0 {
            assert(a[i] == a.drop_first()[i - 1]);
            assert(b[i] == b.drop_first()[i - 1]);
        }
    }
    assert(a =~= b);
}

/// The pattern `*` matches every target.
pub proof fn lemma_star_matches_all(t: Seq<char>)
    ensures
        glob_matches(seq!['*'], t),
    decreases t.len(),
{
    assert(seq!['*'].drop_first() =~= Seq::<char>::empty());
    assert(glob_matches(Seq::<char>::empty(), t) == (t.len() == 0));
    if t.len() > 0 {
        lemma_star_matches_all(t.drop_first());
    }
}

/// A pattern without `*` matches exactly the target equal to it.
pub proof fn lemma_plain_pattern_matches_itself(w: Seq<char>, t: Seq<char>)
    requires
        !w.contains('*'),
    ensures
        glob_matches(w, t) <==> w == t,
    decreases w.len(),
{
    if w.len() == 0 {
        if t.len() == 0 {
            assert(w =~= t);
        }
    } else {
        assert(w[0] != '*') by {
            if w[0] == '*' {
                assert(w.contains('*'));
            }
        }
        assert(!w.drop_first().contains('*')) by {
            if w.drop_first().contains('*') {
                let k = choose|k: int| 0 <= k < w.drop_first().len() && w.drop_first()[k] == '*';
                assert(w[k + 1] == '*');
            }
        }
        if t.len() > 0 {
            lemma_plain_pattern_matches_itself(w.drop_first(), t.drop_first());
            if w[0] == t[0] && w.drop_first() == t.drop_first() {
                lemma_cons_equal(w, t);
            }
            if w == t {
                assert(w.drop_first() =~= t.drop_first());
            }
        }
    }
}

/// A plain word followed by `*` matches exactly the targets that start with
/// the word.
pub proof fn lemma_prefix_pattern(w: Seq<char>, t: Seq<char>)
    requires
        !w.contains('*'),
    ensures
        glob_matches(w.push('*'), t) <==> (w.len() <= t.len() && t.take(w.len() as int) == w),
    decreases w.len(),
{
    if w.len() == 0 {
        assert(w.push('*') =~= seq!['*']);
        lemma_star_matches_all(t);
        assert(t.take(0) =~= w);
    } else {
        assert(w[0] != '*') by {
            if w[0] == '*' {
                assert(w.contains('*'));
            }
        }
        let rest = w.drop_first();
        assert(!rest.contains('*')) by {
            if rest.contains('*') {
                let k = choose|k: int| 0 <= k < rest.len() && rest[k] == '*';
                assert(w[k + 1] == '*');
            }
        }
        assert(w.push('*').drop_first() =~= rest.push('*'));
        assert(w.push('*')[0] == w[0]);
        if t.len() > 0 {
            lemma_prefix_pattern(rest, t.drop_first());
            let l = w.len() as int;
            if l <= t.len() {
                assert(t.drop_first().take(l - 1) =~= t.take(l).drop_first());
                if t.take(l) == w {
                    assert(t[0] == t.take(l)[0]);
                    assert(t.take(l).drop_first() =~= rest);
                }
                if t[0] == w[0] && t.drop_first().take(l - 1) == rest {
                    assert(t.take(l)[0] == t[0]);
                    lemma_cons_equal(t.take(l), w);
                }
            }
        }
    }
}

/// `*` followed by a plain word matches exactly the targets that end with
/// the word.
pub proof fn lemma_suffix_pattern(w: Seq<char>, t: Seq<char>)
    requires
        !w.contains('*'),
    ensures
        glob_matches(seq!['*'] + w, t) <==> (w.len() <= t.len() && t.skip(t.len() - w.len())
            == w),
    decreases t.len(),
{
    let sw = seq!['*'] + w;
    assert(sw.drop_first() =~= w);
    assert(sw[0] == '*');
    lemma_plain_pattern_matches_itself(w, t);
    if t.len() == w.len() {
        assert(t.skip(0) =~= t);
    }
    if t.len() > 0 {
        lemma_suffix_pattern(w, t.drop_first());
        if w.len() <= t.len() - 1 {
            assert(t.drop_first().skip(t.drop_first().len() - w.len()) =~= t.skip(
                t.len() - w.len(),
            ));
        }
    }
}

/// `w` occurs in `t` starting at position `k`.
pub open spec fn occurs_at(w: Seq<char>, t: Seq<char>, k: int) -> bool {
    0 <= k && k + w.len() <= t.len() && t.subrange(k, k + w.len()) == w
}

/// A plain word between two `*` matches exactly the targets that contain
/// the word.
pub proof fn lemma_infix_pattern(w: Seq<char>, t: Seq<char>)
    requires
        !w.contains('*'),
    ensures
        glob_matches(seq!['*'] + w.push('*'), t) <==> exists|k: int| #[trigger] occurs_at(w, t, k),
    decreases t.len(),
{
    let p = seq!['*'] + w.push('*');
    assert(p.drop_first() =~= w.push('*'));
    assert(p[0] == '*');
    lemma_prefix_pattern(w, t);
    if glob_matches(w.push('*'), t) {
        assert(t.take(w.len() as int) =~= t.subrange(0, w.len() as int));
        assert(occurs_at(w, t, 0));
    }
    if t.len() > 0 {
        let t2 = t.drop_first();
        lemma_infix_pattern(w, t2);
        if glob_matches(p, t2) {
            let k = choose|k: int| #[trigger] occurs_at(w, t2, k);
            assert(t.subrange(k + 1, k + 1 + w.len()) =~= t2.subrange(k, k + w.len()));
            assert(occurs_at(w, t, k + 1));
        }
    }
    if exists|k: int| #[trigger] occurs_at(w, t, k) {
        let k = choose|k: int| #[trigger] occurs_at(w, t, k);
        if k == 0 {
            assert(t.take(w.len() as int) =~= t.subrange(0, w.len() as int));
        } else {
            let t2 = t.drop_first();
            assert(t.subrange(k, k + w.len()) =~= t2.subrange(k - 1, k - 1 + w.len()));
            assert(occurs_at(w, t2, k - 1));
        }
    }
}

/// Whether the expression `e` selects a join point on type `t` and method
/// `m`.
pub open spec fn selects(e: PointcutExpression, t: Seq<char>, m: Seq<char>) -> bool
    decreases e,
{
    match e {
        PointcutExpression::All => true,
        PointcutExpression::TypePattern(p) => glob_matches(p@, t),
        PointcutExpression::MethodPattern(p) => glob_matches(p@, m),
        PointcutExpression::Execution { type_pattern, method_pattern } =>
            glob_matches(type_pattern@, t) && glob_matches(method_pattern@, m),
        PointcutExpression::TypeRegex(p) => regex_compiles(p@) && regex_is_match(p@, t),
        PointcutExpression::MethodRegex(p) => regex_compiles(p@) && regex_is_match(p@, m),
        PointcutExpression::And(l, r) => selects(*l, t, m) && selects(*r, t, m),
        PointcutExpression::Or(l, r) => selects(*l, t, m) || selects(*r, t, m),
        PointcutExpression::Not(x) => !selects(*x, t, m),
    }
}

/// The textual form of an expression.
pub open spec fn description(e: PointcutExpression) -> Seq<char>
    decreases e,
{
    match e {
        PointcutExpression::All => "All"@,
        PointcutExpression::TypePattern(p) => "TypePattern("@ + p@ + ")"@,
        PointcutExpression::MethodPattern(p) => "MethodPattern("@ + p@ + ")"@,
        PointcutExpression::Execution { type_pattern, method_pattern } =>
            "Execution("@ + type_pattern@ + "."@ + method_pattern@ + ")"@,
        PointcutExpression::TypeRegex(_) => "TypeRegex(...)"@,
        PointcutExpression::MethodRegex(_) => "MethodRegex(...)"@,
        PointcutExpression::And(l, r) => "And("@ + description(*l) + ", "@ + description(*r) + ")"@,
        PointcutExpression::Or(l, r) => "Or("@ + description(*l) + ", "@ + description(*r) + ")"@,
        PointcutExpression::Not(x) => "Not("@ + description(*x) + ")"@,
    }
}

/// The whitespace-separated words of `s`, in order.
pub open spec fn words(s: Seq<char>) -> Seq<Seq<char>>
    decreases s.len(),
{
    if s.len() == 0 {
        Seq::empty()
    } else {
        let w = words(s.drop_last());
        let c = s.last();
        if char_is_whitespace(c) {
            w
        } else if s.len() >= 2 && !char_is_whitespace(s[s.len() - 2]) {
            w.update(w.len() - 1, w.last().push(c))
        } else {
            w.push(seq![c])
        }
    }
}

/// `s` with every trailing `(..)` removed.
pub open spec fn strip_arguments(s: Seq<char>) -> Seq<char>
    decreases s.len(),
{
    if s.len() >= 4 && s.subrange(s.len() - 4, s.len() as int) == "(..)"@ {
        strip_arguments(s.subrange(0, s.len() - 4))
    } else {
        s
    }
}

/// `e` is what `PointcutExpression::execution` reads from `s`: nothing
/// selective without a second word; for a second word with a dot, the part
/// before its first dot as the type pattern and the rest, without trailing
/// `(..)`, as the method pattern; otherwise the second word as a method
/// pattern.
pub open spec fn is_execution_of(e: PointcutExpression, s: Seq<char>) -> bool {
    let parts = words(s);
    if parts.len() < 2 {
        e is All
    } else if parts[1].contains('.') {
        exists|k: int| 0 <= k < parts[1].len() && #[trigger] parts[1][k] == '.'
            && (forall|j: int| 0 <= j < k ==> parts[1][j] != '.')
            && (e matches PointcutExpression::Execution { type_pattern, method_pattern }
            && type_pattern@ == parts[1].subrange(0, k)
            && method_pattern@ == strip_arguments(parts[1].subrange(k + 1, parts[1].len() as int)))
    } else {
        e matches PointcutExpression::MethodPattern(p) && p@ == parts[1]
    }
}

/// The words of `v`, as characters.
fn split_words(v: &Vec<char>) -> (r: Vec<Vec<char>>)
    ensures
        r@.map_values(|w: Vec<char>| w@) == words(v@),
{
    let mut out: Vec<Vec<char>> = Vec::new();
    let mut i: usize = 0;
    while i < v.len()
        invariant
            i <= v@.len(),
            out@.map_values(|w: Vec<char>| w@) == words(v@.take(i as int)),
        decreases v.len() - i,
    {
        let c = v[i];
        let ghost prefix = v@.take(i as int);
        let ghost before = out@;
        proof {
            assert(v@.take(i + 1).drop_last() =~= prefix);
            assert(v@.take(i + 1).last() == c);
        }
        if !char_is_space(c) {
            if i >= 1 && !char_is_space(v[i - 1]) {
                proof {
                    assert(v@.take(i + 1)[i - 1] == v@[i - 1]);
                    lemma_words_last_nonempty(prefix);
                }
                let last = out.len() - 1;
                let mut w = out.remove(last);
                w.push(c);
                out.push(w);
                proof {
                    let ws = before.map_values(|w: Vec<char>| w@);
                    assert(out@.map_values(|w: Vec<char>| w@) =~= ws.update(ws.len() - 1, ws.last().push(c)));
                }
            } else {
                let mut w: Vec<char> = Vec::new();
                w.push(c);
                out.push(w);
                proof {
                    if i >= 1 {
                        assert(v@.take(i + 1)[i - 1] == v@[i - 1]);
                    }
                    assert(out@.map_values(|w: Vec<char>| w@) =~= before.map_values(|w: Vec<char>| w@).push(seq![c]));
                }
            }
        }
        i = i + 1;
    }
    assert(v@.take(i as int) =~= v@);
    out
}

/// A string that ends with a character that is not whitespace has at least
/// one word.
proof fn lemma_words_last_nonempty(s: Seq<char>)
    requires
        s.len() >= 1,
        !char_is_whitespace(s.last()),
    ensures
        words(s).len() >= 1,
    decreases s.len(),
{
    if s.len() >= 2 && !char_is_whitespace(s[s.len() - 2]) {
        assert(s.drop_last().last() == s[s.len() - 2]);
        lemma_words_last_nonempty(s.drop_last());
    }
}

/// Removes every trailing `(..)` from `v`.
fn strip_trailing_arguments(v: Vec<char>) -> (r: Vec<char>)
    ensures
        r@ == strip_arguments(v@),
    decreases v@.len(),
{
    let n = v.len();
    if n >= 4 && v[n - 4] == '(' && v[n - 3] == '.' && v[n - 2] == '.' && v[n - 1] == ')' {
        let mut w = v;
        w.truncate(n - 4);
        proof {
            assert(v@.subrange(n - 4, n as int) =~= "(..)"@) by {
                reveal_strlit("(..)");
            }
            assert(w@ =~= v@.subrange(0, n - 4));
        }
        strip_trailing_arguments(w)
    } else {
        proof {
            if n >= 4 && v@.subrange(n - 4, n as int) == "(..)"@ {
                reveal_strlit("(..)");
                assert(v@.subrange(n - 4, n as int)[0] == '(');
                assert(v@.subrange(n - 4, n as int)[1] == '.');
                assert(v@.subrange(n - 4, n as int)[2] == '.');
                assert(v@.subrange(n - 4, n as int)[3] == ')');
            }
        }
        v
    }
}

/// Position of the first `c` in `v`.
fn first_position(v: &Vec<char>, c: char) -> (r: Option<usize>)
    ensures
        match r {
            Some(k) => k < v@.len() && v@[k as int] == c && forall|j: int| 0 <= j < k ==> v@[j] != c,
            None => !v@.contains(c),
        },
{
    let mut i: usize = 0;
    while i < v.len()
        invariant
            i <= v@.len(),
            forall|j: int| 0 <= j < i ==> v@[j] != c,
        decreases v.len() - i,
    {
        if v[i] == c {
            return Some(i);
        }
        i = i + 1;
    }
    None
}

/// The characters of `v` from `start` to `end`.
fn slice_chars(v: &Vec<char>, start: usize, end: usize) -> (r: Vec<char>)
    requires
        start <= end <= v@.len(),
    ensures
        r@ == v@.subrange(start as int, end as int),
{
    let mut out: Vec<char> = Vec::new();
    let mut i = start;
    while i < end
        invariant
            start <= i <= end,
            end <= v@.len(),
            out@ == v@.subrange(start as int, i as int),
        decreases end - i,
    {
        out.push(v[i]);
        i = i + 1;
        assert(out@ =~= v@.subrange(start as int, i as int));
    }
    out
}

impl PointcutExpression {
    /// Whether the wildcard pattern `pattern` matches all of `target`: `*`
    /// matches any run of characters, so `*` matches everything, `User*`
    /// every target that starts with `User`, `*Service` every one that ends
    /// with `Service` and `*Service*` every one that contains it; every other
    /// character matches only itself, and a pattern without `*` matches only
    /// itself.
    pub fn pattern_matches(pattern: &str, target: &str) -> (r: bool)
        ensures
            r == glob_matches(pattern@, target@),
    {
        let p = chars_of(pattern);
        let t = chars_of(target);
        let m = p.len();
        let n = t.len();
        let ghost ps = p@;
        let ghost ts = t@;
        // `row[j]` is whether the pattern from `i` matches the target from
        // `j`, for `j < n`; `row_end` is the same for `j == n`.
        let mut row: Vec<bool> = Vec::new();
        let mut k: usize = 0;
        while k < n
            invariant
                k <= n,
                n == ts.len(),
                m == ps.len(),
                row.len() == k,
                forall|x: int| 0 <= x < k ==> #[trigger] row@[x] == glob_from(ps, ts, m as int, x),
            decreases n - k,
        {
            proof {
                lemma_glob_step(ps, ts, m as int, k as int);
            }
            row.push(false);
            k = k + 1;
        }
        let mut row_end = true;
        proof {
            lemma_glob_step(ps, ts, m as int, n as int);
        }
        let mut i: usize = m;
        while i > 0
            invariant
                i <= m,
                n == ts.len(),
                m == ps.len(),
                p@ == ps,
                t@ == ts,
                row.len() == n,
                row_end == glob_from(ps, ts, i as int, n as int),
                forall|x: int| 0 <= x < n ==> #[trigger] row@[x] == glob_from(ps, ts, i as int, x),
            decreases i,
        {
            i = i - 1;
            let star = p[i] == '*';
            let cur_end = if star { row_end } else { false };
            proof {
                lemma_glob_step(ps, ts, i as int, n as int);
            }
            let mut cur: Vec<bool> = Vec::new();
            let mut k: usize = 0;
            while k < n
                invariant
                    k <= n,
                    cur.len() == k,
                decreases n - k,
            {
                cur.push(false);
                k = k + 1;
            }
            let mut j: usize = n;
            let mut right = cur_end;
            while j > 0
                invariant
                    i < m,
                    j <= n,
                    n == ts.len(),
                    m == ps.len(),
                    p@ == ps,
                    t@ == ts,
                    star == (ps[i as int] == '*'),
                    row.len() == n,
                    cur.len() == n,
                    row_end == glob_from(ps, ts, i + 1, n as int),
                    forall|x: int| 0 <= x < n ==> #[trigger] row@[x] == glob_from(ps, ts, i + 1, x),
                    right == glob_from(ps, ts, i as int, j as int),
                    forall|x: int| j <= x < n ==> #[trigger] cur@[x] == glob_from(ps, ts, i as int, x),
                decreases j,
            {
                j = j - 1;
                proof {
                    lemma_glob_step(ps, ts, i as int, j as int);
                }
                let v = if star {
                    row[j] || right
                } else {
                    let diag = if j + 1 < n { row[j + 1] } else { row_end };
                    p[i] == t[j] && diag
                };
                cur.set(j, v);
                right = v;
            }
            row = cur;
            row_end = cur_end;
        }
        proof {
            assert(ps.skip(0) =~= ps);
            assert(ts.skip(0) =~= ts);
        }
        if n == 0 {
            row_end
        } else {
            row[0]
        }
    }

    /// Whether the expression selects `join_point`.
    pub fn matches(&self, join_point: &JoinPoint) -> (r: bool)
        ensures
            r == selects(*self, join_point.target_type@, join_point.method_name@),
        decreases self,
    {
        match self {
            PointcutExpression::All => true,
            PointcutExpression::TypePattern(p) => Self::pattern_matches(p.as_str(), join_point.target_type),
            PointcutExpression::MethodPattern(p) => Self::pattern_matches(p.as_str(), join_point.method_name),
            PointcutExpression::Execution { type_pattern, method_pattern } => {
                Self::pattern_matches(type_pattern.as_str(), join_point.target_type)
                    && Self::pattern_matches(method_pattern.as_str(), join_point.method_name)
            },
            PointcutExpression::TypeRegex(p) => {
                match regex_match(p.as_str(), join_point.target_type) {
                    Ok(b) => b,
                    Err(_) => false,
                }
            },
            PointcutExpression::MethodRegex(p) => {
                match regex_match(p.as_str(), join_point.method_name) {
                    Ok(b) => b,
                    Err(_) => false,
                }
            },
            PointcutExpression::And(l, r) => l.matches(join_point) && r.matches(join_point),
            PointcutExpression::Or(l, r) => l.matches(join_point) || r.matches(join_point),
            PointcutExpression::Not(x) => !x.matches(join_point),
        }
    }

    /// Reads an execution expression such as `* UserService.get_user(..)`:
    /// the second whitespace-separated word names the type and the method,
    /// separated by the first dot, the method without its trailing `(..)`.
    /// A second word without a dot is a method pattern; without a second
    /// word every join point is selected.
    pub fn execution(expression: &str) -> (e: Self)
        ensures
            is_execution_of(e, expression@),
    {
        let chars = chars_of(expression);
        let parts = split_words(&chars);
        if parts.len() < 2 {
            return PointcutExpression::All;
        }
        let ghost ws = parts@.map_values(|w: Vec<char>| w@);
        let method_part = &parts[1];
        assert(method_part@ == ws[1]);
        match first_position(method_part, '.') {
            Some(k) => {
                assert(ws[1][k as int] == '.');
                assert(k < method_part.len());
                let type_chars = slice_chars(method_part, 0, k);
                let rest = slice_chars(method_part, k + 1, method_part.len());
                let method_chars = strip_trailing_arguments(rest);
                PointcutExpression::Execution {
                    type_pattern: string_of(&type_chars),
                    method_pattern: string_of(&method_chars),
                }
            },
            None => PointcutExpression::MethodPattern(string_of(method_part)),
        }
    }

    /// Selects the join points that both `self` and `other` select.
    pub fn and(self, other: PointcutExpression) -> (e: Self)
        ensures
            e == PointcutExpression::And(Box::new(self), Box::new(other)),
    {
        PointcutExpression::And(Box::new(self), Box::new(other))
    }

    /// Selects the join points that `self` or `other` selects.
    pub fn or(self, other: PointcutExpression) -> (e: Self)
        ensures
            e == PointcutExpression::Or(Box::new(self), Box::new(other)),
    {
        PointcutExpression::Or(Box::new(self), Box::new(other))
    }

    /// Selects the join points that `self` does not select.
    pub fn not(self) -> (e: Self)
        ensures
            e == PointcutExpression::Not(Box::new(self)),
    {
        PointcutExpression::Not(Box::new(self))
    }

    /// The textual form of the expression.
    pub fn describe(&self) -> (r: String)
        ensures
            r@ == description(*self),
        decreases self,
    {
        match self {
            PointcutExpression::All => owned("All"),
            PointcutExpression::TypePattern(p) => {
                let mut r = concat2("TypePattern(", p.as_str());
                r.append(")");
                r
            },
            PointcutExpression::MethodPattern(p) => {
                let mut r = concat2("MethodPattern(", p.as_str());
                r.append(")");
                r
            },
            PointcutExpression::Execution { type_pattern, method_pattern } => {
                let mut r = concat2("Execution(", type_pattern.as_str());
                r.append(".");
                r.append(method_pattern.as_str());
                r.append(")");
                r
            },
            PointcutExpression::TypeRegex(_) => owned("TypeRegex(...)"),
            PointcutExpression::MethodRegex(_) => owned("MethodRegex(...)"),
            PointcutExpression::And(l, r) => {
                let ls = l.describe();
                let rs = r.describe();
                let mut out = concat2("And(", ls.as_str());
                out.append(", ");
                out.append(rs.as_str());
                out.append(")");
                out
            },
            PointcutExpression::Or(l, r) => {
                let ls = l.describe();
                let rs = r.describe();
                let mut out = concat2("Or(", ls.as_str());
                out.append(", ");
                out.append(rs.as_str());
                out.append(")");
                out
            },
            PointcutExpression::Not(x) => {
                let xs = x.describe();
                let mut out = concat2("Not(", xs.as_str());
                out.append(")");
                out
            },
        }
    }
}

/// Details of a failure handed to the aspects that act after a method
/// failed: the message, the name of the error type and the messages of the
/// errors that caused it, outermost first.
#[derive(Debug)]
pub struct ErrorInfo {
    /// The error message.
    pub message: String,
    /// The name of the error type.
    pub error_type: String,
    /// The messages of the causes, outermost first.
    pub source_chain: Vec<String>,
}

impl ErrorInfo {
    /// Details holding only a message, of an unknown type and without
    /// causes.
    pub fn simple(message: String) -> (e: Self)
        ensures
            e.message@ == message@,
            e.error_type@ == "Unknown"@,
            e.source_chain@.len() == 0,
    {
        ErrorInfo { message, error_type: owned("Unknown"), source_chain: Vec::new() }
    }

    /// The message followed, when there are causes, by a `Caused by:` line
    /// and one indented line per cause.
    pub fn full_description(&self) -> (r: String)
        ensures
            self.source_chain@.len() == 0 ==> r@ == self.message@,
            self.source_chain@.len() > 0 ==> r@ == self.message@ + "\nCaused by:\n  "@
                + join(string_views(self.source_chain@), "\n  "@),
    {
        if self.source_chain.len() == 0 {
            self.message.clone()
        } else {
            let mut r = concat2(self.message.as_str(), "\nCaused by:\n  ");
            let chain = join_strings(&self.source_chain, "\n  ");
            r.append(chain.as_str());
            r
        }
    }
}

/// The bean post-processor that wraps service beans with aspects.
pub struct AopBeanPostProcessor {
    /// Whether aspects are applied at all.
    pub enabled: bool,
}

impl AopBeanPostProcessor {
    /// An enabled post-processor.
    pub fn new() -> (p: Self)
        ensures
            p.enabled,
    {
        AopBeanPostProcessor { enabled: true }
    }

    /// A post-processor that applies no aspect.
    pub fn disabled() -> (p: Self)
        ensures
            !p.enabled,
    {
        AopBeanPostProcessor { enabled: false }
    }

    /// Whether aspects apply to the bean `bean_name`: the post-processor is
    /// enabled and the name ends with `Service`.
    pub fn should_apply_aop(&self, bean_name: &str) -> (r: bool)
        ensures
            r == (self.enabled && bean_name@.len() >= 7
                && bean_name@.subrange(bean_name@.len() - 7, bean_name@.len() as int) == "Service"@),
    {
        if !self.enabled {
            return false;
        }
        let v = chars_of(bean_name);
        let n = v.len();
        if n < 7 {
            return false;
        }
        let tail = slice_chars(&v, n - 7, n);
        let t = string_of(&tail);
        str_equal(t.as_str(), "Service")
    }

    /// Whether the bean `bean_name` is to be wrapped, given how many aspects
    /// are registered: some are, and aspects apply to the bean.
    pub fn matches_any_aspect(&self, bean_name: &str, registered_aspects: usize) -> (r: bool)
        ensures
            r == (registered_aspects > 0 && (self.enabled && bean_name@.len() >= 7
                && bean_name@.subrange(bean_name@.len() - 7, bean_name@.len() as int) == "Service"@)),
    {
        registered_aspects > 0 && self.should_apply_aop(bean_name)
    }

    /// The processor's name, `AopBeanPostProcessor`.
    pub fn name(&self) -> (r: &'static str)
        ensures
            r@ == "AopBeanPostProcessor"@,
    {
        "AopBeanPostProcessor"
    }

    /// The processor's place among post-processors: 2000.
    pub fn order(&self) -> (r: i32)
        ensures
            r == 2000,
    {
        2000
    }
}

/// The plugin that switches aspect support on.
pub struct AopPlugin {
    /// The plugin's name.
    pub name: String,
    /// Whether the plugin installs aspect support.
    pub enabled: bool,
}

impl AopPlugin {
    /// The enabled plugin, named `AopPlugin`.
    pub fn new() -> (p: Self)
        ensures
            p.name@ == "AopPlugin"@,
            p.enabled,
    {
        AopPlugin { name: owned("AopPlugin"), enabled: true }
    }

    /// The disabled plugin, named `AopPlugin`.
    pub fn disabled() -> (p: Self)
        ensures
            p.name@ == "AopPlugin"@,
            !p.enabled,
    {
        AopPlugin { name: owned("AopPlugin"), enabled: false }
    }

    /// The plugin renamed to `name`.
    pub fn with_name(self, name: &str) -> (p: Self)
        ensures
            p.name@ == name@,
            p.enabled == self.enabled,
    {
        AopPlugin { name: owned(name), enabled: self.enabled }
    }

    /// The plugin's name.
    pub fn name(&self) -> (r: &str)
        ensures
            r@ == self.name@,
    {
        self.name.as_str()
    }
}

} // verus!

verus! {

/// A step in running a method with the aspects that select it.
#[derive(Clone, Copy, Debug, PartialEq, Eq, Structural)]
pub enum AdviceStep {
    /// The before advice of the aspect at this position.
    Before(usize),
    /// The method itself.
    Proceed,
    /// The after-returning advice of the aspect at this position.
    AfterReturning(usize),
    /// The after-throwing advice of the aspect at this position.
    AfterThrowing(usize),
    /// The after advice of the aspect at this position.
    After(usize),
}

/// The first step with `n_aspects` matching aspects: the first before
/// advice, or the method itself when no aspect matches.
pub open spec fn first_advice(n_aspects: nat) -> AdviceStep {
    if n_aspects > 0 {
        AdviceStep::Before(0)
    } else {
        AdviceStep::Proceed
    }
}

/// The step after `step`, with `n_aspects` matching aspects (in the order
/// they were registered) and `failed` telling whether the method failed:
/// every before advice, then the method, then every after-returning advice
/// when it succeeded or every after-throwing advice when it failed, then
/// every after advice; `None` at the end.
pub open spec fn advice_after(step: AdviceStep, n_aspects: nat, failed: bool) -> Option<AdviceStep> {
    match step {
        AdviceStep::Before(i) => if i + 1 < n_aspects {
            Some(AdviceStep::Before((i + 1) as usize))
        } else {
            Some(AdviceStep::Proceed)
        },
        AdviceStep::Proceed => if n_aspects == 0 {
            None
        } else if failed {
            Some(AdviceStep::AfterThrowing(0))
        } else {
            Some(AdviceStep::AfterReturning(0))
        },
        AdviceStep::AfterReturning(i) => if i + 1 < n_aspects {
            Some(AdviceStep::AfterReturning((i + 1) as usize))
        } else {
            Some(AdviceStep::After(0))
        },
        AdviceStep::AfterThrowing(i) => if i + 1 < n_aspects {
            Some(AdviceStep::AfterThrowing((i + 1) as usize))
        } else {
            Some(AdviceStep::After(0))
        },
        AdviceStep::After(i) => if i + 1 < n_aspects {
            Some(AdviceStep::After((i + 1) as usize))
        } else {
            None
        },
    }
}

/// The steps of running a method with `n_aspects` matching aspects, in
/// order: the before advice of every aspect in registration order, the
/// method, the after-throwing advice of every aspect when the method failed
/// or the after-returning advice of every aspect when it succeeded, and the
/// after advice of every aspect.
pub open spec fn advice_steps(n_aspects: nat, failed: bool) -> Seq<AdviceStep> {
    Seq::new(n_aspects, |i: int| AdviceStep::Before(i as usize)) + seq![AdviceStep::Proceed] + Seq::new(
        n_aspects,
        |i: int|
            if failed {
                AdviceStep::AfterThrowing(i as usize)
            } else {
                AdviceStep::AfterReturning(i as usize)
            },
    ) + Seq::new(n_aspects, |i: int| AdviceStep::After(i as usize))
}

/// Advice runs in the order of `advice_steps`: starting at the first step,
/// each step is followed by the next one, so every advice of every matching
/// aspect runs exactly once, and nothing follows the last.
pub proof fn lemma_advice_order(n_aspects: nat, failed: bool, k: int)
    requires
        n_aspects <= usize::MAX,
        0 <= k < advice_steps(n_aspects, failed).len(),
    ensures
        advice_steps(n_aspects, failed)[0] == first_advice(n_aspects),
        k + 1 < advice_steps(n_aspects, failed).len() ==> advice_after(advice_steps(n_aspects, failed)[k], n_aspects, failed)
            == Some(advice_steps(n_aspects, failed)[k + 1]),
        k + 1 == advice_steps(n_aspects, failed).len() ==> advice_after(advice_steps(n_aspects, failed)[k], n_aspects, failed)
            is None,
{
    let s = advice_steps(n_aspects, failed);
    let n = n_aspects as int;
    assert(s.len() == 3 * n + 1);
    assert forall|j: int| 0 <= j < n implies #[trigger] s[j] == AdviceStep::Before(j as usize) by {}
    assert(s[n] == AdviceStep::Proceed);
    assert forall|j: int| n + 1 <= j < 2 * n + 1 implies #[trigger] s[j] == (if failed {
        AdviceStep::AfterThrowing((j - n - 1) as usize)
    } else {
        AdviceStep::AfterReturning((j - n - 1) as usize)
    }) by {}
    assert forall|j: int| 2 * n + 1 <= j < 3 * n + 1 implies #[trigger] s[j] == AdviceStep::After((j - 2 * n - 1) as usize) by {}
    if k + 1 < s.len() {
        assert(s[k + 1] == s[k + 1]);
    }
}

/// The first step of running a method with `n_aspects` matching aspects.
pub fn first_advice_step(n_aspects: usize) -> (r: AdviceStep)
    ensures
        r == first_advice(n_aspects as nat),
{
    if n_aspects > 0 {
        AdviceStep::Before(0)
    } else {
        AdviceStep::Proceed
    }
}

/// The step after `step`, as `advice_after` says.
pub fn next_advice_step(step: AdviceStep, n_aspects: usize, failed: bool) -> (r: Option<AdviceStep>)
    ensures
        r == advice_after(step, n_aspects as nat, failed),
{
    let more = |i: usize| -> (b: bool)
        ensures
            b == (i + 1 < n_aspects),
        { n_aspects > 0 && i < n_aspects - 1 };
    match step {
        AdviceStep::Before(i) => if more(i) {
            Some(AdviceStep::Before(i + 1))
        } else {
            Some(AdviceStep::Proceed)
        },
        AdviceStep::Proceed => if n_aspects == 0 {
            None
        } else if failed {
            Some(AdviceStep::AfterThrowing(0))
        } else {
            Some(AdviceStep::AfterReturning(0))
        },
        AdviceStep::AfterReturning(i) => if more(i) {
            Some(AdviceStep::AfterReturning(i + 1))
        } else {
            Some(AdviceStep::After(0))
        },
        AdviceStep::AfterThrowing(i) => if more(i) {
            Some(AdviceStep::AfterThrowing(i + 1))
        } else {
            Some(AdviceStep::After(0))
        },
        AdviceStep::After(i) => if more(i) {
            Some(AdviceStep::After(i + 1))
        } else {
            None
        },
    }
}

} // verus!

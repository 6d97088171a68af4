//! Dependency resolution: tracking beans under construction, validating the
//! declared dependency graph and ordering beans so that dependencies come
//! before the beans that depend on them.

use vstd::prelude::*;
use crate::text::{concat2, join, join_strings, owned, string_views};

verus! {

/// Appending `a` adds it to the set of elements, and keeps a sequence free
/// of duplicates when `a` was not already there.
pub proof fn lemma_push_to_set<A>(s: Seq<A>, a: A)
    ensures
        s.push(a).to_set() == s.to_set().insert(a),
        s.no_duplicates() && !s.contains(a) ==> s.push(a).no_duplicates(),
{
    let t = s.push(a);
    assert forall|x: A| t.to_set().contains(x) == s.to_set().insert(a).contains(x) by {
        if t.to_set().contains(x) {
            let j = choose|j: int| 0 <= j < t.len() && t[j] == x;
            if j < s.len() {
                assert(s[j] == x);
            }
        }
        if s.to_set().contains(x) {
            let j = choose|j: int| 0 <= j < s.len() && s[j] == x;
            assert(t[j] == x);
        }
        if x == a {
            assert(t[s.len() as int] == a);
        }
    }
    assert(t.to_set() =~= s.to_set().insert(a));
    if s.no_duplicates() && !s.contains(a) {
        assert forall|i: int, j: int| 0 <= i < t.len() && 0 <= j < t.len() && i != j implies t[i] != t[j] by {
            if i < s.len() && j < s.len() {
            } else if i < s.len() {
                assert(t[i] == s[i]);
            } else {
                assert(t[j] == s[j]);
            }
        }
    }
}

/// Removing the element at `i` from a sequence without duplicates removes
/// exactly that element from its set, and keeps it free of duplicates.
pub proof fn lemma_remove_to_set<A>(s: Seq<A>, i: int)
    requires
        s.no_duplicates(),
        0 <= i < s.len(),
    ensures
        s.remove(i).to_set() == s.to_set().remove(s[i]),
        s.remove(i).no_duplicates(),
{
    let t = s.remove(i);
    assert forall|x: A| t.to_set().contains(x) == s.to_set().remove(s[i]).contains(x) by {
        if t.to_set().contains(x) {
            let j = choose|j: int| 0 <= j < t.len() && t[j] == x;
            if j < i {
                assert(s[j] == x);
            } else {
                assert(s[j + 1] == x);
            }
        }
        if s.to_set().remove(s[i]).contains(x) {
            let j = choose|j: int| 0 <= j < s.len() && s[j] == x;
            assert(j != i);
            if j < i {
                assert(t[j] == x);
            } else {
                assert(t[j - 1] == x);
            }
        }
    }
    assert(t.to_set() =~= s.to_set().remove(s[i]));
    assert forall|a: int, b: int| 0 <= a < t.len() && 0 <= b < t.len() && a != b implies t[a] != t[b] by {
        let a2 = if a < i { a } else { a + 1 };
        let b2 = if b < i { b } else { b + 1 };
        assert(t[a] == s[a2]);
        assert(t[b] == s[b2]);
    }
}

// ---------------------------------------------------------------------------
// Creation tracker
// ---------------------------------------------------------------------------

/// Tracks the beans currently being created, to detect circular
/// dependencies while beans are instantiated.
pub struct CreationTracker {
    creating: Vec<String>,
}

impl View for CreationTracker {
    type V = Set<Seq<char>>;

    closed spec fn view(&self) -> Set<Seq<char>> {
        self.creating@.map_values(|s: String| s@).to_set()
    }
}

impl CreationTracker {
    /// Well-formedness: the names being created never repeat.
    pub closed spec fn wf(&self) -> bool {
        self.creating@.map_values(|s: String| s@).no_duplicates()
    }

    /// Creates a tracker with nothing being created.
    pub fn new() -> (t: Self)
        ensures
            t.wf(),
            t@ == Set::<Seq<char>>::empty(),
    {
        let t = CreationTracker { creating: Vec::new() };
        assert(t.creating@.map_values(|s: String| s@).to_set() =~= Set::<Seq<char>>::empty());
        t
    }

    /// Position of `name` among the beans being created.
    fn position(&self, name: &str) -> (r: Option<usize>)
        ensures
            match r {
                Some(i) => i < self.creating@.len() && self.creating@[i as int]@ == name@,
                None => !self@.contains(name@),
            },
    {
        let target = owned(name);
        let mut i: usize = 0;
        while i < self.creating.len()
            invariant
                i <= self.creating@.len(),
                target@ == name@,
                forall|j: int| 0 <= j < i ==> self.creating@[j]@ != name@,
            decreases self.creating.len() - i,
        {
            if self.creating[i] == target {
                return Some(i);
            }
            i = i + 1;
        }
        proof {
            let names = self.creating@.map_values(|s: String| s@);
            if names.to_set().contains(name@) {
                let j = choose|j: int| 0 <= j < names.len() && names[j] == name@;
                assert(self.creating@[j]@ == name@);
            }
        }
        None
    }

    /// Whether `name` is currently being created. Never fails.
    pub fn is_creating(&self, name: &str) -> (r: Result<bool, String>)
        ensures
            r == Ok::<bool, String>(self@.contains(name@)),
    {
        match self.position(name) {
            Some(i) => {
                proof {
                    let names = self.creating@.map_values(|s: String| s@);
                    assert(names[i as int] == name@);
                }
                Ok(true)
            },
            None => Ok(false),
        }
    }

    /// Marks `name` as being created. Returns `Ok(true)` when it was not yet
    /// being created and `Ok(false)` when it already was (a circular
    /// dependency); never fails.
    pub fn start_creating(&mut self, name: &str) -> (r: Result<bool, String>)
        requires
            old(self).wf(),
        ensures
            final(self).wf(),
            r == Ok::<bool, String>(!old(self)@.contains(name@)),
            final(self)@ == old(self)@.insert(name@),
    {
        match self.position(name) {
            Some(i) => {
                proof {
                    let names = self.creating@.map_values(|s: String| s@);
                    assert(names[i as int] == name@);
                    assert(self@.insert(name@) =~= self@);
                }
                Ok(false)
            },
            None => {
                let ghost old_names = self.creating@.map_values(|s: String| s@);
                self.creating.push(owned(name));
                proof {
                    let names = self.creating@.map_values(|s: String| s@);
                    assert(names =~= old_names.push(name@));
                    lemma_push_to_set(old_names, name@);
                }
                Ok(true)
            },
        }
    }

    /// Marks `name` as no longer being created. Never fails.
    pub fn finish_creating(&mut self, name: &str) -> (r: Result<(), String>)
        requires
            old(self).wf(),
        ensures
            final(self).wf(),
            r == Ok::<(), String>(()),
            final(self)@ == old(self)@.remove(name@),
    {
        match self.position(name) {
            Some(i) => {
                let ghost old_names = self.creating@.map_values(|s: String| s@);
                self.creating.remove(i);
                proof {
                    let names = self.creating@.map_values(|s: String| s@);
                    assert(names =~= old_names.remove(i as int));
                    lemma_remove_to_set(old_names, i as int);
                }
                Ok(())
            },
            None => {
                proof { assert(self@.remove(name@) =~= self@); }
                Ok(())
            },
        }
    }

    /// A snapshot of the beans being created, each once. Never fails.
    pub fn current_creating(&self) -> (r: Result<Vec<String>, String>)
        requires
            self.wf(),
        ensures
            r is Ok,
            r->Ok_0@.map_values(|s: String| s@).to_set() == self@,
            r->Ok_0@.map_values(|s: String| s@).no_duplicates(),
    {
        Ok(self.creating.clone())
    }
}

} // verus!

verus! {

// ---------------------------------------------------------------------------
// Dependency graph
// ---------------------------------------------------------------------------

/// The declared dependencies of the registered beans: for each bean name, in
/// registration order, the names of the beans it depends on.
pub struct DependencyGraph {
    entries: Vec<(String, Vec<String>)>,
}

/// The names of a graph's beans, in registration order.
pub open spec fn graph_names(g: Seq<(Seq<char>, Seq<Seq<char>>)>) -> Seq<Seq<char>> {
    g.map_values(|e: (Seq<char>, Seq<Seq<char>>)| e.0)
}

/// `name` is a registered bean of the graph.
pub open spec fn graph_has(g: Seq<(Seq<char>, Seq<Seq<char>>)>, name: Seq<char>) -> bool {
    graph_names(g).contains(name)
}

/// The declared dependencies of the registered bean `name`.
pub open spec fn graph_deps(g: Seq<(Seq<char>, Seq<Seq<char>>)>, name: Seq<char>) -> Seq<Seq<char>> {
    g[graph_names(g).index_of(name)].1
}

/// Every declared dependency names a registered bean.
pub open spec fn all_dependencies_registered(g: Seq<(Seq<char>, Seq<Seq<char>>)>) -> bool {
    forall|i: int, k: int|
        0 <= i < g.len() && 0 <= k < g[i].1.len() ==> graph_has(g, #[trigger] g[i].1[k])
}

/// `c` is a dependency cycle: a chain of at least two registered beans, each
/// depending on the next, that ends where it starts.
pub open spec fn is_dependency_cycle(g: Seq<(Seq<char>, Seq<Seq<char>>)>, c: Seq<Seq<char>>) -> bool {
    &&& c.len() >= 2
    &&& c[0] == c[c.len() - 1]
    &&& forall|k: int| 0 <= k < c.len() ==> graph_has(g, #[trigger] c[k])
    &&& forall|k: int| 0 <= k < c.len() - 1 ==> graph_deps(g, #[trigger] c[k]).contains(c[k + 1])
}

/// The graph has a dependency cycle.
pub open spec fn has_dependency_cycle(g: Seq<(Seq<char>, Seq<Seq<char>>)>) -> bool {
    exists|c: Seq<Seq<char>>| is_dependency_cycle(g, c)
}

impl View for DependencyGraph {
    type V = Seq<(Seq<char>, Seq<Seq<char>>)>;

    closed spec fn view(&self) -> Seq<(Seq<char>, Seq<Seq<char>>)> {
        self.entries@.map_values(
            |e: (String, Vec<String>)| (e.0@, e.1@.map_values(|s: String| s@)),
        )
    }
}

impl DependencyGraph {
    /// Well-formedness: no bean name is registered twice.
    pub open spec fn wf(&self) -> bool {
        graph_names(self@).no_duplicates()
    }

    /// An empty graph.
    pub fn new() -> (g: Self)
        ensures
            g.wf(),
            g@ == Seq::<(Seq<char>, Seq<Seq<char>>)>::empty(),
    {
        let g = DependencyGraph { entries: Vec::new() };
        assert(g@ =~= Seq::<(Seq<char>, Seq<Seq<char>>)>::empty());
        g
    }

    /// The number of registered beans.
    pub fn len(&self) -> (n: usize)
        ensures
            n == self@.len(),
    {
        self.entries.len()
    }

    /// The name of the `i`-th registered bean.
    pub fn name_at(&self, i: usize) -> (r: &String)
        requires
            i < self@.len(),
        ensures
            r@ == self@[i as int].0,
    {
        &self.entries[i].0
    }

    /// The declared dependencies of the `i`-th registered bean.
    pub fn deps_at(&self, i: usize) -> (r: &Vec<String>)
        requires
            i < self@.len(),
        ensures
            r@.map_values(|s: String| s@) == self@[i as int].1,
    {
        &self.entries[i].1
    }

    /// Index of the bean called `name`, if it is registered.
    pub fn index_of(&self, name: &String) -> (r: Option<usize>)
        requires
            self.wf(),
        ensures
            match r {
                Some(i) => i < self@.len() && self@[i as int].0 == name@
                    && graph_names(self@).index_of(name@) == i,
                None => !graph_has(self@, name@),
            },
    {
        let mut i: usize = 0;
        while i < self.entries.len()
            invariant
                self.wf(),
                i <= self@.len(),
                self.entries@.len() == self@.len(),
                forall|j: int| 0 <= j < i ==> self@[j].0 != name@,
            decreases self.entries.len() - i,
        {
            assert(self@[i as int].0 == self.entries@[i as int].0@);
            if self.entries[i].0 == *name {
                proof {
                    let names = graph_names(self@);
                    assert(names[i as int] == name@);
                    assert(names.contains(name@));
                    let k = names.index_of(name@);
                    assert(names[k] == name@);
                }
                return Some(i);
            }
            i = i + 1;
        }
        proof {
            let names = graph_names(self@);
            if names.contains(name@) {
                let k = choose|k: int| 0 <= k < names.len() && names[k] == name@;
                assert(self@[k].0 == name@);
            }
        }
        None
    }

    /// Whether a bean called `name` is registered.
    pub fn contains_key(&self, name: &String) -> (r: bool)
        requires
            self.wf(),
        ensures
            r == graph_has(self@, name@),
    {
        let r = self.index_of(name);
        proof {
            if let Some(i) = r {
                assert(graph_names(self@)[i as int] == name@);
            }
        }
        r.is_some()
    }

    /// Registers `name` with the dependencies `deps`, replacing the
    /// dependencies of a bean already registered under that name (which
    /// keeps its place).
    pub fn insert(&mut self, name: String, deps: Vec<String>)
        requires
            old(self).wf(),
        ensures
            final(self).wf(),
            graph_has(old(self)@, name@) ==> final(self)@ == old(self)@.update(
                graph_names(old(self)@).index_of(name@),
                (name@, deps@.map_values(|s: String| s@)),
            ),
            !graph_has(old(self)@, name@) ==> final(self)@ == old(self)@.push(
                (name@, deps@.map_values(|s: String| s@)),
            ),
    {
        let ghost old_view = self@;
        match self.index_of(&name) {
            Some(i) => {
                assert(graph_names(old_view)[i as int] == name@);
                self.entries.set(i, (name, deps));
                proof {
                    assert(self@ =~= old_view.update(i as int, (name@, deps@.map_values(|s: String| s@))));
                    assert(graph_names(self@) =~= graph_names(old_view));
                }
            },
            None => {
                let ghost entry = (name@, deps@.map_values(|s: String| s@));
                self.entries.push((name, deps));
                proof {
                    assert(self@ =~= old_view.push(entry));
                    assert(graph_names(self@) =~= graph_names(old_view).push(entry.0));
                    lemma_push_to_set(graph_names(old_view), entry.0);
                }
            },
        }
    }
}

// ---------------------------------------------------------------------------
// Resolution of names to positions
// ---------------------------------------------------------------------------

/// `adj` lists, for each bean of `g`, the positions of its dependencies.
pub open spec fn resolves(g: Seq<(Seq<char>, Seq<Seq<char>>)>, adj: Seq<Seq<usize>>) -> bool {
    &&& adj.len() == g.len()
    &&& forall|u: int| #![trigger adj[u]] 0 <= u < g.len() ==> adj[u].len() == g[u].1.len()
    &&& forall|u: int, k: int|
        0 <= u < g.len() && 0 <= k < adj[u].len() ==> (#[trigger] adj[u][k]) < g.len()
            && g[adj[u][k] as int].0 == g[u].1[k]
}

/// The dependency at (`i`, `k`) is the first one, in registration order and
/// then declaration order, that names no registered bean.
pub open spec fn first_missing(g: Seq<(Seq<char>, Seq<Seq<char>>)>, i: int, k: int) -> bool {
    &&& 0 <= i < g.len()
    &&& 0 <= k < g[i].1.len()
    &&& !graph_has(g, g[i].1[k])
    &&& forall|j: int, l: int|
        0 <= j < g.len() && 0 <= l < g[j].1.len() && (j < i || (j == i && l < k))
            ==> graph_has(g, #[trigger] g[j].1[l])
}

/// Positions of the dependencies of every bean, or the first dependency that
/// names no registered bean.
fn resolve_dependencies(g: &DependencyGraph) -> (r: Result<Vec<Vec<usize>>, (usize, usize)>)
    requires
        g.wf(),
    ensures
        match r {
            Ok(adj) => resolves(g@, positions(adj@))
                && all_dependencies_registered(g@),
            Err((i, k)) => first_missing(g@, i as int, k as int),
        },
{
    let n = g.len();
    let mut adj: Vec<Vec<usize>> = Vec::new();
    let mut i: usize = 0;
    while i < n
        invariant
            g.wf(),
            n == g@.len(),
            i <= n,
            adj@.len() == i,
            forall|u: int| #![trigger adj@[u]] 0 <= u < i ==> adj@[u]@.len() == g@[u].1.len(),
            forall|u: int, k: int|
                0 <= u < i && 0 <= k < adj@[u]@.len() ==> (#[trigger] adj@[u]@[k]) < g@.len()
                    && g@[adj@[u]@[k] as int].0 == g@[u].1[k],
            forall|j: int, l: int|
                0 <= j < i && 0 <= l < g@[j].1.len() ==> graph_has(g@, #[trigger] g@[j].1[l]),
        decreases n - i,
    {
        let deps = g.deps_at(i);
        let mut row: Vec<usize> = Vec::new();
        let mut k: usize = 0;
        while k < deps.len()
            invariant
                g.wf(),
                n == g@.len(),
                i < n,
                deps@.map_values(|s: String| s@) == g@[i as int].1,
                k <= deps@.len(),
                row@.len() == k,
                forall|l: int| 0 <= l < k ==> (#[trigger] row@[l]) < g@.len()
                    && g@[row@[l] as int].0 == g@[i as int].1[l],
                forall|j: int, l: int|
                    0 <= j < i && 0 <= l < g@[j].1.len() ==> graph_has(g@, #[trigger] g@[j].1[l]),
            decreases deps.len() - k,
        {
            assert(deps@[k as int]@ == g@[i as int].1[k as int]);
            match g.index_of(&deps[k]) {
                Some(p) => {
                    row.push(p);
                },
                None => {
                    proof {
                        assert forall|j: int, l: int|
                            0 <= j < g@.len() && 0 <= l < g@[j].1.len() && (j < i || (j == i && l < k))
                            implies graph_has(g@, #[trigger] g@[j].1[l]) by {
                            if j == i {
                                let p = row@[l];
                                assert(graph_names(g@)[p as int] == g@[i as int].1[l]);
                            }
                        }
                    }
                    return Err((i, k));
                },
            }
            k = k + 1;
        }
        proof {
            assert forall|l: int| 0 <= l < g@[i as int].1.len() implies graph_has(g@, #[trigger] g@[i as int].1[l]) by {
                let p = row@[l];
                assert(graph_names(g@)[p as int] == g@[i as int].1[l]);
            }
        }
        adj.push(row);
        i = i + 1;
    }
    proof {
        let a = positions(adj@);
        assert forall|u: int| #![trigger a[u]] 0 <= u < g@.len() implies a[u].len() == g@[u].1.len() by {
            assert(a[u] == adj@[u]@);
        }
        assert forall|u: int, k: int| 0 <= u < g@.len() && 0 <= k < a[u].len()
            implies (#[trigger] a[u][k]) < g@.len() && g@[a[u][k] as int].0 == g@[u].1[k] by {
            assert(a[u] == adj@[u]@);
        }
    }
    Ok(adj)
}

} // verus!

verus! {

// ---------------------------------------------------------------------------
// Cycle detection by depth-first search over bean positions
// ---------------------------------------------------------------------------

/// The dependency positions held in `adj`.
pub open spec fn positions(adj: Seq<Vec<usize>>) -> Seq<Seq<usize>> {
    adj.map_values(|a: Vec<usize>| a@)
}

/// Every listed dependency position is a bean of a graph with `adj.len()` beans.
pub open spec fn positions_in_range(adj: Seq<Seq<usize>>) -> bool {
    forall|u: int, k: int| 0 <= u < adj.len() && 0 <= k < adj[u].len() ==> (#[trigger] adj[u][k]) < adj.len()
}

/// `c` is a cycle of positions: each depends on the next, and it ends where it
/// starts.
pub open spec fn is_position_cycle(adj: Seq<Seq<usize>>, c: Seq<usize>) -> bool {
    &&& c.len() >= 2
    &&& c[0] == c[c.len() - 1]
    &&& forall|k: int| 0 <= k < c.len() ==> (#[trigger] c[k]) < adj.len()
    &&& forall|k: int| 0 <= k < c.len() - 1 ==> adj[#[trigger] c[k] as int].contains(c[k + 1])
}

/// The number of beans not yet visited.
pub open spec fn unvisited_count(visited: Seq<bool>) -> nat
    decreases visited.len(),
{
    if visited.len() == 0 {
        0
    } else {
        unvisited_count(visited.drop_last()) + if visited.last() { 0nat } else { 1nat }
    }
}

/// `v` occurs among the first `i` finished beans.
pub open spec fn finished_before(finished: Seq<usize>, i: int, v: usize) -> bool {
    exists|j: int| 0 <= j < i && finished[j] == v
}

/// The state of the depth-first search: `stack` is the current path, the
/// beans of `finished` have been fully explored (in that order), every
/// dependency of a finished bean finished earlier, and `visited` marks
/// exactly the beans on the path or finished.
#[verifier::opaque]
pub open spec fn search_state(
    adj: Seq<Seq<usize>>,
    visited: Seq<bool>,
    stack: Seq<usize>,
    finished: Seq<usize>,
) -> bool {
    &&& positions_in_range(adj)
    &&& visited.len() == adj.len()
    &&& forall|x: int| 0 <= x < stack.len() ==> (#[trigger] stack[x]) < adj.len()
    &&& forall|x: int| 0 <= x < finished.len() ==> (#[trigger] finished[x]) < adj.len()
    &&& forall|x: usize| #![trigger visited[x as int]] x < adj.len() ==>
        (visited[x as int] <==> (stack.contains(x) || finished.contains(x)))
    &&& stack.no_duplicates()
    &&& finished.no_duplicates()
    &&& stack.disjoint(finished)
    &&& forall|k: int| 0 <= k < stack.len() - 1 ==> adj[#[trigger] stack[k] as int].contains(stack[k + 1])
    &&& forall|i: int, k: int|
        0 <= i < finished.len() && 0 <= k < adj[finished[i] as int].len()
            ==> finished_before(finished, i, #[trigger] adj[finished[i] as int][k])
}

/// Every bean visited in `a` is visited in `b`.
pub open spec fn visited_grows(a: Seq<bool>, b: Seq<bool>) -> bool {
    &&& a.len() == b.len()
    &&& forall|x: int| #![trigger b[x]] 0 <= x < a.len() && a[x] ==> b[x]
}

/// `a` is a prefix of `b`.
pub open spec fn is_prefix(a: Seq<usize>, b: Seq<usize>) -> bool {
    &&& a.len() <= b.len()
    &&& forall|j: int| #![trigger b[j]] 0 <= j < a.len() ==> b[j] == a[j]
}

/// Marking more beans visited never increases the number of unvisited ones,
/// and marking a previously unvisited one decreases it.
pub proof fn lemma_unvisited_count_monotone(a: Seq<bool>, b: Seq<bool>, x: int)
    requires
        visited_grows(a, b),
    ensures
        unvisited_count(b) <= unvisited_count(a),
        0 <= x < a.len() && !a[x] && b[x] ==> unvisited_count(b) < unvisited_count(a),
    decreases a.len(),
{
    if a.len() > 0 {
        let a2 = a.drop_last();
        let b2 = b.drop_last();
        assert forall|i: int| 0 <= i < a2.len() && a2[i] implies #[trigger] b2[i] by {
            assert(a2[i] == a[i] && b2[i] == b[i]);
        }
        lemma_unvisited_count_monotone(a2, b2, x);
        if x == a.len() - 1 {
            lemma_unvisited_count_monotone(a2, b2, -1);
        }
    }
}

/// Position of `x` in `v`, if it occurs.
fn position_of(v: &Vec<usize>, x: usize) -> (r: Option<usize>)
    ensures
        match r {
            Some(p) => p < v@.len() && v@[p as int] == x,
            None => !v@.contains(x),
        },
{
    let mut i: usize = 0;
    while i < v.len()
        invariant
            i <= v@.len(),
            forall|j: int| 0 <= j < i ==> v@[j] != x,
        decreases v.len() - i,
    {
        if v[i] == x {
            return Some(i);
        }
        i = i + 1;
    }
    None
}

/// Entering `node`: marking it visited and pushing it on the path keeps the
/// search state.
proof fn lemma_search_enter(
    a: Seq<Seq<usize>>,
    vis0: Seq<bool>,
    vis1: Seq<bool>,
    stack0: Seq<usize>,
    fin0: Seq<usize>,
    node: usize,
)
    requires
        search_state(a, vis0, stack0, fin0),
        node < a.len(),
        !vis0[node as int],
        vis1 == vis0.update(node as int, true),
        stack0.len() > 0 ==> a[stack0.last() as int].contains(node),
    ensures
        search_state(a, vis1, stack0.push(node), fin0),
        unvisited_count(vis1) < unvisited_count(vis0),
        visited_grows(vis0, vis1),
        !fin0.contains(node),
{
    reveal(search_state);
    let st = stack0.push(node);
    if stack0.contains(node) {
        let j = choose|j: int| 0 <= j < stack0.len() && stack0[j] == node;
        assert(vis0[node as int]);
    }
    if fin0.contains(node) {
        let j = choose|j: int| 0 <= j < fin0.len() && fin0[j] == node;
        assert(vis0[node as int]);
    }
    lemma_push_to_set(stack0, node);
    assert forall|x: usize| #![trigger vis1[x as int]] x < a.len() implies
        (vis1[x as int] <==> (st.contains(x) || fin0.contains(x))) by {
        if x == node {
            assert(st[stack0.len() as int] == node);
        } else {
            assert(vis0[x as int] == vis1[x as int]);
            if st.contains(x) {
                let j = choose|j: int| 0 <= j < st.len() && st[j] == x;
                if j == stack0.len() {
                    assert(st[j] == node);
                    assert(false);
                }
                assert(st[j] == stack0[j]);
            }
            if stack0.contains(x) {
                let j = choose|j: int| 0 <= j < stack0.len() && stack0[j] == x;
                assert(st[j] == x);
            }
        }
    }
    assert forall|i: int, j: int| 0 <= i < st.len() && 0 <= j < fin0.len() implies st[i] != fin0[j] by {
        if i == stack0.len() {
            assert(fin0[j] != node);
        } else {
            assert(st[i] == stack0[i]);
        }
    }
    assert forall|k: int| 0 <= k < st.len() - 1 implies a[#[trigger] st[k] as int].contains(st[k + 1]) by {
        if k == stack0.len() - 1 {
            assert(st[k] == stack0.last());
        } else {
            assert(st[k] == stack0[k] && st[k + 1] == stack0[k + 1]);
        }
    }
    assert forall|x: int| 0 <= x < st.len() implies (#[trigger] st[x]) < a.len() by {
        if x < stack0.len() {
            assert(st[x] == stack0[x]);
        }
    }
    lemma_unvisited_count_monotone(vis0, vis1, node as int);
}

/// Leaving `node` after all its dependencies finished: popping it from the
/// path and appending it to the finished beans keeps the search state.
proof fn lemma_search_leave(
    a: Seq<Seq<usize>>,
    vis: Seq<bool>,
    stack0: Seq<usize>,
    fin2: Seq<usize>,
    node: usize,
)
    requires
        search_state(a, vis, stack0.push(node), fin2),
        node < a.len(),
        forall|j: int| 0 <= j < a[node as int].len() ==> fin2.contains(#[trigger] a[node as int][j]),
    ensures
        search_state(a, vis, stack0, fin2.push(node)),
{
    reveal(search_state);
    let sp = stack0.push(node);
    let f = fin2.push(node);
    assert(sp[stack0.len() as int] == node);
    assert(!fin2.contains(node)) by {
        if fin2.contains(node) {
            let j = choose|j: int| 0 <= j < fin2.len() && fin2[j] == node;
            assert(sp[stack0.len() as int] != fin2[j]);
        }
    }
    lemma_push_to_set(fin2, node);
    assert(f[fin2.len() as int] == node);
    assert forall|i: int, j: int| 0 <= i < stack0.len() && 0 <= j < stack0.len() && i != j implies stack0[i] != stack0[j] by {
        assert(sp[i] == stack0[i] && sp[j] == stack0[j]);
    }
    assert forall|x: usize| #![trigger vis[x as int]] x < a.len() implies
        (vis[x as int] <==> (stack0.contains(x) || f.contains(x))) by {
        if x == node {
            assert(sp.contains(node));
        } else {
            if sp.contains(x) {
                let j = choose|j: int| 0 <= j < sp.len() && sp[j] == x;
                if j == stack0.len() {
                    assert(false);
                }
                assert(stack0[j] == x);
            }
            if stack0.contains(x) {
                let j = choose|j: int| 0 <= j < stack0.len() && stack0[j] == x;
                assert(sp[j] == x);
            }
            if fin2.contains(x) {
                let j = choose|j: int| 0 <= j < fin2.len() && fin2[j] == x;
                assert(f[j] == x);
            }
            if f.contains(x) {
                let j = choose|j: int| 0 <= j < f.len() && f[j] == x;
                if j == fin2.len() {
                    assert(false);
                }
                assert(fin2[j] == x);
            }
        }
    }
    assert forall|i: int, j: int| 0 <= i < stack0.len() && 0 <= j < f.len() implies stack0[i] != f[j] by {
        assert(stack0[i] == sp[i]);
        if j < fin2.len() {
            assert(f[j] == fin2[j]);
        } else {
            assert(sp[i] != sp[stack0.len() as int]);
        }
    }
    assert forall|k: int| 0 <= k < stack0.len() - 1 implies a[#[trigger] stack0[k] as int].contains(stack0[k + 1]) by {
        assert(sp[k] == stack0[k] && sp[k + 1] == stack0[k + 1]);
    }
    assert forall|x: int| 0 <= x < stack0.len() implies (#[trigger] stack0[x]) < a.len() by {
        assert(sp[x] == stack0[x]);
    }
    assert forall|i: int, k: int|
        0 <= i < f.len() && 0 <= k < a[f[i] as int].len()
        implies finished_before(f, i, #[trigger] a[f[i] as int][k]) by {
        if i < fin2.len() {
            assert(f[i] == fin2[i]);
            assert(finished_before(fin2, i, a[fin2[i] as int][k]));
            let w = choose|w: int| 0 <= w < i && fin2[w] == a[fin2[i] as int][k];
            assert(f[w] == fin2[w]);
        } else {
            let v = a[node as int][k];
            assert(fin2.contains(v));
            let w = choose|w: int| 0 <= w < fin2.len() && fin2[w] == v;
            assert(f[w] == v);
        }
    }
    assert forall|x: int| 0 <= x < f.len() implies (#[trigger] f[x]) < a.len() by {
        if x < fin2.len() {
            assert(f[x] == fin2[x]);
        }
    }
}

/// What the search state says of one bean `x` and of the path.
proof fn lemma_search_facts(a: Seq<Seq<usize>>, vis: Seq<bool>, st: Seq<usize>, fin: Seq<usize>, x: usize)
    requires
        search_state(a, vis, st, fin),
        x < a.len(),
    ensures
        vis.len() == a.len(),
        positions_in_range(a),
        vis[x as int] && !st.contains(x) ==> fin.contains(x),
        forall|y: int| 0 <= y < st.len() ==> (#[trigger] st[y]) < a.len(),
        forall|k: int| 0 <= k < st.len() - 1 ==> a[#[trigger] st[k] as int].contains(st[k + 1]),
        fin.contains(x) ==> vis[x as int],
        st.no_duplicates(),
{
    reveal(search_state);
}

/// The part of the path from position `p` on, closed by `d`, is a cycle when
/// `d` sits at position `p` and the last bean on the path depends on `d`.
proof fn lemma_path_cycle(a: Seq<Seq<usize>>, st: Seq<usize>, p: int, d: usize, c: Seq<usize>)
    requires
        0 <= p < st.len(),
        st[p] == d,
        forall|x: int| 0 <= x < st.len() ==> (#[trigger] st[x]) < a.len(),
        forall|k: int| 0 <= k < st.len() - 1 ==> a[#[trigger] st[k] as int].contains(st[k + 1]),
        a[st.last() as int].contains(d),
        c == st.subrange(p, st.len() as int).push(d),
    ensures
        is_position_cycle(a, c),
{
    assert(c[0] == st[p]);
    assert forall|m: int| 0 <= m < c.len() implies (#[trigger] c[m]) < a.len() by {
        if m < c.len() - 1 {
            assert(c[m] == st[p + m]);
        }
    }
    assert forall|m: int| 0 <= m < c.len() - 1 implies a[#[trigger] c[m] as int].contains(c[m + 1]) by {
        assert(c[m] == st[p + m]);
        if m < c.len() - 2 {
            assert(c[m + 1] == st[p + m + 1]);
        }
    }
}

/// Explores the beans reachable from `node`, depth first. Returns a cycle of
/// positions as soon as a dependency leads back onto the current path;
/// otherwise `node` and everything reachable from it end up finished.
#[verifier::spinoff_prover]
#[verifier::rlimit(40)]
fn detect_cycle_dfs(
    node: usize,
    adj: &Vec<Vec<usize>>,
    visited: &mut Vec<bool>,
    stack: &mut Vec<usize>,
    finished: &mut Vec<usize>,
) -> (r: Option<Vec<usize>>)
    requires
        search_state(positions(adj@), old(visited)@, old(stack)@, old(finished)@),
        node < adj@.len(),
        !old(visited)@[node as int],
        old(stack)@.len() > 0 ==> adj@[old(stack)@.last() as int]@.contains(node),
    ensures
        match r {
            Some(c) => is_position_cycle(positions(adj@), c@) && c@.drop_last().no_duplicates(),
            None => {
                &&& search_state(positions(adj@), final(visited)@, final(stack)@, final(finished)@)
                &&& final(stack)@ == old(stack)@
                &&& is_prefix(old(finished)@, final(finished)@)
                &&& final(finished)@.contains(node)
                &&& visited_grows(old(visited)@, final(visited)@)
            },
        },
    decreases unvisited_count(old(visited)@),
{
    let ghost a = positions(adj@);
    let ghost vis0 = visited@;
    let ghost stack0 = stack@;
    let ghost fin0 = finished@;
    assert(a[node as int] == adj@[node as int]@);
    proof {
        lemma_search_facts(a, vis0, stack0, fin0, node);
        if stack0.len() > 0 {
            assert(stack0[stack0.len() - 1] < a.len());
            assert(a[stack0.last() as int] == adj@[stack0.last() as int]@);
        }
    }
    visited.set(node, true);
    stack.push(node);
    proof {
        lemma_search_enter(a, vis0, visited@, stack0, fin0, node);
    }
    proof {
        lemma_search_facts(a, visited@, stack@, finished@, node);
    }
    let n_deps = adj[node].len();
    let mut k: usize = 0;
    while k < n_deps
        invariant
            a == positions(adj@),
            vis0 == old(visited)@,
            search_state(a, visited@, stack@, finished@),
            stack@ == stack0.push(node),
            node < a.len(),
            n_deps == a[node as int].len(),
            k <= n_deps,
            forall|j: int| 0 <= j < k ==> finished@.contains(#[trigger] a[node as int][j]),
            visited_grows(vis0, visited@),
            unvisited_count(visited@) < unvisited_count(vis0),
            is_prefix(fin0, finished@),
        decreases n_deps - k,
    {
        let d = adj[node][k];
        assert(d == a[node as int][k as int]);
        proof {
            lemma_search_facts(a, visited@, stack@, finished@, node);
            assert(d < a.len());
            lemma_search_facts(a, visited@, stack@, finished@, d);
        }
        if !visited[d] {
            assert(stack@[stack@.len() - 1] == node);
            assert(a[node as int].contains(d));
            let ghost vis1 = visited@;
            let ghost fin1 = finished@;
            match detect_cycle_dfs(d, adj, visited, stack, finished) {
                Some(c) => {
                    return Some(c);
                },
                None => {
                    proof {
                        lemma_unvisited_count_monotone(vis1, visited@, -1);
                        assert forall|x: int| 0 <= x < vis0.len() && vis0[x] implies #[trigger] visited@[x] by {
                            assert(vis1[x]);
                        }
                        lemma_search_facts(a, visited@, stack@, finished@, d);
                        assert forall|j: int| 0 <= j < k + 1 implies finished@.contains(#[trigger] a[node as int][j]) by {
                            if j < k {
                                let v = a[node as int][j];
                                assert(fin1.contains(v));
                                let w = choose|w: int| 0 <= w < fin1.len() && fin1[w] == v;
                                assert(finished@[w] == v);
                            }
                        }
                        assert forall|j: int| 0 <= j < fin0.len() implies #[trigger] finished@[j] == fin0[j] by {
                            assert(finished@[j] == fin1[j]);
                        }
                    }
                },
            }
        } else {
            match position_of(stack, d) {
                Some(p) => {
                    let mut cycle: Vec<usize> = Vec::new();
                    let mut q: usize = p;
                    while q < stack.len()
                        invariant
                            p <= q <= stack@.len(),
                            p < stack@.len(),
                            cycle@ == stack@.subrange(p as int, q as int),
                        decreases stack.len() - q,
                    {
                        cycle.push(stack[q]);
                        q = q + 1;
                        assert(cycle@ =~= stack@.subrange(p as int, q as int));
                    }
                    cycle.push(d);
                    proof {
                        assert(stack@.last() == node);
                        lemma_path_cycle(a, stack@, p as int, d, cycle@);
                        lemma_search_facts(a, visited@, stack@, finished@, node);
                        let st = stack@;
                        assert(cycle@.drop_last() =~= st.subrange(p as int, st.len() as int));
                        assert forall|x: int, y: int|
                            0 <= x < cycle@.drop_last().len() && 0 <= y < cycle@.drop_last().len() && x != y
                            implies cycle@.drop_last()[x] != cycle@.drop_last()[y] by {
                            assert(cycle@.drop_last()[x] == st[p + x]);
                            assert(cycle@.drop_last()[y] == st[p + y]);
                        }
                    }
                    return Some(cycle);
                },
                None => {
                    proof {
                        assert(visited@[d as int]);
                        assert(finished@.contains(d));
                    }
                },
            }
        }
        k = k + 1;
    }
    let ghost fin2 = finished@;
    let ghost vis2 = visited@;
    stack.pop();
    finished.push(node);
    proof {
        assert(stack@ =~= stack0);
        lemma_search_leave(a, vis2, stack0, fin2, node);
        assert(finished@[fin2.len() as int] == node);
        assert forall|j: int| 0 <= j < fin0.len() implies #[trigger] finished@[j] == fin0[j] by {
            assert(finished@[j] == fin2[j]);
        }
    }
    None
}

/// The place of bean `v` in the finishing order.
pub open spec fn finish_rank(finished: Seq<usize>, v: usize) -> int {
    finished.index_of(v)
}

/// Along a dependency edge between finished beans the finishing rank drops.
proof fn lemma_rank_drops(a: Seq<Seq<usize>>, finished: Seq<usize>, u: usize, v: usize)
    requires
        finished.no_duplicates(),
        finished.contains(u),
        finished.contains(v),
        a[u as int].contains(v),
        forall|i: int, k: int|
            0 <= i < finished.len() && 0 <= k < a[finished[i] as int].len()
                ==> finished_before(finished, i, #[trigger] a[finished[i] as int][k]),
    ensures
        finish_rank(finished, v) < finish_rank(finished, u),
{
    let ru = finish_rank(finished, u);
    let rv = finish_rank(finished, v);
    assert(finished[ru] == u);
    assert(finished[rv] == v);
    let k = choose|k: int| 0 <= k < a[u as int].len() && a[u as int][k] == v;
    assert(finished_before(finished, ru, a[finished[ru] as int][k]));
    let j = choose|j: int| 0 <= j < ru && finished[j] == a[finished[ru] as int][k];
    assert(finished[j] == v);
}

/// Along a cycle whose beans all finished, ranks keep dropping from the start.
proof fn lemma_rank_along_cycle(a: Seq<Seq<usize>>, finished: Seq<usize>, c: Seq<usize>, m: int)
    requires
        finished.no_duplicates(),
        is_position_cycle(a, c),
        forall|x: usize| x < a.len() ==> finished.contains(x),
        forall|i: int, k: int|
            0 <= i < finished.len() && 0 <= k < a[finished[i] as int].len()
                ==> finished_before(finished, i, #[trigger] a[finished[i] as int][k]),
        1 <= m < c.len(),
    ensures
        finish_rank(finished, c[m]) < finish_rank(finished, c[0]),
    decreases m,
{
    assert(c[m - 1] < a.len() && c[m] < a.len());
    assert(a[c[m - 1] as int].contains(c[m]));
    lemma_rank_drops(a, finished, c[m - 1], c[m]);
    if m > 1 {
        lemma_rank_along_cycle(a, finished, c, m - 1);
    }
}

/// When every bean finished and each finished bean's dependencies finished
/// before it, there is no cycle.
proof fn lemma_finished_all_no_cycle(a: Seq<Seq<usize>>, finished: Seq<usize>)
    requires
        finished.no_duplicates(),
        forall|x: usize| x < a.len() ==> finished.contains(x),
        forall|i: int, k: int|
            0 <= i < finished.len() && 0 <= k < a[finished[i] as int].len()
                ==> finished_before(finished, i, #[trigger] a[finished[i] as int][k]),
    ensures
        forall|c: Seq<usize>| !#[trigger] is_position_cycle(a, c),
{
    assert forall|c: Seq<usize>| !#[trigger] is_position_cycle(a, c) by {
        if is_position_cycle(a, c) {
            lemma_rank_along_cycle(a, finished, c, c.len() - 1);
        }
    }
}

/// Searches the whole graph, bean by bean in registration order, and returns
/// the first cycle found, or `None` when there is none.
fn find_cycle(adj: &Vec<Vec<usize>>) -> (r: Option<Vec<usize>>)
    requires
        positions_in_range(positions(adj@)),
    ensures
        match r {
            Some(c) => is_position_cycle(positions(adj@), c@) && c@.drop_last().no_duplicates(),
            None => forall|c: Seq<usize>| !#[trigger] is_position_cycle(positions(adj@), c),
        },
{
    let ghost a = positions(adj@);
    let n = adj.len();
    let mut visited: Vec<bool> = vec![false; n];
    let mut stack: Vec<usize> = Vec::new();
    let mut finished: Vec<usize> = Vec::new();
    proof {
        reveal(search_state);
        assert forall|x: usize| #![trigger visited@[x as int]] x < a.len() implies
            (visited@[x as int] <==> (stack@.contains(x) || finished@.contains(x))) by {}
    }
    let mut i: usize = 0;
    while i < n
        invariant
            a == positions(adj@),
            n == a.len(),
            i <= n,
            search_state(a, visited@, stack@, finished@),
            stack@.len() == 0,
            forall|j: int| 0 <= j < i ==> #[trigger] visited@[j],
        decreases n - i,
    {
        proof {
            lemma_search_facts(a, visited@, stack@, finished@, i);
        }
        if !visited[i] {
            match detect_cycle_dfs(i, adj, &mut visited, &mut stack, &mut finished) {
                Some(c) => {
                    return Some(c);
                },
                None => {
                    proof {
                        lemma_search_facts(a, visited@, stack@, finished@, i);
                    }
                },
            }
        }
        i = i + 1;
    }
    proof {
        reveal(search_state);
        assert forall|x: usize| x < a.len() implies finished@.contains(x) by {
            assert(visited@[x as int]);
        }
        lemma_finished_all_no_cycle(a, finished@);
    }
    None
}

/// A cycle of positions names a dependency cycle of the beans at those
/// positions.
proof fn lemma_position_cycle_names(g: Seq<(Seq<char>, Seq<Seq<char>>)>, a: Seq<Seq<usize>>, c: Seq<usize>)
    requires
        graph_names(g).no_duplicates(),
        resolves(g, a),
        is_position_cycle(a, c),
    ensures
        is_dependency_cycle(g, c.map_values(|i: usize| g[i as int].0)),
        c.drop_last().no_duplicates() ==> c.map_values(|i: usize| g[i as int].0).drop_last().no_duplicates(),
{
    let names = graph_names(g);
    let nc = c.map_values(|i: usize| g[i as int].0);
    if c.drop_last().no_duplicates() {
        assert forall|x: int, y: int| 0 <= x < nc.drop_last().len() && 0 <= y < nc.drop_last().len() && x != y
            implies nc.drop_last()[x] != nc.drop_last()[y] by {
            assert(c.drop_last()[x] == c[x] && c.drop_last()[y] == c[y]);
            assert(c[x] < a.len() && c[y] < a.len());
            assert(names[c[x] as int] == nc[x]);
            assert(names[c[y] as int] == nc[y]);
        }
    }
    assert forall|k: int| 0 <= k < nc.len() implies graph_has(g, #[trigger] nc[k]) by {
        assert(c[k] < a.len());
        assert(names[c[k] as int] == nc[k]);
    }
    assert forall|k: int| 0 <= k < nc.len() - 1 implies graph_deps(g, #[trigger] nc[k]).contains(nc[k + 1]) by {
        let u = c[k];
        let v = c[k + 1];
        assert(u < a.len());
        assert(a[u as int].contains(v));
        let l = choose|l: int| 0 <= l < a[u as int].len() && a[u as int][l] == v;
        assert(g[v as int].0 == g[u as int].1[l]);
        assert(names[u as int] == nc[k]);
        let j = names.index_of(nc[k]);
        assert(names.contains(nc[k]));
        assert(names[j] == nc[k]);
        assert(j == u);
        assert(graph_deps(g, nc[k])[l] == nc[k + 1]);
    }
}

/// A dependency cycle of named beans is a cycle of their positions.
proof fn lemma_named_cycle_positions(g: Seq<(Seq<char>, Seq<Seq<char>>)>, a: Seq<Seq<usize>>, c: Seq<Seq<char>>)
    requires
        graph_names(g).no_duplicates(),
        g.len() <= usize::MAX,
        resolves(g, a),
        is_dependency_cycle(g, c),
    ensures
        is_position_cycle(a, c.map_values(|x: Seq<char>| graph_names(g).index_of(x) as usize)),
{
    let names = graph_names(g);
    let pc = c.map_values(|x: Seq<char>| names.index_of(x) as usize);
    assert forall|k: int| 0 <= k < c.len() implies names[names.index_of(#[trigger] c[k])] == c[k]
        && 0 <= names.index_of(c[k]) < g.len() by {
        assert(graph_has(g, c[k]));
    }
    assert forall|k: int| 0 <= k < pc.len() implies (#[trigger] pc[k]) < a.len() by {
        assert(names[names.index_of(c[k])] == c[k]);
    }
    assert forall|k: int| 0 <= k < pc.len() - 1 implies a[#[trigger] pc[k] as int].contains(pc[k + 1]) by {
        let u = names.index_of(c[k]);
        let w = names.index_of(c[k + 1]);
        assert(names[u] == c[k]);
        assert(names[w] == c[k + 1]);
        assert(graph_deps(g, c[k]).contains(c[k + 1]));
        let l = choose|l: int| 0 <= l < g[u].1.len() && g[u].1[l] == c[k + 1];
        let p = a[u][l];
        assert(a[u].len() == g[u].1.len());
        assert(p < g.len() && g[p as int].0 == g[u].1[l]);
        assert(names[p as int] == c[k + 1]);
        assert(p as int == w);
        assert(pc[k] == u as usize);
        assert(pc[k + 1] == w as usize);
        assert(a[u][l] == pc[k + 1]);
    }
    assert(pc[0] == pc[pc.len() - 1]);
}

/// What went wrong with a dependency graph.
pub enum DependencyValidationError {
    /// A chain of beans that depend on each other and ends where it starts.
    CircularDependency {
        /// The beans of the cycle; the first is repeated at the end.
        cycle: Vec<String>,
    },
    /// A declared dependency names no registered bean.
    MissingDependency {
        /// The bean that declares the dependency.
        bean: String,
        /// The dependency that is not registered.
        missing: String,
    },
}

impl DependencyValidationError {
    /// The human-readable description of the error.
    pub fn to_string(&self) -> (r: String)
        ensures
            match self {
                DependencyValidationError::CircularDependency { cycle } =>
                    r@ == "Circular dependency detected: "@ + join(string_views(cycle@), " -> "@),
                DependencyValidationError::MissingDependency { bean, missing } =>
                    r@ == "Bean '"@ + bean@ + "' depends on '"@ + missing@ + "' which is not registered"@,
            },
    {
        match self {
            DependencyValidationError::CircularDependency { cycle } => {
                let joined = join_strings(cycle, " -> ");
                concat2("Circular dependency detected: ", joined.as_str())
            },
            DependencyValidationError::MissingDependency { bean, missing } => {
                let mut out = concat2("Bean '", bean.as_str());
                out.append("' depends on '");
                out.append(missing.as_str());
                out.append("' which is not registered");
                out
            },
        }
    }
}

/// The names of the beans at the positions of `c`.
fn names_at(g: &DependencyGraph, c: &Vec<usize>) -> (r: Vec<String>)
    requires
        forall|k: int| 0 <= k < c@.len() ==> (#[trigger] c@[k]) < g@.len(),
    ensures
        string_views(r@) == c@.map_values(|i: usize| g@[i as int].0),
{
    let mut out: Vec<String> = Vec::new();
    let mut k: usize = 0;
    while k < c.len()
        invariant
            forall|k: int| 0 <= k < c@.len() ==> (#[trigger] c@[k]) < g@.len(),
            k <= c@.len(),
            string_views(out@) == c@.subrange(0, k as int).map_values(|i: usize| g@[i as int].0),
        decreases c.len() - k,
    {
        let name = g.name_at(c[k]).clone();
        let ghost prev = out@;
        let ghost nv = name@;
        out.push(name);
        proof {
            assert(nv == g@[c@[k as int] as int].0);
            assert(string_views(out@) =~= string_views(prev).push(nv));
            assert(c@.subrange(0, k + 1).map_values(|i: usize| g@[i as int].0)
                =~= c@.subrange(0, k as int).map_values(|i: usize| g@[i as int].0).push(nv));
        }
        k = k + 1;
    }
    assert(c@.subrange(0, c@.len() as int) =~= c@);
    out
}

/// Validates the dependency graph: first that every declared dependency is a
/// registered bean (reporting the first one that is not, in registration
/// order), then that no beans depend on each other in a cycle (reporting the
/// first cycle found by a depth-first search from each bean in registration
/// order, as the beans along it, each once, followed by the first again).
pub fn validate_dependency_graph(dependencies: &DependencyGraph) -> (r: Result<(), DependencyValidationError>)
    requires
        dependencies.wf(),
    ensures
        match r {
            Ok(()) => all_dependencies_registered(dependencies@) && !has_dependency_cycle(dependencies@),
            Err(DependencyValidationError::MissingDependency { bean, missing }) => exists|i: int, k: int|
                first_missing(dependencies@, i, k) && bean@ == dependencies@[i].0
                    && missing@ == dependencies@[i].1[k],
            Err(DependencyValidationError::CircularDependency { cycle }) =>
                all_dependencies_registered(dependencies@)
                    && is_dependency_cycle(dependencies@, string_views(cycle@))
                    && string_views(cycle@).drop_last().no_duplicates(),
        },
{
    let g = dependencies;
    match resolve_dependencies(g) {
        Err((i, k)) => {
            let bean = g.name_at(i).clone();
            let deps = g.deps_at(i);
            let missing = deps[k].clone();
            proof {
                assert(deps@.map_values(|s: String| s@)[k as int] == missing@);
            }
            Err(DependencyValidationError::MissingDependency { bean, missing })
        },
        Ok(adj) => {
            let ghost a = positions(adj@);
            proof {
                assert forall|u: int, k: int| 0 <= u < a.len() && 0 <= k < a[u].len()
                    implies (#[trigger] a[u][k]) < a.len() by {}
            }
            match find_cycle(&adj) {
                Some(c) => {
                    let cycle = names_at(g, &c);
                    proof {
                        lemma_position_cycle_names(g@, a, c@);
                    }
                    Err(DependencyValidationError::CircularDependency { cycle })
                },
                None => {
                    let n = g.len();
                    proof {
                        assert(g@.len() == n);
                        if has_dependency_cycle(g@) {
                            let nc = choose|nc: Seq<Seq<char>>| is_dependency_cycle(g@, nc);
                            lemma_named_cycle_positions(g@, a, nc);
                            let pc = nc.map_values(|x: Seq<char>| graph_names(g@).index_of(x) as usize);
                            assert(!is_position_cycle(a, pc));
                        }
                    }
                    Ok(())
                },
            }
        },
    }
}

} // verus!

verus! {

// ---------------------------------------------------------------------------
// Topological ordering (Kahn's algorithm)
// ---------------------------------------------------------------------------

/// The number of entries of `s` that are not in `done`.
pub open spec fn count_outside(s: Seq<usize>, done: Seq<usize>) -> nat
    decreases s.len(),
{
    if s.len() == 0 {
        0
    } else {
        count_outside(s.drop_last(), done) + if done.contains(s.last()) { 0nat } else { 1nat }
    }
}

/// Nothing is done: every entry counts.
proof fn lemma_count_outside_all(s: Seq<usize>)
    ensures
        count_outside(s, Seq::empty()) == s.len(),
    decreases s.len(),
{
    if s.len() > 0 {
        lemma_count_outside_all(s.drop_last());
    }
}

/// The number of occurrences of `x` in `v`.
fn count_occurrences(v: &Vec<usize>, x: usize) -> (c: usize)
    ensures
        c == occurrences(v@, x),
{
    let mut c: usize = 0;
    let mut k: usize = 0;
    while k < v.len()
        invariant
            k <= v@.len(),
            c == occurrences(v@.take(k as int), x),
            c <= k,
        decreases v.len() - k,
    {
        assert(v@.take(k + 1).drop_last() =~= v@.take(k as int));
        if v[k] == x {
            c = c + 1;
        }
        k = k + 1;
    }
    assert(v@.take(v@.len() as int) =~= v@);
    c
}

/// The number of occurrences of `x` in `s`.
pub open spec fn occurrences(s: Seq<usize>, x: usize) -> nat
    decreases s.len(),
{
    if s.len() == 0 {
        0
    } else {
        occurrences(s.drop_last(), x) + if s.last() == x { 1nat } else { 0nat }
    }
}

/// Adding `x` to the done set removes exactly its occurrences from the count.
proof fn lemma_count_outside_push(s: Seq<usize>, done: Seq<usize>, x: usize)
    requires
        !done.contains(x),
    ensures
        count_outside(s, done.push(x)) + occurrences(s, x) == count_outside(s, done),
    decreases s.len(),
{
    if s.len() > 0 {
        lemma_count_outside_push(s.drop_last(), done, x);
        lemma_push_to_set(done, x);
        assert(done.push(x).to_set().contains(s.last()) == done.to_set().insert(x).contains(s.last()));
    }
}

/// The count is zero exactly when every entry is done.
proof fn lemma_count_outside_zero(s: Seq<usize>, done: Seq<usize>)
    ensures
        count_outside(s, done) == 0 <==> forall|k: int| 0 <= k < s.len() ==> done.contains(#[trigger] s[k]),
    decreases s.len(),
{
    if s.len() > 0 {
        lemma_count_outside_zero(s.drop_last(), done);
        if count_outside(s, done) == 0 {
            assert forall|k: int| 0 <= k < s.len() implies done.contains(#[trigger] s[k]) by {
                if k < s.len() - 1 {
                    assert(s.drop_last()[k] == s[k]);
                }
            }
        }
        if forall|k: int| 0 <= k < s.len() ==> done.contains(#[trigger] s[k]) {
            assert forall|k: int| 0 <= k < s.drop_last().len() implies done.contains(#[trigger] s.drop_last()[k]) by {
                assert(s.drop_last()[k] == s[k]);
            }
            assert(done.contains(s[s.len() - 1]));
        }
    }
}

/// A prefix never holds more occurrences than the whole.
proof fn lemma_occurrences_prefix(s: Seq<usize>, x: usize, k: int)
    requires
        0 <= k <= s.len(),
    ensures
        occurrences(s.take(k), x) <= occurrences(s, x),
    decreases s.len() - k,
{
    if k < s.len() {
        lemma_occurrences_prefix(s, x, k + 1);
        assert(s.take(k + 1).drop_last() =~= s.take(k));
    } else {
        assert(s.take(k) =~= s);
    }
}

/// Occurrences of a value that is not done are all counted outside.
proof fn lemma_occurrences_le_count(s: Seq<usize>, done: Seq<usize>, x: usize)
    requires
        !done.contains(x),
    ensures
        occurrences(s, x) <= count_outside(s, done),
    decreases s.len(),
{
    if s.len() > 0 {
        lemma_occurrences_le_count(s.drop_last(), done, x);
    }
}

/// A sequence of distinct values below `m` has at most `m` entries.
pub proof fn lemma_distinct_below(s: Seq<usize>, m: nat)
    requires
        s.no_duplicates(),
        forall|i: int| 0 <= i < s.len() ==> (#[trigger] s[i]) < m,
    ensures
        s.len() <= m,
{
    let si = s.map_values(|x: usize| x as int);
    assert forall|i: int, j: int| 0 <= i < si.len() && 0 <= j < si.len() && i != j implies si[i] != si[j] by {
        assert(s[i] != s[j]);
    }
    si.unique_seq_to_set();
    vstd::set_lib::lemma_int_range(0, m as int);
    assert forall|v: int| si.to_set().contains(v) implies vstd::set_lib::set_int_range(0, m as int).contains(v) by {
        let i = choose|i: int| 0 <= i < si.len() && si[i] == v;
        assert(s[i] < m);
    }
    vstd::set_lib::lemma_len_subset(si.to_set(), vstd::set_lib::set_int_range(0, m as int));
}

/// When `s` holds `m` distinct values below `m`, it holds every value below `m`.
pub proof fn lemma_distinct_full(s: Seq<usize>, m: nat, z: usize)
    requires
        s.no_duplicates(),
        s.len() == m,
        forall|i: int| 0 <= i < s.len() ==> (#[trigger] s[i]) < m,
        z < m,
    ensures
        s.contains(z),
{
    if !s.contains(z) {
        lemma_distinct_below(s.push(z), m);
        lemma_push_to_set(s, z);
        assert forall|i: int| 0 <= i < s.push(z).len() implies (#[trigger] s.push(z)[i]) < m by {
            if i < s.len() {
                assert(s.push(z)[i] == s[i]);
            }
        }
        lemma_distinct_below(s.push(z), m);
    }
}

/// The next step of a walk through beans that are not done: some dependency
/// of `z` that is not done.
pub open spec fn stuck_next(nd: Seq<Seq<usize>>, done: Seq<usize>, z: usize) -> usize {
    nd[z as int][choose|k: int| 0 <= k < nd[z as int].len() && !done.contains(nd[z as int][k])]
}

/// The bean reached after `j` steps of the walk from `z0`.
pub open spec fn stuck_walk(nd: Seq<Seq<usize>>, done: Seq<usize>, z0: usize, j: nat) -> usize
    decreases j,
{
    if j == 0 {
        z0
    } else {
        stuck_next(nd, done, stuck_walk(nd, done, z0, (j - 1) as nat))
    }
}

/// Every bean that is not done has a dependency that is not done.
pub open spec fn stuck(nd: Seq<Seq<usize>>, done: Seq<usize>) -> bool {
    forall|z: usize| z < nd.len() && !done.contains(z) ==>
        exists|k: int| 0 <= k < nd[z as int].len() && !done.contains(#[trigger] nd[z as int][k])
}

proof fn lemma_stuck_walk(nd: Seq<Seq<usize>>, done: Seq<usize>, z0: usize, j: nat)
    requires
        positions_in_range(nd),
        stuck(nd, done),
        z0 < nd.len(),
        !done.contains(z0),
    ensures
        stuck_walk(nd, done, z0, j) < nd.len(),
        !done.contains(stuck_walk(nd, done, z0, j)),
        nd[stuck_walk(nd, done, z0, j) as int].contains(stuck_walk(nd, done, z0, j + 1)),
    decreases j,
{
    if j > 0 {
        lemma_stuck_walk(nd, done, z0, (j - 1) as nat);
    }
    let z = stuck_walk(nd, done, z0, j);
    assert(exists|k: int| 0 <= k < nd[z as int].len() && !done.contains(#[trigger] nd[z as int][k]));
    let k = choose|k: int| 0 <= k < nd[z as int].len() && !done.contains(nd[z as int][k]);
    assert(stuck_walk(nd, done, z0, j + 1) == nd[z as int][k]);
}

/// When some bean is not done and every bean that is not done waits on
/// another one that is not done, the beans contain a cycle.
pub proof fn lemma_stuck_has_cycle(nd: Seq<Seq<usize>>, done: Seq<usize>, z0: usize)
    requires
        positions_in_range(nd),
        stuck(nd, done),
        z0 < nd.len(),
        !done.contains(z0),
    ensures
        exists|c: Seq<usize>| #[trigger] is_position_cycle(nd, c),
{
    let m = nd.len();
    let w = Seq::new((m + 1) as nat, |j: int| stuck_walk(nd, done, z0, j as nat));
    assert forall|i: int| 0 <= i < w.len() implies (#[trigger] w[i]) < m by {
        lemma_stuck_walk(nd, done, z0, i as nat);
    }
    if w.no_duplicates() {
        lemma_distinct_below(w, m);
    }
    let (i, j) = choose|i: int, j: int| 0 <= i < w.len() && 0 <= j < w.len() && i != j && w[i] == w[j];
    let (a, b) = if i < j { (i, j) } else { (j, i) };
    let c = w.subrange(a, b + 1);
    assert(c[0] == w[a]);
    assert(c[c.len() - 1] == w[b]);
    assert forall|k: int| 0 <= k < c.len() implies (#[trigger] c[k]) < m by {
        assert(c[k] == w[a + k]);
    }
    assert forall|k: int| 0 <= k < c.len() - 1 implies nd[#[trigger] c[k] as int].contains(c[k + 1]) by {
        assert(c[k] == w[a + k]);
        assert(c[k + 1] == w[a + k + 1]);
        lemma_stuck_walk(nd, done, z0, (a + k) as nat);
    }
    assert(is_position_cycle(nd, c));
}

/// The result of Kahn's algorithm over the dependency lists `nd`: the beans
/// taken, in order, each only once all its dependencies were taken; when not
/// every bean was taken, the remaining ones are stuck.
fn kahn_order(nd: &Vec<Vec<usize>>) -> (order: Vec<usize>)
    requires
        positions_in_range(positions(nd@)),
    ensures
        order@.no_duplicates(),
        forall|i: int| 0 <= i < order@.len() ==> (#[trigger] order@[i]) < nd@.len(),
        forall|i: int, k: int| 0 <= i < order@.len() && 0 <= k < nd@[order@[i] as int]@.len()
            ==> order@.take(i).contains(#[trigger] nd@[order@[i] as int]@[k]),
        order@.len() < nd@.len() ==> stuck(positions(nd@), order@),
{
    let ghost a = positions(nd@);
    let m = nd.len();
    let mut indeg: Vec<usize> = Vec::new();
    let mut z: usize = 0;
    while z < m
        invariant
            a == positions(nd@),
            m == a.len(),
            z <= m,
            indeg@.len() == z,
            forall|y: int| 0 <= y < z ==> #[trigger] indeg@[y] == count_outside(a[y], Seq::empty()),
        decreases m - z,
    {
        let n_deps = nd[z].len();
        proof {
            assert(a[z as int] == nd@[z as int]@);
            lemma_count_outside_all(a[z as int]);
        }
        indeg.push(n_deps);
        z = z + 1;
    }
    let mut queue: Vec<usize> = Vec::new();
    let ghost empty = Seq::<usize>::empty();
    let mut z: usize = 0;
    while z < m
        invariant
            a == positions(nd@),
            m == a.len(),
            z <= m,
            indeg@.len() == m,
            forall|y: int| 0 <= y < m ==> #[trigger] indeg@[y] == count_outside(a[y], empty),
            queue@.no_duplicates(),
            forall|q: int| 0 <= q < queue@.len() ==> (#[trigger] queue@[q]) < z,
            forall|q: int| 0 <= q < queue@.len() ==> count_outside(a[#[trigger] queue@[q] as int], empty) == 0,
            forall|y: usize| y < z && count_outside(a[y as int], empty) == 0 ==> queue@.contains(y),
        decreases m - z,
    {
        if indeg[z] == 0 {
            proof {
                lemma_push_to_set(queue@, z);
                if queue@.contains(z) {
                    let q = choose|q: int| 0 <= q < queue@.len() && queue@[q] == z;
                    assert(queue@[q] < z);
                }
            }
            let ghost q0 = queue@;
            queue.push(z);
            proof {
                assert forall|y: usize| y < z + 1 && count_outside(a[y as int], empty) == 0 implies queue@.contains(y) by {
                    if y < z {
                        assert(q0.contains(y));
                        let q = choose|q: int| 0 <= q < q0.len() && q0[q] == y;
                        assert(queue@[q] == y);
                    } else {
                        assert(queue@[q0.len() as int] == y);
                    }
                }
                assert forall|q: int| 0 <= q < queue@.len() implies count_outside(a[#[trigger] queue@[q] as int], empty) == 0 by {
                    if q < q0.len() {
                        assert(queue@[q] == q0[q]);
                    }
                }
                assert forall|q: int| 0 <= q < queue@.len() implies (#[trigger] queue@[q]) < z + 1 by {
                    if q < q0.len() {
                        assert(queue@[q] == q0[q]);
                    }
                }
            }
        }
        z = z + 1;
    }
    let mut order: Vec<usize> = Vec::new();
    assert(order@ =~= empty);
    while queue.len() > 0
        invariant
            a == positions(nd@),
            m == a.len(),
            indeg@.len() == m,
            forall|y: int| 0 <= y < m ==> #[trigger] indeg@[y] == count_outside(a[y], order@),
            queue@.no_duplicates(),
            queue@.disjoint(order@),
            forall|q: int| 0 <= q < queue@.len() ==> (#[trigger] queue@[q]) < m,
            forall|q: int| 0 <= q < queue@.len() ==> count_outside(a[#[trigger] queue@[q] as int], order@) == 0,
            forall|y: usize| y < m && !order@.contains(y) && count_outside(a[y as int], order@) == 0
                ==> queue@.contains(y),
            order@.no_duplicates(),
            forall|i: int| 0 <= i < order@.len() ==> (#[trigger] order@[i]) < m,
            forall|i: int, k: int| 0 <= i < order@.len() && 0 <= k < a[order@[i] as int].len()
                ==> order@.take(i).contains(#[trigger] a[order@[i] as int][k]),
        decreases m - order@.len(),
    {
        let ghost q_full = queue@;
        let x = queue.pop().unwrap();
        let ghost before = order@;
        proof {
            assert(q_full == queue@.push(x));
            assert(q_full[q_full.len() - 1] == x);
            assert(x < m);
            assert(count_outside(a[x as int], before) == 0);
            if before.contains(x) {
                let i = choose|i: int| 0 <= i < before.len() && before[i] == x;
                assert(q_full[q_full.len() - 1] != before[i]);
            }
            assert forall|i: int| 0 <= i < before.len() implies count_outside(a[#[trigger] before[i] as int], before) == 0 by {
                lemma_count_outside_zero(a[before[i] as int], before);
                assert forall|k: int| 0 <= k < a[before[i] as int].len() implies before.contains(#[trigger] a[before[i] as int][k]) by {
                    assert(before.take(i).contains(a[before[i] as int][k]));
                    let j = choose|j: int| 0 <= j < before.take(i).len() && before.take(i)[j] == a[before[i] as int][k];
                    assert(before[j] == a[before[i] as int][k]);
                }
            }
            lemma_count_outside_zero(a[x as int], before);
            assert forall|q: int| 0 <= q < queue@.len() implies (#[trigger] queue@[q]) < m && count_outside(a[queue@[q] as int], before) == 0 by {
                assert(queue@[q] == q_full[q]);
            }
            assert forall|i: int, j: int| 0 <= i < queue@.len() && 0 <= j < queue@.len() && i != j implies queue@[i] != queue@[j] by {
                assert(queue@[i] == q_full[i] && queue@[j] == q_full[j]);
            }
        }
        order.push(x);
        proof {
            lemma_push_to_set(before, x);
            assert forall|i: int| 0 <= i < order@.len() implies (#[trigger] order@[i]) < m by {
                if i < before.len() {
                    assert(order@[i] == before[i]);
                }
            }
            lemma_distinct_below(order@, m as nat);
            assert forall|i: int, j: int| 0 <= i < queue@.len() && 0 <= j < order@.len() implies queue@[i] != order@[j] by {
                assert(queue@[i] == q_full[i]);
                if j < before.len() {
                    assert(order@[j] == before[j]);
                } else {
                    assert(q_full[i] != q_full[q_full.len() - 1]);
                }
            }
            assert forall|z: usize| z < m && !order@.contains(z) && count_outside(a[z as int], before) == 0 implies queue@.contains(z) by {
                assert(!before.contains(z)) by {
                    if before.contains(z) {
                        let j = choose|j: int| 0 <= j < before.len() && before[j] == z;
                        assert(order@[j] == z);
                    }
                }
                assert(z != x) by {
                    assert(order@[before.len() as int] == x);
                }
                assert(q_full.contains(z));
                let j = choose|j: int| 0 <= j < q_full.len() && q_full[j] == z;
                assert(j != q_full.len() - 1);
                assert(queue@[j] == z);
            }
        }
        let mut y: usize = 0;
        while y < m
            invariant
                a == positions(nd@),
                m == a.len(),
                indeg@.len() == m,
                x < m,
                !before.contains(x),
                count_outside(a[x as int], before) == 0,
                order@ == before.push(x),
                y <= m,
                forall|z: int| 0 <= z < m ==> #[trigger] indeg@[z] == if z < y {
                    count_outside(a[z], order@)
                } else {
                    count_outside(a[z], before)
                },
                queue@.no_duplicates(),
                queue@.disjoint(order@),
                forall|q: int| 0 <= q < queue@.len() ==> (#[trigger] queue@[q]) < m,
                forall|q: int| 0 <= q < queue@.len() ==> if queue@[q] < y {
                    count_outside(a[#[trigger] queue@[q] as int], order@) == 0
                } else {
                    count_outside(a[queue@[q] as int], before) == 0
                },
                forall|z: usize| z < m && !order@.contains(z) && (if z < y {
                    count_outside(a[z as int], order@) == 0
                } else {
                    count_outside(a[z as int], before) == 0
                }) ==> queue@.contains(z),
                forall|i: int| 0 <= i < before.len() ==> count_outside(a[#[trigger] before[i] as int], before) == 0,
            decreases m - y,
        {
            let c = count_occurrences(&nd[y], x);
            proof {
                assert(a[y as int] == nd@[y as int]@);
                lemma_count_outside_push(a[y as int], before, x);
                lemma_occurrences_le_count(a[y as int], before, x);
            }
            let ghost q_prev = queue@;
            let ghost indeg_prev = indeg@;
            if c > 0 {
                let d = indeg[y] - c;
                indeg.set(y, d);
                if d == 0 {
                    proof {
                        assert(!q_prev.contains(y)) by {
                            if q_prev.contains(y) {
                                let q = choose|q: int| 0 <= q < q_prev.len() && q_prev[q] == y;
                                assert(count_outside(a[q_prev[q] as int], before) == 0);
                            }
                        }
                        assert(!order@.contains(y)) by {
                            if order@.contains(y) {
                                let j = choose|j: int| 0 <= j < order@.len() && order@[j] == y;
                                assert(order@ == before.push(x));
                                if j < before.len() {
                                    assert(order@[j] == before[j]);
                                    assert(before[j] == y);
                                    assert(count_outside(a[before[j] as int], before) == 0);
                                } else {
                                    assert(y == x);
                                }
                            }
                        }
                        lemma_push_to_set(q_prev, y);
                    }
                    queue.push(y);
                    proof {
                        assert forall|i: int, j: int| 0 <= i < queue@.len() && 0 <= j < order@.len() implies queue@[i] != order@[j] by {
                            if i < q_prev.len() {
                                assert(queue@[i] == q_prev[i]);
                            } else {
                                assert(queue@[i] == y);
                            }
                        }
                    }
                }
            }
            proof {
                assert forall|z: int| 0 <= z < m implies #[trigger] indeg@[z] == if z < y + 1 {
                    count_outside(a[z], order@)
                } else {
                    count_outside(a[z], before)
                } by {
                    if z != y {
                        assert(indeg@[z] == indeg_prev[z]);
                    }
                }
                assert forall|q: int| 0 <= q < queue@.len() implies (#[trigger] queue@[q]) < m && (if queue@[q] < y + 1 {
                    count_outside(a[queue@[q] as int], order@) == 0
                } else {
                    count_outside(a[queue@[q] as int], before) == 0
                }) by {
                    if q < q_prev.len() {
                        assert(queue@[q] == q_prev[q]);
                    }
                }
                assert forall|i: int, j: int| 0 <= i < queue@.len() && 0 <= j < queue@.len() && i != j implies queue@[i] != queue@[j] by {
                    if i < q_prev.len() && j < q_prev.len() {
                        assert(queue@[i] == q_prev[i] && queue@[j] == q_prev[j]);
                    } else if i < q_prev.len() {
                        assert(queue@[i] == q_prev[i]);
                    } else if j < q_prev.len() {
                        assert(queue@[j] == q_prev[j]);
                    }
                }
                assert forall|z: usize| z < m && !order@.contains(z) && (if z < y + 1 {
                    count_outside(a[z as int], order@) == 0
                } else {
                    count_outside(a[z as int], before) == 0
                }) implies queue@.contains(z) by {
                    if z != y {
                        assert(q_prev.contains(z));
                        let j = choose|j: int| 0 <= j < q_prev.len() && q_prev[j] == z;
                        assert(queue@[j] == z);
                    } else if c == 0 {
                        assert(q_prev.contains(z));
                        let j = choose|j: int| 0 <= j < q_prev.len() && q_prev[j] == z;
                        assert(queue@[j] == z);
                    } else {
                        assert(queue@[queue@.len() - 1] == y);
                    }
                }
            }
            y = y + 1;
        }
        proof {
            assert forall|i: int, k: int| 0 <= i < order@.len() && 0 <= k < a[order@[i] as int].len()
                implies order@.take(i).contains(#[trigger] a[order@[i] as int][k]) by {
                if i < before.len() {
                    assert(order@[i] == before[i]);
                    assert(order@.take(i) =~= before.take(i));
                } else {
                    assert(order@.take(i) =~= before);
                    lemma_count_outside_zero(a[x as int], before);
                }
            }
        }
    }
    proof {
        if order@.len() < m {
            assert forall|z: usize| z < a.len() && !order@.contains(z) implies
                exists|k: int| 0 <= k < a[z as int].len() && !order@.contains(#[trigger] a[z as int][k]) by {
                lemma_count_outside_zero(a[z as int], order@);
                if !(exists|k: int| 0 <= k < a[z as int].len() && !order@.contains(#[trigger] a[z as int][k])) {
                    assert(queue@.contains(z));
                }
            }
        }
        assert forall|i: int| 0 <= i < order@.len() implies #[trigger] nd@[order@[i] as int]@ == a[order@[i] as int] by {}
    }
    order
}

} // verus!

verus! {

/// `x` is a bean of the graph or a dependency declared by one.
pub open spec fn is_graph_node(g: Seq<(Seq<char>, Seq<Seq<char>>)>, x: Seq<char>) -> bool {
    graph_has(g, x) || exists|i: int, k: int| 0 <= i < g.len() && 0 <= k < g[i].1.len() && #[trigger] g[i].1[k] == x
}

/// `a` comes before `b` in `o`.
pub open spec fn precedes(o: Seq<Seq<char>>, a: Seq<char>, b: Seq<char>) -> bool {
    exists|p: int, q: int| #![trigger o[p], o[q]] 0 <= p < q < o.len() && o[p] == a && o[q] == b
}

/// `ids` numbers the nodes of `g` (its beans first, in registration order,
/// then the dependencies that are no bean) and `nd` lists, for each node, the
/// numbers of its dependencies.
pub open spec fn numbered(g: Seq<(Seq<char>, Seq<Seq<char>>)>, ids: Seq<Seq<char>>, nd: Seq<Seq<usize>>) -> bool {
    &&& ids.len() == nd.len()
    &&& g.len() <= ids.len()
    &&& ids.no_duplicates()
    &&& forall|z: int| 0 <= z < g.len() ==> #[trigger] ids[z] == g[z].0
    &&& forall|z: int| g.len() <= z < ids.len() ==> nd[z].len() == 0 && !graph_has(g, #[trigger] ids[z])
        && is_graph_node(g, ids[z])
    &&& forall|z: int| #![trigger nd[z]] 0 <= z < g.len() ==> nd[z].len() == g[z].1.len()
    &&& forall|z: int, k: int| 0 <= z < g.len() && 0 <= k < nd[z].len() ==> (#[trigger] nd[z][k]) < ids.len()
        && ids[nd[z][k] as int] == g[z].1[k]
}

/// Position of `x` in `ids`, if it is there.
fn find_name(ids: &Vec<String>, x: &String) -> (r: Option<usize>)
    ensures
        match r {
            Some(p) => p < ids@.len() && ids@[p as int]@ == x@,
            None => !string_views(ids@).contains(x@),
        },
{
    let mut i: usize = 0;
    while i < ids.len()
        invariant
            i <= ids@.len(),
            forall|j: int| 0 <= j < i ==> ids@[j]@ != x@,
        decreases ids.len() - i,
    {
        if ids[i] == *x {
            return Some(i);
        }
        i = i + 1;
    }
    proof {
        if string_views(ids@).contains(x@) {
            let j = choose|j: int| 0 <= j < ids@.len() && string_views(ids@)[j] == x@;
            assert(ids@[j]@ == x@);
        }
    }
    None
}

/// Numbers the nodes of the graph.
fn number_nodes(g: &DependencyGraph) -> (r: (Vec<String>, Vec<Vec<usize>>))
    requires
        g.wf(),
    ensures
        numbered(g@, string_views(r.0@), positions(r.1@)),
{
    let n = g.len();
    let mut ids: Vec<String> = Vec::new();
    let mut i: usize = 0;
    while i < n
        invariant
            n == g@.len(),
            g.wf(),
            i <= n,
            string_views(ids@) == graph_names(g@).take(i as int),
        decreases n - i,
    {
        let name = g.name_at(i).clone();
        let ghost prev = ids@;
        ids.push(name);
        proof {
            assert(string_views(ids@) =~= string_views(prev).push(g@[i as int].0));
            assert(graph_names(g@).take(i + 1) =~= graph_names(g@).take(i as int).push(g@[i as int].0));
        }
        i = i + 1;
    }
    assert(graph_names(g@).take(n as int) =~= graph_names(g@));
    let mut rows: Vec<Vec<usize>> = Vec::new();
    let mut i: usize = 0;
    while i < n
        invariant
            n == g@.len(),
            g.wf(),
            i <= n,
            n <= ids@.len(),
            string_views(ids@).no_duplicates(),
            forall|z: int| 0 <= z < n ==> #[trigger] string_views(ids@)[z] == g@[z].0,
            forall|z: int| n <= z < ids@.len() ==> !graph_has(g@, #[trigger] string_views(ids@)[z])
                && is_graph_node(g@, string_views(ids@)[z]),
            rows@.len() == i,
            forall|z: int| #![trigger rows@[z]] 0 <= z < i ==> rows@[z]@.len() == g@[z].1.len(),
            forall|z: int, k: int| 0 <= z < i && 0 <= k < rows@[z]@.len() ==> (#[trigger] rows@[z]@[k]) < ids@.len()
                && string_views(ids@)[rows@[z]@[k] as int] == g@[z].1[k],
        decreases n - i,
    {
        let deps = g.deps_at(i);
        let mut row: Vec<usize> = Vec::new();
        let mut k: usize = 0;
        while k < deps.len()
            invariant
                n == g@.len(),
                g.wf(),
                i < n,
                deps@.map_values(|s: String| s@) == g@[i as int].1,
                k <= deps@.len(),
                n <= ids@.len(),
                string_views(ids@).no_duplicates(),
                forall|z: int| 0 <= z < n ==> #[trigger] string_views(ids@)[z] == g@[z].0,
                forall|z: int| n <= z < ids@.len() ==> !graph_has(g@, #[trigger] string_views(ids@)[z])
                    && is_graph_node(g@, string_views(ids@)[z]),
                rows@.len() == i,
                forall|z: int| #![trigger rows@[z]] 0 <= z < i ==> rows@[z]@.len() == g@[z].1.len(),
                forall|z: int, k: int| 0 <= z < i && 0 <= k < rows@[z]@.len() ==> (#[trigger] rows@[z]@[k]) < ids@.len()
                    && string_views(ids@)[rows@[z]@[k] as int] == g@[z].1[k],
                row@.len() == k,
                forall|l: int| 0 <= l < k ==> (#[trigger] row@[l]) < ids@.len()
                    && string_views(ids@)[row@[l] as int] == g@[i as int].1[l],
            decreases deps.len() - k,
        {
            assert(deps@[k as int]@ == g@[i as int].1[k as int]);
            match find_name(&ids, &deps[k]) {
                Some(p) => {
                    assert(string_views(ids@)[p as int] == ids@[p as int]@);
                    row.push(p);
                },
                None => {
                    let ghost prev = ids@;
                    let p = ids.len();
                    ids.push(deps[k].clone());
                    proof {
                        let dv = g@[i as int].1[k as int];
                        assert(string_views(ids@) =~= string_views(prev).push(dv));
                        lemma_push_to_set(string_views(prev), dv);
                        assert(!graph_has(g@, dv)) by {
                            if graph_has(g@, dv) {
                                let j = choose|j: int| 0 <= j < graph_names(g@).len() && graph_names(g@)[j] == dv;
                                assert(string_views(prev)[j] == dv);
                            }
                        }
                        assert(is_graph_node(g@, dv)) by {
                            assert(g@[i as int].1[k as int] == dv);
                        }
                        assert forall|z: int| n <= z < ids@.len() implies !graph_has(g@, #[trigger] string_views(ids@)[z])
                            && is_graph_node(g@, string_views(ids@)[z]) by {
                            if z < prev.len() {
                                assert(string_views(ids@)[z] == string_views(prev)[z]);
                            }
                        }
                        assert forall|z: int| 0 <= z < n implies #[trigger] string_views(ids@)[z] == g@[z].0 by {
                            assert(string_views(ids@)[z] == string_views(prev)[z]);
                        }
                        assert forall|z: int, kk: int| 0 <= z < i && 0 <= kk < rows@[z]@.len() implies (#[trigger] rows@[z]@[kk]) < ids@.len()
                            && string_views(ids@)[rows@[z]@[kk] as int] == g@[z].1[kk] by {
                            assert(string_views(ids@)[rows@[z]@[kk] as int] == string_views(prev)[rows@[z]@[kk] as int]);
                        }
                        assert forall|l: int| 0 <= l < k implies (#[trigger] row@[l]) < ids@.len()
                            && string_views(ids@)[row@[l] as int] == g@[i as int].1[l] by {
                            assert(string_views(ids@)[row@[l] as int] == string_views(prev)[row@[l] as int]);
                        }
                    }
                    row.push(p);
                },
            }
            k = k + 1;
        }
        rows.push(row);
        proof {
            assert forall|z: int| #![trigger rows@[z]] 0 <= z < i + 1 implies rows@[z]@.len() == g@[z].1.len() by {}
        }
        i = i + 1;
    }
    let m = ids.len();
    while rows.len() < m
        invariant
            n == g@.len(),
            n <= rows@.len() <= m,
            m == ids@.len(),
            forall|z: int| #![trigger rows@[z]] 0 <= z < n ==> rows@[z]@.len() == g@[z].1.len(),
            forall|z: int, k: int| 0 <= z < n && 0 <= k < rows@[z]@.len() ==> (#[trigger] rows@[z]@[k]) < ids@.len()
                && string_views(ids@)[rows@[z]@[k] as int] == g@[z].1[k],
            forall|z: int| #![trigger rows@[z]] n <= z < rows@.len() ==> rows@[z]@.len() == 0,
        decreases m - rows.len(),
    {
        rows.push(Vec::new());
    }
    proof {
        let nd = positions(rows@);
        assert forall|z: int| #![trigger nd[z]] 0 <= z < n implies nd[z].len() == g@[z].1.len() by {
            assert(nd[z] == rows@[z]@);
        }
        assert forall|z: int, k: int| 0 <= z < n && 0 <= k < nd[z].len() implies (#[trigger] nd[z][k]) < ids@.len()
            && string_views(ids@)[nd[z][k] as int] == g@[z].1[k] by {
            assert(nd[z] == rows@[z]@);
        }
        assert forall|z: int| n <= z < ids@.len() implies nd[z].len() == 0 && !graph_has(g@, #[trigger] string_views(ids@)[z])
            && is_graph_node(g@, string_views(ids@)[z]) by {
            assert(nd[z] == rows@[z]@);
        }
    }
    (ids, rows)
}

} // verus!

verus! {

/// A sequence of fewer than `m` distinct values below `m` misses one.
proof fn lemma_missing_value(s: Seq<usize>, m: nat)
    requires
        s.no_duplicates(),
        s.len() < m,
        m <= usize::MAX,
    ensures
        exists|z: usize| z < m && !s.contains(z),
{
    if forall|z: usize| z < m ==> s.contains(z) {
        let all = Seq::new(m, |i: int| i as usize);
        assert forall|i: int| 0 <= i < all.len() implies (#[trigger] all[i]) < m by {}
        assert forall|i: int, j: int| 0 <= i < all.len() && 0 <= j < all.len() && i != j implies all[i] != all[j] by {}
        // `all` holds m distinct values, all of them in `s`
        assert forall|i: int| 0 <= i < all.len() implies s.to_set().contains(#[trigger] all[i]) by {
            assert(s.contains(all[i]));
        }
        all.unique_seq_to_set();
        s.lemma_cardinality_of_set();
        assert(all.to_set().subset_of(s.to_set())) by {
            assert forall|v: usize| all.to_set().contains(v) implies s.to_set().contains(v) by {
                let i = choose|i: int| 0 <= i < all.len() && all[i] == v;
                assert(s.to_set().contains(all[i]));
            }
        }
        vstd::set_lib::lemma_len_subset(all.to_set(), s.to_set());
    }
}

/// The names of the numbered nodes in `order`.
fn names_of_order(ids: &Vec<String>, order: &Vec<usize>) -> (r: Vec<String>)
    requires
        forall|i: int| 0 <= i < order@.len() ==> (#[trigger] order@[i]) < ids@.len(),
    ensures
        string_views(r@) == order@.map_values(|z: usize| ids@[z as int]@),
{
    let mut out: Vec<String> = Vec::new();
    let mut k: usize = 0;
    while k < order.len()
        invariant
            forall|i: int| 0 <= i < order@.len() ==> (#[trigger] order@[i]) < ids@.len(),
            k <= order@.len(),
            string_views(out@) == order@.take(k as int).map_values(|z: usize| ids@[z as int]@),
        decreases order.len() - k,
    {
        let name = ids[order[k]].clone();
        let ghost prev = out@;
        let ghost nv = name@;
        out.push(name);
        proof {
            assert(string_views(out@) =~= string_views(prev).push(nv));
            assert(order@.take(k + 1).map_values(|z: usize| ids@[z as int]@)
                =~= order@.take(k as int).map_values(|z: usize| ids@[z as int]@).push(nv));
        }
        k = k + 1;
    }
    assert(order@.take(order@.len() as int) =~= order@);
    out
}

/// A complete Kahn order of the numbered nodes names every node once, with
/// each declared dependency before the bean that declares it.
proof fn lemma_order_names(
    g: Seq<(Seq<char>, Seq<Seq<char>>)>,
    ids: Seq<Seq<char>>,
    nd: Seq<Seq<usize>>,
    order: Seq<usize>,
    o: Seq<Seq<char>>,
)
    requires
        graph_names(g).no_duplicates(),
        numbered(g, ids, nd),
        nd.len() <= usize::MAX,
        order.no_duplicates(),
        order.len() == nd.len(),
        forall|i: int| 0 <= i < order.len() ==> (#[trigger] order[i]) < nd.len(),
        forall|i: int, k: int| 0 <= i < order.len() && 0 <= k < nd[order[i] as int].len()
            ==> order.take(i).contains(#[trigger] nd[order[i] as int][k]),
        o == order.map_values(|z: usize| ids[z as int]),
    ensures
        o.no_duplicates(),
        forall|x: Seq<char>| o.contains(x) <==> is_graph_node(g, x),
        forall|i: int, k: int| 0 <= i < g.len() && 0 <= k < g[i].1.len() ==> precedes(o, #[trigger] g[i].1[k], g[i].0),
{
    let m = nd.len();
    assert forall|i: int, j: int| 0 <= i < o.len() && 0 <= j < o.len() && i != j implies o[i] != o[j] by {
        assert(order[i] != order[j]);
        assert(ids[order[i] as int] != ids[order[j] as int]);
    }
    assert forall|x: Seq<char>| o.contains(x) <==> is_graph_node(g, x) by {
        if o.contains(x) {
            let j = choose|j: int| 0 <= j < o.len() && o[j] == x;
            let z = order[j] as int;
            if z < g.len() {
                assert(ids[z] == g[z].0);
                assert(graph_names(g)[z] == x);
            } else {
                assert(is_graph_node(g, ids[z]));
            }
        }
        if is_graph_node(g, x) {
            let z: usize = if graph_has(g, x) {
                let j = choose|j: int| 0 <= j < graph_names(g).len() && graph_names(g)[j] == x;
                assert(ids[j] == x);
                j as usize
            } else {
                let (i, k) = choose|i: int, k: int| 0 <= i < g.len() && 0 <= k < g[i].1.len() && #[trigger] g[i].1[k] == x;
                assert(nd[i].len() == g[i].1.len());
                assert(ids[nd[i][k] as int] == x);
                nd[i][k]
            };
            assert(z < m);
            assert(ids[z as int] == x);
            lemma_distinct_full(order, m, z);
            let j = choose|j: int| 0 <= j < order.len() && order[j] == z;
            assert(o[j] == x);
        }
    }
    assert forall|i: int, k: int| 0 <= i < g.len() && 0 <= k < g[i].1.len() implies precedes(o, #[trigger] g[i].1[k], g[i].0) by {
        lemma_distinct_full(order, m, i as usize);
        let q = choose|q: int| 0 <= q < order.len() && order[q] == i as usize;
        assert(nd[i].len() == g[i].1.len());
        let d = nd[i][k];
        assert(order.take(q).contains(nd[order[q] as int][k]));
        let p = choose|p: int| 0 <= p < order.take(q).len() && order.take(q)[p] == d;
        assert(order[p] == d);
        assert(o[p] == ids[d as int]);
        assert(ids[d as int] == g[i].1[k]);
        assert(o[q] == ids[i]);
        assert(ids[i] == g[i].0);
    }
}

/// A cycle of numbered nodes names a dependency cycle of the graph.
proof fn lemma_numbered_cycle_names(
    g: Seq<(Seq<char>, Seq<Seq<char>>)>,
    ids: Seq<Seq<char>>,
    nd: Seq<Seq<usize>>,
    c: Seq<usize>,
)
    requires
        graph_names(g).no_duplicates(),
        numbered(g, ids, nd),
        is_position_cycle(nd, c),
    ensures
        has_dependency_cycle(g),
{
    let names = graph_names(g);
    let nc = c.map_values(|z: usize| ids[z as int]);
    assert forall|k: int| 0 <= k < c.len() implies (#[trigger] c[k]) < g.len() by {
        let kk = if k < c.len() - 1 { k } else { 0 };
        assert(c[kk] < nd.len());
        assert(nd[c[kk] as int].contains(c[kk + 1]));
        if c[kk] >= g.len() {
            assert(!graph_has(g, ids[c[kk] as int]));
            assert(nd[c[kk] as int].len() == 0);
        }
    }
    assert forall|k: int| 0 <= k < nc.len() implies graph_has(g, #[trigger] nc[k]) by {
        assert(c[k] < g.len());
        assert(nc[k] == ids[c[k] as int]);
        assert(names[c[k] as int] == nc[k]);
    }
    assert forall|k: int| 0 <= k < nc.len() - 1 implies graph_deps(g, #[trigger] nc[k]).contains(nc[k + 1]) by {
        let u = c[k] as int;
        let v = c[k + 1];
        assert(u < g.len());
        assert(nd[u].contains(v));
        let l = choose|l: int| 0 <= l < nd[u].len() && nd[u][l] == v;
        assert(ids[v as int] == g[u].1[l]);
        assert(names[u] == nc[k]);
        let j = names.index_of(nc[k]);
        assert(names.contains(nc[k]));
        assert(names[j] == nc[k]);
        assert(j == u);
        assert(graph_deps(g, nc[k])[l] == nc[k + 1]);
    }
    assert(is_dependency_cycle(g, nc));
}

/// The position of `x` in `o`.
pub open spec fn order_position(o: Seq<Seq<char>>, x: Seq<char>) -> int {
    o.index_of(x)
}

/// Along a dependency cycle, positions in an order that puts dependencies
/// first keep dropping from the start.
proof fn lemma_order_along_cycle(g: Seq<(Seq<char>, Seq<Seq<char>>)>, o: Seq<Seq<char>>, c: Seq<Seq<char>>, m: int)
    requires
        graph_names(g).no_duplicates(),
        o.no_duplicates(),
        forall|i: int, k: int| 0 <= i < g.len() && 0 <= k < g[i].1.len() ==> precedes(o, #[trigger] g[i].1[k], g[i].0),
        is_dependency_cycle(g, c),
        1 <= m < c.len(),
    ensures
        o.contains(c[m]) && o.contains(c[0]),
        order_position(o, c[m]) < order_position(o, c[0]),
    decreases m,
{
    let names = graph_names(g);
    let x = c[m - 1];
    let y = c[m];
    assert(graph_has(g, x));
    let i = names.index_of(x);
    assert(names[i] == x);
    assert(graph_deps(g, x).contains(y));
    let k = choose|k: int| 0 <= k < g[i].1.len() && g[i].1[k] == y;
    assert(precedes(o, g[i].1[k], g[i].0));
    let (p, q) = choose|p: int, q: int| #![trigger o[p], o[q]] 0 <= p < q < o.len() && o[p] == y && o[q] == x;
    assert(o.contains(y) && o.contains(x));
    let py = o.index_of(y);
    let px = o.index_of(x);
    assert(o[py] == y && o[px] == x);
    assert(py == p && px == q);
    if m > 1 {
        lemma_order_along_cycle(g, o, c, m - 1);
    }
}

/// An order without repetitions that puts every declared dependency before
/// the bean that declares it rules out dependency cycles.
pub proof fn lemma_topological_order_rules_out_cycles(g: Seq<(Seq<char>, Seq<Seq<char>>)>, o: Seq<Seq<char>>)
    requires
        graph_names(g).no_duplicates(),
        o.no_duplicates(),
        forall|i: int, k: int| 0 <= i < g.len() && 0 <= k < g[i].1.len() ==> precedes(o, #[trigger] g[i].1[k], g[i].0),
    ensures
        !has_dependency_cycle(g),
{
    if has_dependency_cycle(g) {
        let c = choose|c: Seq<Seq<char>>| is_dependency_cycle(g, c);
        lemma_order_along_cycle(g, o, c, c.len() - 1);
    }
}

/// Orders every bean and every declared dependency so that dependencies come
/// before the beans that depend on them (Kahn's algorithm). Fails, with the
/// message "Circular dependency detected during topological sort", exactly
/// when the beans depend on each other in a cycle.
pub fn topological_sort(dependencies: &DependencyGraph) -> (r: Result<Vec<String>, String>)
    requires
        dependencies.wf(),
    ensures
        match r {
            Ok(order) => {
                &&& string_views(order@).no_duplicates()
                &&& forall|x: Seq<char>| string_views(order@).contains(x) <==> is_graph_node(dependencies@, x)
                &&& forall|i: int, k: int| 0 <= i < dependencies@.len() && 0 <= k < dependencies@[i].1.len()
                    ==> precedes(string_views(order@), #[trigger] dependencies@[i].1[k], dependencies@[i].0)
            },
            Err(msg) => msg@ == "Circular dependency detected during topological sort"@
                && has_dependency_cycle(dependencies@),
        },
        r is Ok <==> !has_dependency_cycle(dependencies@),
{
    let g = dependencies;
    let (ids, nd) = number_nodes(g);
    proof {
        let a = positions(nd@);
        assert forall|u: int, k: int| 0 <= u < a.len() && 0 <= k < a[u].len() implies (#[trigger] a[u][k]) < a.len() by {
            if u >= g@.len() {
                assert(!graph_has(g@, string_views(ids@)[u]));
                assert(a[u].len() == 0);
            }
        }
    }
    let order = kahn_order(&nd);
    if order.len() != ids.len() {
        proof {
            let a = positions(nd@);
            lemma_distinct_below(order@, a.len());
            assert(a.len() == nd.len());
            lemma_missing_value(order@, a.len());
            let z0 = choose|z: usize| z < a.len() && !order@.contains(z);
            lemma_stuck_has_cycle(a, order@, z0);
            let c = choose|c: Seq<usize>| #[trigger] is_position_cycle(a, c);
            lemma_numbered_cycle_names(g@, string_views(ids@), a, c);
        }
        return Err(owned("Circular dependency detected during topological sort"));
    }
    let names = names_of_order(&ids, &order);
    proof {
        let a = positions(nd@);
        assert(order@.map_values(|z: usize| ids@[z as int]@) =~= order@.map_values(|z: usize| string_views(ids@)[z as int]));
        lemma_order_names(g@, string_views(ids@), a, order@, string_views(names@));
        lemma_topological_order_rules_out_cycles(g@, string_views(names@));
    }
    Ok(names)
}

} // verus!

//! Application events and the registry of the listeners they are sent to.

use vstd::prelude::*;
use crate::dependency::{lemma_push_to_set, lemma_remove_to_set};
use crate::text::{chars_of, owned, str_equal, string_of, string_views};

verus! {

#[verifier::external_type_specification]
#[verifier::external_body]
pub struct ExSystemTime(std::time::SystemTime);

/// Reads the system clock with `std::time::SystemTime::now`. Nothing is
/// stated of the result: it is the time of the call.
#[verifier::external_body]
fn system_now() -> (t: std::time::SystemTime) {
    std::time::SystemTime::now()
}

/// Published once the application has started.
pub struct ApplicationStartedEvent {
    /// The application's name.
    pub app_name: String,
    /// How long the start took, in milliseconds.
    pub startup_time_ms: u128,
    /// When the event was created.
    pub timestamp: std::time::SystemTime,
}

impl ApplicationStartedEvent {
    /// The event for `app_name`, started in `startup_time_ms`, created now.
    pub fn new(app_name: String, startup_time_ms: u128) -> (e: Self)
        ensures
            e.app_name@ == app_name@,
            e.startup_time_ms == startup_time_ms,
    {
        ApplicationStartedEvent { app_name, startup_time_ms, timestamp: system_now() }
    }

    /// The event's name, `ApplicationStartedEvent`.
    pub fn event_name(&self) -> (r: &'static str)
        ensures
            r@ == "ApplicationStartedEvent"@,
    {
        "ApplicationStartedEvent"
    }
}

/// Published when the application shuts down.
pub struct ApplicationShutdownEvent {
    /// The application's name.
    pub app_name: String,
    /// When the event was created.
    pub timestamp: std::time::SystemTime,
}

impl ApplicationShutdownEvent {
    /// The event for `app_name`, created now.
    pub fn new(app_name: String) -> (e: Self)
        ensures
            e.app_name@ == app_name@,
    {
        ApplicationShutdownEvent { app_name, timestamp: system_now() }
    }

    /// The event's name, `ApplicationShutdownEvent`.
    pub fn event_name(&self) -> (r: &'static str)
        ensures
            r@ == "ApplicationShutdownEvent"@,
    {
        "ApplicationShutdownEvent"
    }
}

/// Where the last piece of `s` starts when it is split at `::`, scanning
/// from position `i` with the current piece starting at `start`: each `::`
/// found, left to right and without overlap, starts a new piece after it.
pub open spec fn segment_start(s: Seq<char>, i: int, start: int) -> int
    decreases s.len() - i,
{
    if i < 0 || i + 1 >= s.len() {
        start
    } else if s[i] == ':' && s[i + 1] == ':' {
        segment_start(s, i + 2, i + 2)
    } else {
        segment_start(s, i + 1, start)
    }
}

/// The last piece of a type path split at `::`: the type's name without its
/// module path.
pub open spec fn short_type_name(path: Seq<char>) -> Seq<char> {
    path.subrange(segment_start(path, 0, 0), path.len() as int)
}

/// The last piece of `path` split at `::`.
pub fn last_path_segment(path: &str) -> (r: String)
    ensures
        r@ == short_type_name(path@),
{
    let v = chars_of(path);
    let n = v.len();
    let mut start: usize = 0;
    let mut i: usize = 0;
    while i < n && n - i > 1
        invariant
            v@ == path@,
            n == v@.len(),
            start <= i <= n,
            segment_start(path@, 0, 0) == segment_start(path@, i as int, start as int),
        decreases n - i,
    {
        if v[i] == ':' && v[i + 1] == ':' {
            i = i + 2;
            start = i;
        } else {
            i = i + 1;
        }
    }
    let mut out: Vec<char> = Vec::new();
    let mut j = start;
    while j < n
        invariant
            v@ == path@,
            n == v@.len(),
            start <= j <= n,
            out@ == path@.subrange(start as int, j as int),
        decreases n - j,
    {
        out.push(v[j]);
        j = j + 1;
        assert(out@ =~= path@.subrange(start as int, j as int));
    }
    string_of(&out)
}

/// Whether a listener for the events of the type `event_type_path` takes
/// the event named `event_name`: the name must equal the type's name without
/// its module path.
pub fn supports_event_type(event_type_path: &str, event_name: &str) -> (r: bool)
    ensures
        r == (event_name@ == short_type_name(event_type_path@)),
{
    let short = last_path_segment(event_type_path);
    str_equal(event_name, short.as_str())
}

/// The names of the listeners as a list, in the order they were added.
pub open spec fn name_keys(e: Seq<(String, usize)>) -> Seq<Seq<char>> {
    e.map_values(|p: (String, usize)| p.0@)
}

/// The positions the name index points at.
pub open spec fn name_positions(e: Seq<(String, usize)>) -> Seq<usize> {
    e.map_values(|p: (String, usize)| p.1)
}

/// The listeners an event is sent to, kept as their names in the order they
/// were added, with an index from name to position. When two listeners share
/// a name, the index points at the one added last.
pub struct ListenerRegistry {
    listeners: Vec<String>,
    index: Vec<(String, usize)>,
}

impl ListenerRegistry {
    /// The names of the listeners, in order.
    pub closed spec fn listeners(&self) -> Seq<Seq<char>> {
        string_views(self.listeners@)
    }

    /// The index from listener name to position.
    pub closed spec fn index(&self) -> Map<Seq<char>, int> {
        Map::new(
            |k: Seq<char>| name_keys(self.index@).contains(k),
            |k: Seq<char>| self.index@[name_keys(self.index@).index_of(k)].1 as int,
        )
    }

    /// Well-formedness: each name is indexed once, to a distinct position
    /// holding a listener of that name.
    pub closed spec fn wf(&self) -> bool {
        &&& name_keys(self.index@).no_duplicates()
        &&& name_positions(self.index@).no_duplicates()
        &&& forall|j: int| 0 <= j < self.index@.len() ==> (#[trigger] self.index@[j]).1 < self.listeners@.len()
            && self.listeners@[self.index@[j].1 as int]@ == self.index@[j].0@
    }

    /// The index points every name at a listener of that name.
    pub proof fn lemma_index_points_at_name(&self, k: Seq<char>)
        requires
            self.wf(),
            self.index().dom().contains(k),
        ensures
            0 <= self.index()[k] < self.listeners().len(),
            self.listeners()[self.index()[k]] == k,
    {
        let keys = name_keys(self.index@);
        let j = keys.index_of(k);
        assert(keys[j] == k);
        assert(self.index@[j].0@ == k);
    }

    /// An empty registry.
    pub fn new() -> (r: Self)
        ensures
            r.wf(),
            r.listeners() == Seq::<Seq<char>>::empty(),
            r.index() == Map::<Seq<char>, int>::empty(),
    {
        let r = ListenerRegistry { listeners: Vec::new(), index: Vec::new() };
        assert(r.listeners() =~= Seq::<Seq<char>>::empty());
        assert(r.index() =~= Map::<Seq<char>, int>::empty());
        r
    }

    /// The number of listeners.
    pub fn listener_count(&self) -> (n: usize)
        ensures
            n == self.listeners().len(),
    {
        self.listeners.len()
    }

    /// Position in the index of the entry for `name`.
    fn index_position(&self, name: &String) -> (r: Option<usize>)
        requires
            self.wf(),
        ensures
            match r {
                Some(j) => j < self.index@.len() && self.index@[j as int].0@ == name@
                    && name_keys(self.index@).index_of(name@) == j,
                None => !self.index().dom().contains(name@),
            },
    {
        let mut j: usize = 0;
        while j < self.index.len()
            invariant
                self.wf(),
                j <= self.index@.len(),
                forall|l: int| 0 <= l < j ==> self.index@[l].0@ != name@,
            decreases self.index.len() - j,
        {
            if self.index[j].0 == *name {
                proof {
                    let keys = name_keys(self.index@);
                    assert(keys[j as int] == name@);
                    assert(keys.contains(name@));
                    let k = keys.index_of(name@);
                    assert(keys[k] == name@);
                }
                return Some(j);
            }
            j = j + 1;
        }
        proof {
            let keys = name_keys(self.index@);
            if keys.contains(name@) {
                let k = choose|k: int| 0 <= k < keys.len() && keys[k] == name@;
                assert(self.index@[k].0@ == name@);
            }
        }
        None
    }

    /// Adds a listener called `name` at the end, and points the index for
    /// that name at it. Returns its position.
    pub fn add_listener(&mut self, name: String) -> (pos: usize)
        requires
            old(self).wf(),
            old(self).listeners().len() < usize::MAX,
        ensures
            final(self).wf(),
            pos == old(self).listeners().len(),
            final(self).listeners() == old(self).listeners().push(name@),
            final(self).index() == old(self).index().insert(name@, pos as int),
    {
        let pos = self.listeners.len();
        let ghost old_l = self.listeners@;
        let ghost old_i = self.index@;
        let ghost nv = name@;
        self.listeners.push(name.clone());
        assert(self.listeners() =~= string_views(old_l).push(nv));
        match self.index_position(&name) {
            Some(j) => {
                self.index.set(j, (name, pos));
                proof {
                    let t = self.index@;
                    assert(name_keys(t) =~= name_keys(old_i));
                    assert(name_positions(t) =~= name_positions(old_i).update(j as int, pos));
                    assert forall|a: int, b: int| 0 <= a < t.len() && 0 <= b < t.len() && a != b
                        implies name_positions(t)[a] != name_positions(t)[b] by {
                        if a == j as int {
                            assert(old_i[b].1 < old_l.len());
                        } else if b == j as int {
                            assert(old_i[a].1 < old_l.len());
                        } else {
                            assert(name_positions(old_i)[a] != name_positions(old_i)[b]);
                        }
                    }
                    assert forall|l: int| 0 <= l < t.len() implies (#[trigger] t[l]).1 < self.listeners@.len()
                        && self.listeners@[t[l].1 as int]@ == t[l].0@ by {
                        if l != j as int {
                            assert(old_i[l].1 < old_l.len());
                            assert(self.listeners@[old_i[l].1 as int] == old_l[old_i[l].1 as int]);
                        }
                    }
                    assert forall|k: Seq<char>| #![auto] self.index().dom().contains(k) implies
                        self.index()[k] == old(self).index().insert(nv, pos as int)[k] by {
                        let p = name_keys(t).index_of(k);
                        assert(name_keys(t)[p] == k);
                        if k == nv {
                            assert(name_keys(t)[j as int] == nv);
                            assert(p == j as int);
                        }
                    }
                    assert(name_keys(t)[j as int] == nv);
                    assert(self.index() =~= old(self).index().insert(nv, pos as int));
                }
            },
            None => {
                self.index.push((name, pos));
                proof {
                    let t = self.index@;
                    assert(name_keys(t) =~= name_keys(old_i).push(nv));
                    lemma_push_to_set(name_keys(old_i), nv);
                    assert(name_positions(t) =~= name_positions(old_i).push(pos));
                    assert forall|a: int| 0 <= a < old_i.len() implies name_positions(old_i)[a] != pos by {
                        assert(old_i[a].1 < old_l.len());
                    }
                    lemma_push_to_set(name_positions(old_i), pos);
                    assert forall|l: int| 0 <= l < t.len() implies (#[trigger] t[l]).1 < self.listeners@.len()
                        && self.listeners@[t[l].1 as int]@ == t[l].0@ by {
                        if l < old_i.len() {
                            assert(old_i[l].1 < old_l.len());
                            assert(self.listeners@[old_i[l].1 as int] == old_l[old_i[l].1 as int]);
                        }
                    }
                    assert forall|k: Seq<char>| self.index().dom().contains(k) <==> old(self).index().insert(nv, pos as int).dom().contains(k) by {
                        if name_keys(old_i).contains(k) {
                            let q = choose|q: int| 0 <= q < name_keys(old_i).len() && name_keys(old_i)[q] == k;
                            assert(name_keys(t)[q] == k);
                        }
                        if name_keys(t).contains(k) && k != nv {
                            let q = choose|q: int| 0 <= q < name_keys(t).len() && name_keys(t)[q] == k;
                            assert(q < old_i.len());
                            assert(name_keys(old_i)[q] == k);
                        }
                        if k == nv {
                            assert(name_keys(t)[old_i.len() as int] == nv);
                        }
                    }
                    assert forall|k: Seq<char>| #![auto] self.index().dom().contains(k) implies
                        self.index()[k] == old(self).index().insert(nv, pos as int)[k] by {
                        let p = name_keys(t).index_of(k);
                        assert(name_keys(t)[p] == k);
                        if k == nv {
                            assert(name_keys(t)[old_i.len() as int] == nv);
                            assert(p == old_i.len());
                        } else {
                            assert(p < old_i.len());
                            assert(name_keys(old_i)[p] == k);
                            let q = name_keys(old_i).index_of(k);
                            assert(name_keys(old_i)[q] == k);
                            assert(name_keys(t)[q] == k);
                        }
                    }
                    assert(self.index() =~= old(self).index().insert(nv, pos as int));
                }
            },
        }
        pos
    }

    /// Removes the listener the index points at for `name`, drops `name`
    /// from the index and moves the positions after it down by one. Returns
    /// the position it had; a name that is not indexed changes nothing.
    pub fn remove_listener(&mut self, name: &str) -> (r: Option<usize>)
        requires
            old(self).wf(),
        ensures
            final(self).wf(),
            !old(self).index().dom().contains(name@) ==> r is None && final(self).listeners() == old(self).listeners()
                && final(self).index() == old(self).index(),
            old(self).index().dom().contains(name@) ==> {
                let i = old(self).index()[name@];
                &&& r == Some(i as usize)
                &&& final(self).listeners() == old(self).listeners().remove(i)
                &&& final(self).index() == Map::new(
                    |k: Seq<char>| old(self).index().dom().contains(k) && k != name@,
                    |k: Seq<char>| if old(self).index()[k] > i { old(self).index()[k] - 1 } else { old(self).index()[k] },
                )
            },
    {
        let target = owned(name);
        let j = match self.index_position(&target) {
            Some(j) => j,
            None => return None,
        };
        let i = self.index[j].1;
        let ghost old_l = self.listeners@;
        let ghost old_i = self.index@;
        let ghost nv = name@;
        proof {
            assert(self.index@[j as int].1 < self.listeners@.len());
        }
        self.listeners.remove(i);
        self.index.remove(j);
        let ghost rest = self.index@;
        assert(rest =~= old_i.remove(j as int));
        let ghost shrunk = self.listeners@;
        assert(shrunk =~= old_l.remove(i as int));
        let mut l: usize = 0;
        while l < self.index.len()
            invariant
                self.listeners@ == shrunk,
                l <= self.index@.len(),
                self.index@.len() == rest.len(),
                forall|m: int| 0 <= m < l ==> (#[trigger] self.index@[m]).0 == rest[m].0
                    && self.index@[m].1 == (if rest[m].1 > i { (rest[m].1 - 1) as usize } else { rest[m].1 }),
                forall|m: int| l <= m < rest.len() ==> #[trigger] self.index@[m] == rest[m],
            decreases self.index.len() - l,
        {
            if self.index[l].1 > i {
                let k = self.index[l].0.clone();
                let v = self.index[l].1 - 1;
                self.index.set(l, (k, v));
            }
            l = l + 1;
        }
        proof {
            let t = self.index@;
            let keys_old = name_keys(old_i);
            assert(name_keys(t) =~= keys_old.remove(j as int));
            lemma_remove_to_set(keys_old, j as int);
            assert forall|a: int, b: int| 0 <= a < t.len() && 0 <= b < t.len() && a != b
                implies name_positions(t)[a] != name_positions(t)[b] by {
                let a2 = if a < j { a } else { a + 1 };
                let b2 = if b < j { b } else { b + 1 };
                assert(rest[a] == old_i[a2] && rest[b] == old_i[b2]);
                assert(name_positions(old_i)[a2] != name_positions(old_i)[b2]);
                assert(name_positions(old_i)[a2] != name_positions(old_i)[j as int]);
                assert(name_positions(old_i)[b2] != name_positions(old_i)[j as int]);
            }
            assert forall|m: int| 0 <= m < t.len() implies (#[trigger] t[m]).1 < self.listeners@.len()
                && self.listeners@[t[m].1 as int]@ == t[m].0@ by {
                let m2 = if m < j { m } else { m + 1 };
                assert(rest[m] == old_i[m2]);
                assert(name_positions(old_i)[m2] != name_positions(old_i)[j as int]);
                assert(old_i[m2].1 < old_l.len());
                assert(old_l[old_i[m2].1 as int]@ == old_i[m2].0@);
                let v = old_i[m2].1;
                if v > i {
                    assert(t[m].1 == v - 1);
                    assert(self.listeners@[v - 1] == old_l[v as int]);
                } else {
                    assert(v != i);
                    assert(t[m].1 == v);
                    assert(self.listeners@[v as int] == old_l[v as int]);
                }
            }
            assert(self.listeners() =~= string_views(old_l).remove(i as int));
            let newmap = Map::new(
                |k: Seq<char>| old(self).index().dom().contains(k) && k != nv,
                |k: Seq<char>| if old(self).index()[k] > i { old(self).index()[k] - 1 } else { old(self).index()[k] },
            );
            assert(keys_old[j as int] == nv);
            assert forall|k: Seq<char>| self.index().dom().contains(k) <==> newmap.dom().contains(k) by {
                if name_keys(t).contains(k) {
                    let q = choose|q: int| 0 <= q < name_keys(t).len() && name_keys(t)[q] == k;
                    let q2 = if q < j { q } else { q + 1 };
                    assert(keys_old[q2] == k);
                    assert(q2 != j as int);
                }
                if keys_old.contains(k) && k != nv {
                    let q = choose|q: int| 0 <= q < keys_old.len() && keys_old[q] == k;
                    assert(q != j as int);
                    let q1 = if q < j { q } else { q - 1 };
                    assert(name_keys(t)[q1] == k);
                }
            }
            assert forall|k: Seq<char>| #![auto] self.index().dom().contains(k) implies self.index()[k] == newmap[k] by {
                let p = name_keys(t).index_of(k);
                assert(name_keys(t)[p] == k);
                let p2 = if p < j { p } else { p + 1 };
                assert(keys_old[p2] == k);
                let q = keys_old.index_of(k);
                assert(keys_old[q] == k);
                assert(q == p2);
            }
            assert(self.index() =~= newmap);
            assert(old(self).index()[nv] == i as int) by {
                let q = keys_old.index_of(nv);
                assert(keys_old[q] == nv);
            }
        }
        Some(i)
    }

    /// Removes every listener.
    pub fn remove_all_listeners(&mut self)
        ensures
            final(self).wf(),
            final(self).listeners() == Seq::<Seq<char>>::empty(),
            final(self).index() == Map::<Seq<char>, int>::empty(),
    {
        self.listeners = Vec::new();
        self.index = Vec::new();
        assert(self.listeners() =~= Seq::<Seq<char>>::empty());
        assert(self.index() =~= Map::<Seq<char>, int>::empty());
    }
}

} // verus!

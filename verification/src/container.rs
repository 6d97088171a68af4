//! The bean-definition registry: bean definitions, the singleton cache, the
//! creation tracker and the decisions taken when a bean is requested, plus
//! the order in which non-lazy singletons are initialized.

use vstd::prelude::*;
use crate::dependency::{
    all_dependencies_registered, first_missing, is_dependency_cycle, validate_dependency_graph,
    CreationTracker, DependencyGraph, DependencyValidationError, graph_deps, graph_has, graph_names,
    has_dependency_cycle, precedes, topological_sort,
};
use crate::text::{clone_strings, concat2, join, join_strings, owned, string_views};

verus! {

/// Bean name under which the application context registers itself.
pub const APPLICATION_CONTEXT_BEAN_NAME: &'static str = "applicationContext";

/// Bean name of the configuration environment.
pub const ENVIRONMENT_BEAN_NAME: &'static str = "environment";

/// Bean name of the event publisher.
pub const EVENT_PUBLISHER_BEAN_NAME: &'static str = "eventPublisher";

/// Prefix of the environment variables read as configuration.
pub const ENV_PREFIX: &'static str = "CHIMERA_";

/// Application name used when the configuration names none.
pub const DEFAULT_APP_NAME: &'static str = "application";

/// Configuration key of the application name.
pub const CONFIG_APP_NAME: &'static str = "chimera.app.name";

/// Configuration key of the application version.
pub const CONFIG_APP_VERSION: &'static str = "chimera.app.version";

/// Configuration key of the active profiles.
pub const CONFIG_PROFILES_ACTIVE: &'static str = "chimera.profiles.active";

/// Configuration key that makes event handling asynchronous.
pub const CONFIG_EVENTS_ASYNC: &'static str = "chimera.events.async";

/// Environment variable holding the active profiles.
pub const ENV_PROFILES_ACTIVE: &'static str = "CHIMERA_PROFILES_ACTIVE";

/// The application name: the one the configuration gives under
/// `chimera.app.name`, else `application`.
pub fn app_name_of(configured: Option<String>) -> (r: String)
    ensures
        r@ == match configured {
            Some(n) => n@,
            None => "application"@,
        },
{
    match configured {
        Some(n) => n,
        None => owned(DEFAULT_APP_NAME),
    }
}

/// The scope of a bean.
#[derive(Clone, Copy, Debug, PartialEq, Eq, Structural)]
pub enum Scope {
    /// One shared instance per container.
    Singleton,
    /// A new instance on every request.
    Prototype,
}

impl Scope {
    /// The scope a scope attribute names: `prototype` is the prototype
    /// scope and any other name the singleton scope.
    pub fn from_name(name: &str) -> (s: Scope)
        ensures
            s == (if name@ == "prototype"@ { Scope::Prototype } else { Scope::Singleton }),
    {
        if crate::text::str_equal(name, "prototype") {
            Scope::Prototype
        } else {
            Scope::Singleton
        }
    }
}

impl Default for Scope {
    fn default() -> (s: Self)
        ensures
            s == Scope::Singleton,
    {
        Scope::Singleton
    }
}

/// Errors of the container.
#[derive(Debug)]
pub enum ContainerError {
    /// No bean of that name is registered.
    BeanNotFound(String),
    /// A bean of that name is already registered.
    BeanAlreadyExists(String),
    /// Beans depend on each other in a cycle.
    CircularDependency(String),
    /// A bean could not be created.
    BeanCreationFailed(String),
    /// A bean is not of the requested type.
    TypeMismatch { expected: String, found: String },
    /// The declared dependencies are inconsistent.
    DependencyValidationFailed(String),
    /// Any other failure.
    Other(String),
}

/// How to create and manage a bean: its name, scope, laziness, declared
/// dependencies, the type its factory produces and whether it has
/// initialization and destruction callbacks.
#[derive(Debug)]
pub struct BeanDefinition {
    /// The bean's name.
    pub name: String,
    /// The bean's scope.
    pub scope: Scope,
    /// Whether a singleton is created only on first request.
    pub lazy: bool,
    /// The names of the beans it depends on.
    pub dependencies: Vec<String>,
    /// The name of the type its factory produces.
    pub bean_type: String,
    /// Whether an initialization callback is attached.
    pub has_init_callback: bool,
    /// Whether a destruction callback is attached.
    pub has_destroy_callback: bool,
}

impl BeanDefinition {
    /// A singleton, eager definition without dependencies or callbacks.
    pub fn new(name: String, bean_type: String) -> (d: Self)
        ensures
            d.name@ == name@,
            d.bean_type@ == bean_type@,
            d.scope == Scope::Singleton,
            !d.lazy,
            d.dependencies@.len() == 0,
            !d.has_init_callback,
            !d.has_destroy_callback,
    {
        BeanDefinition {
            name,
            scope: Scope::Singleton,
            lazy: false,
            dependencies: Vec::new(),
            bean_type,
            has_init_callback: false,
            has_destroy_callback: false,
        }
    }

    /// Sets the scope.
    pub fn with_scope(self, scope: Scope) -> (d: Self)
        ensures
            d == (BeanDefinition { scope, ..self }),
    {
        BeanDefinition { scope, ..self }
    }

    /// Sets whether the bean is created lazily.
    pub fn with_lazy(self, lazy: bool) -> (d: Self)
        ensures
            d == (BeanDefinition { lazy, ..self }),
    {
        BeanDefinition { lazy, ..self }
    }

    /// Sets the declared dependencies.
    pub fn with_dependencies(self, dependencies: Vec<String>) -> (d: Self)
        ensures
            d == (BeanDefinition { dependencies, ..self }),
    {
        BeanDefinition { dependencies, ..self }
    }

    /// Records that an initialization callback is attached.
    pub fn with_init(self) -> (d: Self)
        ensures
            d == (BeanDefinition { has_init_callback: true, ..self }),
    {
        BeanDefinition { has_init_callback: true, ..self }
    }

    /// Records that a destruction callback is attached.
    pub fn with_destroy(self) -> (d: Self)
        ensures
            d == (BeanDefinition { has_destroy_callback: true, ..self }),
    {
        BeanDefinition { has_destroy_callback: true, ..self }
    }

    /// `self` and `other` describe the same bean.
    pub open spec fn same_as(&self, other: &BeanDefinition) -> bool {
        &&& self.name@ == other.name@
        &&& self.scope == other.scope
        &&& self.lazy == other.lazy
        &&& self.dependencies@ == other.dependencies@
        &&& self.bean_type@ == other.bean_type@
        &&& self.has_init_callback == other.has_init_callback
        &&& self.has_destroy_callback == other.has_destroy_callback
    }

    /// A copy of this definition.
    pub fn copy(&self) -> (d: Self)
        ensures
            d.same_as(self),
    {
        BeanDefinition {
            name: self.name.clone(),
            scope: self.scope,
            lazy: self.lazy,
            dependencies: clone_strings(&self.dependencies),
            bean_type: self.bean_type.clone(),
            has_init_callback: self.has_init_callback,
            has_destroy_callback: self.has_destroy_callback,
        }
    }
}

} // verus!

verus! {

/// What a bean request asks of the caller once the registry has checked it.
#[derive(Debug, PartialEq, Eq, Structural)]
pub enum BeanRequest {
    /// The singleton is cached: hand out the cached instance.
    UseCached,
    /// Create a new instance; the bean is now marked as being created.
    Create,
}

/// The names of the definition entries, in registration order.
pub open spec fn entry_names(e: Seq<(String, BeanDefinition)>) -> Seq<Seq<char>> {
    e.map_values(|p: (String, BeanDefinition)| p.0@)
}

/// The type keys of the type index.
pub open spec fn type_keys(t: Seq<(String, String)>) -> Seq<Seq<char>> {
    t.map_values(|p: (String, String)| p.0@)
}

/// The type index as a map from type name to bean name.
pub open spec fn type_map(t: Seq<(String, String)>) -> Map<Seq<char>, Seq<char>> {
    Map::new(|k: Seq<char>| type_keys(t).contains(k), |k: Seq<char>| t[type_keys(t).index_of(k)].1@)
}

/// The default bean registry: definitions by name in registration order, the
/// cache of created singletons, the index from type name to bean name, the
/// beans under construction and whether the configuration is frozen. Bean
/// instances themselves are held by the caller.
pub struct DefaultListableBeanFactory {
    definitions: Vec<(String, BeanDefinition)>,
    singletons: Vec<String>,
    type_to_name: Vec<(String, String)>,
    creation_tracker: CreationTracker,
    configuration_frozen: bool,
}

impl DefaultListableBeanFactory {
    /// Registered bean names, in registration order.
    pub closed spec fn names(&self) -> Seq<Seq<char>> {
        entry_names(self.definitions@)
    }

    /// The definition of the `i`-th registered bean.
    pub closed spec fn definition_at(&self, i: int) -> BeanDefinition {
        self.definitions@[i].1
    }

    /// The definition registered under `name`.
    pub closed spec fn definition(&self, name: Seq<char>) -> BeanDefinition {
        self.definitions@[self.names().index_of(name)].1
    }

    /// A bean called `name` is registered.
    pub open spec fn has(&self, name: Seq<char>) -> bool {
        self.names().contains(name)
    }

    /// Names of the singletons created and cached.
    pub closed spec fn cached(&self) -> Set<Seq<char>> {
        string_views(self.singletons@).to_set()
    }

    /// The index from type name to the bean last registered with that type.
    pub closed spec fn type_index(&self) -> Map<Seq<char>, Seq<char>> {
        type_map(self.type_to_name@)
    }

    /// Names of the beans under construction.
    pub closed spec fn creating(&self) -> Set<Seq<char>> {
        self.creation_tracker@
    }

    /// Whether the configuration is frozen.
    pub closed spec fn frozen(&self) -> bool {
        self.configuration_frozen
    }

    /// Well-formedness: names, cached singletons and type keys never repeat.
    pub closed spec fn wf(&self) -> bool {
        &&& self.names().no_duplicates()
        &&& string_views(self.singletons@).no_duplicates()
        &&& type_keys(self.type_to_name@).no_duplicates()
        &&& self.creation_tracker.wf()
    }

    /// An empty registry.
    pub fn new() -> (f: Self)
        ensures
            f.wf(),
            f.names() == Seq::<Seq<char>>::empty(),
            f.cached() == Set::<Seq<char>>::empty(),
            f.type_index() == Map::<Seq<char>, Seq<char>>::empty(),
            f.creating() == Set::<Seq<char>>::empty(),
            !f.frozen(),
    {
        let f = DefaultListableBeanFactory {
            definitions: Vec::new(),
            singletons: Vec::new(),
            type_to_name: Vec::new(),
            creation_tracker: CreationTracker::new(),
            configuration_frozen: false,
        };
        assert(f.names() =~= Seq::<Seq<char>>::empty());
        assert(f.cached() =~= Set::<Seq<char>>::empty());
        assert(f.type_index() =~= Map::<Seq<char>, Seq<char>>::empty());
        f
    }

    /// Position of the definition registered under `name`.
    fn position(&self, name: &str) -> (r: Option<usize>)
        requires
            self.wf(),
        ensures
            match r {
                Some(i) => i < self.names().len() && self.names()[i as int] == name@
                    && self.names().index_of(name@) == i,
                None => !self.has(name@),
            },
    {
        let target = owned(name);
        let mut i: usize = 0;
        while i < self.definitions.len()
            invariant
                self.wf(),
                target@ == name@,
                i <= self.definitions@.len(),
                forall|j: int| 0 <= j < i ==> self.names()[j] != name@,
            decreases self.definitions.len() - i,
        {
            assert(self.names()[i as int] == self.definitions@[i as int].0@);
            if self.definitions[i].0 == target {
                proof {
                    let names = self.names();
                    assert(names.contains(name@));
                    let k = names.index_of(name@);
                    assert(names[k] == name@);
                }
                return Some(i);
            }
            i = i + 1;
        }
        proof {
            let names = self.names();
            if names.contains(name@) {
                let k = choose|k: int| 0 <= k < names.len() && names[k] == name@;
                assert(names[k] == name@);
            }
        }
        None
    }

    /// Whether a bean called `name` is registered.
    pub fn contains_bean(&self, name: &str) -> (r: bool)
        requires
            self.wf(),
        ensures
            r == self.has(name@),
    {
        let p = self.position(name);
        proof {
            if let Some(i) = p {
                assert(self.names()[i as int] == name@);
            }
        }
        p.is_some()
    }

    /// Whether a definition called `name` is registered.
    pub fn contains_bean_definition(&self, name: &str) -> (r: bool)
        requires
            self.wf(),
        ensures
            r == self.has(name@),
    {
        self.contains_bean(name)
    }

    /// Position of the type index entry for `bean_type`.
    fn type_position(&self, bean_type: &String) -> (r: Option<usize>)
        requires
            self.wf(),
        ensures
            match r {
                Some(i) => i < self.type_to_name@.len() && type_keys(self.type_to_name@)[i as int] == bean_type@
                    && type_keys(self.type_to_name@).index_of(bean_type@) == i,
                None => !type_keys(self.type_to_name@).contains(bean_type@),
            },
    {
        let mut i: usize = 0;
        while i < self.type_to_name.len()
            invariant
                self.wf(),
                i <= self.type_to_name@.len(),
                forall|j: int| 0 <= j < i ==> type_keys(self.type_to_name@)[j] != bean_type@,
            decreases self.type_to_name.len() - i,
        {
            assert(type_keys(self.type_to_name@)[i as int] == self.type_to_name@[i as int].0@);
            if self.type_to_name[i].0 == *bean_type {
                proof {
                    let keys = type_keys(self.type_to_name@);
                    assert(keys.contains(bean_type@));
                    let k = keys.index_of(bean_type@);
                    assert(keys[k] == bean_type@);
                }
                return Some(i);
            }
            i = i + 1;
        }
        proof {
            let keys = type_keys(self.type_to_name@);
            if keys.contains(bean_type@) {
                let k = choose|k: int| 0 <= k < keys.len() && keys[k] == bean_type@;
                assert(keys[k] == bean_type@);
            }
        }
        None
    }

    /// Registers `definition` under `name`. Refused while the configuration
    /// is frozen and when the name is already taken; otherwise the bean is
    /// appended and its type indexed to it.
    pub fn register_bean_definition(&mut self, name: String, definition: BeanDefinition) -> (r: Result<(), ContainerError>)
        requires
            old(self).wf(),
        ensures
            final(self).wf(),
            old(self).frozen() ==> (match r {
                Err(ContainerError::Other(m)) => m@ == "Cannot register bean definition: configuration is frozen"@,
                _ => false,
            }),
            !old(self).frozen() && old(self).has(name@) ==> (match r {
                Err(ContainerError::BeanAlreadyExists(n)) => n@ == name@,
                _ => false,
            }),
            r is Err ==> final(self).names() == old(self).names() && (forall|n: Seq<char>|
                old(self).has(n) ==> #[trigger] final(self).definition(n) == old(self).definition(n))
                && final(self).type_index() == old(self).type_index(),
            !old(self).frozen() && !old(self).has(name@) ==> {
                &&& r is Ok
                &&& final(self).names() == old(self).names().push(name@)
                &&& final(self).definition(name@) == definition
                &&& forall|n: Seq<char>| old(self).has(n) ==> #[trigger] final(self).definition(n) == old(self).definition(n)
                &&& final(self).type_index() == old(self).type_index().insert(definition.bean_type@, name@)
            },
            final(self).cached() == old(self).cached(),
            final(self).creating() == old(self).creating(),
            final(self).frozen() == old(self).frozen(),
    {
        if self.configuration_frozen {
            return Err(ContainerError::Other(owned("Cannot register bean definition: configuration is frozen")));
        }
        if self.contains_bean(name.as_str()) {
            return Err(ContainerError::BeanAlreadyExists(name));
        }
        let ghost old_names = self.names();
        let ghost old_self = *self;
        let bean_type = definition.bean_type.clone();
        let name2 = name.clone();
        self.definitions.push((name, definition));
        proof {
            assert(self.names() =~= old_names.push(name2@));
            lemma_push_distinct(old_names, name2@);
            assert forall|n: Seq<char>| old_self.has(n) implies #[trigger] self.definition(n) == old_self.definition(n) by {
                let i = old_names.index_of(n);
                assert(old_names[i] == n);
                assert(self.names()[i] == n);
                let j = self.names().index_of(n);
                assert(self.names()[j] == n);
                assert(i == j);
            }
            let j = self.names().index_of(name2@);
            assert(self.names()[old_names.len() as int] == name2@);
            assert(self.names()[j] == name2@);
        }
        let ghost mid = *self;
        self.index_type(bean_type, name2);
        proof {
            assert(self.names() == mid.names());
            assert(self.definition(name2@) == mid.definition(name2@));
            assert forall|n: Seq<char>| old_self.has(n) implies #[trigger] self.definition(n) == old_self.definition(n) by {
                assert(self.definition(n) == mid.definition(n));
            }
        }
        Ok(())
    }

    /// Points the type index entry of `bean_type` at `name`.
    fn index_type(&mut self, bean_type: String, name: String)
        requires
            old(self).wf(),
        ensures
            final(self).wf(),
            final(self).type_index() == old(self).type_index().insert(bean_type@, name@),
            final(self).names() == old(self).names(),
            final(self).definitions == old(self).definitions,
            final(self).singletons == old(self).singletons,
            final(self).creation_tracker == old(self).creation_tracker,
            final(self).configuration_frozen == old(self).configuration_frozen,
    {
        let ghost old_t = self.type_to_name@;
        match self.type_position(&bean_type) {
            Some(i) => {
                let ghost bt = bean_type@;
                let ghost nm = name@;
                self.type_to_name.set(i, (bean_type, name));
                proof {
                    let t = self.type_to_name@;
                    assert(type_keys(t) =~= type_keys(old_t));
                    assert forall|k: Seq<char>| #![auto] type_map(t).dom().contains(k) implies
                        type_map(t)[k] == type_map(old_t).insert(bt, nm)[k] by {
                        let p = type_keys(t).index_of(k);
                        assert(type_keys(t)[p] == k);
                        if k == bt {
                            assert(type_keys(t)[i as int] == bt);
                            assert(p == i);
                        }
                    }
                    assert(type_map(t) =~= type_map(old_t).insert(bt, nm));
                }
            },
            None => {
                let ghost bt = bean_type@;
                let ghost nm = name@;
                self.type_to_name.push((bean_type, name));
                proof {
                    let t = self.type_to_name@;
                    assert(type_keys(t) =~= type_keys(old_t).push(bt));
                    lemma_push_distinct(type_keys(old_t), bt);
                    assert forall|k: Seq<char>| #![auto] type_map(t).dom().contains(k) implies
                        type_map(t)[k] == type_map(old_t).insert(bt, nm)[k] by {
                        let p = type_keys(t).index_of(k);
                        assert(type_keys(t)[p] == k);
                        if k == bt {
                            assert(type_keys(t)[old_t.len() as int] == bt);
                            assert(p == old_t.len());
                        } else {
                            assert(p < old_t.len());
                            assert(type_keys(old_t)[p] == k);
                            let q = type_keys(old_t).index_of(k);
                            assert(type_keys(old_t)[q] == k);
                            assert(type_keys(t)[q] == k);
                        }
                    }
                    assert forall|k: Seq<char>| type_map(t).dom().contains(k) <==> type_map(old_t).insert(bt, nm).dom().contains(k) by {
                        if type_keys(old_t).contains(k) {
                            let q = choose|q: int| 0 <= q < type_keys(old_t).len() && type_keys(old_t)[q] == k;
                            assert(type_keys(t)[q] == k);
                        }
                        if type_keys(t).contains(k) && k != bt {
                            let q = choose|q: int| 0 <= q < type_keys(t).len() && type_keys(t)[q] == k;
                            assert(q < old_t.len());
                            assert(type_keys(old_t)[q] == k);
                        }
                        if k == bt {
                            assert(type_keys(t)[old_t.len() as int] == bt);
                        }
                    }
                    assert(type_map(t) =~= type_map(old_t).insert(bt, nm));
                }
            },
        }
    }
}

impl DefaultListableBeanFactory {
    /// In a well-formed registry the definition registered under the `i`-th
    /// name is the `i`-th definition.
    pub proof fn lemma_definition_at(&self, i: int)
        requires
            self.wf(),
            0 <= i < self.names().len(),
        ensures
            self.has(self.names()[i]),
            self.definition(self.names()[i]) == self.definition_at(i),
            self.names().index_of(self.names()[i]) == i,
    {
        let names = self.names();
        assert(names.contains(names[i]));
        let j = names.index_of(names[i]);
        assert(names[j] == names[i]);
    }

    /// Removes the definition registered under `name`. Refused while the
    /// configuration is frozen and when no such bean is registered. Cached
    /// singletons and the type index are left as they are.
    pub fn remove_bean_definition(&mut self, name: &str) -> (r: Result<(), ContainerError>)
        requires
            old(self).wf(),
        ensures
            final(self).wf(),
            old(self).frozen() ==> (match r {
                Err(ContainerError::Other(m)) => m@ == "Cannot remove bean definition: configuration is frozen"@,
                _ => false,
            }),
            !old(self).frozen() && !old(self).has(name@) ==> (match r {
                Err(ContainerError::BeanNotFound(n)) => n@ == name@,
                _ => false,
            }),
            r is Err ==> final(self).names() == old(self).names()
                && forall|i: int| 0 <= i < old(self).names().len()
                    ==> #[trigger] final(self).definition_at(i) == old(self).definition_at(i),
            !old(self).frozen() && old(self).has(name@) ==> {
                let k = old(self).names().index_of(name@);
                &&& r is Ok
                &&& final(self).names() == old(self).names().remove(k)
                &&& forall|i: int| 0 <= i < final(self).names().len() ==> #[trigger] final(self).definition_at(i)
                    == old(self).definition_at(if i < k { i } else { i + 1 })
            },
            r is Ok ==> !final(self).has(name@),
            final(self).cached() == old(self).cached(),
            final(self).type_index() == old(self).type_index(),
            final(self).creating() == old(self).creating(),
            final(self).frozen() == old(self).frozen(),
    {
        if self.configuration_frozen {
            return Err(ContainerError::Other(owned("Cannot remove bean definition: configuration is frozen")));
        }
        match self.position(name) {
            None => Err(ContainerError::BeanNotFound(owned(name))),
            Some(k) => {
                let ghost old_defs = self.definitions@;
                let ghost old_names = self.names();
                self.definitions.remove(k);
                proof {
                    assert(self.definitions@ =~= old_defs.remove(k as int));
                    assert(self.names() =~= old_names.remove(k as int));
                    crate::dependency::lemma_remove_to_set(old_names, k as int);
                    if self.names().contains(name@) {
                        let j = choose|j: int| 0 <= j < self.names().len() && self.names()[j] == name@;
                        if j < k {
                            assert(old_names[j] == name@);
                        } else {
                            assert(old_names[j + 1] == name@);
                        }
                    }
                }
                Ok(())
            },
        }
    }

    /// The definition registered under `name`, copied.
    pub fn get_bean_definition(&self, name: &str) -> (r: Result<BeanDefinition, ContainerError>)
        requires
            self.wf(),
        ensures
            self.has(name@) ==> r is Ok && r->Ok_0.same_as(&self.definition(name@)),
            !self.has(name@) ==> (match r {
                Err(ContainerError::BeanNotFound(n)) => n@ == name@,
                _ => false,
            }),
    {
        match self.position(name) {
            Some(i) => Ok(self.definitions[i].1.copy()),
            None => Err(ContainerError::BeanNotFound(owned(name))),
        }
    }

    /// The registered bean names, in registration order.
    pub fn get_bean_names(&self) -> (r: Vec<String>)
        ensures
            string_views(r@) == self.names(),
    {
        let mut out: Vec<String> = Vec::new();
        let mut i: usize = 0;
        while i < self.definitions.len()
            invariant
                i <= self.definitions@.len(),
                string_views(out@) == self.names().take(i as int),
            decreases self.definitions.len() - i,
        {
            let ghost before = out@;
            let n = self.definitions[i].0.clone();
            assert(n@ == self.names()[i as int]);
            out.push(n);
            assert(string_views(out@) =~= string_views(before).push(n@));
            i = i + 1;
            assert(self.names().take(i as int) =~= self.names().take(i - 1).push(n@));
        }
        assert(self.names().take(i as int) =~= self.names());
        out
    }

    /// The number of registered definitions.
    pub fn get_bean_definition_count(&self) -> (n: usize)
        ensures
            n == self.names().len(),
    {
        self.definitions.len()
    }

    /// Freezes the configuration: definitions can no longer be registered,
    /// removed or modified.
    pub fn freeze_configuration(&mut self)
        requires
            old(self).wf(),
        ensures
            final(self).wf(),
            final(self).frozen(),
            final(self).names() == old(self).names(),
            forall|i: int| #![trigger final(self).definition_at(i)] final(self).definition_at(i) == old(self).definition_at(i),
            final(self).cached() == old(self).cached(),
            final(self).type_index() == old(self).type_index(),
            final(self).creating() == old(self).creating(),
    {
        self.configuration_frozen = true;
    }

    /// Whether the configuration is frozen.
    pub fn is_configuration_frozen(&self) -> (r: bool)
        ensures
            r == self.frozen(),
    {
        self.configuration_frozen
    }
}

/// `m` is the message that dependency validation gives for the graph `g`:
/// the first undeclared dependency, or else a dependency cycle.
pub open spec fn validation_message(g: Seq<(Seq<char>, Seq<Seq<char>>)>, m: Seq<char>) -> bool {
    ||| exists|i: int, k: int| first_missing(g, i, k)
        && m == "Bean '"@ + g[i].0 + "' depends on '"@ + g[i].1[k] + "' which is not registered"@
    ||| all_dependencies_registered(g) && exists|c: Seq<Seq<char>>| is_dependency_cycle(g, c)
        && m == "Circular dependency detected: "@ + join(c, " -> "@)
}

impl DefaultListableBeanFactory {
    /// The declared dependencies of the registered beans, in registration
    /// order.
    pub closed spec fn dependency_view(&self) -> Seq<(Seq<char>, Seq<Seq<char>>)> {
        self.definitions@.map_values(|e: (String, BeanDefinition)| (e.0@, string_views(e.1.dependencies@)))
    }

    /// The dependency graph of the registered beans: each bean name with the
    /// names it declares as dependencies.
    pub fn get_bean_definitions(&self) -> (g: DependencyGraph)
        requires
            self.wf(),
        ensures
            g.wf(),
            g@ == self.dependency_view(),
    {
        let mut g = DependencyGraph::new();
        let mut i: usize = 0;
        while i < self.definitions.len()
            invariant
                self.wf(),
                i <= self.definitions@.len(),
                g.wf(),
                g@ == self.dependency_view().take(i as int),
            decreases self.definitions.len() - i,
        {
            let name = self.definitions[i].0.clone();
            let deps = clone_strings(&self.definitions[i].1.dependencies);
            proof {
                let names = self.names();
                assert(graph_names(g@) =~= names.take(i as int));
                if graph_has(g@, name@) {
                    let j = choose|j: int| 0 <= j < i && names.take(i as int)[j] == name@;
                    assert(names[j] == names[i as int]);
                }
            }
            g.insert(name, deps);
            i = i + 1;
            assert(g@ =~= self.dependency_view().take(i as int));
        }
        assert(self.dependency_view().take(i as int) =~= self.dependency_view());
        g
    }

    /// Checks the declared dependencies of all registered beans: each must
    /// name a registered bean, and no beans may depend on each other in a
    /// cycle. Fails with `DependencyValidationFailed` carrying the message
    /// of the problem found.
    pub fn validate_dependencies(&self) -> (r: Result<(), ContainerError>)
        requires
            self.wf(),
        ensures
            r is Ok <==> all_dependencies_registered(self.dependency_view())
                && !has_dependency_cycle(self.dependency_view()),
            match r {
                Ok(()) => true,
                Err(ContainerError::DependencyValidationFailed(m)) => validation_message(self.dependency_view(), m@),
                _ => false,
            },
    {
        let g = self.get_bean_definitions();
        match validate_dependency_graph(&g) {
            Ok(()) => Ok(()),
            Err(e) => {
                let m = e.to_string();
                proof {
                    match e {
                        DependencyValidationError::MissingDependency { bean, missing } => {
                            let (i, k) = choose|i: int, k: int| first_missing(g@, i, k) && bean@ == g@[i].0
                                && missing@ == g@[i].1[k];
                            assert(first_missing(g@, i, k));
                        },
                        DependencyValidationError::CircularDependency { cycle } => {
                            assert(is_dependency_cycle(g@, string_views(cycle@)));
                        },
                    }
                }
                Err(ContainerError::DependencyValidationFailed(m))
            },
        }
    }

    /// The names of the singleton beans that are not lazy, in registration
    /// order, counting the first `n` registered beans.
    pub open spec fn eager_singletons(&self, n: int) -> Seq<Seq<char>>
        decreases n,
    {
        if n <= 0 {
            Seq::empty()
        } else if self.definition_at(n - 1).scope == Scope::Singleton && !self.definition_at(n - 1).lazy {
            self.eager_singletons(n - 1).push(self.names()[n - 1])
        } else {
            self.eager_singletons(n - 1)
        }
    }

    /// The names of the beans whose factory produces `t`, in registration
    /// order, counting the first `n` registered beans.
    pub open spec fn names_of_type(&self, t: Seq<char>, n: int) -> Seq<Seq<char>>
        decreases n,
    {
        if n <= 0 {
            Seq::empty()
        } else if self.definition_at(n - 1).bean_type@ == t {
            self.names_of_type(t, n - 1).push(self.names()[n - 1])
        } else {
            self.names_of_type(t, n - 1)
        }
    }

    /// `x` names one of the first `n` registered beans, a singleton that is
    /// not lazy.
    pub open spec fn registered_eager(&self, x: Seq<char>, n: int) -> bool {
        exists|i: int| 0 <= i < n && (#[trigger] self.definition_at(i)).scope == Scope::Singleton
            && !self.definition_at(i).lazy && self.names()[i] == x
    }

    /// Exactly the singletons that are not lazy are created up front: every
    /// one among the first `n` registered beans is listed, and each name
    /// listed is one of them; so, the names being distinct, no prototype
    /// and no lazy bean is listed.
    pub proof fn lemma_eager_singletons(&self, n: int)
        requires
            0 <= n <= self.names().len(),
        ensures
            forall|i: int| 0 <= i < n && (#[trigger] self.definition_at(i)).scope == Scope::Singleton
                && !self.definition_at(i).lazy ==> self.eager_singletons(n).contains(self.names()[i]),
            forall|k: int| 0 <= k < self.eager_singletons(n).len() ==> self.registered_eager(
                #[trigger] self.eager_singletons(n)[k],
                n,
            ),
            self.names().no_duplicates() ==> forall|i: int| 0 <= i < n && !((#[trigger] self.definition_at(i)).scope
                == Scope::Singleton && !self.definition_at(i).lazy) ==> !self.eager_singletons(n).contains(
                self.names()[i],
            ),
        decreases n,
    {
        if n > 0 {
            self.lemma_eager_singletons(n - 1);
            let prev = self.eager_singletons(n - 1);
            let cur = self.eager_singletons(n);
            let last_eager = self.definition_at(n - 1).scope == Scope::Singleton && !self.definition_at(n - 1).lazy;
            assert forall|i: int| 0 <= i < n && (#[trigger] self.definition_at(i)).scope == Scope::Singleton
                && !self.definition_at(i).lazy implies cur.contains(self.names()[i]) by {
                if i < n - 1 {
                    let k = choose|k: int| 0 <= k < prev.len() && prev[k] == self.names()[i];
                    if last_eager {
                        assert(cur[k] == prev[k]);
                    }
                } else {
                    assert(cur[prev.len() as int] == self.names()[i]);
                }
            }
            assert forall|k: int| 0 <= k < cur.len() implies self.registered_eager(#[trigger] cur[k], n) by {
                if k < prev.len() {
                    if last_eager {
                        assert(cur[k] == prev[k]);
                    }
                    assert(self.registered_eager(prev[k], n - 1));
                    let i = choose|i: int| 0 <= i < n - 1 && (#[trigger] self.definition_at(i)).scope == Scope::Singleton
                        && !self.definition_at(i).lazy && self.names()[i] == prev[k];
                    assert(self.definition_at(i).scope == Scope::Singleton && !self.definition_at(i).lazy
                        && self.names()[i] == cur[k]);
                } else {
                    assert(self.definition_at(n - 1).scope == Scope::Singleton && !self.definition_at(n - 1).lazy
                        && self.names()[n - 1] == cur[k]);
                }
            }
            if self.names().no_duplicates() {
                assert forall|i: int| 0 <= i < n && !((#[trigger] self.definition_at(i)).scope == Scope::Singleton
                    && !self.definition_at(i).lazy) implies !cur.contains(self.names()[i]) by {
                    if cur.contains(self.names()[i]) {
                        let k = choose|k: int| 0 <= k < cur.len() && cur[k] == self.names()[i];
                        assert(self.registered_eager(cur[k], n));
                        let j = choose|j: int| 0 <= j < n && (#[trigger] self.definition_at(j)).scope == Scope::Singleton
                            && !self.definition_at(j).lazy && self.names()[j] == cur[k];
                        assert(j != i);
                    }
                }
            }
        }
    }

    /// `x` names one of the first `n` registered beans, one whose factory
    /// produces `t`.
    pub open spec fn registered_with_type(&self, x: Seq<char>, t: Seq<char>, n: int) -> bool {
        exists|i: int| 0 <= i < n && (#[trigger] self.definition_at(i)).bean_type@ == t && self.names()[i] == x
    }

    /// Exactly the beans whose factory produces `t` are listed for it: every
    /// registered one among the first `n`, whatever its scope or laziness,
    /// and no other name.
    pub proof fn lemma_names_of_type(&self, t: Seq<char>, n: int)
        requires
            0 <= n <= self.names().len(),
        ensures
            forall|i: int| 0 <= i < n && (#[trigger] self.definition_at(i)).bean_type@ == t
                ==> self.names_of_type(t, n).contains(self.names()[i]),
            forall|k: int| 0 <= k < self.names_of_type(t, n).len() ==> self.registered_with_type(
                #[trigger] self.names_of_type(t, n)[k],
                t,
                n,
            ),
        decreases n,
    {
        if n > 0 {
            self.lemma_names_of_type(t, n - 1);
            let prev = self.names_of_type(t, n - 1);
            let cur = self.names_of_type(t, n);
            assert forall|i: int| 0 <= i < n && (#[trigger] self.definition_at(i)).bean_type@ == t
                implies cur.contains(self.names()[i]) by {
                if i < n - 1 {
                    assert(prev.contains(self.names()[i]));
                    let k = choose|k: int| 0 <= k < prev.len() && prev[k] == self.names()[i];
                    if self.definition_at(n - 1).bean_type@ == t {
                        assert(cur[k] == prev[k]);
                    }
                } else {
                    assert(cur[prev.len() as int] == self.names()[i]);
                }
            }
            assert forall|k: int| 0 <= k < cur.len() implies self.registered_with_type(#[trigger] cur[k], t, n) by {
                if k < prev.len() {
                    if self.definition_at(n - 1).bean_type@ == t {
                        assert(cur[k] == prev[k]);
                    }
                    assert(self.registered_with_type(prev[k], t, n - 1));
                    let i = choose|i: int| 0 <= i < n - 1 && (#[trigger] self.definition_at(i)).bean_type@ == t
                        && self.names()[i] == prev[k];
                    assert(self.definition_at(i).bean_type@ == t && self.names()[i] == cur[k]);
                } else {
                    assert(self.definition_at(n - 1).bean_type@ == t && self.names()[n - 1] == cur[k]);
                }
            }
        }
    }

    /// Some registered bean's factory produces `t`.
    pub open spec fn has_type(&self, t: Seq<char>) -> bool {
        exists|i: int| 0 <= i < self.names().len() && #[trigger] self.definition_at(i).bean_type@ == t
    }

    /// The singletons that are not lazy, which are created up front, in
    /// registration order.
    pub fn singletons_to_preinstantiate(&self) -> (r: Vec<String>)
        ensures
            string_views(r@) == self.eager_singletons(self.names().len() as int),
            forall|i: int| 0 <= i < self.names().len() && (#[trigger] self.definition_at(i)).scope == Scope::Singleton
                && !self.definition_at(i).lazy ==> string_views(r@).contains(self.names()[i]),
            forall|k: int| 0 <= k < r@.len() ==> self.registered_eager((#[trigger] r@[k])@, self.names().len() as int),
    {
        proof {
            self.lemma_eager_singletons(self.names().len() as int);
        }
        let mut out: Vec<String> = Vec::new();
        let mut i: usize = 0;
        while i < self.definitions.len()
            invariant
                i <= self.definitions@.len(),
                string_views(out@) == self.eager_singletons(i as int),
            decreases self.definitions.len() - i,
        {
            let d = &self.definitions[i].1;
            if d.scope == Scope::Singleton && !d.lazy {
                let ghost before = out@;
                let n = self.definitions[i].0.clone();
                assert(n@ == self.names()[i as int]);
                out.push(n);
                assert(string_views(out@) =~= string_views(before).push(n@));
            }
            i = i + 1;
        }
        proof {
            let n = self.names().len() as int;
            assert forall|k: int| 0 <= k < out@.len() implies self.registered_eager((#[trigger] out@[k])@, n) by {
                assert(string_views(out@)[k] == out@[k]@);
                assert(self.registered_eager(self.eager_singletons(n)[k], n));
            }
        }
        out
    }

    /// The names of the beans whose factory produces `bean_type`, in
    /// registration order.
    pub fn get_bean_names_for_type(&self, bean_type: &str) -> (r: Vec<String>)
        ensures
            string_views(r@) == self.names_of_type(bean_type@, self.names().len() as int),
            forall|i: int| 0 <= i < self.names().len() && (#[trigger] self.definition_at(i)).bean_type@ == bean_type@
                ==> string_views(r@).contains(self.names()[i]),
            forall|k: int| 0 <= k < r@.len() ==> self.registered_with_type(
                (#[trigger] r@[k])@,
                bean_type@,
                self.names().len() as int,
            ),
    {
        proof {
            self.lemma_names_of_type(bean_type@, self.names().len() as int);
        }
        let t = owned(bean_type);
        let mut out: Vec<String> = Vec::new();
        let mut i: usize = 0;
        while i < self.definitions.len()
            invariant
                i <= self.definitions@.len(),
                t@ == bean_type@,
                string_views(out@) == self.names_of_type(bean_type@, i as int),
            decreases self.definitions.len() - i,
        {
            if self.definitions[i].1.bean_type == t {
                let ghost before = out@;
                let n = self.definitions[i].0.clone();
                assert(n@ == self.names()[i as int]);
                out.push(n);
                assert(string_views(out@) =~= string_views(before).push(n@));
            }
            i = i + 1;
        }
        proof {
            let n = self.names().len() as int;
            assert forall|k: int| 0 <= k < out@.len() implies self.registered_with_type(
                (#[trigger] out@[k])@,
                bean_type@,
                n,
            ) by {
                assert(string_views(out@)[k] == out@[k]@);
                assert(self.registered_with_type(self.names_of_type(bean_type@, n)[k], bean_type@, n));
            }
        }
        out
    }

    /// Position of the first registered bean whose factory produces `t`.
    fn first_of_type(&self, t: &String) -> (r: Option<usize>)
        ensures
            match r {
                Some(i) => i < self.names().len() && self.definition_at(i as int).bean_type@ == t@
                    && forall|j: int| 0 <= j < i ==> #[trigger] self.definition_at(j).bean_type@ != t@,
                None => !self.has_type(t@),
            },
    {
        let mut i: usize = 0;
        while i < self.definitions.len()
            invariant
                i <= self.definitions@.len(),
                forall|j: int| 0 <= j < i ==> #[trigger] self.definition_at(j).bean_type@ != t@,
            decreases self.definitions.len() - i,
        {
            if self.definitions[i].1.bean_type == *t {
                return Some(i);
            }
            i = i + 1;
        }
        None
    }

    /// The name of the bean to hand out for the type `bean_type`: the bean
    /// the type index points at, or else the first registered bean whose
    /// factory produces that type.
    pub fn bean_name_for_type(&self, bean_type: &str) -> (r: Option<String>)
        requires
            self.wf(),
        ensures
            self.type_index().dom().contains(bean_type@) ==> r is Some && r->Some_0@ == self.type_index()[bean_type@],
            !self.type_index().dom().contains(bean_type@) ==> match r {
                Some(n) => exists|i: int| 0 <= i < self.names().len() && self.names()[i] == n@
                    && #[trigger] self.definition_at(i).bean_type@ == bean_type@
                    && forall|j: int| 0 <= j < i ==> #[trigger] self.definition_at(j).bean_type@ != bean_type@,
                None => !self.has_type(bean_type@),
            },
    {
        let t = owned(bean_type);
        match self.type_position(&t) {
            Some(k) => {
                let n = self.type_to_name[k].1.clone();
                proof {
                    let keys = type_keys(self.type_to_name@);
                    assert(keys[k as int] == t@);
                }
                Some(n)
            },
            None => {
                match self.first_of_type(&t) {
                    Some(i) => {
                        let n = self.definitions[i].0.clone();
                        assert(n@ == self.names()[i as int]);
                        Some(n)
                    },
                    None => None,
                }
            },
        }
    }

    /// Whether a bean can be found for the type `bean_type`: the type index
    /// has it, or some registered bean's factory produces it.
    pub fn contains_bean_by_type(&self, bean_type: &str) -> (r: bool)
        requires
            self.wf(),
        ensures
            r == (self.type_index().dom().contains(bean_type@) || self.has_type(bean_type@)),
    {
        let t = owned(bean_type);
        if self.type_position(&t).is_some() {
            return true;
        }
        self.first_of_type(&t).is_some()
    }
}

impl DefaultListableBeanFactory {
    /// Position of `name` in the singleton cache.
    fn cached_position(&self, name: &str) -> (r: Option<usize>)
        ensures
            match r {
                Some(i) => i < self.singletons@.len() && self.singletons@[i as int]@ == name@,
                None => !self.cached().contains(name@),
            },
    {
        let target = owned(name);
        let mut i: usize = 0;
        while i < self.singletons.len()
            invariant
                i <= self.singletons@.len(),
                target@ == name@,
                forall|j: int| 0 <= j < i ==> self.singletons@[j]@ != name@,
            decreases self.singletons.len() - i,
        {
            if self.singletons[i] == target {
                return Some(i);
            }
            i = i + 1;
        }
        proof {
            if self.cached().contains(name@) {
                let j = choose|j: int| 0 <= j < self.singletons@.len() && string_views(self.singletons@)[j] == name@;
                assert(self.singletons@[j]@ == name@);
            }
        }
        None
    }

    /// The bean `name` must be created: it is registered and is not a cached
    /// singleton.
    pub open spec fn needs_creation(&self, name: Seq<char>) -> bool {
        self.has(name) && !(self.definition(name).scope == Scope::Singleton && self.cached().contains(name))
    }

    /// Decides what a request for the bean `name` calls for. An unknown name
    /// is refused; a cached singleton is handed out as it is; a bean already
    /// under construction means beans depend on each other in a cycle, which
    /// is refused with the chain of beans under construction followed by
    /// `name`; otherwise the bean is marked as under construction and must be
    /// created, after which `finish_bean_creation` is called.
    pub fn begin_bean_request(&mut self, name: &str) -> (r: Result<BeanRequest, ContainerError>)
        requires
            old(self).wf(),
        ensures
            final(self).wf(),
            final(self).names() == old(self).names(),
            forall|i: int| #![trigger final(self).definition_at(i)] final(self).definition_at(i) == old(self).definition_at(i),
            final(self).cached() == old(self).cached(),
            final(self).type_index() == old(self).type_index(),
            final(self).frozen() == old(self).frozen(),
            !old(self).has(name@) ==> (match r {
                Err(ContainerError::BeanNotFound(n)) => n@ == name@,
                _ => false,
            }),
            old(self).has(name@) && !old(self).needs_creation(name@) ==> r == Ok::<BeanRequest, ContainerError>(BeanRequest::UseCached),
            old(self).needs_creation(name@) && old(self).creating().contains(name@) ==> (match r {
                Err(ContainerError::CircularDependency(m)) => exists|chain: Seq<Seq<char>>|
                    chain.no_duplicates() && chain.to_set() == old(self).creating()
                        && m@ == join(chain, " -> "@) + " -> "@ + name@,
                _ => false,
            }),
            old(self).needs_creation(name@) && !old(self).creating().contains(name@) ==>
                r == Ok::<BeanRequest, ContainerError>(BeanRequest::Create),
            r == Ok::<BeanRequest, ContainerError>(BeanRequest::Create) ==> final(self).creating() == old(self).creating().insert(name@),
            r != Ok::<BeanRequest, ContainerError>(BeanRequest::Create) ==> final(self).creating() == old(self).creating(),
    {
        let i = match self.position(name) {
            Some(i) => i,
            None => return Err(ContainerError::BeanNotFound(owned(name))),
        };
        proof {
            assert(self.definition(name@) == self.definitions@[i as int].1);
        }
        if self.definitions[i].1.scope == Scope::Singleton {
            if let Some(j) = self.cached_position(name) {
                assert(string_views(self.singletons@)[j as int] == name@);
                return Ok(BeanRequest::UseCached);
            }
        }
        let creating = self.creation_tracker.is_creating(name);
        if let Ok(true) = creating {
            let chain = self.creation_tracker.current_creating();
            if let Ok(chain) = chain {
                let joined = join_strings(&chain, " -> ");
                let mut m = concat2(joined.as_str(), " -> ");
                m.append(name);
                return Err(ContainerError::CircularDependency(m));
            }
        }
        let started = self.creation_tracker.start_creating(name);
        if let Ok(false) = started {
            let mut m = owned("Detected circular dependency on '");
            m.append(name);
            m.append("'");
            return Err(ContainerError::CircularDependency(m));
        }
        Ok(BeanRequest::Create)
    }

    /// Decides what a request for the bean `name` calls for when only
    /// singletons are watched for cycles: as `begin_bean_request` does for a
    /// singleton, while a prototype is always created and not marked as
    /// under construction.
    pub fn begin_context_bean_request(&mut self, name: &str) -> (r: Result<BeanRequest, ContainerError>)
        requires
            old(self).wf(),
        ensures
            final(self).wf(),
            final(self).names() == old(self).names(),
            forall|i: int| #![trigger final(self).definition_at(i)] final(self).definition_at(i) == old(self).definition_at(i),
            final(self).cached() == old(self).cached(),
            final(self).type_index() == old(self).type_index(),
            final(self).frozen() == old(self).frozen(),
            !old(self).has(name@) ==> (match r {
                Err(ContainerError::BeanNotFound(n)) => n@ == name@,
                _ => false,
            }) && final(self).creating() == old(self).creating(),
            old(self).has(name@) && old(self).definition(name@).scope == Scope::Prototype ==>
                r == Ok::<BeanRequest, ContainerError>(BeanRequest::Create) && final(self).creating() == old(self).creating(),
            old(self).has(name@) && old(self).definition(name@).scope == Scope::Singleton ==> {
                &&& !old(self).needs_creation(name@) ==> r == Ok::<BeanRequest, ContainerError>(BeanRequest::UseCached)
                    && final(self).creating() == old(self).creating()
                &&& old(self).needs_creation(name@) && old(self).creating().contains(name@) ==> (match r {
                    Err(ContainerError::CircularDependency(m)) => exists|chain: Seq<Seq<char>>|
                        chain.no_duplicates() && chain.to_set() == old(self).creating()
                            && m@ == join(chain, " -> "@) + " -> "@ + name@,
                        _ => false,
                    }) && final(self).creating() == old(self).creating()
                &&& old(self).needs_creation(name@) && !old(self).creating().contains(name@) ==>
                    r == Ok::<BeanRequest, ContainerError>(BeanRequest::Create)
                        && final(self).creating() == old(self).creating().insert(name@)
            },
    {
        match self.position(name) {
            None => Err(ContainerError::BeanNotFound(owned(name))),
            Some(i) => {
                proof {
                    assert(self.definition(name@) == self.definitions@[i as int].1);
                }
                if self.definitions[i].1.scope == Scope::Prototype {
                    Ok(BeanRequest::Create)
                } else {
                    self.begin_bean_request(name)
                }
            },
        }
    }

    /// Ends the construction of `name` that `begin_bean_request` started:
    /// the bean is no longer under construction and, when it was created and
    /// is a singleton, it joins the singleton cache.
    pub fn finish_bean_creation(&mut self, name: &str, created: bool)
        requires
            old(self).wf(),
        ensures
            final(self).wf(),
            final(self).creating() == old(self).creating().remove(name@),
            final(self).cached() == if created && old(self).has(name@)
                && old(self).definition(name@).scope == Scope::Singleton {
                old(self).cached().insert(name@)
            } else {
                old(self).cached()
            },
            final(self).names() == old(self).names(),
            forall|i: int| #![trigger final(self).definition_at(i)] final(self).definition_at(i) == old(self).definition_at(i),
            final(self).type_index() == old(self).type_index(),
            final(self).frozen() == old(self).frozen(),
    {
        let _ = self.creation_tracker.finish_creating(name);
        if created {
            if let Some(i) = self.position(name) {
                proof {
                    assert(self.definition(name@) == self.definitions@[i as int].1);
                }
                if self.definitions[i].1.scope == Scope::Singleton {
                    match self.cached_position(name) {
                        Some(j) => {
                            proof {
                                assert(string_views(self.singletons@)[j as int] == name@);
                                assert(self.cached().insert(name@) =~= self.cached());
                            }
                        },
                        None => {
                            let ghost old_views = string_views(self.singletons@);
                            self.singletons.push(owned(name));
                            proof {
                                assert(string_views(self.singletons@) =~= old_views.push(name@));
                                crate::dependency::lemma_push_to_set(old_views, name@);
                            }
                        },
                    }
                }
            }
        }
    }

    /// Decides what a request for a bean of type `bean_type` calls for: the
    /// bean is looked up as `bean_name_for_type` does and then requested as
    /// `begin_bean_request` does; without one the request is refused.
    pub fn begin_bean_request_by_type(&mut self, bean_type: &str) -> (r: Result<(String, BeanRequest), ContainerError>)
        requires
            old(self).wf(),
        ensures
            final(self).wf(),
            final(self).names() == old(self).names(),
            forall|i: int| #![trigger final(self).definition_at(i)] final(self).definition_at(i) == old(self).definition_at(i),
            final(self).cached() == old(self).cached(),
            final(self).type_index() == old(self).type_index(),
            final(self).frozen() == old(self).frozen(),
            !old(self).type_index().dom().contains(bean_type@) && !old(self).has_type(bean_type@) ==> (match r {
                Err(ContainerError::BeanNotFound(m)) => m@ == "No bean found for type '"@ + bean_type@ + "'"@,
                _ => false,
            }) && final(self).creating() == old(self).creating(),
            old(self).type_index().dom().contains(bean_type@) ==> (match r {
                Ok((n, _)) => n@ == old(self).type_index()[bean_type@],
                _ => true,
            }),
            match r {
                Ok((n, BeanRequest::Create)) => old(self).needs_creation(n@) && !old(self).creating().contains(n@)
                    && final(self).creating() == old(self).creating().insert(n@),
                Ok((n, BeanRequest::UseCached)) => old(self).has(n@) && !old(self).needs_creation(n@)
                    && final(self).creating() == old(self).creating(),
                Err(_) => final(self).creating() == old(self).creating(),
            },
    {
        match self.bean_name_for_type(bean_type) {
            None => {
                let mut m = owned("No bean found for type '");
                m.append(bean_type);
                m.append("'");
                Err(ContainerError::BeanNotFound(m))
            },
            Some(n) => {
                match self.begin_bean_request(n.as_str()) {
                    Ok(req) => Ok((n, req)),
                    Err(e) => Err(e),
                }
            },
        }
    }

    /// Empties the singleton cache, as the container does when it shuts
    /// down. Returns each cached bean once, with whether its definition has a
    /// destruction callback to run.
    pub fn drain_singletons(&mut self) -> (r: Vec<(String, bool)>)
        requires
            old(self).wf(),
        ensures
            final(self).wf(),
            final(self).cached() == Set::<Seq<char>>::empty(),
            r@.map_values(|e: (String, bool)| e.0@).no_duplicates(),
            r@.map_values(|e: (String, bool)| e.0@).to_set() == old(self).cached(),
            forall|i: int| 0 <= i < r@.len() ==> (#[trigger] r@[i]).1 == (old(self).has(r@[i].0@)
                && old(self).definition(r@[i].0@).has_destroy_callback),
            final(self).names() == old(self).names(),
            forall|i: int| #![trigger final(self).definition_at(i)] final(self).definition_at(i) == old(self).definition_at(i),
            final(self).type_index() == old(self).type_index(),
            final(self).creating() == old(self).creating(),
            final(self).frozen() == old(self).frozen(),
    {
        let mut out: Vec<(String, bool)> = Vec::new();
        let mut i: usize = 0;
        while i < self.singletons.len()
            invariant
                self.wf(),
                i <= self.singletons@.len(),
                out@.map_values(|e: (String, bool)| e.0@) == string_views(self.singletons@).take(i as int),
                forall|j: int| 0 <= j < out@.len() ==> (#[trigger] out@[j]).1 == (self.has(out@[j].0@)
                    && self.definition(out@[j].0@).has_destroy_callback),
            decreases self.singletons.len() - i,
        {
            let n = self.singletons[i].clone();
            let flag = match self.position(n.as_str()) {
                Some(k) => self.definitions[k].1.has_destroy_callback,
                None => false,
            };
            let ghost before = out@;
            let ghost nv = n@;
            assert(nv == string_views(self.singletons@)[i as int]);
            out.push((n, flag));
            assert(out@.map_values(|e: (String, bool)| e.0@) =~= before.map_values(|e: (String, bool)| e.0@).push(nv));
            i = i + 1;
            assert(string_views(self.singletons@).take(i as int) =~= string_views(self.singletons@).take(i - 1).push(nv));
        }
        proof {
            assert(string_views(self.singletons@).take(i as int) =~= string_views(self.singletons@));
        }
        self.singletons = Vec::new();
        proof {
            assert(self.cached() =~= Set::<Seq<char>>::empty());
        }
        out
    }
}

impl DefaultListableBeanFactory {
    /// Replaces the definition registered under `name` with what `modifier`
    /// makes of it. Refused while the configuration is frozen and when no
    /// such bean is registered; the bean keeps its name and place.
    pub fn modify_bean_definition<F>(&mut self, name: &str, modifier: F) -> (r: Result<(), ContainerError>)
        where
            F: FnOnce(BeanDefinition) -> BeanDefinition,
        requires
            old(self).wf(),
            forall|d: BeanDefinition| call_requires(modifier, (d,)),
        ensures
            final(self).wf(),
            final(self).names() == old(self).names(),
            old(self).frozen() ==> (match r {
                Err(ContainerError::Other(m)) => m@ == "Cannot modify bean definition: configuration is frozen"@,
                _ => false,
            }),
            !old(self).frozen() && !old(self).has(name@) ==> (match r {
                Err(ContainerError::BeanNotFound(n)) => n@ == name@,
                _ => false,
            }),
            !old(self).frozen() && old(self).has(name@) ==> r is Ok,
            r is Err ==> forall|i: int| #![trigger final(self).definition_at(i)] final(self).definition_at(i) == old(self).definition_at(i),
            r is Ok ==> {
                let k = old(self).names().index_of(name@);
                &&& exists|d: BeanDefinition| d.same_as(&old(self).definition_at(k))
                    && call_ensures(modifier, (d,), final(self).definition_at(k))
                &&& forall|i: int| #![trigger final(self).definition_at(i)] 0 <= i < old(self).names().len() && i != k
                    ==> final(self).definition_at(i) == old(self).definition_at(i)
            },
            final(self).cached() == old(self).cached(),
            final(self).type_index() == old(self).type_index(),
            final(self).creating() == old(self).creating(),
            final(self).frozen() == old(self).frozen(),
    {
        if self.configuration_frozen {
            return Err(ContainerError::Other(owned("Cannot modify bean definition: configuration is frozen")));
        }
        match self.position(name) {
            None => Err(ContainerError::BeanNotFound(owned(name))),
            Some(k) => {
                let current = self.definitions[k].1.copy();
                let ghost given = current;
                let updated = modifier(current);
                let key = self.definitions[k].0.clone();
                let ghost old_defs = self.definitions@;
                let ghost old_names = self.names();
                self.definitions.set(k, (key, updated));
                proof {
                    assert(self.names() =~= old_names);
                    assert(self.definition_at(k as int) == updated);
                    assert(given.same_as(&old_defs[k as int].1));
                    assert(call_ensures(modifier, (given,), updated));
                    assert(old_names.index_of(name@) == k);
                    assert(given.same_as(&old(self).definition_at(k as int)) && call_ensures(modifier, (given,), self.definition_at(k as int)));
                }
                Ok(())
            },
        }
    }
}

/// The views of a list of levels of bean names.
pub open spec fn levels_view(levels: Seq<Vec<String>>) -> Seq<Seq<Seq<char>>> {
    levels.map_values(|row: Vec<String>| string_views(row@))
}

/// `x` stands at level `l` of `lv`.
pub open spec fn level_holds(lv: Seq<Seq<Seq<char>>>, x: Seq<char>, l: int) -> bool {
    0 <= l < lv.len() && lv[l].contains(x)
}

/// `x` stands at some level of `lv`.
pub open spec fn placed(lv: Seq<Seq<Seq<char>>>, x: Seq<char>) -> bool {
    exists|l: int| #[trigger] level_holds(lv, x, l)
}

/// `x` is a bean of `g` among the first `k` names of `ov`.
pub open spec fn seen_before(g: Seq<(Seq<char>, Seq<Seq<char>>)>, ov: Seq<Seq<char>>, k: int, x: Seq<char>) -> bool {
    graph_has(g, x) && exists|j: int| 0 <= j < k && #[trigger] ov[j] == x
}

/// No name stands twice in the levels.
pub open spec fn levels_distinct(lv: Seq<Seq<Seq<char>>>) -> bool {
    forall|l1: int, p1: int, l2: int, p2: int|
        0 <= l1 < lv.len() && 0 <= p1 < lv[l1].len() && 0 <= l2 < lv.len() && 0 <= p2 < lv[l2].len()
            && #[trigger] lv[l1][p1] == #[trigger] lv[l2][p2] ==> l1 == l2 && p1 == p2
}

/// A bean with dependencies `deps` may stand at level `l`: every dependency
/// that stands in the levels stands lower, and one of them, if any, stands
/// just below.
pub open spec fn obeys_level_rule(lv: Seq<Seq<Seq<char>>>, deps: Seq<Seq<char>>, l: int) -> bool {
    &&& forall|k: int, l2: int| 0 <= k < deps.len() && #[trigger] level_holds(lv, deps[k], l2) ==> l2 < l
    &&& (l == 0 || exists|k: int| 0 <= k < deps.len() && #[trigger] level_holds(lv, deps[k], l - 1))
}

/// `lv` places the beans of `g` in initialization levels: each bean once,
/// every bean at the level just above the highest of its dependencies (level
/// 0 without any).
pub open spec fn is_level_plan(lv: Seq<Seq<Seq<char>>>, g: Seq<(Seq<char>, Seq<Seq<char>>)>) -> bool {
    &&& levels_distinct(lv)
    &&& forall|x: Seq<char>| #[trigger] placed(lv, x) <==> graph_has(g, x)
    &&& forall|l: int, p: int| 0 <= l < lv.len() && 0 <= p < lv[l].len()
        ==> obeys_level_rule(lv, graph_deps(g, #[trigger] lv[l][p]), l)
}

/// Beans of one initialization level do not depend on each other, and
/// every dependency that is initialized at all is initialized at a lower
/// level.
pub proof fn lemma_level_plan_orders_dependencies(
    lv: Seq<Seq<Seq<char>>>,
    g: Seq<(Seq<char>, Seq<Seq<char>>)>,
    l: int,
    p: int,
    k: int,
    l2: int,
)
    requires
        is_level_plan(lv, g),
        0 <= l < lv.len(),
        0 <= p < lv[l].len(),
        0 <= k < graph_deps(g, lv[l][p]).len(),
        level_holds(lv, graph_deps(g, lv[l][p])[k], l2),
    ensures
        l2 < l,
{
    assert(obeys_level_rule(lv, graph_deps(g, lv[l][p]), l));
}

/// After `y` is added at the end of level `lvl`, a name stands where it
/// stood before, and `y` stands at `lvl`.
proof fn lemma_placement_positions(
    lv: Seq<Seq<Seq<char>>>,
    lv1: Seq<Seq<Seq<char>>>,
    lv2: Seq<Seq<Seq<char>>>,
    y: Seq<char>,
    lvl: int,
)
    requires
        0 <= lvl <= lv.len(),
        lv1 == (if lvl == lv.len() { lv.push(Seq::empty()) } else { lv }),
        lv2 == lv1.update(lvl, lv1[lvl].push(y)),
    ensures
        lv2.len() == lv1.len(),
        forall|x: Seq<char>, l: int| #[trigger] level_holds(lv2, x, l)
            <==> (level_holds(lv, x, l) || (x == y && l == lvl)),
        forall|l: int, p: int| 0 <= l < lv2.len() && 0 <= p < lv2[l].len() && !(l == lvl && p == lv1[lvl].len())
            ==> l < lv.len() && p < lv[l].len() && #[trigger] lv2[l][p] == lv[l][p],
        lv2[lvl][lv1[lvl].len() as int] == y,
{
    let n1: int = lv1[lvl].len() as int;
    assert forall|x: Seq<char>, l: int| #[trigger] level_holds(lv2, x, l)
        <==> (level_holds(lv, x, l) || (x == y && l == lvl)) by {
        if level_holds(lv2, x, l) {
            let p = choose|p: int| 0 <= p < lv2[l].len() && lv2[l][p] == x;
            if l != lvl {
                assert(lv2[l] == lv[l]);
                assert(lv[l][p] == x);
            } else if p < n1 {
                if lvl < lv.len() {
                    assert(lv[l][p] == x);
                } else {
                    assert(lv1[lvl].len() == 0);
                }
            }
        }
        if level_holds(lv, x, l) {
            let p = choose|p: int| 0 <= p < lv[l].len() && lv[l][p] == x;
            assert(lv2[l][p] == x);
        }
        if x == y && l == lvl {
            assert(lv2[l][n1] == y);
        }
    }
}

/// Placing `y` at level `lvl`, one above the highest of its dependencies
/// that are already placed, keeps the levels a plan of the beans placed so
/// far, given that dependencies come before the beans that declare them.
proof fn lemma_place_in_level(
    lv: Seq<Seq<Seq<char>>>,
    lv1: Seq<Seq<Seq<char>>>,
    lv2: Seq<Seq<Seq<char>>>,
    gv: Seq<(Seq<char>, Seq<Seq<char>>)>,
    ov: Seq<Seq<char>>,
    dv: Seq<Seq<char>>,
    y: Seq<char>,
    k: int,
    lvl: int,
)
    requires
        graph_names(gv).no_duplicates(),
        levels_distinct(lv),
        forall|x: Seq<char>| #[trigger] placed(lv, x) <==> seen_before(gv, ov, k, x),
        forall|l: int, p: int| 0 <= l < lv.len() && 0 <= p < lv[l].len()
            ==> obeys_level_rule(lv, graph_deps(gv, #[trigger] lv[l][p]), l),
        0 <= lvl <= lv.len(),
        lv1 == (if lvl == lv.len() { lv.push(Seq::empty()) } else { lv }),
        lv2 == lv1.update(lvl, lv1[lvl].push(y)),
        ov.no_duplicates(),
        0 <= k < ov.len(),
        ov[k] == y,
        graph_has(gv, y),
        graph_deps(gv, y) == dv,
        forall|i: int, j: int| 0 <= i < gv.len() && 0 <= j < gv[i].1.len()
            ==> precedes(ov, #[trigger] gv[i].1[j], gv[i].0),
        forall|q: int, l2: int| 0 <= q < dv.len() && #[trigger] level_holds(lv, dv[q], l2) ==> l2 < lvl,
        lvl == 0 || exists|q: int| 0 <= q < dv.len() && #[trigger] level_holds(lv, dv[q], lvl - 1),
    ensures
        levels_distinct(lv2),
        forall|x: Seq<char>| #[trigger] placed(lv2, x) <==> seen_before(gv, ov, k + 1, x),
        forall|l: int, p: int| 0 <= l < lv2.len() && 0 <= p < lv2[l].len()
            ==> obeys_level_rule(lv2, graph_deps(gv, #[trigger] lv2[l][p]), l),
{
    lemma_placement_positions(lv, lv1, lv2, y, lvl);
    let n1: int = lv1[lvl].len() as int;
    lemma_not_yet_placed(lv, gv, ov, y, k);
    lemma_placement_distinct(lv, lv1, lv2, y, lvl);
    lemma_placement_set(lv, lv2, gv, ov, y, k, lvl);
    lemma_no_placed_dependent(lv, gv, ov, y, k);
    assert forall|l: int, p: int| 0 <= l < lv2.len() && 0 <= p < lv2[l].len()
        implies obeys_level_rule(lv2, graph_deps(gv, #[trigger] lv2[l][p]), l) by {
        let x = lv2[l][p];
        let ds = graph_deps(gv, x);
        if l == lvl && p == n1 {
            assert(x == y);
            assert forall|q: int, l2: int| 0 <= q < ds.len() && #[trigger] level_holds(lv2, ds[q], l2) implies l2 < l by {
                assert(dv[q] != y);
                assert(level_holds(lv, dv[q], l2));
            }
            if l != 0 {
                let q = choose|q: int| 0 <= q < dv.len() && #[trigger] level_holds(lv, dv[q], lvl - 1);
                assert(level_holds(lv2, ds[q], l - 1));
            }
        } else {
            assert(lv2[l][p] == lv[l][p]);
            assert(level_holds(lv, x, l));
            assert(obeys_level_rule(lv, ds, l));
            assert forall|q: int, l2: int| 0 <= q < ds.len() && #[trigger] level_holds(lv2, ds[q], l2) implies l2 < l by {
                assert(ds[q] != y);
                assert(level_holds(lv, ds[q], l2));
            }
            if l != 0 {
                let q = choose|q: int| 0 <= q < ds.len() && #[trigger] level_holds(lv, ds[q], l - 1);
                assert(level_holds(lv2, ds[q], l - 1));
            }
        }
    }
}

/// `y`, at position `k` of the order, is not placed while only names before
/// it are, and is no dependency of itself.
proof fn lemma_not_yet_placed(
    lv: Seq<Seq<Seq<char>>>,
    gv: Seq<(Seq<char>, Seq<Seq<char>>)>,
    ov: Seq<Seq<char>>,
    y: Seq<char>,
    k: int,
)
    requires
        graph_names(gv).no_duplicates(),
        forall|x: Seq<char>| #[trigger] placed(lv, x) <==> seen_before(gv, ov, k, x),
        ov.no_duplicates(),
        0 <= k < ov.len(),
        ov[k] == y,
        graph_has(gv, y),
        forall|i: int, j: int| 0 <= i < gv.len() && 0 <= j < gv[i].1.len()
            ==> precedes(ov, #[trigger] gv[i].1[j], gv[i].0),
    ensures
        forall|l: int| !#[trigger] level_holds(lv, y, l),
        forall|q: int| 0 <= q < graph_deps(gv, y).len() ==> #[trigger] graph_deps(gv, y)[q] != y,
{
    assert forall|l: int| !#[trigger] level_holds(lv, y, l) by {
        if level_holds(lv, y, l) {
            assert(placed(lv, y));
            let j = choose|j: int| 0 <= j < k && #[trigger] ov[j] == y;
            assert(ov[j] == ov[k]);
        }
    }
    assert forall|q: int| 0 <= q < graph_deps(gv, y).len() implies #[trigger] graph_deps(gv, y)[q] != y by {
        if graph_deps(gv, y)[q] == y {
            let i = graph_names(gv).index_of(y);
            assert(graph_names(gv)[i] == y);
            assert(gv[i].1[q] == y);
            assert(precedes(ov, gv[i].1[q], gv[i].0));
            let (a, b) = choose|a: int, b: int| #![trigger ov[a], ov[b]] 0 <= a < b < ov.len() && ov[a] == y && ov[b] == y;
            assert(ov[a] == ov[b]);
        }
    }
}

/// No bean already placed depends on `y`, the next one in the order.
proof fn lemma_no_placed_dependent(
    lv: Seq<Seq<Seq<char>>>,
    gv: Seq<(Seq<char>, Seq<Seq<char>>)>,
    ov: Seq<Seq<char>>,
    y: Seq<char>,
    k: int,
)
    requires
        graph_names(gv).no_duplicates(),
        forall|x: Seq<char>| #[trigger] placed(lv, x) <==> seen_before(gv, ov, k, x),
        ov.no_duplicates(),
        0 <= k < ov.len(),
        ov[k] == y,
        forall|i: int, j: int| 0 <= i < gv.len() && 0 <= j < gv[i].1.len()
            ==> precedes(ov, #[trigger] gv[i].1[j], gv[i].0),
    ensures
        forall|x: Seq<char>, l: int, q: int| #[trigger] level_holds(lv, x, l) && 0 <= q < graph_deps(gv, x).len()
            ==> #[trigger] graph_deps(gv, x)[q] != y,
{
    assert forall|x: Seq<char>, l: int, q: int| #[trigger] level_holds(lv, x, l) && 0 <= q < graph_deps(gv, x).len()
        implies #[trigger] graph_deps(gv, x)[q] != y by {
        assert(placed(lv, x));
        assert(seen_before(gv, ov, k, x));
        let j = choose|j: int| 0 <= j < k && #[trigger] ov[j] == x;
        if graph_deps(gv, x)[q] == y {
            let i = graph_names(gv).index_of(x);
            assert(graph_names(gv)[i] == x);
            assert(gv[i].1[q] == y);
            assert(precedes(ov, gv[i].1[q], gv[i].0));
            let (a, b) = choose|a: int, b: int| #![trigger ov[a], ov[b]] 0 <= a < b < ov.len() && ov[a] == y && ov[b] == x;
            assert(ov[b] == ov[j]);
            assert(ov[a] == ov[k]);
        }
    }
}

/// Adding a name that was not placed keeps the names in the levels
/// distinct.
proof fn lemma_placement_distinct(
    lv: Seq<Seq<Seq<char>>>,
    lv1: Seq<Seq<Seq<char>>>,
    lv2: Seq<Seq<Seq<char>>>,
    y: Seq<char>,
    lvl: int,
)
    requires
        levels_distinct(lv),
        0 <= lvl <= lv.len(),
        lv1 == (if lvl == lv.len() { lv.push(Seq::empty()) } else { lv }),
        lv2 == lv1.update(lvl, lv1[lvl].push(y)),
        forall|l: int| !#[trigger] level_holds(lv, y, l),
    ensures
        levels_distinct(lv2),
{
    lemma_placement_positions(lv, lv1, lv2, y, lvl);
    let n1: int = lv1[lvl].len() as int;
    assert forall|l1: int, p1: int, l2: int, p2: int|
        0 <= l1 < lv2.len() && 0 <= p1 < lv2[l1].len() && 0 <= l2 < lv2.len() && 0 <= p2 < lv2[l2].len()
            && #[trigger] lv2[l1][p1] == #[trigger] lv2[l2][p2] implies l1 == l2 && p1 == p2 by {
        let new1 = l1 == lvl && p1 == n1;
        let new2 = l2 == lvl && p2 == n1;
        if !new1 {
            assert(lv2[l1][p1] == lv[l1][p1]);
            assert(level_holds(lv, lv[l1][p1], l1));
        }
        if !new2 {
            assert(lv2[l2][p2] == lv[l2][p2]);
            assert(level_holds(lv, lv[l2][p2], l2));
        }
        if !new1 && !new2 {
            assert(lv[l1][p1] == lv[l2][p2]);
        }
    }
}

/// After the placement, the placed names are those of the graph among the
/// first `k + 1` of the order.
proof fn lemma_placement_set(
    lv: Seq<Seq<Seq<char>>>,
    lv2: Seq<Seq<Seq<char>>>,
    gv: Seq<(Seq<char>, Seq<Seq<char>>)>,
    ov: Seq<Seq<char>>,
    y: Seq<char>,
    k: int,
    lvl: int,
)
    requires
        forall|x: Seq<char>| #[trigger] placed(lv, x) <==> seen_before(gv, ov, k, x),
        forall|x: Seq<char>, l: int| #[trigger] level_holds(lv2, x, l)
            <==> (level_holds(lv, x, l) || (x == y && l == lvl)),
        0 <= lvl < lv2.len(),
        0 <= k < ov.len(),
        ov[k] == y,
        graph_has(gv, y),
    ensures
        forall|x: Seq<char>| #[trigger] placed(lv2, x) <==> seen_before(gv, ov, k + 1, x),
{
    assert forall|x: Seq<char>| #[trigger] placed(lv2, x) <==> seen_before(gv, ov, k + 1, x) by {
        if placed(lv2, x) {
            let l = choose|l: int| #[trigger] level_holds(lv2, x, l);
            if level_holds(lv, x, l) {
                assert(placed(lv, x));
                let j = choose|j: int| 0 <= j < k && #[trigger] ov[j] == x;
                assert(0 <= j < k + 1 && ov[j] == x);
            } else {
                assert(x == y);
                assert(ov[k] == x);
            }
        }
        if seen_before(gv, ov, k + 1, x) {
            let j = choose|j: int| 0 <= j < k + 1 && #[trigger] ov[j] == x;
            if j < k {
                assert(seen_before(gv, ov, k, x));
                assert(placed(lv, x));
                let l = choose|l: int| #[trigger] level_holds(lv, x, l);
                assert(level_holds(lv2, x, l));
            } else {
                assert(x == y);
                assert(level_holds(lv2, x, lvl));
            }
        }
    }
}

/// Position of the level that holds `x`.
fn find_level(levels: &Vec<Vec<String>>, x: &String) -> (r: Option<usize>)
    requires
        levels_distinct(levels_view(levels@)),
    ensures
        match r {
            Some(l) => level_holds(levels_view(levels@), x@, l as int),
            None => forall|l: int| !level_holds(levels_view(levels@), x@, l),
        },
{
    let ghost lv = levels_view(levels@);
    let mut l: usize = 0;
    while l < levels.len()
        invariant
            lv == levels_view(levels@),
            l <= levels@.len(),
            forall|m: int| 0 <= m < l ==> !lv[m].contains(x@),
        decreases levels.len() - l,
    {
        let row = &levels[l];
        let mut p: usize = 0;
        while p < row.len()
            invariant
                lv == levels_view(levels@),
                l < levels@.len(),
                *row == levels@[l as int],
                p <= row@.len(),
                forall|q: int| 0 <= q < p ==> row@[q]@ != x@,
            decreases row.len() - p,
        {
            if row[p] == *x {
                proof {
                    assert(lv[l as int][p as int] == x@);
                }
                return Some(l);
            }
            p = p + 1;
        }
        proof {
            if lv[l as int].contains(x@) {
                let q = choose|q: int| 0 <= q < lv[l as int].len() && lv[l as int][q] == x@;
                assert(row@[q]@ == x@);
            }
        }
        l = l + 1;
    }
    None
}

impl DefaultListableBeanFactory {
    /// The dependency graph of the singletons that are not lazy, among the
    /// first `n` registered beans, in registration order.
    pub open spec fn eager_dependency_view(&self, n: int) -> Seq<(Seq<char>, Seq<Seq<char>>)>
        decreases n,
    {
        if n <= 0 {
            Seq::empty()
        } else if self.definition_at(n - 1).scope == Scope::Singleton && !self.definition_at(n - 1).lazy {
            self.eager_dependency_view(n - 1).push(
                (self.names()[n - 1], string_views(self.definition_at(n - 1).dependencies@)),
            )
        } else {
            self.eager_dependency_view(n - 1)
        }
    }

    /// The beans of the eager graph are the eager singletons.
    proof fn lemma_eager_view_names(&self, n: int)
        requires
            0 <= n <= self.names().len(),
        ensures
            graph_names(self.eager_dependency_view(n)) == self.eager_singletons(n),
        decreases n,
    {
        if n > 0 {
            self.lemma_eager_view_names(n - 1);
            let prev = self.eager_dependency_view(n - 1);
            if self.definition_at(n - 1).scope == Scope::Singleton && !self.definition_at(n - 1).lazy {
                assert(graph_names(self.eager_dependency_view(n)) =~= graph_names(prev).push(self.names()[n - 1]));
            }
        }
    }

    /// The dependency graph of the singletons that are not lazy.
    fn eager_graph(&self) -> (g: DependencyGraph)
        requires
            self.wf(),
        ensures
            g.wf(),
            g@ == self.eager_dependency_view(self.names().len() as int),
    {
        let mut g = DependencyGraph::new();
        let mut i: usize = 0;
        while i < self.definitions.len()
            invariant
                self.wf(),
                i <= self.definitions@.len(),
                g.wf(),
                g@ == self.eager_dependency_view(i as int),
            decreases self.definitions.len() - i,
        {
            let d = &self.definitions[i].1;
            if d.scope == Scope::Singleton && !d.lazy {
                let name = self.definitions[i].0.clone();
                let deps = clone_strings(&d.dependencies);
                proof {
                    self.lemma_eager_view_names(i as int);
                    lemma_eager_singletons(self, i as int);
                    if graph_has(g@, name@) {
                        let j = choose|j: int| 0 <= j < i && self.names()[j] == name@
                            && #[trigger] self.definition_at(j).scope == Scope::Singleton && !self.definition_at(j).lazy;
                        assert(self.names()[j] == self.names()[i as int]);
                    }
                }
                g.insert(name, deps);
                assert(g@ =~= self.eager_dependency_view(i + 1));
            }
            i = i + 1;
        }
        g
    }

    /// The order in which the singletons that are not lazy are initialized,
    /// level by level: a bean stands one level above the highest of its
    /// dependencies, and at level 0 without any. Fails, as the topological
    /// sort does, when those beans depend on each other in a cycle.
    pub fn initialization_levels(&self) -> (r: Result<Vec<Vec<String>>, ContainerError>)
        requires
            self.wf(),
        ensures
            r is Ok <==> !has_dependency_cycle(self.eager_dependency_view(self.names().len() as int)),
            match r {
                Ok(levels) => is_level_plan(levels_view(levels@), self.eager_dependency_view(self.names().len() as int)),
                Err(ContainerError::CircularDependency(m)) => m@ == "Circular dependency detected during topological sort"@,
                Err(_) => false,
            },
    {
        let g = self.eager_graph();
        let ghost gv = g@;
        let mut levels: Vec<Vec<String>> = Vec::new();
        if g.len() == 0 {
            proof {
                assert(levels_view(levels@) =~= Seq::<Seq<Seq<char>>>::empty());
                if has_dependency_cycle(gv) {
                    let c = choose|c: Seq<Seq<char>>| is_dependency_cycle(gv, c);
                    assert(graph_has(gv, c[0]));
                    let q = choose|q: int| 0 <= q < graph_names(gv).len() && graph_names(gv)[q] == c[0];
                }
            }
            return Ok(levels);
        }
        let order = match topological_sort(&g) {
            Ok(order) => order,
            Err(m) => return Err(ContainerError::CircularDependency(m)),
        };
        let ghost ov = string_views(order@);
        let mut k: usize = 0;
        while k < order.len()
            invariant
                g.wf(),
                gv == g@,
                ov == string_views(order@),
                ov.no_duplicates(),
                forall|x: Seq<char>| ov.contains(x) <==> crate::dependency::is_graph_node(gv, x),
                forall|i: int, j: int| 0 <= i < gv.len() && 0 <= j < gv[i].1.len()
                    ==> precedes(ov, #[trigger] gv[i].1[j], gv[i].0),
                k <= order@.len(),
                levels_distinct(levels_view(levels@)),
                forall|x: Seq<char>| #[trigger] placed(levels_view(levels@), x) <==> seen_before(gv, ov, k as int, x),
                forall|l: int, p: int| 0 <= l < levels_view(levels@).len() && 0 <= p < levels_view(levels@)[l].len()
                    ==> obeys_level_rule(levels_view(levels@), graph_deps(gv, #[trigger] levels_view(levels@)[l][p]), l),
            decreases order.len() - k,
        {
            let ghost lv = levels_view(levels@);
            let y = &order[k];
            match g.index_of(y) {
                None => {
                    proof {
                        assert(!graph_has(gv, y@));
                        assert forall|x: Seq<char>| #[trigger] placed(lv, x) <==> seen_before(gv, ov, k + 1, x) by {
                            if seen_before(gv, ov, k + 1, x) {
                                let j = choose|j: int| 0 <= j < k + 1 && #[trigger] ov[j] == x;
                                if j == k as int {
                                    assert(ov[k as int] == y@);
                                }
                                assert(seen_before(gv, ov, k as int, x));
                            }
                            if placed(lv, x) {
                                assert(seen_before(gv, ov, k as int, x));
                                let j = choose|j: int| 0 <= j < k && #[trigger] ov[j] == x;
                                assert(0 <= j < k + 1);
                            }
                        }
                    }
                },
                Some(idx) => {
                    let deps = g.deps_at(idx);
                    let ghost dv = deps@.map_values(|s: String| s@);
                    proof {
                        assert(ov[k as int] == y@);
                        assert(graph_names(gv)[idx as int] == y@);
                        assert(graph_deps(gv, y@) == dv);
                    }
                    let mut m: usize = 0;
                    let mut t: usize = 0;
                    let nl = levels.len();
                    while t < deps.len()
                        invariant
                            nl == levels@.len(),
                            lv.len() == nl,
                            lv == levels_view(levels@),
                            levels_distinct(lv),
                            dv == deps@.map_values(|s: String| s@),
                            t <= deps@.len(),
                            m <= nl,
                            forall|q: int, l2: int| 0 <= q < t && #[trigger] level_holds(lv, dv[q], l2) ==> l2 < m,
                            m == 0 || exists|q: int| 0 <= q < t && #[trigger] level_holds(lv, dv[q], m - 1),
                        decreases deps.len() - t,
                    {
                        match find_level(&levels, &deps[t]) {
                            Some(l2) => {
                                proof {
                                    assert(dv[t as int] == deps@[t as int]@);
                                    assert forall|l3: int| #[trigger] level_holds(lv, dv[t as int], l3) implies l3 == l2 by {
                                        let p1 = choose|p1: int| 0 <= p1 < lv[l3].len() && lv[l3][p1] == dv[t as int];
                                        let p2 = choose|p2: int| 0 <= p2 < lv[l2 as int].len() && lv[l2 as int][p2] == dv[t as int];
                                        assert(lv[l3][p1] == lv[l2 as int][p2]);
                                    }
                                }
                                assert(l2 < nl);
                                if l2 + 1 > m {
                                    m = l2 + 1;
                                    assert(level_holds(lv, dv[t as int], m - 1));
                                }
                            },
                            None => {
                                proof {
                                    assert(dv[t as int] == deps@[t as int]@);
                                }
                            },
                        }
                        t = t + 1;
                    }
                    let lvl = m;
                    if lvl == levels.len() {
                        let fresh: Vec<String> = Vec::new();
                        assert(string_views(fresh@) =~= Seq::<Seq<char>>::empty());
                        levels.push(fresh);
                        proof {
                            assert(levels_view(levels@) =~= lv.push(Seq::empty()));
                        }
                    }
                    let ghost lv1 = levels_view(levels@);
                    let mut row = clone_strings(&levels[lvl]);
                    let yc = y.clone();
                    row.push(yc);
                    proof {
                        assert(string_views(row@) =~= lv1[lvl as int].push(y@));
                    }
                    levels.set(lvl, row);
                    proof {
                        let lv2 = levels_view(levels@);
                        assert(lv2 =~= lv1.update(lvl as int, lv1[lvl as int].push(y@)));
                        lemma_place_in_level(lv, lv1, lv2, gv, ov, dv, y@, k as int, lvl as int);
                    }
                },
            }
            k = k + 1;
        }
        proof {
            let lv = levels_view(levels@);
            assert forall|x: Seq<char>| #[trigger] placed(lv, x) <==> graph_has(gv, x) by {
                if graph_has(gv, x) {
                    assert(crate::dependency::is_graph_node(gv, x));
                    assert(ov.contains(x));
                    let j = choose|j: int| 0 <= j < ov.len() && ov[j] == x;
                    assert(0 <= j < k && ov[j] == x);
                    assert(seen_before(gv, ov, k as int, x));
                }
                if placed(lv, x) {
                    assert(seen_before(gv, ov, k as int, x));
                }
            }
        }
        Ok(levels)
    }
}

/// A singleton that is cached is handed out from the cache: requesting it
/// calls for no new instance.
pub proof fn lemma_cached_singleton_is_reused(f: &DefaultListableBeanFactory, name: Seq<char>)
    requires
        f.has(name),
        f.definition(name).scope == Scope::Singleton,
        f.cached().contains(name),
    ensures
        !f.needs_creation(name),
{
}

/// The beans created up front are exactly the registered singletons that
/// are not lazy, each once: lazy singletons and prototypes wait until they
/// are requested.
pub proof fn lemma_eager_singletons(f: &DefaultListableBeanFactory, n: int)
    requires
        f.wf(),
        0 <= n <= f.names().len(),
    ensures
        f.eager_singletons(n).no_duplicates(),
        forall|x: Seq<char>| f.eager_singletons(n).contains(x) <==> exists|i: int| 0 <= i < n
            && f.names()[i] == x && #[trigger] f.definition_at(i).scope == Scope::Singleton && !f.definition_at(i).lazy,
    decreases n,
{
    if n > 0 {
        lemma_eager_singletons(f, n - 1);
        let prev = f.eager_singletons(n - 1);
        let x = f.names()[n - 1];
        let d = f.definition_at(n - 1);
        if d.scope == Scope::Singleton && !d.lazy {
            assert(!prev.contains(x)) by {
                if prev.contains(x) {
                    let i = choose|i: int| 0 <= i < n - 1 && f.names()[i] == x
                        && #[trigger] f.definition_at(i).scope == Scope::Singleton && !f.definition_at(i).lazy;
                    assert(f.names()[i] == f.names()[n - 1]);
                }
            }
            crate::dependency::lemma_push_to_set(prev, x);
            assert forall|y: Seq<char>| f.eager_singletons(n).contains(y) <==> exists|i: int| 0 <= i < n
                && f.names()[i] == y && #[trigger] f.definition_at(i).scope == Scope::Singleton && !f.definition_at(i).lazy by {
                if y == x {
                    assert(f.eager_singletons(n)[prev.len() as int] == x);
                }
                if f.eager_singletons(n).contains(y) && y != x {
                    let k = choose|k: int| 0 <= k < f.eager_singletons(n).len() && f.eager_singletons(n)[k] == y;
                    assert(k < prev.len());
                    assert(prev[k] == y);
                }
                if prev.contains(y) {
                    let k = choose|k: int| 0 <= k < prev.len() && prev[k] == y;
                    assert(f.eager_singletons(n)[k] == y);
                }
            }
        } else {
            assert forall|y: Seq<char>| f.eager_singletons(n).contains(y) <==> exists|i: int| 0 <= i < n
                && f.names()[i] == y && #[trigger] f.definition_at(i).scope == Scope::Singleton && !f.definition_at(i).lazy by {
                if exists|i: int| 0 <= i < n && f.names()[i] == y
                    && #[trigger] f.definition_at(i).scope == Scope::Singleton && !f.definition_at(i).lazy {
                    let i = choose|i: int| 0 <= i < n && f.names()[i] == y
                        && #[trigger] f.definition_at(i).scope == Scope::Singleton && !f.definition_at(i).lazy;
                    assert(i != n - 1);
                }
            }
        }
    }
}

/// A prototype is created anew on every request.
pub proof fn lemma_prototype_is_always_created(f: &DefaultListableBeanFactory, name: Seq<char>)
    requires
        f.has(name),
        f.definition(name).scope == Scope::Prototype,
    ensures
        f.needs_creation(name),
{
}

/// Starting and then finishing the creation of a bean that was not under
/// construction leaves the beans under construction as they were.
pub proof fn lemma_creation_round_trip(creating: Set<Seq<char>>, name: Seq<char>)
    requires
        !creating.contains(name),
    ensures
        creating.insert(name).remove(name) == creating,
{
    assert(creating.insert(name).remove(name) =~= creating);
}

/// Registering a new name and then removing it leaves the registered names
/// as they were.
pub proof fn lemma_register_then_remove(names: Seq<Seq<char>>, name: Seq<char>)
    requires
        names.no_duplicates(),
        !names.contains(name),
    ensures
        names.push(name).remove(names.push(name).index_of(name)) == names,
{
    let t = names.push(name);
    crate::dependency::lemma_push_to_set(names, name);
    assert(t.contains(name)) by {
        assert(t[names.len() as int] == name);
    }
    let k = t.index_of(name);
    assert(t[k] == name);
    assert(t[names.len() as int] == name);
    assert(k == names.len());
    assert(t.remove(k) =~= names);
}

/// Appending a value that is not yet present keeps a sequence free of
/// duplicates.
pub proof fn lemma_push_distinct<A>(s: Seq<A>, a: A)
    requires
        s.no_duplicates(),
        !s.contains(a),
    ensures
        s.push(a).no_duplicates(),
{
    crate::dependency::lemma_push_to_set(s, a);
}

} // verus!

verus! {

/// A step in the creation of a bean instance.
#[derive(Clone, Copy, Debug, PartialEq, Eq, Structural)]
pub enum CreationStep {
    /// Running the bean's factory.
    Factory,
    /// Running the before-initialization hook of the post-processor at this
    /// position.
    BeforeInit(usize),
    /// Running the bean's initialization callback.
    Init,
    /// Running the after-initialization hook of the post-processor at this
    /// position.
    AfterInit(usize),
}

/// The step that follows a step that succeeded, for a bean with
/// `n_processors` post-processors and an initialization callback when
/// `has_init`; `None` when the bean is complete.
pub open spec fn step_after(step: CreationStep, n_processors: nat, has_init: bool) -> Option<CreationStep> {
    match step {
        CreationStep::Factory => if n_processors > 0 {
            Some(CreationStep::BeforeInit(0))
        } else if has_init {
            Some(CreationStep::Init)
        } else {
            None
        },
        CreationStep::BeforeInit(i) => if i + 1 < n_processors {
            Some(CreationStep::BeforeInit((i + 1) as usize))
        } else if has_init {
            Some(CreationStep::Init)
        } else if n_processors > 0 {
            Some(CreationStep::AfterInit(0))
        } else {
            None
        },
        CreationStep::Init => if n_processors > 0 {
            Some(CreationStep::AfterInit(0))
        } else {
            None
        },
        CreationStep::AfterInit(i) => if i + 1 < n_processors {
            Some(CreationStep::AfterInit((i + 1) as usize))
        } else {
            None
        },
    }
}

/// The steps of creating a bean, in order: the factory, the
/// before-initialization hooks of the post-processors in their order, the
/// initialization callback if there is one, and the after-initialization
/// hooks in their order.
pub open spec fn creation_steps(n_processors: nat, has_init: bool) -> Seq<CreationStep> {
    seq![CreationStep::Factory]
        + Seq::new(n_processors, |i: int| CreationStep::BeforeInit(i as usize))
        + (if has_init { seq![CreationStep::Init] } else { Seq::empty() })
        + Seq::new(n_processors, |i: int| CreationStep::AfterInit(i as usize))
}

/// The step to take after `step` succeeded: the next one of
/// `creation_steps`, or `None` when the bean is complete. A step that fails
/// ends the creation with `creation_failure`.
pub fn next_creation_step(step: CreationStep, n_processors: usize, has_init: bool) -> (r: Option<CreationStep>)
    ensures
        r == step_after(step, n_processors as nat, has_init),
{
    match step {
        CreationStep::Factory => if n_processors > 0 {
            Some(CreationStep::BeforeInit(0))
        } else if has_init {
            Some(CreationStep::Init)
        } else {
            None
        },
        CreationStep::BeforeInit(i) => if n_processors > 0 && i < n_processors - 1 {
            Some(CreationStep::BeforeInit(i + 1))
        } else if has_init {
            Some(CreationStep::Init)
        } else if n_processors > 0 {
            Some(CreationStep::AfterInit(0))
        } else {
            None
        },
        CreationStep::Init => if n_processors > 0 {
            Some(CreationStep::AfterInit(0))
        } else {
            None
        },
        CreationStep::AfterInit(i) => if n_processors > 0 && i < n_processors - 1 {
            Some(CreationStep::AfterInit(i + 1))
        } else {
            None
        },
    }
}

/// Creation runs the steps of `creation_steps` in order: starting at the
/// factory, each step that succeeds is followed by the next one, and the
/// bean is complete after the last.
pub proof fn lemma_creation_order(n_processors: nat, has_init: bool, k: int)
    requires
        n_processors <= usize::MAX,
        0 <= k < creation_steps(n_processors, has_init).len(),
    ensures
        creation_steps(n_processors, has_init)[0] == CreationStep::Factory,
        k + 1 < creation_steps(n_processors, has_init).len() ==> step_after(
            creation_steps(n_processors, has_init)[k],
            n_processors,
            has_init,
        ) == Some(creation_steps(n_processors, has_init)[k + 1]),
        k + 1 == creation_steps(n_processors, has_init).len() ==> step_after(
            creation_steps(n_processors, has_init)[k],
            n_processors,
            has_init,
        ) is None,
{
    let s = creation_steps(n_processors, has_init);
    let n = n_processors as int;
    let m: int = if has_init { 1 } else { 0 };
    assert(s.len() == 1 + n + m + n);
    assert forall|j: int| 1 <= j < 1 + n implies #[trigger] s[j] == CreationStep::BeforeInit((j - 1) as usize) by {}
    assert forall|j: int| 1 + n + m <= j < 1 + n + m + n implies #[trigger] s[j] == CreationStep::AfterInit((j - 1 - n - m) as usize) by {}
    if has_init {
        assert(s[1 + n] == CreationStep::Init);
    }
    assert(s[0] == CreationStep::Factory);
    if k + 1 < s.len() {
        assert(s[k + 1] == s[k + 1]);
    }
}

/// The error with which a failed creation step ends the creation of bean
/// `name`, given the error the step failed with and its text as displayed:
/// a factory failure stays a circular-dependency error when it is one and is
/// otherwise reported as `<name>: <text>`; an initialization failure is
/// reported as `<name> init failed: <text>`; a post-processor's error is
/// passed on as it is.
pub fn creation_failure(step: CreationStep, name: &str, err: ContainerError, shown: &str) -> (r: ContainerError)
    ensures
        match step {
            CreationStep::Factory => match err {
                ContainerError::CircularDependency(c) => r matches ContainerError::CircularDependency(d) && d@ == c@,
                _ => r matches ContainerError::BeanCreationFailed(m) && m@ == name@ + ": "@ + shown@,
            },
            CreationStep::Init => r matches ContainerError::BeanCreationFailed(m) && m@ == name@ + " init failed: "@ + shown@,
            _ => r == err,
        },
{
    match step {
        CreationStep::Factory => match err {
            ContainerError::CircularDependency(c) => ContainerError::CircularDependency(c),
            _ => {
                let a = concat2(name, ": ");
                ContainerError::BeanCreationFailed(concat2(a.as_str(), shown))
            },
        },
        CreationStep::Init => {
            let a = concat2(name, " init failed: ");
            ContainerError::BeanCreationFailed(concat2(a.as_str(), shown))
        },
        _ => err,
    }
}

} // verus!

verus! {

/// The name the shutdown event carries: the application's name, else
/// `Application`.
pub fn shutdown_app_name(name: Option<String>) -> (r: String)
    ensures
        r@ == match name {
            Some(n) => n@,
            None => "Application"@,
        },
{
    match name {
        Some(n) => n,
        None => owned("Application"),
    }
}

/// A step in shutting an application context down.
#[derive(Clone, Copy, Debug, PartialEq, Eq, Structural)]
pub enum ShutdownStep {
    /// Publishing the shutdown event.
    PublishEvent,
    /// Running the shutdown hook at this position.
    Hook(usize),
    /// Destroying the singletons, whose outcome is that of the shutdown.
    DestroySingletons,
}

/// The step that follows `step` when `n_hooks` hooks are registered: the
/// event first, then every hook in the order they were registered, then the
/// singletons; `None` after the singletons.
pub open spec fn shutdown_step_after(step: ShutdownStep, n_hooks: nat) -> Option<ShutdownStep> {
    match step {
        ShutdownStep::PublishEvent => if n_hooks > 0 {
            Some(ShutdownStep::Hook(0))
        } else {
            Some(ShutdownStep::DestroySingletons)
        },
        ShutdownStep::Hook(i) => if i + 1 < n_hooks {
            Some(ShutdownStep::Hook((i + 1) as usize))
        } else {
            Some(ShutdownStep::DestroySingletons)
        },
        ShutdownStep::DestroySingletons => None,
    }
}

/// The steps of shutting a context down with `n_hooks` hooks, in order:
/// the event, every hook in registration order, the singletons.
pub open spec fn shutdown_steps(n_hooks: nat) -> Seq<ShutdownStep> {
    seq![ShutdownStep::PublishEvent] + Seq::new(n_hooks, |i: int| ShutdownStep::Hook(i as usize))
        + seq![ShutdownStep::DestroySingletons]
}

/// Shutting down runs the steps of `shutdown_steps` in order, each hook
/// exactly once, and nothing follows the last.
pub proof fn lemma_shutdown_order(n_hooks: nat, k: int)
    requires
        n_hooks <= usize::MAX,
        0 <= k < shutdown_steps(n_hooks).len(),
    ensures
        k + 1 < shutdown_steps(n_hooks).len() ==> shutdown_step_after(shutdown_steps(n_hooks)[k], n_hooks)
            == Some(shutdown_steps(n_hooks)[k + 1]),
        k + 1 == shutdown_steps(n_hooks).len() ==> shutdown_step_after(shutdown_steps(n_hooks)[k], n_hooks) is None,
{
    let s = shutdown_steps(n_hooks);
    let n = n_hooks as int;
    assert(s.len() == n + 2);
    assert(s[0] == ShutdownStep::PublishEvent);
    assert forall|j: int| 1 <= j < n + 1 implies #[trigger] s[j] == ShutdownStep::Hook((j - 1) as usize) by {}
    assert(s[n + 1] == ShutdownStep::DestroySingletons);
    if k + 1 < s.len() {
        assert(s[k + 1] == s[k + 1]);
    }
}

/// The step after `step`, as `shutdown_step_after` says. The outcome of
/// the step just run is no input: a failing hook is reported and the next
/// one runs all the same.
pub fn next_shutdown_step(step: ShutdownStep, n_hooks: usize) -> (r: Option<ShutdownStep>)
    ensures
        r == shutdown_step_after(step, n_hooks as nat),
{
    match step {
        ShutdownStep::PublishEvent => if n_hooks > 0 {
            Some(ShutdownStep::Hook(0))
        } else {
            Some(ShutdownStep::DestroySingletons)
        },
        ShutdownStep::Hook(i) => if n_hooks > 0 && i < n_hooks - 1 {
            Some(ShutdownStep::Hook(i + 1))
        } else {
            Some(ShutdownStep::DestroySingletons)
        },
        ShutdownStep::DestroySingletons => None,
    }
}

} // verus!

verus! {

/// The error with which a failing bean-factory post-processor stops the
/// start-up, given the text of its error as displayed.
pub fn factory_post_processor_failure(shown: &str) -> (r: ContainerError)
    ensures
        r matches ContainerError::BeanCreationFailed(m) && m@ == "BeanFactoryPostProcessor failed: "@ + shown@,
{
    ContainerError::BeanCreationFailed(concat2("BeanFactoryPostProcessor failed: ", shown))
}

} // verus!

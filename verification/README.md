# chimera

The verified core of a Spring-style dependency-injection framework, written
in Verus. Every function under `src/` carries a contract that Verus proves,
except the trusted wrappers around outside code, whose contracts Verus takes
on trust:

- `instant_now` (`std::time::Instant::now`) and `system_now`
  (`std::time::SystemTime::now`), of which nothing is stated;
- `regex_match` (`regex::Regex::new` and `Regex::is_match`), stated through
  the names `regex_compiles`, `regex_is_match` and `regex_error_text`;
- `parse_toml` (`toml::from_str`), stated through the names
  `toml_document` and `toml_error_text`, and `config_from_toml`, which turns
  a parsed `toml::Value` into a configuration value and of which nothing is
  stated;
- `char_is_upper`, `char_is_space`, `char_to_lower`, `str_to_lower` and
  `str_to_upper` (the std Unicode case and whitespace functions), stated
  exactly for ASCII and otherwise through names;
- `push_char` (`String::push`).

## Layout

- `src/text.rs` – character and string helpers, decimal numerals.
- `src/naming.rs` – camelCase, snake_case and kebab-case names, reserved
  component method names.
- `src/dependency.rs` – the creation tracker, dependency-graph validation
  (missing dependencies, cycles) and topological ordering.
- `src/container.rs` – the bean-definition registry: registration, removal,
  lookup by name and by type, the decisions taken on every bean request, the
  singleton cache, the initialization levels of eager singletons, and the
  order of the steps that create a bean and shut a context down.
- `src/event.rs` – application events and the listener registry.
- `src/config.rs` – configuration values, TOML documents flattened to dotted
  keys, environment-variable keys, profile-specific configuration files, the
  value a lookup takes from the property sources.
- `src/component.rs` – what component and bean-method declarations register:
  bean names, scopes, the dependencies of autowired fields.
- `src/binding.rs` – the keys configuration-properties fields are bound to
  and what a missing value gives.
- `src/logging.rs` – log levels, formats and logger settings.
- `src/validator.rs` – validation rules, field errors and their merging,
  the rule each `#[validate(...)]` keyword names, and field-by-field
  validation that collects every failure.
- `src/aop.rs` – join points, the pointcut language with its `*` wildcard
  patterns, the order in which advice runs, and the aspect plugin.
- `src/ordering.rs` – stable ordering by priority.
- `src/matching.rs` – regular-expression matching through the `regex` crate.
- `app/` – the runtime around the core: application start-up, bean instances
  and factories, event delivery, configuration sources on disk and in the
  environment, logger installation, plugins and aspects.
- `tests/` – tests of the library.

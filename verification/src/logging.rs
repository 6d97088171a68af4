//! Logging configuration: levels, output formats and the settings the
//! logger is installed with.

use vstd::prelude::*;
use crate::text::{all_ascii, ascii_lower, concat2, str_equal, str_lowercase, str_to_lower};

verus! {

/// How much is logged, from the most to the least.
#[derive(Clone, Copy, Debug, PartialEq, Eq, Structural)]
pub enum LogLevel {
    /// Everything, down to tracing detail.
    Trace,
    /// Debugging detail and above.
    Debug,
    /// Informational messages and above.
    Info,
    /// Warnings and errors.
    Warn,
    /// Errors only.
    Error,
}

/// The level named `s` (already lowercased): `trace`, `debug`, `info`,
/// `warn` or `warning`, `error`.
pub open spec fn level_named(s: Seq<char>) -> Option<LogLevel> {
    if s == "trace"@ {
        Some(LogLevel::Trace)
    } else if s == "debug"@ {
        Some(LogLevel::Debug)
    } else if s == "info"@ {
        Some(LogLevel::Info)
    } else if s == "warn"@ || s == "warning"@ {
        Some(LogLevel::Warn)
    } else if s == "error"@ {
        Some(LogLevel::Error)
    } else {
        None
    }
}

/// The lowercase name of a level.
pub open spec fn level_name(l: LogLevel) -> Seq<char> {
    match l {
        LogLevel::Trace => "trace"@,
        LogLevel::Debug => "debug"@,
        LogLevel::Info => "info"@,
        LogLevel::Warn => "warn"@,
        LogLevel::Error => "error"@,
    }
}

impl LogLevel {
    /// Reads a level name, ignoring case; `warning` is read as `warn`. Any
    /// other name is refused with `Invalid log level: ` and the name given.
    pub fn parse(s: &str) -> (r: Result<LogLevel, String>)
        ensures
            match level_named(str_lowercase(s@)) {
                Some(l) => r == Ok::<LogLevel, String>(l),
                None => r matches Err(m) && m@ == "Invalid log level: "@ + s@,
            },
            all_ascii(s@) ==> str_lowercase(s@) == ascii_lower(s@),
    {
        let lower = str_to_lower(s);
        let t = lower.as_str();
        if str_equal(t, "trace") {
            Ok(LogLevel::Trace)
        } else if str_equal(t, "debug") {
            Ok(LogLevel::Debug)
        } else if str_equal(t, "info") {
            Ok(LogLevel::Info)
        } else if str_equal(t, "warn") || str_equal(t, "warning") {
            Ok(LogLevel::Warn)
        } else if str_equal(t, "error") {
            Ok(LogLevel::Error)
        } else {
            Err(concat2("Invalid log level: ", s))
        }
    }

    /// The lowercase name of the level.
    pub fn as_str(&self) -> (r: &'static str)
        ensures
            r@ == level_name(*self),
    {
        match self {
            LogLevel::Trace => "trace",
            LogLevel::Debug => "debug",
            LogLevel::Info => "info",
            LogLevel::Warn => "warn",
            LogLevel::Error => "error",
        }
    }
}

impl std::str::FromStr for LogLevel {
    type Err = String;

    fn from_str(s: &str) -> (r: Result<LogLevel, String>)
        ensures
            match level_named(str_lowercase(s@)) {
                Some(l) => r == Ok::<LogLevel, String>(l),
                None => r matches Err(m) && m@ == "Invalid log level: "@ + s@,
            },
    {
        LogLevel::parse(s)
    }
}

/// How log lines are laid out.
#[derive(Clone, Copy, Debug, PartialEq, Eq, Structural)]
pub enum LogFormat {
    /// One short line per event.
    Compact,
    /// One line per event with all fields.
    Full,
    /// One JSON object per event.
    Json,
    /// Several indented lines per event.
    Pretty,
}

/// The format named `s` (already lowercased).
pub open spec fn format_named(s: Seq<char>) -> Option<LogFormat> {
    if s == "compact"@ {
        Some(LogFormat::Compact)
    } else if s == "full"@ {
        Some(LogFormat::Full)
    } else if s == "json"@ {
        Some(LogFormat::Json)
    } else if s == "pretty"@ {
        Some(LogFormat::Pretty)
    } else {
        None
    }
}

/// The lowercase name of a format.
pub open spec fn format_name(f: LogFormat) -> Seq<char> {
    match f {
        LogFormat::Compact => "compact"@,
        LogFormat::Full => "full"@,
        LogFormat::Json => "json"@,
        LogFormat::Pretty => "pretty"@,
    }
}

impl LogFormat {
    /// Reads a format name, ignoring case. Any other name is refused with
    /// `Invalid log format: ` and the name given.
    pub fn parse(s: &str) -> (r: Result<LogFormat, String>)
        ensures
            match format_named(str_lowercase(s@)) {
                Some(f) => r == Ok::<LogFormat, String>(f),
                None => r matches Err(m) && m@ == "Invalid log format: "@ + s@,
            },
            all_ascii(s@) ==> str_lowercase(s@) == ascii_lower(s@),
    {
        let lower = str_to_lower(s);
        let t = lower.as_str();
        if str_equal(t, "compact") {
            Ok(LogFormat::Compact)
        } else if str_equal(t, "full") {
            Ok(LogFormat::Full)
        } else if str_equal(t, "json") {
            Ok(LogFormat::Json)
        } else if str_equal(t, "pretty") {
            Ok(LogFormat::Pretty)
        } else {
            Err(concat2("Invalid log format: ", s))
        }
    }

    /// The lowercase name of the format.
    pub fn as_str(&self) -> (r: &'static str)
        ensures
            r@ == format_name(*self),
    {
        match self {
            LogFormat::Compact => "compact",
            LogFormat::Full => "full",
            LogFormat::Json => "json",
            LogFormat::Pretty => "pretty",
        }
    }
}

impl std::str::FromStr for LogFormat {
    type Err = String;

    fn from_str(s: &str) -> (r: Result<LogFormat, String>)
        ensures
            match format_named(str_lowercase(s@)) {
                Some(f) => r == Ok::<LogFormat, String>(f),
                None => r matches Err(m) && m@ == "Invalid log format: "@ + s@,
            },
    {
        LogFormat::parse(s)
    }
}

/// The settings the logger is installed with.
#[derive(Debug)]
pub struct LoggingConfig {
    /// The level below which nothing is logged.
    pub level: LogLevel,
    /// The layout of log lines.
    pub format: LogFormat,
    /// Whether lines carry a timestamp.
    pub show_timestamp: bool,
    /// Whether lines carry the event's target.
    pub show_target: bool,
    /// Whether lines carry the thread id.
    pub show_thread_ids: bool,
    /// Whether lines carry the thread name.
    pub show_thread_names: bool,
    /// A filter directive that replaces the level, if given.
    pub filter: Option<String>,
}

/// `c` holds the default settings: info level, compact lines with a
/// timestamp and nothing else, no filter.
pub open spec fn is_default_config(c: LoggingConfig) -> bool {
    &&& c.level == LogLevel::Info
    &&& c.format == LogFormat::Compact
    &&& c.show_timestamp
    &&& !c.show_target
    &&& !c.show_thread_ids
    &&& !c.show_thread_names
    &&& c.filter is None
}

impl Default for LoggingConfig {
    fn default() -> (c: Self)
        ensures
            is_default_config(c),
    {
        LoggingConfig {
            level: LogLevel::Info,
            format: LogFormat::Compact,
            show_timestamp: true,
            show_target: false,
            show_thread_ids: false,
            show_thread_names: false,
            filter: None,
        }
    }
}

impl LoggingConfig {
    /// The default settings.
    pub fn new() -> (c: Self)
        ensures
            is_default_config(c),
    {
        LoggingConfig::default()
    }

    /// Sets the level.
    pub fn level(self, level: LogLevel) -> (c: Self)
        ensures
            c == (LoggingConfig { level, ..self }),
    {
        LoggingConfig { level, ..self }
    }

    /// Sets the format.
    pub fn format(self, format: LogFormat) -> (c: Self)
        ensures
            c == (LoggingConfig { format, ..self }),
    {
        LoggingConfig { format, ..self }
    }

    /// Sets whether lines carry a timestamp.
    pub fn show_timestamp(self, show: bool) -> (c: Self)
        ensures
            c == (LoggingConfig { show_timestamp: show, ..self }),
    {
        LoggingConfig { show_timestamp: show, ..self }
    }

    /// Sets whether lines carry the event's target.
    pub fn show_target(self, show: bool) -> (c: Self)
        ensures
            c == (LoggingConfig { show_target: show, ..self }),
    {
        LoggingConfig { show_target: show, ..self }
    }

    /// Sets the filter directive.
    pub fn filter(self, filter: String) -> (c: Self)
        ensures
            c == (LoggingConfig { filter: Some(filter), ..self }),
    {
        LoggingConfig { filter: Some(filter), ..self }
    }

    /// The settings read from the values of the `RUST_LOG`, `LOG_LEVEL` and
    /// `LOG_FORMAT` variables, where set: `RUST_LOG` becomes the filter, a
    /// level or format name that reads as one replaces the default, and a
    /// name that does not is ignored.
    pub fn from_env_values(rust_log: Option<String>, log_level: Option<String>, log_format: Option<String>) -> (c: Self)
        ensures
            c.filter == rust_log,
            c.level == match log_level {
                Some(s) => match level_named(str_lowercase(s@)) {
                    Some(l) => l,
                    None => LogLevel::Info,
                },
                None => LogLevel::Info,
            },
            c.format == match log_format {
                Some(s) => match format_named(str_lowercase(s@)) {
                    Some(f) => f,
                    None => LogFormat::Compact,
                },
                None => LogFormat::Compact,
            },
            c.show_timestamp,
            !c.show_target,
            !c.show_thread_ids,
            !c.show_thread_names,
    {
        let mut config = LoggingConfig::default();
        config.filter = rust_log;
        if let Some(s) = log_level {
            if let Ok(l) = LogLevel::parse(s.as_str()) {
                config.level = l;
            }
        }
        if let Some(s) = log_format {
            if let Ok(f) = LogFormat::parse(s.as_str()) {
                config.format = f;
            }
        }
        config
    }
}

/// The name of every level reads back as that level.
pub proof fn lemma_level_names_read_back(l: LogLevel)
    ensures
        all_ascii(level_name(l)),
        level_named(ascii_lower(level_name(l))) == Some(l),
{
    reveal_strlit("trace");
    reveal_strlit("debug");
    reveal_strlit("info");
    reveal_strlit("warn");
    reveal_strlit("warning");
    reveal_strlit("error");
    let n = level_name(l);
    assert(ascii_lower(n) =~= n);
    match l {
        LogLevel::Trace => {},
        LogLevel::Debug => {
            assert(n[0] != "trace"@[0]);
        },
        LogLevel::Info => {
            assert(n.len() != "trace"@.len());
            assert(n[0] != "debug"@[0]);
        },
        LogLevel::Warn => {
            assert(n.len() != "trace"@.len());
            assert(n[0] != "debug"@[0]);
            assert(n[0] != "info"@[0]);
        },
        LogLevel::Error => {
            assert(n[0] != "trace"@[0]);
            assert(n[0] != "debug"@[0]);
            assert(n.len() != "info"@.len());
            assert(n[0] != "warn"@[0]);
            assert(n.len() != "warning"@.len());
        },
    }
}

/// The name of every format reads back as that format.
pub proof fn lemma_format_names_read_back(f: LogFormat)
    ensures
        all_ascii(format_name(f)),
        format_named(ascii_lower(format_name(f))) == Some(f),
{
    reveal_strlit("compact");
    reveal_strlit("full");
    reveal_strlit("json");
    reveal_strlit("pretty");
    let n = format_name(f);
    assert(ascii_lower(n) =~= n);
    match f {
        LogFormat::Compact => {},
        LogFormat::Full => {
            assert(n[0] != "compact"@[0]);
        },
        LogFormat::Json => {
            assert(n[0] != "compact"@[0]);
            assert(n[0] != "full"@[0]);
        },
        LogFormat::Pretty => {
            assert(n[0] != "compact"@[0]);
            assert(n[0] != "full"@[0]);
            assert(n[0] != "json"@[0]);
        },
    }
}

} // verus!

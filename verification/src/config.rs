//! The daemon's configuration, and the decisions taken from it.
use vstd::prelude::*;
use crate::text::{chars_of, push_str, string_of, trim_chars, trimmed};

verus! {

/// The HTTP API's settings.
pub struct ConfigAPI {
    pub listen_address: String,
    pub default_recursion_depth: u32,
}

/// How one data source is imported.
pub struct ConfigDataSources {
    pub import_sources: Vec<String>,
    pub import_serial: Option<String>,
    pub nrtm_host: Option<String>,
    pub nrtm_streaming_supported: bool,
    pub serial: u64,
    pub priority: i64,
}

/// The whole configuration: the data sources by name.
pub struct Config {
    pub api: ConfigAPI,
    pub data_sources: Vec<(String, ConfigDataSources)>,
    pub log_level: String,
    pub cache_dir: String,
}

/// The recursion depth used where the configuration names none.
pub fn default_recursion_depth() -> (depth: u32)
    ensures
        depth == 64,
{
    64
}

/// The severity of a log record, most severe first.
#[derive(Clone, Copy, PartialEq, Eq, Structural)]
pub enum LogLevel {
    Error,
    Warn,
    Info,
    Debug,
    Trace,
}

/// How verbose the log is: records up to this severity are written.
#[derive(Clone, Copy, PartialEq, Eq, Structural)]
pub enum LogLevelFilter {
    Error,
    Warn,
    Info,
    Debug,
    Trace,
}

/// The log verbosity that the configured `log_level` names, once trimmed;
/// `debug` for any name not known.
pub open spec fn level_filter_for(name: Seq<char>) -> LogLevelFilter {
    let n = trimmed(name);
    if n == "trace"@ {
        LogLevelFilter::Trace
    } else if n == "debug"@ {
        LogLevelFilter::Debug
    } else if n == "error"@ {
        LogLevelFilter::Error
    } else if n == "warn"@ {
        LogLevelFilter::Warn
    } else if n == "info"@ {
        LogLevelFilter::Info
    } else {
        LogLevelFilter::Debug
    }
}

/// The log verbosity for the configured `log_level`.
pub fn log_level_filter(log_level: &str) -> (r: LogLevelFilter)
    ensures
        r == level_filter_for(log_level@),
{
    let t = string_of(trim_chars(&chars_of(log_level)).as_slice());
    if t == "trace".to_owned() {
        LogLevelFilter::Trace
    } else if t == "debug".to_owned() {
        LogLevelFilter::Debug
    } else if t == "error".to_owned() {
        LogLevelFilter::Error
    } else if t == "warn".to_owned() {
        LogLevelFilter::Warn
    } else if t == "info".to_owned() {
        LogLevelFilter::Info
    } else {
        LogLevelFilter::Debug
    }
}

/// The rank of a severity: 1 for errors up to 5 for traces.
pub open spec fn level_rank(level: LogLevel) -> int {
    match level {
        LogLevel::Error => 1,
        LogLevel::Warn => 2,
        LogLevel::Info => 3,
        LogLevel::Debug => 4,
        LogLevel::Trace => 5,
    }
}

/// The name under which a severity is written.
pub open spec fn level_name(level: LogLevel) -> Seq<char> {
    match level {
        LogLevel::Error => "ERROR"@,
        LogLevel::Warn => "WARN"@,
        LogLevel::Info => "INFO"@,
        LogLevel::Debug => "DEBUG"@,
        LogLevel::Trace => "TRACE"@,
    }
}

/// A logger that writes records of severity `Info` and above, one per line.
pub struct SimpleLogger;

impl SimpleLogger {
    /// Whether records of `level` are written.
    pub fn enabled(&self, level: LogLevel) -> (b: bool)
        ensures
            b == (level_rank(level) <= 3),
    {
        match level {
            LogLevel::Error | LogLevel::Warn | LogLevel::Info => true,
            LogLevel::Debug | LogLevel::Trace => false,
        }
    }

    /// The line written for a record: its severity, ` - ` and its message.
    pub fn line(&self, level: LogLevel, message: &str) -> (r: String)
        ensures
            r@ == level_name(level) + " - "@ + message@,
    {
        let mut r = String::new();
        match level {
            LogLevel::Error => push_str(&mut r, "ERROR"),
            LogLevel::Warn => push_str(&mut r, "WARN"),
            LogLevel::Info => push_str(&mut r, "INFO"),
            LogLevel::Debug => push_str(&mut r, "DEBUG"),
            LogLevel::Trace => push_str(&mut r, "TRACE"),
        }
        push_str(&mut r, " - ");
        push_str(&mut r, message);
        assert(r@ =~= level_name(level) + " - "@ + message@);
        r
    }
}

} // verus!

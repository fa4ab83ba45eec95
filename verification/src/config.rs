//! The service's configuration, from the settings it is started with.

use vstd::prelude::*;
use vstd::slice::slice_subrange;
use vstd::string::*;
use crate::text::{
    chars_of, fields, parse_unsigned, span_text, spans_text, spans_within, split_fields, string_of,
    unsigned_value,
};

verus! {

#[derive(Clone, Debug)]
pub struct Config {
    pub database_url: String,
    pub server_host: String,
    pub server_port: u16,
    pub cors_allowed_origins: Vec<String>,
    pub max_wasm_size_mb: usize,
    pub solver_timeout_secs: u64,
    pub solver_instruction_limit: u64,
}

/// The values found under the names the service reads; `None` where a name
/// is not set.
#[derive(Clone, Debug)]
pub struct Settings {
    pub database_url: Option<String>,
    pub server_host: Option<String>,
    pub server_port: Option<String>,
    pub cors_allowed_origins: Option<String>,
    pub max_wasm_size_mb: Option<String>,
    pub solver_timeout_secs: Option<String>,
    pub solver_instruction_limit: Option<String>,
}

/// Why a configuration cannot be had.
#[derive(Clone, Debug)]
pub enum ConfigError {
    /// `DATABASE_URL` is not set.
    MissingDatabaseUrl,
    /// The value under `name` is no number of the range asked for.
    InvalidNumber { name: &'static str, value: String },
}

/// What a `Config` holds, as mathematical values.
pub struct ConfigModel {
    pub database_url: Seq<char>,
    pub server_host: Seq<char>,
    pub server_port: u16,
    pub cors_allowed_origins: Seq<Seq<char>>,
    pub max_wasm_size_mb: usize,
    pub solver_timeout_secs: u64,
    pub solver_instruction_limit: u64,
}

/// What a `ConfigError` says, as mathematical values.
pub enum ConfigFault {
    MissingDatabaseUrl,
    InvalidNumber { name: Seq<char>, value: Seq<char> },
}

pub open spec fn texts(list: Seq<String>) -> Seq<Seq<char>> {
    Seq::new(list.len(), |i: int| list[i]@)
}

impl View for Config {
    type V = ConfigModel;

    open spec fn view(&self) -> ConfigModel {
        ConfigModel {
            database_url: self.database_url@,
            server_host: self.server_host@,
            server_port: self.server_port,
            cors_allowed_origins: texts(self.cors_allowed_origins@),
            max_wasm_size_mb: self.max_wasm_size_mb,
            solver_timeout_secs: self.solver_timeout_secs,
            solver_instruction_limit: self.solver_instruction_limit,
        }
    }
}

impl View for ConfigError {
    type V = ConfigFault;

    open spec fn view(&self) -> ConfigFault {
        match self {
            ConfigError::MissingDatabaseUrl => ConfigFault::MissingDatabaseUrl,
            ConfigError::InvalidNumber { name, value } => ConfigFault::InvalidNumber {
                name: name@,
                value: value@,
            },
        }
    }
}

/// The value that is set, or else the default.
pub open spec fn value_or(value: Option<String>, default: Seq<char>) -> Seq<char> {
    match value {
        Some(v) => v@,
        None => default,
    }
}

/// The number under `name`, or the fault that says it is none.
pub open spec fn number_or_fault(text: Seq<char>, max: nat, name: Seq<char>) -> Result<nat, ConfigFault> {
    match unsigned_value(text, max) {
        Some(v) => Ok(v),
        None => Err(ConfigFault::InvalidNumber { name, value: text }),
    }
}

/// The configuration that given settings stand for.
///
/// The database URL must be set. The host defaults to `0.0.0.0`, the port
/// to 3000, the allowed origins (a comma-separated list) to
/// `http://localhost:5173`, the largest module to 10 MB, the timeout to 30
/// seconds and the instruction limit to 10^10. The numbers are checked in
/// this order, and the first that is none is the fault reported.
pub open spec fn config_of(s: Settings) -> Result<ConfigModel, ConfigFault> {
    if s.database_url is None {
        Err(ConfigFault::MissingDatabaseUrl)
    } else {
        let port = number_or_fault(value_or(s.server_port, "3000"@), u16::MAX as nat, "SERVER_PORT"@);
        let size = number_or_fault(
            value_or(s.max_wasm_size_mb, "10"@),
            usize::MAX as nat,
            "MAX_WASM_SIZE_MB"@,
        );
        let timeout = number_or_fault(
            value_or(s.solver_timeout_secs, "30"@),
            u64::MAX as nat,
            "SOLVER_TIMEOUT_SECS"@,
        );
        let limit = number_or_fault(
            value_or(s.solver_instruction_limit, "10000000000"@),
            u64::MAX as nat,
            "SOLVER_INSTRUCTION_LIMIT"@,
        );
        if port is Err {
            Err(port->Err_0)
        } else if size is Err {
            Err(size->Err_0)
        } else if timeout is Err {
            Err(timeout->Err_0)
        } else if limit is Err {
            Err(limit->Err_0)
        } else {
            Ok(
                ConfigModel {
                    database_url: s.database_url->Some_0@,
                    server_host: value_or(s.server_host, "0.0.0.0"@),
                    server_port: port->Ok_0 as u16,
                    cors_allowed_origins: fields(
                        value_or(s.cors_allowed_origins, "http://localhost:5173"@),
                        ',',
                    ),
                    max_wasm_size_mb: size->Ok_0 as usize,
                    solver_timeout_secs: timeout->Ok_0 as u64,
                    solver_instruction_limit: limit->Ok_0 as u64,
                },
            )
        }
    }
}

fn text_or(value: &Option<String>, default: &str) -> (text: Vec<char>)
    ensures
        text@ == value_or(*value, default@),
{
    match value {
        Some(v) => chars_of(v.as_str()),
        None => chars_of(default),
    }
}

fn number(text: &Vec<char>, max: u64, name: &'static str) -> (r: Result<u64, ConfigError>)
    ensures
        match number_or_fault(text@, max as nat, name@) {
            Ok(v) => r == Ok::<u64, ConfigError>(v as u64),
            Err(f) => r matches Err(e) && e@ == f,
        },
{
    match parse_unsigned(text.as_slice(), max) {
        Some(v) => Ok(v),
        None => Err(ConfigError::InvalidNumber { name, value: string_of(text.as_slice()) }),
    }
}

fn split_list(text: &Vec<char>) -> (list: Vec<String>)
    ensures
        texts(list@) == fields(text@, ','),
{
    let spans = split_fields(text.as_slice(), ',');
    let mut list: Vec<String> = Vec::new();
    let mut i: usize = 0;
    while i < spans.len()
        invariant
            i <= spans@.len(),
            spans_within(text@, spans@),
            spans_text(text@, spans@) == fields(text@, ','),
            list@.len() == i,
            forall|k: int| 0 <= k < i ==> (#[trigger] list@[k])@ == fields(text@, ',')[k],
        decreases spans@.len() - i,
    {
        let span = spans[i];
        assert(spans_text(text@, spans@)[i as int] == span_text(text@, spans@[i as int]));
        list.push(string_of(slice_subrange(text.as_slice(), span.lo, span.hi)));
        i += 1;
    }
    assert(texts(list@) =~= fields(text@, ','));
    list
}

impl Config {
    /// The configuration for given settings.
    pub fn from_settings(settings: Settings) -> (r: Result<Config, ConfigError>)
        ensures
            match config_of(settings) {
                Ok(model) => r matches Ok(config) && config@ == model,
                Err(fault) => r matches Err(e) && e@ == fault,
            },
    {
        let database_url = match settings.database_url {
            Some(url) => url,
            None => {
                return Err(ConfigError::MissingDatabaseUrl);
            },
        };
        let port = number(&text_or(&settings.server_port, "3000"), u16::MAX as u64, "SERVER_PORT")?;
        let size = number(
            &text_or(&settings.max_wasm_size_mb, "10"),
            usize::MAX as u64,
            "MAX_WASM_SIZE_MB",
        )?;
        let timeout = number(
            &text_or(&settings.solver_timeout_secs, "30"),
            u64::MAX,
            "SOLVER_TIMEOUT_SECS",
        )?;
        let limit = number(
            &text_or(&settings.solver_instruction_limit, "10000000000"),
            u64::MAX,
            "SOLVER_INSTRUCTION_LIMIT",
        )?;
        let host = text_or(&settings.server_host, "0.0.0.0");
        let origins = text_or(&settings.cors_allowed_origins, "http://localhost:5173");
        Ok(
            Config {
                database_url,
                server_host: string_of(host.as_slice()),
                server_port: port as u16,
                cors_allowed_origins: split_list(&origins),
                max_wasm_size_mb: size as usize,
                solver_timeout_secs: timeout,
                solver_instruction_limit: limit,
            },
        )
    }
}

} // verus!

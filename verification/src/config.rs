//! Timing and resource limits of the relay, and the parsing of their settings.

use vstd::prelude::*;
use crate::text::{
    codes, int_error_message, int_error_text, lower_codes, lowered_equals, parse_unsigned,
    parse_unsigned_spec, trim, trim_spec,
};

verus! {

/// Delays of the control-channel liveness check, in milliseconds.
#[derive(Debug, Clone, Copy)]
pub struct RelayTimingConfig {
    pub initial_nudge_delay_ms: u64,
    pub second_nudge_delay_ms: u64,
}

impl Default for RelayTimingConfig {
    fn default() -> (res: Self)
        ensures
            res.initial_nudge_delay_ms == 10_000,
            res.second_nudge_delay_ms == 5_000,
    {
        RelayTimingConfig { initial_nudge_delay_ms: 10_000, second_nudge_delay_ms: 5_000 }
    }
}

/// Resource limits applied to each socket and session; durations in milliseconds.
#[derive(Debug, Clone, Copy)]
pub struct RelayLimitsConfig {
    pub max_frame_bytes: usize,
    pub max_clients_per_connection: usize,
    pub max_sockets_per_session: usize,
    pub max_outbound_queue_messages: usize,
    pub idle_timeout_ms: u64,
    pub max_messages_per_window: usize,
    pub rate_limit_window_ms: u64,
}

impl Default for RelayLimitsConfig {
    fn default() -> (res: Self)
        ensures
            res.max_frame_bytes == 65536,
            res.max_clients_per_connection == 8,
            res.max_sockets_per_session == 64,
            res.max_outbound_queue_messages == 256,
            res.idle_timeout_ms == 120_000,
            res.max_messages_per_window == 240,
            res.rate_limit_window_ms == 10_000,
    {
        RelayLimitsConfig {
            max_frame_bytes: 64 * 1024,
            max_clients_per_connection: 8,
            max_sockets_per_session: 64,
            max_outbound_queue_messages: 256,
            idle_timeout_ms: 120_000,
            max_messages_per_window: 240,
            rate_limit_window_ms: 10_000,
        }
    }
}

/// The value a boolean setting names, after trimming and lowering ASCII capitals.
pub open spec fn bool_setting_value(raw: Seq<char>) -> Option<bool> {
    let l = lower_codes(trim_spec(raw));
    if l == codes("1"@) || l == codes("true"@) || l == codes("yes"@) || l == codes("on"@) {
        Some(true)
    } else if l == codes("0"@) || l == codes("false"@) || l == codes("no"@) || l == codes("off"@) {
        Some(false)
    } else {
        None
    }
}

/// A boolean setting: `1`, `true`, `yes`, `on` or `0`, `false`, `no`, `off`, in any
/// ASCII case and with white space around.
pub fn parse_bool_setting(key: &str, raw: &str) -> (res: Result<bool, String>)
    ensures
        match bool_setting_value(raw@) {
            Some(b) => res == Ok::<bool, String>(b),
            None => res is Err && res->Err_0@ == key@ + " must be a boolean (true/false, 1/0, yes/no, on/off)"@,
        },
{
    let t = trim(raw);
    let w = t.as_str();
    if lowered_equals(w, "1") || lowered_equals(w, "true") || lowered_equals(w, "yes") || lowered_equals(w, "on") {
        Ok(true)
    } else if lowered_equals(w, "0") || lowered_equals(w, "false") || lowered_equals(w, "no") || lowered_equals(w, "off") {
        Ok(false)
    } else {
        let mut message = String::from_str(key);
        message.append(" must be a boolean (true/false, 1/0, yes/no, on/off)");
        Err(message)
    }
}

/// A count setting: a decimal `usize`, as `str::parse` reads it.
pub open spec fn usize_setting_value(key: Seq<char>, raw: Seq<char>) -> Result<nat, Seq<char>> {
    match parse_unsigned_spec(raw, usize::MAX as nat) {
        Ok(v) => Ok(v),
        Err(e) => Err(key + " must be a positive integer: "@ + int_error_text(e)),
    }
}

pub fn parse_usize_setting(key: &str, raw: &str) -> (res: Result<usize, String>)
    ensures
        match usize_setting_value(key@, raw@) {
            Ok(v) => res is Ok && res->Ok_0 == v,
            Err(m) => res is Err && res->Err_0@ == m,
        },
{
    match parse_unsigned(raw, usize::MAX as u64) {
        Ok(v) => Ok(v as usize),
        Err(e) => {
            let mut message = String::from_str(key);
            message.append(" must be a positive integer: ");
            message.append(int_error_message(e));
            Err(message)
        },
    }
}

/// A duration setting in milliseconds: a decimal `u64`, as `str::parse` reads it.
pub open spec fn millis_setting_value(key: Seq<char>, raw: Seq<char>) -> Result<nat, Seq<char>> {
    match parse_unsigned_spec(raw, u64::MAX as nat) {
        Ok(v) => Ok(v),
        Err(e) => Err(key + " must be milliseconds as u64: "@ + int_error_text(e)),
    }
}

pub fn parse_millis_setting(key: &str, raw: &str) -> (res: Result<u64, String>)
    ensures
        match millis_setting_value(key@, raw@) {
            Ok(v) => res is Ok && res->Ok_0 == v,
            Err(m) => res is Err && res->Err_0@ == m,
        },
{
    match parse_unsigned(raw, u64::MAX) {
        Ok(v) => Ok(v),
        Err(e) => {
            let mut message = String::from_str(key);
            message.append(" must be milliseconds as u64: ");
            message.append(int_error_message(e));
            Err(message)
        },
    }
}

/// Names of the environment variables the relay is configured with.
pub const RELAY_BIND: &'static str = "RELAY_BIND";
pub const RELAY_LOG: &'static str = "RELAY_LOG";
pub const RELAY_DIAGNOSTICS: &'static str = "RELAY_DIAGNOSTICS";
pub const RELAY_INITIAL_NUDGE_MS: &'static str = "RELAY_INITIAL_NUDGE_MS";
pub const RELAY_SECOND_NUDGE_MS: &'static str = "RELAY_SECOND_NUDGE_MS";
pub const RELAY_MAX_FRAME_BYTES: &'static str = "RELAY_MAX_FRAME_BYTES";
pub const RELAY_MAX_CLIENTS_PER_CONNECTION: &'static str = "RELAY_MAX_CLIENTS_PER_CONNECTION";
pub const RELAY_MAX_SOCKETS_PER_SESSION: &'static str = "RELAY_MAX_SOCKETS_PER_SESSION";
pub const RELAY_MAX_OUTBOUND_QUEUE_MESSAGES: &'static str = "RELAY_MAX_OUTBOUND_QUEUE_MESSAGES";
pub const RELAY_IDLE_TIMEOUT_MS: &'static str = "RELAY_IDLE_TIMEOUT_MS";
pub const RELAY_MAX_MESSAGES_PER_WINDOW: &'static str = "RELAY_MAX_MESSAGES_PER_WINDOW";
pub const RELAY_RATE_LIMIT_WINDOW_MS: &'static str = "RELAY_RATE_LIMIT_WINDOW_MS";

/// The bind address used when `RELAY_BIND` is unset.
pub const DEFAULT_BIND: &'static str = "127.0.0.1:8787";

/// The log filter used when `RELAY_LOG` is unset.
pub const DEFAULT_LOG_FILTER: &'static str = "info";

/// The settings as found in the environment; `None` where a variable is unset.
#[derive(Debug, Default)]
pub struct RawSettings {
    pub log: Option<String>,
    pub diagnostics: Option<String>,
    pub initial_nudge_ms: Option<String>,
    pub second_nudge_ms: Option<String>,
    pub max_frame_bytes: Option<String>,
    pub max_clients_per_connection: Option<String>,
    pub max_sockets_per_session: Option<String>,
    pub max_outbound_queue_messages: Option<String>,
    pub idle_timeout_ms: Option<String>,
    pub max_messages_per_window: Option<String>,
    pub rate_limit_window_ms: Option<String>,
}

/// The settings of the relay but its bind address.
#[derive(Debug)]
pub struct RelaySettings {
    pub log_filter: String,
    pub diagnostics: bool,
    pub timings: RelayTimingConfig,
    pub limits: RelayLimitsConfig,
}

pub open spec fn bool_setting(key: Seq<char>, raw: Option<String>, default: bool) -> Result<bool, Seq<char>> {
    match raw {
        None => Ok(default),
        Some(s) => match bool_setting_value(s@) {
            Some(b) => Ok(b),
            None => Err(key + " must be a boolean (true/false, 1/0, yes/no, on/off)"@),
        },
    }
}

pub open spec fn usize_setting(key: Seq<char>, raw: Option<String>, default: nat) -> Result<nat, Seq<char>> {
    match raw {
        None => Ok(default),
        Some(s) => usize_setting_value(key, s@),
    }
}

pub open spec fn millis_setting(key: Seq<char>, raw: Option<String>, default: nat) -> Result<nat, Seq<char>> {
    match raw {
        None => Ok(default),
        Some(s) => millis_setting_value(key, s@),
    }
}

pub open spec fn err_of<T>(r: Result<T, Seq<char>>) -> Option<Seq<char>> {
    match r {
        Ok(_) => None,
        Err(e) => Some(e),
    }
}

/// The first error of the list, if any.
pub open spec fn first_error(errors: Seq<Option<Seq<char>>>) -> Option<Seq<char>>
    decreases errors.len(),
{
    if errors.len() == 0 {
        None
    } else if errors[0] is Some {
        errors[0]
    } else {
        first_error(errors.drop_first())
    }
}

/// The outcome of each setting, in the order in which they are read.
pub open spec fn setting_errors(raw: RawSettings) -> Seq<Option<Seq<char>>> {
    seq![
        err_of(bool_setting(RELAY_DIAGNOSTICS@, raw.diagnostics, false)),
        err_of(millis_setting(RELAY_INITIAL_NUDGE_MS@, raw.initial_nudge_ms, 10_000)),
        err_of(millis_setting(RELAY_SECOND_NUDGE_MS@, raw.second_nudge_ms, 5_000)),
        err_of(usize_setting(RELAY_MAX_FRAME_BYTES@, raw.max_frame_bytes, 65536)),
        err_of(usize_setting(RELAY_MAX_CLIENTS_PER_CONNECTION@, raw.max_clients_per_connection, 8)),
        err_of(usize_setting(RELAY_MAX_SOCKETS_PER_SESSION@, raw.max_sockets_per_session, 64)),
        err_of(usize_setting(RELAY_MAX_OUTBOUND_QUEUE_MESSAGES@, raw.max_outbound_queue_messages, 256)),
        err_of(millis_setting(RELAY_IDLE_TIMEOUT_MS@, raw.idle_timeout_ms, 120_000)),
        err_of(usize_setting(RELAY_MAX_MESSAGES_PER_WINDOW@, raw.max_messages_per_window, 240)),
        err_of(millis_setting(RELAY_RATE_LIMIT_WINDOW_MS@, raw.rate_limit_window_ms, 10_000)),
    ]
}

/// The settings read from `raw`, where each unset variable takes its default.
pub open spec fn settings_match(raw: RawSettings, s: RelaySettings) -> bool {
    &&& s.log_filter@ == match raw.log {
        Some(l) => l@,
        None => DEFAULT_LOG_FILTER@,
    }
    &&& bool_setting(RELAY_DIAGNOSTICS@, raw.diagnostics, false) == Ok::<bool, Seq<char>>(s.diagnostics)
    &&& millis_setting(RELAY_INITIAL_NUDGE_MS@, raw.initial_nudge_ms, 10_000) == Ok::<nat, Seq<char>>(s.timings.initial_nudge_delay_ms as nat)
    &&& millis_setting(RELAY_SECOND_NUDGE_MS@, raw.second_nudge_ms, 5_000) == Ok::<nat, Seq<char>>(s.timings.second_nudge_delay_ms as nat)
    &&& usize_setting(RELAY_MAX_FRAME_BYTES@, raw.max_frame_bytes, 65536) == Ok::<nat, Seq<char>>(s.limits.max_frame_bytes as nat)
    &&& usize_setting(RELAY_MAX_CLIENTS_PER_CONNECTION@, raw.max_clients_per_connection, 8) == Ok::<nat, Seq<char>>(s.limits.max_clients_per_connection as nat)
    &&& usize_setting(RELAY_MAX_SOCKETS_PER_SESSION@, raw.max_sockets_per_session, 64) == Ok::<nat, Seq<char>>(s.limits.max_sockets_per_session as nat)
    &&& usize_setting(RELAY_MAX_OUTBOUND_QUEUE_MESSAGES@, raw.max_outbound_queue_messages, 256) == Ok::<nat, Seq<char>>(s.limits.max_outbound_queue_messages as nat)
    &&& millis_setting(RELAY_IDLE_TIMEOUT_MS@, raw.idle_timeout_ms, 120_000) == Ok::<nat, Seq<char>>(s.limits.idle_timeout_ms as nat)
    &&& usize_setting(RELAY_MAX_MESSAGES_PER_WINDOW@, raw.max_messages_per_window, 240) == Ok::<nat, Seq<char>>(s.limits.max_messages_per_window as nat)
    &&& millis_setting(RELAY_RATE_LIMIT_WINDOW_MS@, raw.rate_limit_window_ms, 10_000) == Ok::<nat, Seq<char>>(s.limits.rate_limit_window_ms as nat)
}

fn read_bool(key: &str, raw: &Option<String>, default: bool) -> (res: Result<bool, String>)
    ensures
        match bool_setting(key@, *raw, default) {
            Ok(b) => res == Ok::<bool, String>(b),
            Err(m) => res is Err && res->Err_0@ == m,
        },
{
    match raw {
        None => Ok(default),
        Some(s) => parse_bool_setting(key, s.as_str()),
    }
}

fn read_usize(key: &str, raw: &Option<String>, default: usize) -> (res: Result<usize, String>)
    ensures
        match usize_setting(key@, *raw, default as nat) {
            Ok(v) => res is Ok && res->Ok_0 == v,
            Err(m) => res is Err && res->Err_0@ == m,
        },
{
    match raw {
        None => Ok(default),
        Some(s) => parse_usize_setting(key, s.as_str()),
    }
}

fn read_millis(key: &str, raw: &Option<String>, default: u64) -> (res: Result<u64, String>)
    ensures
        match millis_setting(key@, *raw, default as nat) {
            Ok(v) => res is Ok && res->Ok_0 == v,
            Err(m) => res is Err && res->Err_0@ == m,
        },
{
    match raw {
        None => Ok(default),
        Some(s) => parse_millis_setting(key, s.as_str()),
    }
}

/// Reads every setting but the bind address, in a fixed order; the first that is
/// malformed is reported, and an unset one takes its default.
pub fn resolve_settings(raw: RawSettings) -> (res: Result<RelaySettings, String>)
    ensures
        match first_error(setting_errors(raw)) {
            Some(e) => res is Err && res->Err_0@ == e,
            None => res is Ok && settings_match(raw, res->Ok_0),
        },
{
    let ghost errs = setting_errors(raw);
    let diagnostics = match read_bool(RELAY_DIAGNOSTICS, &raw.diagnostics, false) {
        Ok(v) => v,
        Err(e) => {
            proof { lemma_first_error_at(errs, 0); }
            return Err(e);
        },
    };
    let initial = match read_millis(RELAY_INITIAL_NUDGE_MS, &raw.initial_nudge_ms, 10_000) {
        Ok(v) => v,
        Err(e) => {
            proof { lemma_first_error_at(errs, 1); }
            return Err(e);
        },
    };
    let second = match read_millis(RELAY_SECOND_NUDGE_MS, &raw.second_nudge_ms, 5_000) {
        Ok(v) => v,
        Err(e) => {
            proof { lemma_first_error_at(errs, 2); }
            return Err(e);
        },
    };
    let max_frame_bytes = match read_usize(RELAY_MAX_FRAME_BYTES, &raw.max_frame_bytes, 65536) {
        Ok(v) => v,
        Err(e) => {
            proof { lemma_first_error_at(errs, 3); }
            return Err(e);
        },
    };
    let max_clients_per_connection = match read_usize(RELAY_MAX_CLIENTS_PER_CONNECTION, &raw.max_clients_per_connection, 8) {
        Ok(v) => v,
        Err(e) => {
            proof { lemma_first_error_at(errs, 4); }
            return Err(e);
        },
    };
    let max_sockets_per_session = match read_usize(RELAY_MAX_SOCKETS_PER_SESSION, &raw.max_sockets_per_session, 64) {
        Ok(v) => v,
        Err(e) => {
            proof { lemma_first_error_at(errs, 5); }
            return Err(e);
        },
    };
    let max_outbound_queue_messages = match read_usize(RELAY_MAX_OUTBOUND_QUEUE_MESSAGES, &raw.max_outbound_queue_messages, 256) {
        Ok(v) => v,
        Err(e) => {
            proof { lemma_first_error_at(errs, 6); }
            return Err(e);
        },
    };
    let idle_timeout_ms = match read_millis(RELAY_IDLE_TIMEOUT_MS, &raw.idle_timeout_ms, 120_000) {
        Ok(v) => v,
        Err(e) => {
            proof { lemma_first_error_at(errs, 7); }
            return Err(e);
        },
    };
    let max_messages_per_window = match read_usize(RELAY_MAX_MESSAGES_PER_WINDOW, &raw.max_messages_per_window, 240) {
        Ok(v) => v,
        Err(e) => {
            proof { lemma_first_error_at(errs, 8); }
            return Err(e);
        },
    };
    let rate_limit_window_ms = match read_millis(RELAY_RATE_LIMIT_WINDOW_MS, &raw.rate_limit_window_ms, 10_000) {
        Ok(v) => v,
        Err(e) => {
            proof { lemma_first_error_at(errs, 9); }
            return Err(e);
        },
    };
    proof {
        lemma_first_error_at(errs, 10);
    }
    let log_filter = match &raw.log {
        Some(l) => l.clone(),
        None => String::from_str(DEFAULT_LOG_FILTER),
    };
    Ok(RelaySettings {
        log_filter,
        diagnostics,
        timings: RelayTimingConfig { initial_nudge_delay_ms: initial, second_nudge_delay_ms: second },
        limits: RelayLimitsConfig {
            max_frame_bytes,
            max_clients_per_connection,
            max_sockets_per_session,
            max_outbound_queue_messages,
            idle_timeout_ms,
            max_messages_per_window,
            rate_limit_window_ms,
        },
    })
}

/// When the entries before `i` are all `None`, the first error is the one at `i`
/// (none when `i` is past the end).
proof fn lemma_first_error_at(errors: Seq<Option<Seq<char>>>, i: int)
    requires
        0 <= i <= errors.len(),
        forall|k: int| 0 <= k < i ==> errors[k] is None,
    ensures
        first_error(errors) == if i < errors.len() { first_error(errors.subrange(i, errors.len() as int)) } else { None::<Seq<char>> },
        i < errors.len() && errors[i] is Some ==> first_error(errors) == errors[i],
    decreases i,
{
    if i > 0 {
        let t = errors.drop_first();
        lemma_first_error_at(t, i - 1);
        if i < errors.len() {
            assert(t.subrange(i - 1, t.len() as int) =~= errors.subrange(i, errors.len() as int));
        }
    } else {
        assert(errors.subrange(0, errors.len() as int) =~= errors);
        if errors.len() == 0 {
        }
    }
}

} // verus!

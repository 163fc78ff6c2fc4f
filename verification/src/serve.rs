//! Request-field parsing and the error envelope of the solve service.

use vstd::prelude::*;

use crate::text::{decimal, lower_seq, push_decimal_padded, push_str, str_eq, to_ascii_lowercase, trim, trim_seq};

verus! {

/// How the solve response carries the overlay image (`Omit`: no overlay).
#[derive(Debug, Clone, Copy, PartialEq, Eq, Structural)]
pub enum OverlayMode {
    Omit,
    Png,
    Inline,
}

/// An error answered to a client: HTTP status, stable code and message.
#[derive(Debug, Clone, PartialEq, Eq)]
pub struct ApiError {
    pub status: u16,
    pub code: &'static str,
    pub message: String,
}

impl ApiError {
    /// 400 with the given code.
    pub fn bad_request(code: &'static str, message: String) -> (e: ApiError)
        ensures
            e.status == 400,
            e.code == code,
            e.message == message,
    {
        ApiError { status: 400, code, message }
    }

    /// 500 with code `internal`.
    pub fn internal(message: String) -> (e: ApiError)
        ensures
            e.status == 500,
            e.code@ == "internal"@,
            e.message == message,
    {
        ApiError { status: 500, code: "internal", message }
    }

    /// 503 while the bootstrap database warms up.
    pub fn not_ready() -> (e: ApiError)
        ensures
            e.status == 503,
            e.code@ == "not_ready"@,
            e.message@ == "bootstrap database is still warming; poll /readyz"@,
    {
        let mut message = String::new();
        push_str(&mut message, "bootstrap database is still warming; poll /readyz");
        ApiError { status: 503, code: "not_ready", message }
    }

    /// 503 when no engine became free within `waited_secs` seconds.
    pub fn busy(waited_secs: u64) -> (e: ApiError)
        ensures
            e.status == 503,
            e.code@ == "busy"@,
            e.message@ == "no engine became free within "@ + decimal(waited_secs as nat)
                + "s; retry later"@,
    {
        let mut message = String::new();
        push_str(&mut message, "no engine became free within ");
        push_decimal_padded(&mut message, waited_secs, 0);
        push_str(&mut message, "s; retry later");
        ApiError { status: 503, code: "busy", message }
    }

    /// 504 when a solve ran past `limit_secs` seconds.
    pub fn solve_timeout(limit_secs: u64) -> (e: ApiError)
        ensures
            e.status == 504,
            e.code@ == "solve_timeout"@,
            e.message@ == "solve exceeded "@ + decimal(limit_secs as nat) + "s"@,
    {
        let mut message = String::new();
        push_str(&mut message, "solve exceeded ");
        push_decimal_padded(&mut message, limit_secs, 0);
        push_str(&mut message, "s");
        ApiError { status: 504, code: "solve_timeout", message }
    }
}

/// A form value as the service reads it: trimmed and ASCII-lowercased.
pub open spec fn normalized(value: Seq<char>) -> Seq<char> {
    lower_seq(trim_seq(value))
}

/// The overlay mode a form value names, if any.
pub open spec fn overlay_named(s: Seq<char>) -> Option<OverlayMode> {
    if s == ""@ || s == "none"@ {
        Some(OverlayMode::Omit)
    } else if s == "png"@ {
        Some(OverlayMode::Png)
    } else if s == "inline"@ {
        Some(OverlayMode::Inline)
    } else {
        Option::None
    }
}

/// Reads the `overlay` form field: `png`, `inline`, or `none`/empty, in any
/// ASCII case and surrounded by any whitespace; anything else is a 400
/// `bad_overlay`.
pub fn parse_overlay(value: &str) -> (r: Result<OverlayMode, ApiError>)
    ensures
        ({
            let s = normalized(value@);
            match overlay_named(s) {
                Some(m) => r == Ok::<OverlayMode, ApiError>(m),
                Option::None => (r matches Err(e) && e.status == 400 && e.code@ == "bad_overlay"@
                    && e.message@ == "overlay must be 'png', 'inline' or 'none', got '"@ + s
                    + "'"@),
            }
        }),
{
    let t = trim(value);
    let s = to_ascii_lowercase(t.as_str());
    let v = s.as_str();
    if str_eq(v, "") || str_eq(v, "none") {
        Ok(OverlayMode::Omit)
    } else if str_eq(v, "png") {
        Ok(OverlayMode::Png)
    } else if str_eq(v, "inline") {
        Ok(OverlayMode::Inline)
    } else {
        let mut message = String::new();
        push_str(&mut message, "overlay must be 'png', 'inline' or 'none', got '");
        push_str(&mut message, v);
        push_str(&mut message, "'");
        Err(ApiError::bad_request("bad_overlay", message))
    }
}

/// The boolean a form value spells, if any.
pub open spec fn bool_named(s: Seq<char>) -> Option<bool> {
    if s == "1"@ || s == "true"@ || s == "yes"@ || s == "on"@ {
        Some(true)
    } else if s == ""@ || s == "0"@ || s == "false"@ || s == "no"@ || s == "off"@ {
        Some(false)
    } else {
        Option::None
    }
}

/// Reads a boolean form field named `name`: `1`/`true`/`yes`/`on` and
/// empty/`0`/`false`/`no`/`off`, in any ASCII case and surrounded by any
/// whitespace; anything else is a 400 `bad_bool`.
pub fn parse_bool(name: &str, value: &str) -> (r: Result<bool, ApiError>)
    ensures
        ({
            let s = normalized(value@);
            match bool_named(s) {
                Some(b) => r == Ok::<bool, ApiError>(b),
                Option::None => (r matches Err(e) && e.status == 400 && e.code@ == "bad_bool"@
                    && e.message@ == "field '"@ + name@ + "' must be a boolean, got '"@ + s
                    + "'"@),
            }
        }),
{
    let t = trim(value);
    let s = to_ascii_lowercase(t.as_str());
    let v = s.as_str();
    if str_eq(v, "1") || str_eq(v, "true") || str_eq(v, "yes") || str_eq(v, "on") {
        Ok(true)
    } else if str_eq(v, "") || str_eq(v, "0") || str_eq(v, "false") || str_eq(v, "no") || str_eq(
        v,
        "off",
    ) {
        Ok(false)
    } else {
        let mut message = String::new();
        push_str(&mut message, "field '");
        push_str(&mut message, name);
        push_str(&mut message, "' must be a boolean, got '");
        push_str(&mut message, v);
        push_str(&mut message, "'");
        Err(ApiError::bad_request("bad_bool", message))
    }
}

} // verus!

//! Locating the invocation inside a host message, and reading its validation mode.
use vstd::prelude::*;

use crate::json::{get_spec, Json, JsonV};
use crate::model::ValidationMode;
use crate::state_store::lower_text;

verus! {

/// Whether `v` is an object with `card_source` or `card_spec`.
pub open spec fn names_card(v: Option<JsonV>) -> bool {
    match v {
        Some(x) => x is Object && (get_spec(x, "card_source"@) is Some || get_spec(
            x,
            "card_spec"@,
        ) is Some),
        None => false,
    }
}

/// Where a message holds its invocation, tried in order: the message itself when it names a
/// card, its `invocation`, its `card`, its `payload` when that names a card, its `config` when
/// that names a card, and the `card` of its `config`.
pub open spec fn find_invocation_spec(v: JsonV) -> Option<JsonV> {
    if !(v is Object) {
        None
    } else if names_card(Some(v)) {
        Some(v)
    } else if get_spec(v, "invocation"@) is Some {
        get_spec(v, "invocation"@)
    } else if get_spec(v, "card"@) is Some {
        get_spec(v, "card"@)
    } else if names_card(get_spec(v, "payload"@)) {
        get_spec(v, "payload"@)
    } else if get_spec(v, "config"@) is Some {
        let config = get_spec(v, "config"@)->0;
        if names_card(Some(config)) {
            Some(config)
        } else {
            get_spec(config, "card"@)
        }
    } else {
        None
    }
}

/// The invocation candidate of a message: where it holds one, else its object `payload`, else
/// its object `config`.
pub open spec fn locate_spec(v: JsonV) -> Option<JsonV> {
    match find_invocation_spec(v) {
        Some(x) => Some(x),
        None => match get_spec(v, "payload"@) {
            Some(p) => if p is Object {
                Some(p)
            } else {
                match get_spec(v, "config"@) {
                    Some(c) => if c is Object {
                        Some(c)
                    } else {
                        None
                    },
                    None => None,
                }
            },
            None => match get_spec(v, "config"@) {
                Some(c) => if c is Object {
                    Some(c)
                } else {
                    None
                },
                None => None,
            },
        },
    }
}

fn names_card_exec(v: Option<&Json>) -> (r: bool)
    ensures
        r == names_card(
            match v {
                Some(x) => Some(x@),
                None => None,
            },
        ),
{
    match v {
        Some(x) => x.is_object() && (x.get("card_source").is_some() || x.get("card_spec").is_some()),
        None => false,
    }
}

fn copy_of(v: Option<&Json>) -> (r: Option<Json>)
    ensures
        r matches Some(x) ==> v matches Some(y) && x@ == y@,
        r is None ==> v is None,
{
    match v {
        Some(x) => Some(x.copy()),
        None => None,
    }
}

/// Where a message holds its invocation.
pub fn find_invocation_value(value: &Json) -> (r: Option<Json>)
    ensures
        r matches Some(x) ==> find_invocation_spec(value@) == Some(x@),
        r is None ==> find_invocation_spec(value@) is None,
{
    if !value.is_object() {
        return None;
    }
    if names_card_exec(Some(value)) {
        return Some(value.copy());
    }
    if value.get("invocation").is_some() {
        return copy_of(value.get("invocation"));
    }
    if value.get("card").is_some() {
        return copy_of(value.get("card"));
    }
    if names_card_exec(value.get("payload")) {
        return copy_of(value.get("payload"));
    }
    match value.get("config") {
        Some(config) => {
            if names_card_exec(Some(config)) {
                Some(config.copy())
            } else {
                copy_of(config.get("card"))
            }
        },
        None => None,
    }
}

/// The invocation candidate of a message.
pub fn locate_invocation_candidate(value: &Json) -> (r: Option<Json>)
    ensures
        r matches Some(x) ==> locate_spec(value@) == Some(x@),
        r is None ==> locate_spec(value@) is None,
{
    if let Some(inv) = find_invocation_value(value) {
        return Some(inv);
    }
    match value.get("payload") {
        Some(p) => {
            if p.is_object() {
                return Some(p.copy());
            }
        },
        None => {},
    }
    match value.get("config") {
        Some(c) => {
            if c.is_object() {
                Some(c.copy())
            } else {
                None
            }
        },
        None => None,
    }
}

/// A validation mode named in any ASCII case.
pub open spec fn mode_of(v: Option<JsonV>) -> Option<ValidationMode> {
    match v {
        Some(JsonV::Str(s)) => if lower_text(s) == "off"@ {
            Some(ValidationMode::Off)
        } else if lower_text(s) == "warn"@ {
            Some(ValidationMode::Warn)
        } else if lower_text(s) == "error"@ {
            Some(ValidationMode::Error)
        } else {
            None
        },
        _ => None,
    }
}

/// Reads a validation mode.
pub fn parse_validation_mode(value: &Json) -> (r: Option<ValidationMode>)
    ensures
        r == mode_of(Some(value@)),
{
    match value {
        Json::Str(s) => {
            let low = crate::state_store::lower_string(s.as_str());
            proof {
                reveal_strlit("off");
                reveal_strlit("warn");
                reveal_strlit("error");
            }
            if crate::json::same_text(low.as_str(), "off") {
                Some(ValidationMode::Off)
            } else if crate::json::same_text(low.as_str(), "warn") {
                Some(ValidationMode::Warn)
            } else if crate::json::same_text(low.as_str(), "error") {
                Some(ValidationMode::Error)
            } else {
                None
            }
        },
        _ => None,
    }
}

/// The first of `validation_mode` and `validationMode` in the invocation, then in the message.
pub open spec fn mode_source(value: JsonV, invocation: JsonV) -> Option<JsonV> {
    if get_spec(invocation, "validation_mode"@) is Some {
        get_spec(invocation, "validation_mode"@)
    } else if get_spec(invocation, "validationMode"@) is Some {
        get_spec(invocation, "validationMode"@)
    } else if get_spec(value, "validation_mode"@) is Some {
        get_spec(value, "validation_mode"@)
    } else {
        get_spec(value, "validationMode"@)
    }
}

/// The validation mode of a message: the first place that names one decides, and `Warn` is
/// the default where none does or the name is unknown.
pub fn read_validation_mode(value: &Json, invocation_value: &Json) -> (r: ValidationMode)
    ensures
        r == match mode_of(mode_source(value@, invocation_value@)) {
            Some(m) => m,
            None => ValidationMode::Warn,
        },
{
    let source = if invocation_value.get("validation_mode").is_some() {
        invocation_value.get("validation_mode")
    } else if invocation_value.get("validationMode").is_some() {
        invocation_value.get("validationMode")
    } else if value.get("validation_mode").is_some() {
        value.get("validation_mode")
    } else {
        value.get("validationMode")
    };
    match source {
        Some(v) => match parse_validation_mode(v) {
            Some(m) => m,
            None => ValidationMode::Warn,
        },
        None => ValidationMode::Warn,
    }
}

} // verus!

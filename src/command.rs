//! Decisions taken on an incoming interaction: where it goes, what each
//! command option sets, and which suggestions an autocompletion gets.
use crate::matcher::{autocomplete_tz, is_best_by, is_outcome, scores_of};
use crate::timestamp::is_zone_name;
use crate::zones::is_zone_table;
use vstd::prelude::*;

verus! {

/// The most suggestions one autocompletion answer may carry.
pub const MAX_CHOICES: usize = 25;

/// Why an interaction could not be answered as asked.
#[derive(Debug, Clone, Copy, PartialEq, Eq, Structural)]
pub enum RequestError {
    Fatal,
    UnknownTimezone,
    InvalidArgs,
    UnsupportedInteractionType,
    MissingPayload,
}

/// The kind of an incoming interaction.
#[derive(Debug, Clone, Copy, PartialEq, Eq, Structural)]
pub enum InteractionKind {
    Ping,
    ApplicationCommand,
    Autocomplete,
    Other,
}

/// What an incoming interaction carries.
#[derive(Debug, Clone, Copy, PartialEq, Eq, Structural)]
pub enum PayloadKind {
    Missing,
    Command,
    Other,
}

/// Where an interaction is handled.
#[derive(Debug, Clone, Copy, PartialEq, Eq, Structural)]
pub enum Route {
    Pong,
    Command,
    Autocomplete,
}

/// A date or time field that a command option sets.
#[derive(Debug, Clone, Copy, PartialEq, Eq, Structural)]
pub enum DateField {
    Year,
    Month,
    Day,
    Hour,
    Minute,
    Second,
}

/// The value of a command option.
#[derive(Debug, PartialEq, Eq)]
pub enum OptionValue {
    Text(String),
    Integer(i64),
    Other,
}

/// What one command option asks for.
#[derive(Debug, PartialEq, Eq)]
pub enum Setting {
    TimeZone(String),
    Field(DateField, i64),
}

/// The route of an interaction of kind `kind` carrying `payload`.
pub open spec fn route_spec(kind: InteractionKind, payload: PayloadKind) -> Result<Route, RequestError> {
    match kind {
        InteractionKind::Ping => Ok(Route::Pong),
        InteractionKind::Other => Err(RequestError::UnsupportedInteractionType),
        _ => match payload {
            PayloadKind::Missing => Err(RequestError::MissingPayload),
            PayloadKind::Other => Err(RequestError::Fatal),
            PayloadKind::Command => if kind == InteractionKind::ApplicationCommand {
                Ok(Route::Command)
            } else {
                Ok(Route::Autocomplete)
            },
        },
    }
}

/// Decides where an interaction goes: a ping is answered at once, a command
/// or an autocompletion needs a command payload, anything else is refused.
pub fn route(kind: InteractionKind, payload: PayloadKind) -> (r: Result<Route, RequestError>)
    ensures
        r == route_spec(kind, payload),
{
    match kind {
        InteractionKind::Ping => Ok(Route::Pong),
        InteractionKind::Other => Err(RequestError::UnsupportedInteractionType),
        InteractionKind::ApplicationCommand | InteractionKind::Autocomplete => match payload {
            PayloadKind::Missing => Err(RequestError::MissingPayload),
            PayloadKind::Other => Err(RequestError::Fatal),
            PayloadKind::Command => {
                if let InteractionKind::ApplicationCommand = kind {
                    Ok(Route::Command)
                } else {
                    Ok(Route::Autocomplete)
                }
            },
        },
    }
}

/// Whether two strings hold the same characters.
pub fn same_text(a: &str, b: &str) -> (r: bool)
    ensures
        r == (a@ == b@),
{
    let n = a.unicode_len();
    if n != b.unicode_len() {
        return false;
    }
    let mut i: usize = 0;
    while i < n
        invariant
            n == a@.len(),
            n == b@.len(),
            i <= n,
            forall|q: int| 0 <= q < i ==> a@[q] == b@[q],
        decreases n - i,
    {
        if a.get_char(i) != b.get_char(i) {
            return false;
        }
        i += 1;
    }
    proof {
        assert(a@ =~= b@);
    }
    true
}

/// The date field that the option named `name` sets, if any.
pub open spec fn field_spec(name: Seq<char>) -> Option<DateField> {
    if name == "year"@ {
        Some(DateField::Year)
    } else if name == "month"@ {
        Some(DateField::Month)
    } else if name == "day"@ {
        Some(DateField::Day)
    } else if name == "hour"@ {
        Some(DateField::Hour)
    } else if name == "minute"@ {
        Some(DateField::Minute)
    } else if name == "secs"@ {
        Some(DateField::Second)
    } else {
        None
    }
}

/// The date field that the option named `name` sets, if any.
pub fn date_field(name: &str) -> (r: Option<DateField>)
    ensures
        r == field_spec(name@),
{
    proof {
        reveal_strlit("year");
        reveal_strlit("month");
        reveal_strlit("day");
        reveal_strlit("hour");
        reveal_strlit("minute");
        reveal_strlit("secs");
    }
    if same_text(name, "year") {
        Some(DateField::Year)
    } else if same_text(name, "month") {
        Some(DateField::Month)
    } else if same_text(name, "day") {
        Some(DateField::Day)
    } else if same_text(name, "hour") {
        Some(DateField::Hour)
    } else if same_text(name, "minute") {
        Some(DateField::Minute)
    } else if same_text(name, "secs") {
        Some(DateField::Second)
    } else {
        None
    }
}

/// What the option `name` with `value` asks for: the time zone takes text,
/// each date field an integer; an unknown name is an argument error and a
/// value of the wrong kind is fatal.
pub open spec fn setting_spec(name: Seq<char>, value: OptionValue) -> Result<Setting, RequestError> {
    if name == "timezone"@ {
        match value {
            OptionValue::Text(t) => Ok(Setting::TimeZone(t)),
            _ => Err(RequestError::Fatal),
        }
    } else {
        match field_spec(name) {
            None => Err(RequestError::InvalidArgs),
            Some(f) => match value {
                OptionValue::Integer(x) => Ok(Setting::Field(f, x)),
                _ => Err(RequestError::Fatal),
            },
        }
    }
}

/// Reads one command option.
pub fn read_option(name: &str, value: &OptionValue) -> (r: Result<Setting, RequestError>)
    ensures
        r == setting_spec(name@, *value),
{
    proof {
        reveal_strlit("timezone");
    }
    if same_text(name, "timezone") {
        match value {
            OptionValue::Text(t) => Ok(Setting::TimeZone(t.clone())),
            _ => Err(RequestError::Fatal),
        }
    } else {
        match date_field(name) {
            None => Err(RequestError::InvalidArgs),
            Some(f) => match value {
                OptionValue::Integer(x) => Ok(Setting::Field(f, *x)),
                _ => Err(RequestError::Fatal),
            },
        }
    }
}

/// One option of a command: its name and its value.
#[derive(Debug, PartialEq, Eq)]
pub struct CommandOption {
    pub name: String,
    pub value: OptionValue,
}

/// The suggestions for a time-zone autocompletion: the `MAX_CHOICES`
/// supported time zones that best match the query, or none when there is no
/// query.
pub fn autocomplete_choices(query: Option<&str>) -> (r: Vec<&'static str>)
    ensures
        query is None ==> r@.len() == 0,
        query matches Some(q) ==> r@.len() == MAX_CHOICES && exists|names: Seq<&'static str>|
            is_zone_table(names) && is_best_by(names, scores_of(q@, names), MAX_CHOICES as nat, r@),
        forall|i: int| 0 <= i < r@.len() ==> is_zone_name(#[trigger] r@[i]@),
{
    match query {
        None => Vec::new(),
        Some(q) => {
            let found = autocomplete_tz(q, MAX_CHOICES);
            let ghost names = choose|names: Seq<&'static str>|
                is_zone_table(names) && is_outcome(names, q@, MAX_CHOICES as nat, found);
            match found {
                Ok(v) => {
                    proof {
                        let idx = choose|idx: Seq<usize>|
                            crate::rank::is_top_k(scores_of(q@, names), MAX_CHOICES as nat, idx)
                                && v@ == crate::matcher::names_at(names, idx);
                        assert(v@.len() == idx.len());
                    }
                    v
                },
                Err(_) => {
                    assert(false);
                    Vec::new()
                },
            }
        },
    }
}

} // verus!

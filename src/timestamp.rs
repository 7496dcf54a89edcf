//! The instant that a command asks for: the command's options, applied in
//! order over a partly filled date, in a chosen time zone.
use crate::command::{read_option, setting_spec, CommandOption, DateField, RequestError, Setting};
use vstd::prelude::*;

verus! {

/// The date and time fields filled so far, each as the date parser keeps it;
/// the hour is kept as its half of the day and its hour within that half.
#[derive(Debug, Clone, Copy, PartialEq, Eq, Structural)]
pub struct DateFields {
    pub year: Option<i32>,
    pub month: Option<u32>,
    pub day: Option<u32>,
    pub hour_div_12: Option<u32>,
    pub hour_mod_12: Option<u32>,
    pub minute: Option<u32>,
    pub second: Option<u32>,
}

impl DateFields {
    /// No field filled.
    pub fn new() -> (r: DateFields)
        ensures
            r == (DateFields {
                year: None,
                month: None,
                day: None,
                hour_div_12: None,
                hour_mod_12: None,
                minute: None,
                second: None,
            }),
    {
        DateFields {
            year: None,
            month: None,
            day: None,
            hour_div_12: None,
            hour_mod_12: None,
            minute: None,
            second: None,
        }
    }
}

/// Whether `name` names a time zone known to the zone table.
pub uninterp spec fn is_zone_name(name: Seq<char>) -> bool;

/// The Unix time of the date that `fields` make in the zone named `zone`, if
/// they make exactly one.
pub uninterp spec fn zoned_timestamp(fields: DateFields, zone: Seq<char>) -> Option<i64>;

/// Relies on `chrono_tz::Tz`'s `FromStr`: whether the zone table knows `text`.
#[verifier::external_body]
fn is_time_zone(text: &str) -> (r: bool)
    ensures
        r == is_zone_name(text@),
{
    text.parse::<chrono_tz::Tz>().is_ok()
}

/// Relies on `chrono::format::Parsed::to_datetime_with_timezone` (with the
/// zone from `chrono_tz::Tz`'s `FromStr`) and `DateTime::timestamp`: the Unix
/// time of the date that the fields make in the zone, if they make one.
#[verifier::external_body]
fn timestamp_in(fields: &DateFields, zone: &str) -> (r: Option<i64>)
    ensures
        r == zoned_timestamp(*fields, zone@),
{
    let mut parsed = chrono::format::Parsed::new();
    (parsed.year, parsed.month, parsed.day) = (fields.year, fields.month, fields.day);
    (parsed.hour_div_12, parsed.hour_mod_12) = (fields.hour_div_12, fields.hour_mod_12);
    (parsed.minute, parsed.second) = (fields.minute, fields.second);
    match zone.parse::<chrono_tz::Tz>() {
        Ok(tz) => match parsed.to_datetime_with_timezone(&tz) {
            Ok(datetime) => Some(datetime.timestamp()),
            Err(_) => None,
        },
        Err(_) => None,
    }
}

/// A field may take `v` when it is empty or already holds `v`.
pub open spec fn agrees<T>(old: Option<T>, v: T) -> bool {
    old is None || old == Some(v)
}

/// The fields after setting `f` to `value`, or `None` when `value` is out of
/// the field's range or differs from what the field already holds.
pub open spec fn set_spec(d: DateFields, f: DateField, value: i64) -> Option<DateFields> {
    match f {
        DateField::Year => if i32::MIN <= value <= i32::MAX && agrees(d.year, value as i32) {
            Some(DateFields { year: Some(value as i32), ..d })
        } else {
            None
        },
        DateField::Month => if 1 <= value <= 12 && agrees(d.month, value as u32) {
            Some(DateFields { month: Some(value as u32), ..d })
        } else {
            None
        },
        DateField::Day => if 1 <= value <= 31 && agrees(d.day, value as u32) {
            Some(DateFields { day: Some(value as u32), ..d })
        } else {
            None
        },
        DateField::Hour => if 0 <= value <= 23 && agrees(d.hour_div_12, (value / 12) as u32)
            && agrees(d.hour_mod_12, (value % 12) as u32) {
            Some(
                DateFields {
                    hour_div_12: Some((value / 12) as u32),
                    hour_mod_12: Some((value % 12) as u32),
                    ..d
                },
            )
        } else {
            None
        },
        DateField::Minute => if 0 <= value <= 59 && agrees(d.minute, value as u32) {
            Some(DateFields { minute: Some(value as u32), ..d })
        } else {
            None
        },
        DateField::Second => if 0 <= value <= 60 && agrees(d.second, value as u32) {
            Some(DateFields { second: Some(value as u32), ..d })
        } else {
            None
        },
    }
}

fn agrees_u32(old: Option<u32>, v: u32) -> (r: bool)
    ensures
        r == agrees(old, v),
{
    match old {
        None => true,
        Some(o) => o == v,
    }
}

/// Sets the field `f` to `value`: refused when `value` is out of the field's
/// range (years must fit `i32`; months 1-12, days 1-31, hours 0-23, minutes
/// 0-59, seconds 0-60) or differs from what the field already holds.
pub fn set_field(d: &DateFields, f: DateField, value: i64) -> (r: Option<DateFields>)
    ensures
        r == set_spec(*d, f, value),
{
    match f {
        DateField::Year => {
            if i32::MIN as i64 <= value && value <= i32::MAX as i64 {
                let y = value as i32;
                let ok = match d.year {
                    None => true,
                    Some(o) => o == y,
                };
                if ok {
                    return Some(DateFields { year: Some(y), ..*d });
                }
            }
            None
        },
        DateField::Month => {
            if 1 <= value && value <= 12 && agrees_u32(d.month, value as u32) {
                Some(DateFields { month: Some(value as u32), ..*d })
            } else {
                None
            }
        },
        DateField::Day => {
            if 1 <= value && value <= 31 && agrees_u32(d.day, value as u32) {
                Some(DateFields { day: Some(value as u32), ..*d })
            } else {
                None
            }
        },
        DateField::Hour => {
            if 0 <= value && value <= 23 {
                let half = (value / 12) as u32;
                let within = (value % 12) as u32;
                if agrees_u32(d.hour_div_12, half) && agrees_u32(d.hour_mod_12, within) {
                    return Some(
                        DateFields { hour_div_12: Some(half), hour_mod_12: Some(within), ..*d },
                    );
                }
            }
            None
        },
        DateField::Minute => {
            if 0 <= value && value <= 59 && agrees_u32(d.minute, value as u32) {
                Some(DateFields { minute: Some(value as u32), ..*d })
            } else {
                None
            }
        },
        DateField::Second => {
            if 0 <= value && value <= 60 && agrees_u32(d.second, value as u32) {
                Some(DateFields { second: Some(value as u32), ..*d })
            } else {
                None
            }
        },
    }
}

/// The fields and zone after one option, or the error it gives.
pub open spec fn step_spec(d: DateFields, zone: Seq<char>, o: CommandOption) -> Result<
    (DateFields, Seq<char>),
    RequestError,
> {
    match setting_spec(o.name@, o.value) {
        Err(e) => Err(e),
        Ok(Setting::TimeZone(t)) => if is_zone_name(t@) {
            Ok((d, t@))
        } else {
            Err(RequestError::UnknownTimezone)
        },
        Ok(Setting::Field(f, x)) => match set_spec(d, f, x) {
            Some(g) => Ok((g, zone)),
            None => Err(RequestError::InvalidArgs),
        },
    }
}

/// The fields and zone after the first `i` options, starting from `start` in
/// UTC; the first option that fails gives the error.
pub open spec fn state_after(start: DateFields, options: Seq<CommandOption>, i: nat) -> Result<
    (DateFields, Seq<char>),
    RequestError,
>
    decreases i,
{
    if i == 0 {
        Ok((start, "UTC"@))
    } else {
        match state_after(start, options, (i - 1) as nat) {
            Err(e) => Err(e),
            Ok((d, z)) => step_spec(d, z, options[i - 1]),
        }
    }
}

/// What a command with `options` over `start` gives: the error of the first
/// failing option, else the Unix time of the resulting date, or `InvalidArgs`
/// when the fields make no date in the chosen zone.
pub open spec fn timestamp_spec(start: DateFields, options: Seq<CommandOption>) -> Result<
    i64,
    RequestError,
> {
    match state_after(start, options, options.len()) {
        Err(e) => Err(e),
        Ok((d, z)) => match zoned_timestamp(d, z) {
            Some(t) => Ok(t),
            None => Err(RequestError::InvalidArgs),
        },
    }
}

proof fn lemma_error_stays(start: DateFields, options: Seq<CommandOption>, i: nat, j: nat)
    requires
        i <= j,
        state_after(start, options, i) is Err,
    ensures
        state_after(start, options, j) == state_after(start, options, i),
    decreases j,
{
    if j > i {
        lemma_error_stays(start, options, i, (j - 1) as nat);
    }
}

/// Applies the options in order over `start`, beginning in UTC, and gives the
/// Unix time of the resulting date.
pub fn command_timestamp(start: DateFields, options: &Vec<CommandOption>) -> (r: Result<
    i64,
    RequestError,
>)
    ensures
        r == timestamp_spec(start, options@),
{
    let mut fields = start;
    let mut zone: String = "UTC".to_owned();
    proof {
        reveal_strlit("UTC");
    }
    let mut i: usize = 0;
    while i < options.len()
        invariant
            i <= options.len(),
            state_after(start, options@, i as nat) == Ok::<(DateFields, Seq<char>), RequestError>(
                (fields, zone@),
            ),
        decreases options.len() - i,
    {
        let o = &options[i];
        let step: Result<(), RequestError> = match read_option(&o.name, &o.value) {
            Err(e) => Err(e),
            Ok(Setting::TimeZone(text)) => {
                if is_time_zone(&text) {
                    zone = text;
                    Ok(())
                } else {
                    Err(RequestError::UnknownTimezone)
                }
            },
            Ok(Setting::Field(f, value)) => match set_field(&fields, f, value) {
                Some(g) => {
                    fields = g;
                    Ok(())
                },
                None => Err(RequestError::InvalidArgs),
            },
        };
        if let Err(e) = step {
            proof {
                lemma_error_stays(start, options@, (i + 1) as nat, options@.len());
            }
            return Err(e);
        }
        i += 1;
    }
    match timestamp_in(&fields, &zone) {
        Some(t) => Ok(t),
        None => Err(RequestError::InvalidArgs),
    }
}

} // verus!

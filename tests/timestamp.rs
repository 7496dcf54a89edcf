use tz_complete::command::{CommandOption, OptionValue, RequestError};
use tz_complete::command::DateField;
use tz_complete::timestamp::{command_timestamp, set_field, DateFields};

fn number_option(name: &str, value: i64) -> CommandOption {
    CommandOption { name: name.to_string(), value: OptionValue::Integer(value) }
}

fn text_option(name: &str, value: &str) -> CommandOption {
    CommandOption { name: name.to_string(), value: OptionValue::Text(value.to_string()) }
}

fn full_date(zone: &str) -> Vec<CommandOption> {
    vec![
        number_option("year", 2024),
        number_option("month", 3),
        number_option("day", 15),
        number_option("hour", 12),
        number_option("minute", 30),
        number_option("secs", 0),
        text_option("timezone", zone),
    ]
}

#[test]
fn timestamp_of_a_full_date_in_utc() {
    assert_eq!(command_timestamp(DateFields::new(), &full_date("UTC")), Ok(1710505800));
}

#[test]
fn timestamp_follows_the_time_zone() {
    assert_eq!(command_timestamp(DateFields::new(), &full_date("Europe/Berlin")), Ok(1710502200));
}

#[test]
fn timestamp_unknown_zone() {
    assert_eq!(command_timestamp(DateFields::new(), &full_date("Mars/Base")), Err(RequestError::UnknownTimezone));
}

#[test]
fn timestamp_minute_out_of_range() {
    let options = vec![number_option("minute", 75), text_option("timezone", "Mars/Base")];
    assert_eq!(command_timestamp(DateFields::new(), &options), Err(RequestError::InvalidArgs));
}

#[test]
fn timestamp_first_failing_option_decides() {
    let options = vec![number_option("weekday", 2), number_option("timezone", 3)];
    assert_eq!(command_timestamp(DateFields::new(), &options), Err(RequestError::InvalidArgs));
    let options = vec![number_option("timezone", 3), number_option("weekday", 2)];
    assert_eq!(command_timestamp(DateFields::new(), &options), Err(RequestError::Fatal));
}

#[test]
fn timestamp_conflicting_fields() {
    let options = vec![number_option("year", 2024), number_option("year", 2025)];
    assert_eq!(command_timestamp(DateFields::new(), &options), Err(RequestError::InvalidArgs));
}

#[test]
fn timestamp_incomplete_date() {
    assert_eq!(command_timestamp(DateFields::new(), &vec![number_option("year", 2024)]), Err(RequestError::InvalidArgs));
}

#[test]
fn timestamp_keeps_fields_already_filled() {
    let start = set_field(&DateFields::new(), DateField::Year, 2024).unwrap();
    let options = vec![number_option("year", 2025)];
    assert_eq!(command_timestamp(start, &options), Err(RequestError::InvalidArgs));
    let options = vec![
        number_option("year", 2024),
        number_option("month", 1),
        number_option("day", 1),
        number_option("hour", 0),
        number_option("minute", 0),
        number_option("secs", 0),
    ];
    assert_eq!(command_timestamp(start, &options), Ok(1704067200));
}

#[test]
fn timestamp_last_zone_wins() {
    let mut options = full_date("Europe/Berlin");
    options.push(text_option("timezone", "UTC"));
    assert_eq!(command_timestamp(DateFields::new(), &options), Ok(1710505800));
}

#[test]
fn timestamp_date_that_does_not_exist() {
    let mut options = full_date("UTC");
    options[2] = number_option("day", 31);
    options[1] = number_option("month", 2);
    assert_eq!(command_timestamp(DateFields::new(), &options), Err(RequestError::InvalidArgs));
}

#[test]
fn set_field_ranges_and_agreement() {
    let empty = DateFields::new();
    let d = set_field(&empty, DateField::Hour, 15).unwrap();
    assert_eq!(d.hour_div_12, Some(1));
    assert_eq!(d.hour_mod_12, Some(3));
    assert_eq!(set_field(&d, DateField::Hour, 15), Some(d));
    assert_eq!(set_field(&d, DateField::Hour, 3), None);
    assert_eq!(set_field(&empty, DateField::Hour, 24), None);
    assert_eq!(set_field(&empty, DateField::Minute, 60), None);
    assert_eq!(set_field(&empty, DateField::Second, 60).unwrap().second, Some(60));
    assert_eq!(set_field(&empty, DateField::Month, 0), None);
    assert_eq!(set_field(&empty, DateField::Day, 32), None);
    assert_eq!(set_field(&empty, DateField::Year, 1i64 << 40), None);
    assert_eq!(set_field(&empty, DateField::Year, -44).unwrap().year, Some(-44));
}

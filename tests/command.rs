use tz_complete::command::{
    autocomplete_choices, date_field, read_option, route, same_text, DateField, InteractionKind,
    OptionValue, PayloadKind, RequestError, Route, Setting, MAX_CHOICES,
};

#[test]
fn route_ping_is_answered_at_once() {
    assert_eq!(route(InteractionKind::Ping, PayloadKind::Missing), Ok(Route::Pong));
}

#[test]
fn route_other_kind_is_unsupported() {
    assert_eq!(
        route(InteractionKind::Other, PayloadKind::Command),
        Err(RequestError::UnsupportedInteractionType)
    );
}

#[test]
fn route_needs_a_command_payload() {
    assert_eq!(
        route(InteractionKind::ApplicationCommand, PayloadKind::Missing),
        Err(RequestError::MissingPayload)
    );
    assert_eq!(route(InteractionKind::Autocomplete, PayloadKind::Other), Err(RequestError::Fatal));
    assert_eq!(route(InteractionKind::ApplicationCommand, PayloadKind::Command), Ok(Route::Command));
    assert_eq!(route(InteractionKind::Autocomplete, PayloadKind::Command), Ok(Route::Autocomplete));
}

#[test]
fn same_text_compares_characters() {
    assert!(same_text("Asia/Tokyo", "Asia/Tokyo"));
    assert!(!same_text("Asia/Tokyo", "Asia/Tokya"));
    assert!(!same_text("day", "days"));
    assert!(same_text("", ""));
}

#[test]
fn date_field_names() {
    assert_eq!(date_field("year"), Some(DateField::Year));
    assert_eq!(date_field("month"), Some(DateField::Month));
    assert_eq!(date_field("day"), Some(DateField::Day));
    assert_eq!(date_field("hour"), Some(DateField::Hour));
    assert_eq!(date_field("minute"), Some(DateField::Minute));
    assert_eq!(date_field("secs"), Some(DateField::Second));
    assert_eq!(date_field("second"), None);
}

#[test]
fn read_option_cases() {
    assert_eq!(
        read_option("timezone", &OptionValue::Text("Europe/Paris".to_string())),
        Ok(Setting::TimeZone("Europe/Paris".to_string()))
    );
    assert_eq!(read_option("timezone", &OptionValue::Integer(3)), Err(RequestError::Fatal));
    assert_eq!(read_option("hour", &OptionValue::Integer(13)), Ok(Setting::Field(DateField::Hour, 13)));
    assert_eq!(read_option("hour", &OptionValue::Text("13".to_string())), Err(RequestError::Fatal));
    assert_eq!(read_option("weekday", &OptionValue::Integer(2)), Err(RequestError::InvalidArgs));
    assert_eq!(read_option("weekday", &OptionValue::Other), Err(RequestError::InvalidArgs));
}

#[test]
fn autocomplete_choices_without_query_is_empty() {
    assert!(autocomplete_choices(None).is_empty());
}

#[test]
fn autocomplete_choices_with_query() {
    let choices = autocomplete_choices(Some("Asia/Ma"));
    assert_eq!(choices.len(), MAX_CHOICES);
    assert_eq!(&choices[..2], &["Asia/Macao", "Asia/Macau"]);
}

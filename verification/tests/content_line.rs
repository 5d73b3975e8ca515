use rrule::content_line::{
    get_content_line_parts, get_property_name, ContentLineCaptures, ParseError, PropertyName,
};

#[test]
fn parses_content_line_parts() {
    let tests = [
        (
            "DTSTART;TZID=America/Everywhere:20120251T023000Z",
            ContentLineCaptures {
                property_name: PropertyName::DtStart,
                parameters: Some("TZID=America/Everywhere".into()),
                value: "20120251T023000Z".into(),
            },
        ),
        (
            "DTSTART:20120251T023000Z",
            ContentLineCaptures {
                property_name: PropertyName::DtStart,
                parameters: None,
                value: "20120251T023000Z".into(),
            },
        ),
        (
            "DTSTART;TZID=America/Everywhere:20120251T023000Z",
            ContentLineCaptures {
                property_name: PropertyName::DtStart,
                parameters: Some("TZID=America/Everywhere".into()),
                value: "20120251T023000Z".into(),
            },
        ),
        (
            "RDATE:19970714T123000Z",
            ContentLineCaptures {
                property_name: PropertyName::RDate,
                parameters: None,
                value: "19970714T123000Z".into(),
            },
        ),
        (
            "RDATE;VALUE=DATE:19970101,19970120,19970217,19970421",
            ContentLineCaptures {
                property_name: PropertyName::RDate,
                parameters: Some("VALUE=DATE".into()),
                value: "19970101,19970120,19970217,19970421".into(),
            },
        ),
        (
            "RRULE:FREQ=DAILY;COUNT=10",
            ContentLineCaptures {
                property_name: PropertyName::RRule,
                parameters: None,
                value: "FREQ=DAILY;COUNT=10".into(),
            },
        ),
        (
            "FREQ=DAILY;COUNT=10",
            ContentLineCaptures {
                // Defaults to RRULE
                property_name: PropertyName::RRule,
                parameters: None,
                value: "FREQ=DAILY;COUNT=10".into(),
            },
        ),
    ];
    for (input, expected_output) in tests {
        let output = get_content_line_parts(input);
        assert_eq!(output, Ok(expected_output));
    }
}

#[test]
fn unknown_property_name_is_an_error_with_the_line() {
    let line = "VEVENT:20120201T093000Z";
    assert_eq!(
        get_content_line_parts(line),
        Err(ParseError::UnrecognizedPropertyName(line.to_string()))
    );
    assert_eq!(
        get_property_name(line),
        Err(ParseError::UnrecognizedPropertyName(line.to_string()))
    );
}

#[test]
fn property_names_are_recognised() {
    assert_eq!(get_property_name("RRULE:FREQ=DAILY"), Ok(Some(PropertyName::RRule)));
    assert_eq!(get_property_name("EXRULE:FREQ=DAILY"), Ok(Some(PropertyName::ExRule)));
    assert_eq!(get_property_name("EXDATE:20120601T023000Z"), Ok(Some(PropertyName::ExDate)));
    assert_eq!(get_property_name("RDATE;VALUE=DATE:19970101"), Ok(Some(PropertyName::RDate)));
    assert_eq!(get_property_name("DTSTART:20120201T093000Z"), Ok(Some(PropertyName::DtStart)));
    assert_eq!(get_property_name("FREQ=DAILY;COUNT=10"), Ok(None));
    assert_eq!(get_property_name(""), Ok(None));
    assert_eq!(get_property_name(":x"), Ok(None));
    assert_eq!(get_property_name("RRULE"), Ok(None));
    assert_eq!(get_property_name("rrule:FREQ=DAILY"), Ok(None));
}

#[test]
fn line_without_colon_after_parameters_has_empty_value() {
    let parts = get_content_line_parts("DTSTART;TZID=Europe/Berlin").unwrap();
    assert_eq!(parts.property_name, PropertyName::DtStart);
    assert_eq!(parts.parameters, None);
    assert_eq!(parts.value, "");
}

#[test]
fn nameless_line_with_colon_keeps_what_follows_the_colon() {
    let parts = get_content_line_parts("FREQ=DAILY;X=a:b:c").unwrap();
    assert_eq!(parts.property_name, PropertyName::RRule);
    assert_eq!(parts.parameters, None);
    assert_eq!(parts.value, "b:c");
}

#[test]
fn non_ascii_parameters_are_cut_on_characters() {
    let parts = get_content_line_parts("DTSTART;TZID=Zürich/Größe:20200101T090000").unwrap();
    assert_eq!(parts.parameters, Some("TZID=Zürich/Größe"));
    assert_eq!(parts.value, "20200101T090000");
}

#[test]
fn rule_line_with_its_name_and_no_colon_is_all_value() {
    let parts = get_content_line_parts("RRULE;FREQ=DAILY").unwrap();
    assert_eq!(
        parts,
        ContentLineCaptures { property_name: PropertyName::RRule, parameters: None, value: "RRULE;FREQ=DAILY" }
    );
    // With a colon the name and its parameters are cut off.
    let parts = get_content_line_parts("RRULE;X=1:FREQ=DAILY").unwrap();
    assert_eq!(
        parts,
        ContentLineCaptures { property_name: PropertyName::RRule, parameters: Some("X=1"), value: "FREQ=DAILY" }
    );
    // Another property without a colon has no value.
    let parts = get_content_line_parts("EXRULE;FREQ=DAILY").unwrap();
    assert_eq!(
        parts,
        ContentLineCaptures { property_name: PropertyName::ExRule, parameters: None, value: "" }
    );
}

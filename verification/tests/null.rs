use smartformat::extensions::null::NullFormatter;
use smartformat::extensions::choice::ChooseFormatter;
use smartformat::formatter::DefaultFormatter;
use smartformat::extensions::InvalidSplitChar;
use smartformat::{AnyFormatter, CaseSensitivity, Error, ErrorAction, FormatterRegistry, SmartFormatter, SmartSettings, Value};

fn smart_with(formatter: NullFormatter) -> SmartFormatter {
    let mut smart = SmartFormatter::new(SmartSettings {
        format_error_action: ErrorAction::Error,
        ..SmartSettings::default()
    });
    let formatters = smart.formatters_mut();
    *formatters = FormatterRegistry::empty();
    formatters.push(AnyFormatter::Null(formatter));
    formatters.push(AnyFormatter::Choose(ChooseFormatter::new()));
    formatters.push(AnyFormatter::Default(DefaultFormatter));
    smart
}

fn smart() -> SmartFormatter {
    smart_with(NullFormatter::new())
}

fn args(values: impl IntoIterator<Item = Value>) -> Value {
    Value::List(values.into_iter().collect())
}

fn map(entries: impl IntoIterator<Item = (&'static str, Value)>) -> Value {
    Value::Dictionary(
        entries
            .into_iter()
            .map(|(key, value)| (key.to_owned(), value))
            .collect::<Vec<_>>(),
    )
}

fn format(template: &str, value: Value) -> String {
    format_with(&smart(), template, &args([value]))
}

fn format_with(smart: &SmartFormatter, template: &str, args: &Value) -> String {
    smart
        .format(template, args)
        .unwrap_or_else(|error| panic!("{template:?} failed: {error:?}"))
}

fn error_of(template: &str, value: Value) -> (String, usize) {
    match smart().format(template, &args([value])) {
        Err(Error::Format { message, position }) => (message, position),
        other => panic!("{template:?}: expected a formatting error, got {other:?}"),
    }
}

#[test]
fn null_name_and_defaults_match_dotnet() {
    let formatter = NullFormatter::new();
    assert_eq!(formatter.name(), "isnull");
    assert!(!formatter.can_auto_detect());
    assert_eq!(formatter.split_char(), '|');
    assert_eq!(NullFormatter::new().with_name("n").name(), "n");
}

#[test]
fn null_without_format_should_be_empty_string() {
    assert_eq!(format("{0}", Value::Null), "");
    assert_eq!(format("{JustNull}", map([("JustNull", Value::Null)])), "");
}

#[test]
fn not_null_should_be_empty_string() {
    for template in ["{0:}", "{0:something}"] {
        assert_eq!(format(template, Value::from("")), "", "{template}");
    }
}

#[test]
fn null_with_format_should_be_format_string() {
    assert_eq!(format("{0:isnull:}", Value::Null), "");
    assert_eq!(format("{0:isnull:nothing}", Value::Null), "nothing");
}

#[test]
fn empty_format_option_should_only_be_output_if_argument_is_null() {
    for value in [Value::Null, Value::from("a string"), Value::Int(123)] {
        assert_eq!(format("{0:isnull:}", value.clone()), "", "{value:?}");
    }
}

#[test]
fn format_option_should_only_be_output_if_argument_is_null() {
    let cases: &[(Value, &str, &str)] = &[
        (Value::Null, "It's null", "It's null"),
        (
            Value::from("a string"),
            "It's null|It's a string",
            "It's a string",
        ),
        (Value::from("a string"), "It's null", ""),
        (Value::Int(123), "It's null|Numbers", "Numbers"),
        (Value::Bool(false), "It's null|Not null", "Not null"),
        (Value::from(""), "It's null|Not null", "Not null"),
    ];

    for (value, formats, expected) in cases {
        let template = std::format!("{{0:isnull:{formats}}}");
        assert_eq!(&format(&template, value.clone()), expected, "{template}");
    }
}

#[test]
fn may_contain_nested_formats() {
    let template =
        "{NullableInt:isnull:Was null|{IntValueIfNotNull:choose(1000|2000):1k|{:N2}}}";
    let cases = [
        (Value::Null, 0, "Was null"),
        (Value::Int(123), 1000, "1k"),
        (Value::Int(123), 2000, "2,000.00"),
    ];
    for (nullable, if_not_null, expected) in cases {
        let data = map([
            ("NullableInt", nullable.clone()),
            ("IntValueIfNotNull", Value::Int(if_not_null)),
        ]);
        assert_eq!(format_with(&smart(), template, &data), expected);
    }

    assert_eq!(format("{0:isnull:[{}]}", Value::Null), "[]");
    assert_eq!(format("{0:isnull:x|[{}]}", Value::from("v")), "[v]");
}

#[test]
fn must_not_contain_choose_options() {
    assert_eq!(
        error_of("{0:isnull(op|ti|ons):Is null}", Value::Int(123)),
        (
            "Formatter named 'isnull' does not allow choose options".to_owned(),
            21
        )
    );
    assert_eq!(format("{0:isnull( ):x}", Value::Null), "x");
    assert_eq!(format("{0:isnull(\t\n):x}", Value::Null), "x");
}

#[test]
fn format_count_must_be_1_or_2() {
    assert_eq!(
        error_of("{0:isnull:1|2|3}", Value::Int(123)),
        (
            "Formatter named 'isnull' must have 1 or 2 format options".to_owned(),
            10
        )
    );
    assert_eq!(
        error_of(r"{0:isnull:a\|b|c}", Value::Null).0,
        "Formatter named 'isnull' must have 1 or 2 format options"
    );
}

#[test]
fn an_empty_format_is_one_part() {
    assert_eq!(format("{0:isnull()}", Value::Null), "");
    assert_eq!(format("{0:isnull()}", Value::from("a string")), "");
    assert_eq!(format("{0:isnull:|}", Value::Null), "");
    assert_eq!(format("{0:isnull:|}", Value::from("a string")), "");
}

#[test]
fn null_the_alignment_of_the_placeholder_applies() {
    assert_eq!(format("{0,10:isnull:N}", Value::Null), "         N");
    assert_eq!(format("{0,10:isnull:N}", Value::from("v")), "          ");
    assert_eq!(format("{0,10:isnull:N|Y}", Value::from("v")), "         Y");
    assert_eq!(format("{0,-3:isnull:N}|", Value::Null), "N  |");
}

#[test]
fn null_works_with_a_changed_split_char() {
    let mut formatter = NullFormatter::new();
    formatter.set_split_char('~').unwrap();
    let smart = smart_with(formatter);

    let template = "{0:isnull:|null|~|not null|}";
    assert_eq!(
        format_with(&smart, template, &args([Value::Null])),
        "|null|"
    );
    assert_eq!(
        format_with(&smart, template, &args([Value::from("v")])),
        "|not null|"
    );
}

#[test]
fn null_rejects_an_invalid_split_char() {
    let mut formatter = NullFormatter::new();
    assert_eq!(formatter.set_split_char('/'), Err(InvalidSplitChar('/')));
    assert_eq!(formatter.split_char(), '|');
    assert!(formatter.set_split_char(',').is_ok());
}

#[test]
fn null_auto_detection_can_be_turned_on() {
    let mut formatter = NullFormatter::new();
    formatter.set_can_auto_detect(true);
    assert!(formatter.can_auto_detect());
    let smart = smart_with(formatter);

    assert_eq!(format_with(&smart, "{0:a|b}", &args([Value::Null])), "a");
    assert_eq!(
        format_with(&smart, "{0:a|b}", &args([Value::from("v")])),
        "b"
    );
    assert_eq!(
        format_with(
            &smart,
            "{0:choose(1|2):one|two|else}",
            &args([Value::Int(1)])
        ),
        "one"
    );
}

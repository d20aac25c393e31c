use smartformat::extensions::choice::ChooseFormatter;
use smartformat::formatter::DefaultFormatter;
use smartformat::extensions::InvalidSplitChar;
use smartformat::{AnyFormatter, CaseSensitivity, Error, ErrorAction, FormatterRegistry, SmartFormatter, SmartSettings, Value};

fn smart_with(settings: SmartSettings, formatter: ChooseFormatter) -> SmartFormatter {
    let mut smart = SmartFormatter::new(settings);
    let formatters = smart.formatters_mut();
    *formatters = FormatterRegistry::empty();
    formatters.push(AnyFormatter::Choose(formatter));
    formatters.push(AnyFormatter::Default(DefaultFormatter));
    smart
}

fn smart() -> SmartFormatter {
    smart_with(
        SmartSettings {
            format_error_action: ErrorAction::Error,
            ..SmartSettings::default()
        },
        ChooseFormatter::new(),
    )
}

fn args(values: impl IntoIterator<Item = Value>) -> Value {
    Value::List(values.into_iter().collect())
}

fn map(entries: impl IntoIterator<Item = (&'static str, Value)>) -> Value {
    Value::Dictionary(
        entries
            .into_iter()
            .map(|(key, value)| (key.to_owned(), value))
            .collect::<Vec<_>>(),
    )
}

fn format(template: &str, value: Value) -> String {
    smart()
        .format(template, &args([value]))
        .unwrap_or_else(|error| panic!("{template:?} failed: {error:?}"))
}

fn envelope(template: &str, issue: &str, index: usize) -> String {
    std::format!(
        "Error parsing format string: {issue} at {index}\n{template}\n{}^",
        "-".repeat(index)
    )
}

fn error_of(template: &str, value: Value) -> String {
    match smart().format(template, &args([value])) {
        Err(Error::Format { message, .. }) => message,
        other => panic!("{template:?}: expected a formatting error, got {other:?}"),
    }
}

#[test]
fn choose_name_and_defaults_match_dotnet() {
    let formatter = ChooseFormatter::new();
    assert_eq!(formatter.name(), "choose");
    assert!(!formatter.can_auto_detect());
    assert_eq!(formatter.split_char(), '|');
    assert_eq!(formatter.case_sensitivity(), CaseSensitivity::CaseSensitive);
    assert_eq!(ChooseFormatter::new().with_name("c").name(), "c");
}

#[test]
fn is_never_auto_detected() {
    assert_eq!(format("{0:(1|2):a|b}", Value::from("x")), "x");
}

#[test]
fn works_with_numbers_strings_and_booleans() {
    let cases: &[(&str, Value, &str)] = &[
        ("{0:choose(1|2|3):one|two|three}", Value::Int(1), "one"),
        ("{0:choose(1|2|3):one|two|three}", Value::Int(2), "two"),
        ("{0:choose(1|2|3):one|two|three}", Value::Int(3), "three"),
        ("{0:choose(3|2|1):three|two|one}", Value::Int(1), "one"),
        ("{0:choose(3|2|1):three|two|one}", Value::Int(2), "two"),
        ("{0:choose(3|2|1):three|two|one}", Value::Int(3), "three"),
        ("{0:choose(1|2|3):one|two|three}", Value::from("1"), "one"),
        ("{0:choose(1|2|3):one|two|three}", Value::from("2"), "two"),
        ("{0:choose(1|2|3):one|two|three}", Value::from("3"), "three"),
        (
            "{0:choose(A|B|C):Alpha|Bravo|Charlie}",
            Value::from("A"),
            "Alpha",
        ),
        (
            "{0:choose(A|B|C):Alpha|Bravo|Charlie}",
            Value::from("B"),
            "Bravo",
        ),
        (
            "{0:choose(A|B|C):Alpha|Bravo|Charlie}",
            Value::from("C"),
            "Charlie",
        ),
        ("{0:choose(True|False):yep|nope}", Value::Bool(true), "yep"),
        (
            "{0:choose(True|False):yep|nope}",
            Value::Bool(false),
            "nope",
        ),
    ];

    for (template, value, expected) in cases {
        assert_eq!(&format(template, value.clone()), expected, "{template}");
    }
}

#[test]
fn bool_matches_case_insensitively() {
    for template in [
        "{0:choose(true|false):yep|nope}",
        "{0:choose(TRUE|FALSE):yep|nope}",
        "{0:choose(True|FALSE):yep|nope}",
    ] {
        assert_eq!(format(template, Value::Bool(true)), "yep", "{template}");
        assert_eq!(format(template, Value::Bool(false)), "nope", "{template}");
    }
}

#[test]
fn null_matches_case_insensitively() {
    for template in [
        "{0:choose(null):is null|default}",
        "{0:choose(NULL):is null|default}",
        "{0:choose(Null):is null|default}",
    ] {
        assert_eq!(format(template, Value::Null), "is null", "{template}");
    }
}

#[test]
fn strings_are_matched_case_sensitively() {
    assert_eq!(
        format(
            "{0:choose(string|String):one|two|default}",
            Value::from("String")
        ),
        "two"
    );
    assert_eq!(
        format(
            "{0:choose(string|STRING):one|two|default}",
            Value::from("String")
        ),
        "default"
    );
}

#[test]
fn a_case_insensitive_formatter_matches_any_case() {
    let mut formatter = ChooseFormatter::new();
    formatter.set_case_sensitivity(CaseSensitivity::CaseInsensitive);
    let smart = smart_with(SmartSettings::default(), formatter);
    let template = "{0:choose(string|STRING):one|two|default}";
    let result = smart
        .format(template, &args([Value::from("String")]))
        .unwrap();
    assert_eq!(result, "one");
}

#[test]
fn the_formatters_case_sensitivity_wins_over_the_settings() {
    let smart = smart_with(
        SmartSettings {
            case_sensitive: CaseSensitivity::CaseInsensitive,
            ..SmartSettings::default()
        },
        ChooseFormatter::new(),
    );
    let template = "{0:choose(string|STRING):one|two|default}";
    let result = smart
        .format(template, &args([Value::from("String")]))
        .unwrap();
    assert_eq!(result, "default");
}

#[test]
fn defaults_to_the_last_item() {
    let template = "{0:choose(1|2|3):one|two|three|default}";
    assert_eq!(format(template, Value::Int(1)), "one");
    assert_eq!(format(template, Value::Int(2)), "two");
    assert_eq!(format(template, Value::Int(3)), "three");
    assert_eq!(format(template, Value::Int(4)), "default");
    assert_eq!(format(template, Value::Int(99)), "default");
    assert_eq!(format(template, Value::Null), "default");
    assert_eq!(format(template, Value::Bool(true)), "default");
    assert_eq!(format(template, Value::from("whatever")), "default");
}

#[test]
fn has_a_special_case_for_null() {
    assert_eq!(
        format("{0:choose(null):nothing|{}}", Value::Null),
        "nothing"
    );
    assert_eq!(format("{0:choose(null):nothing|{}}", Value::Int(5)), "5");

    let template = "{0:choose(null|5):nothing|five|{}}";
    assert_eq!(format(template, Value::Null), "nothing");
    assert_eq!(format(template, Value::Int(5)), "five");
    assert_eq!(format(template, Value::Int(6)), "6");
}

#[test]
fn an_empty_option_matches_the_empty_string() {
    let template = "{0:choose(null|):is null|is empty|{}}";
    assert_eq!(format(template, Value::Null), "is null");
    assert_eq!(format(template, Value::from("")), "is empty");
    assert_eq!(format(template, Value::from("word")), "word");
}

#[test]
fn the_result_may_contain_placeholders() {
    let data = map([("Input", Value::from("good")), ("Other", Value::Int(7))]);
    let template = "{Input:choose(null|):nothing|empty|{} and {Other}}";
    assert_eq!(smart().format(template, &data).unwrap(), "good and 7");
}

#[test]
fn may_contain_nested_formats_as_choice() {
    let template = "{NullableInt:choose(null):{IntValueIfNull:N2}|{:N2}}";

    let data = map([
        ("NullableInt", Value::Int(1234)),
        ("IntValueIfNull", Value::Int(9999)),
    ]);
    assert_eq!(smart().format(template, &data).unwrap(), "1,234.00");

    let data = map([
        ("NullableInt", Value::Null),
        ("IntValueIfNull", Value::Int(9999)),
    ]);
    assert_eq!(smart().format(template, &data).unwrap(), "9,999.00");
}

#[test]
fn may_contain_nested_choose_formats() {
    let template = "{NullableInt:choose(null):{IntValueIfNull:choose(1000|2000):1k|2k}|{:N2}}";

    let data = map([
        ("NullableInt", Value::Int(1234)),
        ("IntValueIfNull", Value::Int(9999)),
    ]);
    assert_eq!(smart().format(template, &data).unwrap(), "1,234.00");

    for (value, expected) in [(1000, "1k"), (2000, "2k")] {
        let data = map([
            ("NullableInt", Value::Null),
            ("IntValueIfNull", Value::Int(value)),
        ]);
        assert_eq!(smart().format(template, &data).unwrap(), expected);
    }
}

#[test]
fn choose_a_nested_placeholder_does_not_split_the_format() {
    let template = "{0:choose(1|2):{1:choose(9|8):nine|eight}|other}";
    assert_eq!(
        smart()
            .format(template, &args([Value::Int(1), Value::Int(9)]))
            .unwrap(),
        "nine"
    );
    assert_eq!(
        smart()
            .format(template, &args([Value::Int(2), Value::Int(9)]))
            .unwrap(),
        "other"
    );
}

#[test]
fn choose_works_with_a_changed_split_char() {
    let mut formatter = ChooseFormatter::new();
    formatter.set_split_char('~').unwrap();
    let smart = smart_with(SmartSettings::default(), formatter);
    let template = "{0:choose(1~2~3):|one|~|two|~|three|}";
    let result = smart.format(template, &args([Value::Int(2)])).unwrap();
    assert_eq!(result, "|two|");
}

#[test]
fn choose_rejects_an_invalid_split_char() {
    let mut formatter = ChooseFormatter::new();
    assert_eq!(formatter.set_split_char('/'), Err(InvalidSplitChar('/')));
    assert_eq!(formatter.split_char(), '|');
    assert!(formatter.set_split_char(',').is_ok());
    assert!(formatter.set_split_char('~').is_ok());
    assert!(formatter.set_split_char('|').is_ok());
    assert_eq!(
        InvalidSplitChar('/').to_text(),
        "Only '|', ',' and '~' are valid split chars."
    );
}

#[test]
fn choose_splits_on_a_separator_inside_an_escape_sequence() {
    let template = r"{0:choose(1|2):a\|b|c}";
    assert_eq!(format(template, Value::Int(1)), r"a\");
    assert_eq!(format(template, Value::Int(2)), "b");
}

#[test]
fn choose_keeps_valid_escape_sequences() {
    assert_eq!(format(r"{0:choose(1|2):a\nb|c}", Value::Int(1)), "a\nb");
    assert_eq!(format(r"{0:choose(1|2):a\{b|c}", Value::Int(1)), "a{b");
    assert_eq!(format(r"{0:choose(1|2):a\:b|c}", Value::Int(1)), "a:b");
}

#[test]
fn escaped_parens_in_the_options() {
    let template = r"{0:choose(a\)b|c):one|two|else}";
    assert_eq!(format(template, Value::from("a)b")), "one");
    assert_eq!(format(template, Value::from("c")), "two");
    assert_eq!(format(template, Value::from("x")), "else");
}

#[test]
fn empty_options_match_the_empty_string() {
    assert_eq!(format("{0:choose():a|b}", Value::from("")), "a");
    assert_eq!(format("{0:choose():a|b}", Value::from("x")), "b");
}

#[test]
fn empty_choices_render_nothing() {
    assert_eq!(format("{0:choose(1|2):|c}", Value::Int(1)), "");
    assert_eq!(format("{0:choose(1|2):a|}", Value::Int(2)), "");
}

#[test]
fn choose_the_alignment_of_the_placeholder_applies() {
    assert_eq!(
        format("{0,10:choose(1|2):one|two}", Value::Int(1)),
        "       one"
    );
    assert_eq!(
        format("{0,-6:choose(1|2):one|two}", Value::Int(2)),
        "two   "
    );
}

#[test]
fn a_chosen_format_may_hold_a_placeholder_of_its_own() {
    let template = "{0:choose(1|2):one|{1}two|three}";
    for (value, expected) in [(1, "one"), (2, "Xtwo"), (3, "three")] {
        let args = args([Value::Int(value), Value::from("X")]);
        assert_eq!(smart().format(template, &args).unwrap(), expected);
    }
}

#[test]
fn errors_when_the_choice_is_invalid() {
    for template in ["{0:choose(1|2):1|2}", "{0:choose(1|2):a|b}"] {
        assert_eq!(
            error_of(template, Value::Int(99)),
            envelope(
                template,
                "\"99\" is not a valid choice, and a \"default\" choice was not supplied",
                15
            ),
            "{template}"
        );
    }
}

#[test]
fn errors_when_there_are_fewer_than_two_formats() {
    for template in [
        "{0:choose(1|2):single}",
        "{0:choose(1|2)}",
        "{0:choose(1):1}",
    ] {
        assert_eq!(
            error_of(template, Value::Int(1)),
            "Formatter named 'choose' requires at least 2 format options.",
            "{template}"
        );
    }
}

#[test]
fn errors_when_choices_are_too_few_or_too_many() {
    assert_eq!(
        error_of("{0:choose(1|2|3):1|2}", Value::Int(1)),
        envelope(
            "{0:choose(1|2|3):1|2}",
            "You must specify at least 3 choices",
            17
        )
    );
    assert_eq!(
        error_of("{0:choose(1):1|2|3}", Value::Int(1)),
        envelope(
            "{0:choose(1):1|2|3}",
            "You cannot specify more than 2 choices",
            13
        )
    );
    assert_eq!(
        error_of("{0:choose(1|2):1|2|3|4}", Value::Int(1)),
        envelope(
            "{0:choose(1|2):1|2|3|4}",
            "You cannot specify more than 3 choices",
            15
        )
    );
}

#[test]
fn an_unmatched_value_is_quoted_in_the_error() {
    for (value, quoted) in [
        (Value::Null, "null"),
        (Value::Bool(true), "True"),
        (Value::from("hello"), "hello"),
        (Value::Int(-7), "-7"),
    ] {
        let message = error_of("{0:choose(1|2):a|b}", value.clone());
        assert_eq!(
            message,
            envelope(
                "{0:choose(1|2):a|b}",
                &std::format!(
                    "\"{quoted}\" is not a valid choice, and a \"default\" choice was not supplied"
                ),
                15
            ),
            "{value:?}"
        );
    }
}

#[test]
fn a_list_never_matches_an_option() {
    let list = Value::List(vec![Value::Int(1)]);
    assert_eq!(format("{0:choose(1|2):a|b|else}", list), "else");
}

#[test]
fn choose_the_error_action_applies_to_the_formatters_errors() {
    let smart = smart_with(
        SmartSettings {
            format_error_action: ErrorAction::Ignore,
            ..SmartSettings::default()
        },
        ChooseFormatter::new(),
    );
    let result = smart
        .format("x{0:choose(1|2):a|b}y", &args([Value::Int(99)]))
        .unwrap();
    assert_eq!(result, "xy");
}

#[test]
fn numbers_are_matched_by_their_plain_text() {
    assert_eq!(format("{0:choose(1000|2000):a|b|else}", Value::Int(1000)), "a");
    assert_eq!(format("{0:choose(-7):a|else}", Value::Int(-7)), "a");
    assert_eq!(format("{0:choose(2|3):a|b|else}", Value::UInt(2)), "a");
}

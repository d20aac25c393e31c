use smartformat::extensions::substring::{SubStringFormatter, SubStringOutOfRangeBehavior};
use smartformat::extensions::substring::SubStringOutOfRangeBehavior::{
    ReturnEmptyString, ReturnStartIndexToEndOfString, ThrowException,
};
use smartformat::extensions::null::NullFormatter;
use smartformat::formatter::DefaultFormatter;
use smartformat::text::utf16_len;
use smartformat::extensions::substring::utf16_slice;
const OUT_OF_RANGE: &str = "Specified argument was out of the range of valid values.";
const INT32_OVERFLOW: &str = "Value was either too large or too small for an Int32.";
const NEEDS_NESTED: &str = "The format requires a nested placeholder";
use smartformat::extensions::InvalidSplitChar;
use smartformat::{AnyFormatter, CaseSensitivity, Error, ErrorAction, FormatterRegistry, SmartFormatter, SmartSettings, Value};

fn envelope(template: &str, issue: &str, index: usize) -> String {
    std::format!(
        "Error parsing format string: {issue} at {index}\n{template}\n{}^",
        "-".repeat(index)
    )
}

fn smart_with(formatter: SubStringFormatter) -> SmartFormatter {
    let mut smart = SmartFormatter::new(SmartSettings {
        format_error_action: ErrorAction::Error,
        ..SmartSettings::default()
    });
    let formatters = smart.formatters_mut();
    *formatters = FormatterRegistry::empty();
    formatters.push(AnyFormatter::SubString(formatter));
    formatters.push(AnyFormatter::Null(NullFormatter::new()));
    formatters.push(AnyFormatter::Default(DefaultFormatter));
    smart
}

fn smart() -> SmartFormatter {
    smart_with(SubStringFormatter::new())
}

fn person() -> Value {
    Value::Dictionary(Vec::from([
        ("Name".to_owned(), Value::from("Long John")),
        ("City".to_owned(), Value::from("New York")),
    ]))
}

fn null_name() -> Value {
    Value::Dictionary(Vec::from([("Name".to_owned(), Value::Null)]))
}

fn format(template: &str) -> String {
    format_with(&smart(), template, &person())
}

fn format_with(smart: &SmartFormatter, template: &str, args: &Value) -> String {
    smart
        .format(template, args)
        .unwrap_or_else(|error| panic!("{template:?} failed: {error:?}"))
}

fn error_of(template: &str) -> (String, usize) {
    error_in(&smart(), template, &person())
}

fn error_in(smart: &SmartFormatter, template: &str, args: &Value) -> (String, usize) {
    match smart.format(template, args) {
        Err(Error::Format { message, position }) => (message, position),
        other => panic!("{template:?}: expected a formatting error, got {other:?}"),
    }
}

#[test]
fn substring_name_and_defaults_match_dotnet() {
    let formatter = SubStringFormatter::new();
    assert_eq!(formatter.name(), "substr");
    assert!(!formatter.can_auto_detect());
    assert_eq!(formatter.split_char(), ',');
    assert_eq!(formatter.null_display_string(), "");
    assert_eq!(
        formatter.out_of_range_behavior(),
        SubStringOutOfRangeBehavior::ReturnEmptyString
    );
    assert_eq!(SubStringFormatter::new().with_name("s").name(), "s");
}

#[test]
fn no_parentheses_should_work() {
    assert_eq!(
        format("No parentheses: {Name:substr}"),
        "No parentheses: Long John"
    );
}

#[test]
fn only_delimiter_should_throw() {
    assert_eq!(
        error_of("Only delimiter: {Name:substr(,)}"),
        (
            "The input string '' was not in a correct format.".to_owned(),
            31
        )
    );
}

#[test]
fn named_formatter_without_options_should_throw() {
    assert_eq!(
        error_of("{Name:substr()}").0,
        "Formatter named 'substr' requires at least 1 formatter option and a string? argument."
    );
}

#[test]
fn start_position_longer_than_string() {
    assert_eq!(format("{Name:substr(999)}"), "");
}

#[test]
fn start_position_and_length_longer_than_string() {
    assert_eq!(format("{Name:substr(999,1)}"), "");
}

#[test]
fn only_positive_start_position() {
    assert_eq!(format("{Name:substr(5)}"), "John");
    assert_eq!(format("{Name:substr(0)}"), "Long John");
    assert_eq!(format("{Name:substr(9)}"), "");
}

#[test]
fn start_position_and_positive_length() {
    assert_eq!(format("{City:substr(0,3)}"), "New");
    assert_eq!(format("{Name:substr(9,0)}"), "");
}

#[test]
fn only_negative_start_position() {
    assert_eq!(format("{Name:substr(-4)}"), "John");
}

#[test]
fn negative_start_position_and_positive_length() {
    assert_eq!(format("{Name:substr(-4, 2)}"), "Jo");
}

#[test]
fn negative_start_position_and_negative_length() {
    assert_eq!(format("{Name:substr(-4, -1)}"), "Joh");
}

#[test]
fn extra_options_are_ignored() {
    assert_eq!(format("{Name:substr(1,2,3)}"), "on");
}

#[test]
fn out_of_range_behavior_matrix() {

    let cases: &[(&str, [Option<&str>; 3])] = &[
        ("{Name:substr(0,999)}", [Some(""), Some("Long John"), None]),
        ("{Name:substr(999)}", [Some(""), Some(""), Some("")]),
        ("{Name:substr(999,1)}", [Some(""), Some(""), None]),
        ("{Name:substr(-999)}", [None, None, None]),
        ("{Name:substr(-999,3)}", [None, None, None]),
        ("{Name:substr(0,-999)}", [None, None, None]),
        ("{Name:substr(5,-9)}", [None, None, None]),
        ("{Name:substr(9,1)}", [Some(""), Some(""), None]),
        (
            "{Name:substr(3,6)}",
            [Some("g John"), Some("g John"), Some("g John")],
        ),
        ("{Name:substr(3,7)}", [Some(""), Some("g John"), None]),
        ("{Name:substr(-4,-5)}", [None, None, None]),
        ("{Name:substr(0,-9)}", [Some(""), Some(""), Some("")]),
    ];

    for (index, behavior) in [
        ReturnEmptyString,
        ReturnStartIndexToEndOfString,
        ThrowException,
    ]
    .into_iter()
    .enumerate()
    {
        let mut formatter = SubStringFormatter::new();
        formatter.set_out_of_range_behavior(behavior);
        assert_eq!(formatter.out_of_range_behavior(), behavior);
        let smart = smart_with(formatter);

        for (template, expected) in cases {
            match expected[index] {
                Some(expected) => assert_eq!(
                    format_with(&smart, template, &person()),
                    expected,
                    "{template} [{behavior:?}]"
                ),
                None => assert_eq!(
                    error_in(&smart, template, &person()).0,
                    OUT_OF_RANGE,
                    "{template} [{behavior:?}]"
                ),
            }
        }
    }
}

#[test]
fn data_item_is_null() {
    let mut formatter = SubStringFormatter::new();
    formatter.set_null_display_string("???");
    assert_eq!(formatter.null_display_string(), "???");
    let smart = smart_with(formatter);

    assert_eq!(
        format_with(&smart, "{Name:substr(0,3)}", &null_name()),
        "???"
    );
    assert_eq!(
        format_with(&smart, "{Name,10:substr(0,3)}", &null_name()),
        "       ???"
    );
    assert_eq!(
        format_with(&smart, "{Name:substr(oops)}", &null_name()),
        "???"
    );
    assert_eq!(
        format_with(&smart, "{Name:substr(-999)}", &null_name()),
        "???"
    );
    assert_eq!(
        error_in(&smart, "{Name:substr()}", &null_name()).0,
        "Formatter named 'substr' requires at least 1 formatter option and a string? argument."
    );
}

#[test]
fn data_item_is_null_with_child_format() {
    let mut formatter = SubStringFormatter::new();
    formatter.set_null_display_string("???");
    let smart = smart_with(formatter);
    let result = format_with(
        &smart,
        "{Name:substr(0,3):{:isnull:It is null}}",
        &null_name(),
    );
    assert_eq!(result, "It is null");
}

#[test]
fn substring_test_with_changed_split_char() {
    let mut formatter = SubStringFormatter::new();
    assert_eq!(formatter.split_char(), ',');
    formatter.set_split_char('|').unwrap();
    let smart = smart_with(formatter);

    assert_eq!(
        format_with(&smart, "{Name:substr(-4|-1)}", &person()),
        "Joh"
    );
    assert_eq!(
        error_in(&smart, "{Name:substr(-4,-1)}", &person()).0,
        "The input string '-4,-1' was not in a correct format."
    );
}

#[test]
fn substring_rejects_an_invalid_split_char() {
    let mut formatter = SubStringFormatter::new();
    assert_eq!(formatter.set_split_char('/'), Err(InvalidSplitChar('/')));
    assert_eq!(formatter.split_char(), ',');
    assert!(formatter.set_split_char('~').is_ok());
}

#[test]
fn auto_detection_declines_wrong_arguments() {
    let mut formatter = SubStringFormatter::new();
    formatter.set_can_auto_detect(true);
    assert!(formatter.can_auto_detect());
    let smart = smart_with(formatter);

    let args = Value::List(vec![Value::Bool(true)]);
    assert_eq!(format_with(&smart, "{0::(0,2)}", &args), "True");
    let args = Value::List(vec![Value::from("ABCDEF")]);
    assert_eq!(format_with(&smart, "{0::(0,2)}", &args), "ABCDEF");
}

#[test]
fn format_without_nesting_should_throw() {
    let template = "{0:substr(0,2):just text}";
    let args = Value::List(vec![Value::from("input")]);
    assert_eq!(
        error_in(&smart(), template, &args),
        (envelope(template, NEEDS_NESTED, 15), 15)
    );
    let template = "{Name:substr(0,3):plain}";
    assert_eq!(
        error_in(&smart(), template, &null_name()).0,
        envelope(template, NEEDS_NESTED, 18)
    );
}

#[test]
fn an_empty_format_writes_the_substring() {
    assert_eq!(format("{Name:substr(0,2):}"), "Lo");
    assert_eq!(
        format_with(&smart(), "{Name:substr(0,2):}", &null_name()),
        ""
    );
}

#[test]
fn substring_using_a_nested_format() {
    assert_eq!(format("{Name:substr(0,2):{}}"), "Lo");
    assert_eq!(format("{Name:substr(0,4):[{}]}"), "[Long]");
    assert_eq!(format("{Name:substr(0,4):{:substr(1,2)}}"), "on");
}

#[test]
fn substring_the_alignment_of_the_placeholder_applies() {
    assert_eq!(format("{Name,15:substr(0,4)}"), "           Long");
    assert_eq!(format("{Name,-15:substr(0,4)}|"), "Long           |");
    assert_eq!(
        format("{Name,10:substr(0,4):[{}]}"),
        "         [      Long         ]"
    );
}

#[test]
fn options_are_parsed_as_dotnet_integers() {
    assert_eq!(format("{Name:substr(+1)}"), "ong John");
    assert_eq!(format("{Name:substr( -4 , 2 )}"), "Jo");
    assert_eq!(format("{Name:substr(\t1\t)}"), "ong John");
    assert_eq!(format("{Name:substr(\n1)}"), "ong John");
    assert_eq!(format("{Name:substr(0000000005)}"), "John");
    assert_eq!(format("{Name:substr(2147483647)}"), "");

    for (template, quoted) in [
        ("{Name:substr( x )}", " x "),
        ("{Name:substr( )}", " "),
        ("{Name:substr(  ,2)}", "  "),
        ("{Name:substr(x,y)}", "x"),
        ("{Name:substr(0,y)}", "y"),
        ("{Name:substr(1 2)}", "1 2"),
        ("{Name:substr(1.0)}", "1.0"),
        ("{Name:substr(0x1)}", "0x1"),
        ("{Name:substr(\u{663})}", "\u{663}"),
        ("{Name:substr(1|2)}", "1|2"),
    ] {
        assert_eq!(
            error_of(template).0,
            std::format!("The input string '{quoted}' was not in a correct format."),
            "{template}"
        );
    }

    for template in [
        "{Name:substr(2147483648)}",
        "{Name:substr(-2147483649)}",
        "{Name:substr(99999999999999999999999999)}",
        "{Name:substr(0,99999999999)}",
    ] {
        assert_eq!(error_of(template).0, INT32_OVERFLOW, "{template}");
    }

    assert_eq!(error_of("{Name:substr(0,-2147483648)}").0, OUT_OF_RANGE);
    assert_eq!(
        error_of("{Name:substr(2147483647,2147483647)}").0,
        OUT_OF_RANGE
    );
}

#[test]
fn errors_are_reported_at_the_placeholder() {
    assert_eq!(error_of("{Name:substr()}").1, 14);
    assert_eq!(error_of("{Name:substr(,)}").1, 15);
    assert_eq!(error_of("{Name:substr(1.0)}").1, 17);
    assert_eq!(error_of("{Name:substr(99999999999)}").1, 25);
    assert_eq!(error_of("{Name:substr(-999)}").1, 18);
}

#[test]
fn a_cut_inside_a_surrogate_pair() {
    let args = Value::Dictionary(Vec::from([(
        "S".to_owned(),
        Value::from("\u{1F600}abc"),
    )]));
    let smart = smart();
    let cut = |template: &str| format_with(&smart, template, &args);

    assert_eq!(cut("{S:substr(0,1)}"), "\u{FFFD}");
    assert_eq!(cut("{S:substr(0,2)}"), "\u{1F600}");
    assert_eq!(cut("{S:substr(1)}"), "\u{FFFD}abc");
    assert_eq!(cut("{S:substr(2)}"), "abc");
    assert_eq!(cut("{S:substr(-3)}"), "abc");
    assert_eq!(cut("{S:substr(1,2)}"), "\u{FFFD}a");
    assert_eq!(cut("{S:substr(0,5)}"), "\u{1F600}abc");
    assert_eq!(cut("{S:substr(0,6)}"), "");
}

#[test]
fn two_halves_of_one_pair_do_not_rejoin() {
    let args = Value::List(vec![Value::from("\u{1F600}")]);
    let smart = smart();
    let cut = |template: &str| format_with(&smart, template, &args);

    assert_eq!(cut("{0:substr(0,1)}{0:substr(1,1)}"), "\u{FFFD}\u{FFFD}");
    assert_eq!(
        cut("{0:substr(0,1):{}}{0:substr(1,1):{}}"),
        "\u{FFFD}\u{FFFD}"
    );
    assert_eq!(cut("{0:substr(1,1)}{0:substr(0,1)}"), "\u{FFFD}\u{FFFD}");
    assert_eq!(cut("{0:substr(0,1)}x{0:substr(1,1)}"), "\u{FFFD}x\u{FFFD}");
}

#[test]
fn a_string_of_wide_characters() {
    let args = Value::Dictionary(Vec::from([("S".to_owned(), Value::from("äöüß"))]));
    let smart = smart();
    assert_eq!(format_with(&smart, "{S:substr(1,2)}", &args), "öü");
    assert_eq!(format_with(&smart, "{S:substr(-1)}", &args), "ß");
    assert_eq!(format_with(&smart, "{S:substr(4)}", &args), "");
}

#[test]
fn utf16_lengths() {
    assert_eq!(utf16_len(""), 0);
    assert_eq!(utf16_len("abc"), 3);
    assert_eq!(utf16_len("äöü"), 3);
    assert_eq!(utf16_len("\u{1F600}"), 2);
    assert_eq!(utf16_slice("abc", 1, 2), "bc");
    assert_eq!(utf16_slice("abc", 3, 0), "");
    assert_eq!(utf16_slice("äbc", 0, 2), "äb");
}

#[test]
fn formatter_without_string_argument_should_throw() {
    let values = [
        Value::Int(12345),
        Value::Bool(true),
        Value::List(vec![Value::Int(1)]),
        Value::Dictionary(Vec::new()),
    ];
    for value in values {
        let shown = format!("{value:?}");
        let args = Value::List(vec![value]);
        assert_eq!(
            error_in(&smart(), "{0:substr(0,2)}", &args).0,
            "Formatter named 'substr' requires at least 1 formatter option and a string? argument.",
            "{shown}"
        );
    }
}

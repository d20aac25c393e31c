use smartformat::extensions::conditional::ConditionalFormatter;
use smartformat::decimal::{Decimal, parse_decimal};
use std::cmp::Ordering;

const DECIMAL_OVERFLOW: &str = "Value was either too large or too small for a Decimal.";
const INDEX_OUT_OF_RANGE: &str = "Specified argument was out of the range of valid values. (Parameter 'index')";
use smartformat::formatter::DefaultFormatter;
use smartformat::extensions::InvalidSplitChar;
use smartformat::{AnyFormatter, CaseSensitivity, Error, ErrorAction, FormatterRegistry, SmartFormatter, SmartSettings, Value};

fn smart_with(formatter: ConditionalFormatter) -> SmartFormatter {
    smart_with_settings(
        formatter,
        SmartSettings {
            format_error_action: ErrorAction::Error,
            ..SmartSettings::default()
        },
    )
}

fn smart_with_settings(
    formatter: ConditionalFormatter,
    settings: SmartSettings,
) -> SmartFormatter {
    let mut smart = SmartFormatter::new(settings);
    let formatters = smart.formatters_mut();
    *formatters = FormatterRegistry::empty();
    formatters.push(AnyFormatter::Conditional(formatter));
    formatters.push(AnyFormatter::Default(DefaultFormatter));
    smart
}

fn smart() -> SmartFormatter {
    smart_with(ConditionalFormatter::new())
}

fn args(values: impl IntoIterator<Item = Value>) -> Value {
    Value::List(values.into_iter().collect())
}

fn format(template: &str, value: Value) -> String {
    format_all(template, args([value]))
}

fn format_all(template: &str, args: Value) -> String {
    smart()
        .format(template, &args)
        .unwrap_or_else(|error| panic!("{template:?} failed: {error:?}"))
}

fn error_of(template: &str, value: Value) -> (String, usize) {
    match smart().format(template, &args([value])) {
        Err(Error::Format { message, position }) => (message, position),
        other => panic!("{template:?}: expected a formatting error, got {other:?}"),
    }
}

#[test]
fn conditional_name_and_defaults_match_dotnet() {
    let formatter = ConditionalFormatter::new();
    assert_eq!(formatter.name(), "cond");
    assert!(formatter.can_auto_detect());
    assert_eq!(formatter.split_char(), '|');
    assert_eq!(ConditionalFormatter::new().with_name("c").name(), "c");
}

#[test]
fn is_not_named_conditional() {
    let error = smart().format("{0:conditional:a|b}", &args([Value::Int(1)]));
    assert!(
        matches!(&error, Err(Error::Format { message, .. })
            if message.contains("No suitable Formatter could be found")),
        "{error:?}"
    );
}

#[test]
fn test_numbers() {
    let numbers = || {
        [
            Value::Int(0),
            Value::Int(1),
            Value::Int(2),
            Value::Int(3),
            Value::Int(-1),
            Value::Int(-2),
        ]
    };
    let template = |parts: &str| {
        (0..6)
            .map(|index| format!("{{{index}:cond:{parts}}}"))
            .collect::<Vec<_>>()
            .join(" ")
    };

    assert_eq!(
        format_all(&template("Zero|Other"), args(numbers())),
        "Zero Other Other Other Other Other"
    );
    assert_eq!(
        format_all(&template("Zero|One|Other"), args(numbers())),
        "Zero One Other Other Other Other"
    );
    assert_eq!(
        format_all(&template("Zero|One|Two|Other"), args(numbers())),
        "Zero One Two Other Other Other"
    );
}

#[test]
fn test_bool() {
    assert_eq!(format("{0:cond:Yes|No}", Value::Bool(false)), "No");
    assert_eq!(format("{0:cond:Yes|No}", Value::Bool(true)), "Yes");
    assert_eq!(format("{0:cond:a|b|c}", Value::Bool(true)), "a");
    assert_eq!(format("{0:cond:a|b|c}", Value::Bool(false)), "b");
}

#[test]
fn conditional_test_with_changed_split_char() {
    let mut formatter = ConditionalFormatter::new();
    formatter.set_split_char('~').unwrap();
    let smart = smart_with(formatter);

    let template = "{0:cond:|Yes|~|No|}";
    let rendered = |value: i64| {
        smart
            .format(template, &args([Value::Int(value)]))
            .expect("formatting failed")
    };
    assert_eq!(rendered(0), "|Yes|");
    assert_eq!(rendered(1), "|No|");

    assert_eq!(
        ConditionalFormatter::new().set_split_char('!'),
        Err(InvalidSplitChar('!'))
    );
    assert_eq!(
        InvalidSplitChar('!').to_text(),
        "Only '|', ',' and '~' are valid split chars."
    );
}

#[test]
fn explicit_formatter_with_not_enough_parameters_is_an_error() {
    assert_eq!(
        error_of("{0:cond:Yes}", Value::Int(1)),
        (
            "Formatter named 'cond' requires at least 2 format parameters.".to_owned(),
            8
        )
    );
    assert_eq!(
        error_of("{0:cond:}", Value::Int(1)).0,
        "Formatter named 'cond' requires at least 2 format parameters."
    );
}

#[test]
fn test_strings() {
    assert_eq!(format("{0:cond:{}|Empty}", Value::from("Hello")), "Hello");
    assert_eq!(format("{0:cond:{}|Empty}", Value::from("")), "Empty");
    assert_eq!(format("{0:cond:{}|Null}", Value::Null), "Null");
    assert_eq!(format("{0:cond:a|b|c}", Value::from("x")), "a");
    assert_eq!(format("{0:cond:a|b|c}", Value::from("")), "b");
    assert_eq!(format("{0:cond:a|b|c}", Value::Null), "b");
}

#[test]
fn test_object() {
    let map = Value::Dictionary(Vec::from([("NotNull".to_owned(), Value::Bool(true))]));
    assert_eq!(format("{0:cond:Something|Null}", map), "Something");
    assert_eq!(
        format("{0:cond:Something|Null}", Value::List(vec![Value::Int(1)])),
        "Something"
    );
    assert_eq!(format("{0:cond:Something|Null}", Value::Null), "Null");
}

#[test]
fn comparers_and_connectors() {
    assert_eq!(format("{0:cond:>5?a|b}", Value::Int(6)), "a");
    assert_eq!(format("{0:cond:>=6?a|b}", Value::Int(6)), "a");
    assert_eq!(format("{0:cond:<6?a|b}", Value::Int(6)), "b");
    assert_eq!(format("{0:cond:<=6?a|b}", Value::Int(6)), "a");
    assert_eq!(format("{0:cond:=6?a|b}", Value::Int(6)), "a");
    assert_eq!(format("{0:cond:==6?a|b}", Value::Int(6)), "a");
    assert_eq!(format("{0:cond:!5?a|b}", Value::Int(6)), "a");
    assert_eq!(format("{0:cond:!=5?a|b}", Value::Int(5)), "b");
    assert_eq!(format("{0:cond:>=1&<4?a|b}", Value::Int(2)), "a");
    assert_eq!(format("{0:cond:=10/=11/=12?a|b}", Value::Int(11)), "a");
    assert_eq!(format("{0:cond:<20/<=24&<25?a|b}", Value::Int(22)), "a");
    assert_eq!(format("{0:cond:>1<5?a|b}", Value::Int(2)), "a");
    assert_eq!(format("{0:cond:>1<5?a|b}", Value::Int(6)), "b");
    assert_eq!(format("{0:cond:>0?a?b|c}", Value::Int(1)), "a?b");
}

#[test]
fn text_that_is_not_a_condition() {
    assert_eq!(format("{0:cond:> 5?a|b}", Value::Int(6)), "b");
    assert_eq!(format("{0:cond:>5 ?a|b}", Value::Int(6)), "b");
    assert_eq!(format("{0:cond:>+5?a|b}", Value::Int(6)), "b");
    assert_eq!(format("{0:cond:>?a|b}", Value::Int(6)), "b");
    assert_eq!(format("{0:cond:-5?a|b}", Value::Int(-5)), "b");
    assert_eq!(format("{0:cond:else|>10?big}", Value::Int(15)), ">10?big");
    assert_eq!(format("{0:cond:|>10?a|b}", Value::Int(15)), "b");
}

#[test]
fn else_branch() {
    assert_eq!(format("{0:cond:>10?big|else}", Value::Int(0)), "else");
    assert_eq!(
        format("{0:cond:>10?a|else|>20?b}", Value::Int(5)),
        "else",
        "the else branch wins before a later condition is looked at"
    );
    assert_eq!(format("{0:cond:>10?a|else|>20?b}", Value::Int(15)), "a");
}

#[test]
fn every_condition_false_is_an_error() {
    assert_eq!(
        error_of("{0:cond:>10?big|>20?huge}", Value::Int(0)),
        (INDEX_OUT_OF_RANGE.to_owned(), 8)
    );
}

#[test]
fn conditions_need_a_number() {
    assert_eq!(format("{0:cond:>10?a|b|c}", Value::from("text")), ">10?a");
    assert_eq!(format("{0:cond:>10?a|b}", Value::Bool(true)), ">10?a");
}

#[test]
fn unparsable_condition_values_are_errors() {
    assert_eq!(
        error_of("{0:cond:>5.5.5?a|b}", Value::Int(6)),
        (
            "The input string '5.5.5' was not in a correct format.".to_owned(),
            8
        )
    );
    assert_eq!(
        error_of("{0:cond:>-?a|b}", Value::Int(6)).0,
        "The input string '-' was not in a correct format."
    );
    assert_eq!(
        error_of("{0:cond:>.?a|b}", Value::Int(6)).0,
        "The input string '.' was not in a correct format."
    );
    assert_eq!(
        error_of("{0:cond:>5-5?a|b}", Value::Int(6)).0,
        "The input string '5-5' was not in a correct format."
    );
    assert_eq!(
        error_of(
            "{0:cond:>99999999999999999999999999999999?a|b}",
            Value::Int(6)
        )
        .0,
        DECIMAL_OVERFLOW
    );
}

#[test]
fn syntax_is_not_confused_with_named_formatters() {
    assert_eq!(format("{0:part(s)|car}", Value::Bool(true)), "part(s)");
    assert_eq!(format("{0:part(s)|car}", Value::Bool(false)), "car");
}

#[test]
fn auto_detection_declines_a_single_part() {
    assert_eq!(format("{0:Yes}", Value::from("text")), "text");

    let mut formatter = ConditionalFormatter::new();
    formatter.set_can_auto_detect(false);
    let smart = smart_with(formatter);
    assert_eq!(
        smart
            .format("{0:part(s)|car}", &args([Value::from("text")]))
            .unwrap(),
        "text",
        "with auto detection off even a two-part format is declined"
    );
}

#[test]
fn nested_placeholders() {
    let args = Value::List(vec![Value::Int(1), Value::from("N")]);
    assert_eq!(format_all("{0:cond:{1}|c}", args.clone()), "c");
    assert_eq!(format_all("{0:cond:>0?[{}]|c}", args), "[1]");
}

#[test]
fn an_escaped_split_character_still_splits() {
    assert_eq!(format(r"{0:cond:a\|b|c}", Value::Int(0)), r"a\");
}

fn decimal_of(text: &str) -> Decimal {
    parse_decimal(text).unwrap_or_else(|error| panic!("{text:?} failed: {error:?}"))
}

fn equals(left: &str, right: &str) -> bool {
    decimal_of(left).cmp_value(&decimal_of(right)) == Ordering::Equal
}

#[test]
fn decimal_parsing() {
    assert_eq!(
        decimal_of("5").cmp_value(&Decimal::from_i128(5)),
        Ordering::Equal
    );
    assert!(equals("5.", "5"));
    assert!(equals("5.-", "-5"));
    assert!(equals("-0", "0"));
    assert!(equals("00000000000000000000000000000005", "5"));
    assert!(equals(".5", "0.50"));
    assert!(equals("0.3", "0.30000"));
    assert_eq!(
        decimal_of("-1").cmp_value(&decimal_of("-2")),
        Ordering::Greater
    );
    assert_eq!(decimal_of("-1").cmp_value(&decimal_of("1")), Ordering::Less);
    assert!(parse_decimal("79228162514264337593543950335").is_ok());
    assert_eq!(
        parse_decimal("79228162514264337593543950336"),
        Err(DECIMAL_OVERFLOW.to_owned())
    );
    assert!(equals(
        "1.00000000000000000000000000005",
        "1.0000000000000000000000000000"
    ));
    assert!(equals(
        "1.00000000000000000000000000015",
        "1.0000000000000000000000000002"
    ));
    assert!(equals(
        "1.00000000000000000000000000006",
        "1.0000000000000000000000000001"
    ));

    for invalid in ["", "-", "--", ".", "-.", "1.2.3", "-5-", "5-5"] {
        assert!(
            parse_decimal(invalid)
                .is_err_and(|error| error.contains("was not in a correct format")),
            "{invalid:?} should not parse"
        );
    }
}

#[test]
fn decimal_floor() {
    assert_eq!(decimal_of("2.9").floor(), 2);
    assert_eq!(decimal_of("2").floor(), 2);
    assert_eq!(decimal_of("-2.9").floor(), -3);
    assert_eq!(decimal_of("-2.0").floor(), -2);
    assert_eq!(decimal_of("0.9").floor(), 0);
}

const NANOS_PER_HOUR: i128 = 3_600_000_000_000;

fn format_span(template: &str, nanos: i128) -> String {
    format(template, Value::TimeSpan(nanos))
}

#[test]
fn negative_zero_future() {
    let negative = -NANOS_PER_HOUR;
    let positive = NANOS_PER_HOUR;
    let zero = 0;

    assert_eq!(format_span("{0:cond:Neg|Pos}", negative), "Neg");
    assert_eq!(format_span("{0:cond:Neg|Pos}", zero), "Neg");
    assert_eq!(format_span("{0:cond:Neg|Pos}", positive), "Pos");
    assert_eq!(format_span("{0:cond:Neg|Zero|Pos}", negative), "Neg");
    assert_eq!(format_span("{0:cond:Neg|Zero|Pos}", zero), "Zero");
    assert_eq!(format_span("{0:cond:Neg|Zero|Pos}", positive), "Pos");
    assert_eq!(format_span("{0:cond:Neg|Zero|Pos}", 1), "Pos");
    assert_eq!(format_span("{0:cond:A|B|C|D}", zero), "A");
    assert_eq!(format_span("{0:cond:A|B|C|D}", positive), "D");
}

#[test]
fn a_time_span_takes_no_condition() {
    assert_eq!(format_span("{0:cond:>0?a|b}", -NANOS_PER_HOUR), ">0?a");
}

#[test]
fn test_complex_condition() {
    const TEMPLATE: &str = "{0:cond:<1?Baby|>=1&<4?Toddler|>=4&<=9?Child|=10/=11/=12?Pre-Teen|<18?Teenager|<20?Young Adult|<20/<=24&<25?Early Twenties|>55&<100?Senior Citizen|>100?Crazy Old|Adult}";
    let cases = [
        (Value::Int(-5), "Baby"),
        (Value::Int(0), "Baby"),
        (Value::Int(1), "Toddler"),
        (Value::Int(5), "Child"),
        (Value::Int(11), "Pre-Teen"),
        (Value::Int(14), "Teenager"),
        (Value::Int(18), "Young Adult"),
        (Value::Int(22), "Early Twenties"),
        (Value::Int(45), "Adult"),
        (Value::Int(60), "Senior Citizen"),
        (Value::Int(101), "Crazy Old"),
    ];
    for (value, expected) in cases {
        let shown = format!("{value:?}");
        assert_eq!(format(TEMPLATE, value), expected, "{shown}");
    }
}

#[test]
fn test_positive_negative_zero() {
    const TEMPLATE: &str = "{0:cond:>0?Positive|<0?Negative|=0?Zero}";
    assert_eq!(format(TEMPLATE, Value::Int(0)), "Zero");
    assert_eq!(format(TEMPLATE, Value::Int(1)), "Positive");
    assert_eq!(format(TEMPLATE, Value::UInt(2)), "Positive");
    assert_eq!(format(TEMPLATE, Value::Int(-5)), "Negative");
}

#[test]
fn condition_values_are_parsed_as_dotnet_decimals() {
    assert_eq!(format("{0:cond:>5.?a|b}", Value::Int(6)), "a");
    assert_eq!(format("{0:cond:>5.-?a|b}", Value::Int(-1)), "a");
    assert_eq!(format("{0:cond:>-5?a|b}", Value::Int(-1)), "a");
    assert_eq!(format("{0:cond:=1.0?a|b}", Value::Int(1)), "a");
    assert_eq!(format("{0:cond:>1.00000000000000000000000000005?a|b}", Value::Int(1)), "b");
}

#[test]
fn signed_and_unsigned_numbers() {
    for value in [Value::Int(123), Value::UInt(123)] {
        let shown = format!("{value:?}");
        assert_eq!(format("{0:cond:=123?yes|no}", value), "yes", "{shown}");
    }
}

#[test]
fn values_a_decimal_or_an_int_cannot_hold_are_errors() {
    const INT32_OVERFLOW: &str = "Value was either too large or too small for an Int32.";
    assert_eq!(error_of("{0:cond:a|b}", Value::Int(3_000_000_000)), (INT32_OVERFLOW.to_owned(), 8));
    assert_eq!(error_of("{0:cond:a|b}", Value::UInt(u64::MAX)).0, INT32_OVERFLOW);
    assert_eq!(format("{0:cond:a|b}", Value::Int(-3_000_000_000)), "b");
    assert_eq!(format("{0:cond:>1?a|b}", Value::Int(3_000_000_000)), "a");
    assert_eq!(format("{0:cond:a|b}", Value::Int(i64::from(i32::MAX))), "b");
    assert_eq!(
        error_of("{0:cond:>10?big|>20?huge}", Value::Int(0)),
        (INDEX_OUT_OF_RANGE.to_owned(), 8)
    );
}

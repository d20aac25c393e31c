use smartformat::extensions::list::ListFormatter;
use smartformat::extensions::conditional::ConditionalFormatter;
use smartformat::formatter::DefaultFormatter;
use smartformat::extensions::InvalidSplitChar;
use smartformat::{AnyFormatter, CaseSensitivity, Error, ErrorAction, FormatterRegistry, SmartFormatter, SmartSettings, Value};

fn envelope(template: &str, issue: &str, index: usize) -> String {
    std::format!(
        "Error parsing format string: {issue} at {index}\n{template}\n{}^",
        "-".repeat(index)
    )
}

fn smart_with(settings: SmartSettings, formatter: ListFormatter) -> SmartFormatter {
    let mut smart = SmartFormatter::new(settings);
    let formatters = smart.formatters_mut();
    *formatters = FormatterRegistry::empty();
    formatters.push(AnyFormatter::List(formatter));
    formatters.push(AnyFormatter::Default(DefaultFormatter));
    smart
}

fn smart() -> SmartFormatter {
    smart_with(throwing(), ListFormatter::new())
}

fn throwing() -> SmartSettings {
    SmartSettings {
        format_error_action: ErrorAction::Error,
        ..SmartSettings::default()
    }
}

fn list(values: impl IntoIterator<Item = Value>) -> Value {
    Value::List(values.into_iter().collect())
}

fn strings(values: impl IntoIterator<Item = &'static str>) -> Value {
    list(values.into_iter().map(Value::from))
}

fn map(entries: impl IntoIterator<Item = (&'static str, Value)>) -> Value {
    Value::Dictionary(
        entries
            .into_iter()
            .map(|(key, value)| (key.to_owned(), value))
            .collect::<Vec<_>>(),
    )
}

fn args() -> Value {
    let person = |name: &str, friends: &[&str]| {
        map([
            ("FirstName", Value::from(name)),
            (
                "Friends",
                list(
                    friends
                        .iter()
                        .map(|friend| map([("FirstName", Value::from(*friend))])),
                ),
            ),
        ])
    };

    list([
        strings(["A", "B", "C", "D", "E"]),
        strings(["One", "Two", "Three", "Four", "Five"]),
        list([
            person("Jim", &["Dwight", "Michael"]),
            person("Pam", &["Dwight", "Michael"]),
            person("Dwight", &["Michael"]),
        ]),
        strings(["1/1/2000", "10/10/2010", "5/5/5555"]),
        list((1..=5).map(Value::Int)),
    ])
}

fn format(template: &str) -> String {
    smart()
        .format(template, &args())
        .unwrap_or_else(|error| panic!("{template:?} failed: {error:?}"))
}

fn error_of(smart: &SmartFormatter, template: &str, args: &Value) -> String {
    match smart.format(template, args) {
        Err(Error::Format { message, .. }) => message,
        other => panic!("{template:?}: expected a formatting error, got {other:?}"),
    }
}

const NOT_A_LIST: &str =
    "Formatter named 'list' requires an IEnumerable argument and at least 2 format parameters.";

#[test]
fn list_name_and_defaults_match_dotnet() {
    let formatter = ListFormatter::new();
    assert_eq!(formatter.name(), "list");
    assert!(formatter.can_auto_detect());
    assert_eq!(formatter.split_char(), '|');
    assert_eq!(ListFormatter::new().with_name("l").name(), "l");
}

#[test]
fn list_rejects_an_invalid_split_char() {
    let mut formatter = ListFormatter::new();
    assert_eq!(formatter.set_split_char('/'), Err(InvalidSplitChar('/')));
    assert_eq!(formatter.split_char(), '|');
    assert!(formatter.set_split_char('~').is_ok());
    assert_eq!(formatter.split_char(), '~');
}

#[test]
fn simple_list() {
    let args = list([strings(["one", "two", "three"])]);
    let result = smart().format("{0:list:{}|, |, and }", &args).unwrap();
    assert_eq!(result, "one, two, and three");
}

#[test]
fn a_changed_split_char_frees_the_pipe() {
    let mut formatter = ListFormatter::new();
    formatter.set_split_char('~').unwrap();
    let smart = smart_with(throwing(), formatter);
    let args = list([strings(["one", "two", "three"])]);
    let result = smart.format("{0:list:{}~|~|}", &args).unwrap();
    assert_eq!(result, "one|two|three");
}

#[test]
fn an_empty_list_writes_nothing() {
    let args = list([Value::List(Vec::new())]);
    let result = smart().format(">{0:list:{}|, |, and }<", &args).unwrap();
    assert_eq!(result, "><");
}

#[test]
fn a_null_list_is_empty_under_the_nullable_operator() {
    let data = map([("TheList", Value::Null)]);
    let result = smart()
        .format("{TheList?:list:{}|, |, and }", &data)
        .unwrap();
    assert_eq!(result, "");
}

#[test]
fn a_null_list_without_the_nullable_operator_is_an_error() {
    let data = map([("TheList", Value::Null)]);
    assert_eq!(
        error_of(&smart(), "{TheList:list:{}|, |, and }", &data),
        NOT_A_LIST
    );
}

#[test]
fn the_item_format_may_be_a_specifier() {
    assert_eq!(format("{4:list:|}"), "12345");
    assert_eq!(format("{4:list:D2|}"), "0102030405");
    assert_eq!(format("{4:list:|,}"), "1,2,3,4,5");
    assert_eq!(format("{4:list:|, |, and }"), "1, 2, 3, 4, and 5");
    assert_eq!(
        format("{4:list:N2|, |, and }"),
        "1.00, 2.00, 3.00, 4.00, and 5.00"
    );
    assert!(matches!(
        smart().format("{4:list:00|}", &args()),
        Err(Error::UnsupportedSpec { .. })
    ));
}

#[test]
fn the_item_format_may_hold_placeholders() {
    assert_eq!(format("{0:list:{}-|}"), "A-B-C-D-E-");
    assert_eq!(format("{0:list:{}|-}"), "A-B-C-D-E");
    assert_eq!(format("{0:list:{}|-|+}"), "A-B-C-D+E");
    assert_eq!(
        format("{0:list:({})|, |, and }"),
        "(A), (B), (C), (D), and (E)"
    );
}

#[test]
fn the_spacers_depend_on_the_number_of_parts_and_of_items() {
    let three = list([strings(["a", "b", "c"])]);
    let two = list([strings(["a", "b"])]);
    let one = list([strings(["a"])]);
    let smart = smart();
    let format = |template: &str, args: &Value| smart.format(template, args).unwrap();

    assert_eq!(format("{0:list:{}|, }", &three), "a, b, c");
    assert_eq!(format("{0:list:{}|, }", &two), "a, b");
    assert_eq!(format("{0:list:{}|, |, and }", &three), "a, b, and c");
    assert_eq!(format("{0:list:{}|, |, and }", &two), "a, and b");
    assert_eq!(format("{0:list:{}|, |, and | & }", &three), "a, b, and c");
    assert_eq!(format("{0:list:{}|, |, and | & }", &two), "a & b");
    assert_eq!(format("{0:list:{}|, |, and | & }", &one), "a");
    assert_eq!(format("{0:list:{}|1|2|3|4}", &three), "a1b2c");
}

#[test]
fn a_spacer_is_formatted_against_the_data_of_the_call() {
    let data = map([
        ("Names", strings(["John", "Mary", "Amy"])),
        ("Split", Value::from(", ")),
        ("IsAnd", Value::Bool(true)),
    ]);

    let mut smart = smart();
    smart
        .formatters_mut()
        .insert(1, AnyFormatter::Conditional(ConditionalFormatter::new()));
    let result = smart
        .format("{Names:list:{}|{Split}| {IsAnd:and|nor} }", &data)
        .unwrap();
    assert_eq!(result, "John, Mary and Amy");

    let args = list([
        strings(["John", "Mary", "Amy"]),
        Value::from(", "),
        Value::from("and"),
    ]);
    assert_eq!(
        smart.format("{0:list:{}|{1}| {2} }", &args).unwrap(),
        "John, Mary and Amy"
    );
}

#[test]
fn an_item_format_falls_back_to_the_enclosing_scopes() {
    let data = map([
        ("Names", strings(["John", "Mary"])),
        ("Split", Value::from("+")),
    ]);
    let result = smart().format("{Names:list:{}{Split}|, }", &data).unwrap();
    assert_eq!(result, "John+, Mary+");
}

#[test]
fn nested_lists() {
    assert_eq!(format("{2:list:{:{FirstName}}|, }"), "Jim, Pam, Dwight");
    assert_eq!(
        format("{2:list:{:{FirstName}'s friends: {Friends:list:{FirstName}|, }}|; }"),
        "Jim's friends: Dwight, Michael; Pam's friends: Dwight, Michael; Dwight's friends: Michael"
    );
}

#[test]
fn a_list_of_lists_with_an_element_format() {
    let data = list([list([
        list((1..=3).map(Value::Int)),
        list((4..=6).map(Value::Int)),
        list((7..=9).map(Value::Int)),
    ])]);
    let result = smart()
        .format("{0:list:{:list:{:D3}|, |, }|\n|\n}", &data)
        .unwrap();
    assert_eq!(result, "001, 002, 003\n004, 005, 006\n007, 008, 009");
}

#[test]
fn index_is_the_index_of_the_item() {
    assert_eq!(
        format("{0:list:{} = {Index}|, }"),
        "A = 0, B = 1, C = 2, D = 3, E = 4"
    );
}

#[test]
fn index_is_the_index_of_the_innermost_list() {
    let data = list([list([strings(["O", "n", "e"]), strings(["T", "w", "o"])])]);
    let result = smart()
        .format("{0:list:{Index}: {:list:{} = {Index}|, }|; }", &data)
        .unwrap();
    assert_eq!(result, "0: O = 0, n = 1, e = 2; 1: T = 0, w = 1, o = 2");
}

#[test]
fn index_synchronizes_two_lists() {
    assert_eq!(
        format("{0:list:{} = {1.Index}|, }"),
        "A = One, B = Two, C = Three, D = Four, E = Five"
    );
    assert_eq!(
        format("{0:list:{} = {1[Index]}|, }"),
        "A = One, B = Two, C = Three, D = Four, E = Five"
    );
    assert_eq!(
        format("{0:list:{} = {1.INDEX}|, }"),
        "A = One, B = Two, C = Three, D = Four, E = Five"
    );
}

#[test]
fn a_second_list_too_short_to_synchronize_falls_back_to_the_scopes() {
    let args = list([list((1..=3).map(Value::Int)), strings(["x"])]);
    let result = smart().format("{0:list:{}={1.Index}|, }", &args).unwrap();
    assert_eq!(result, "1=x, 2=2, 3=3");
}

#[test]
fn index_outside_a_list_is_minus_one() {
    assert_eq!(format("{Index}"), "-1");
    let smart = smart();
    assert_eq!(
        smart.format("{Index}", &Value::from("hello")).unwrap(),
        "-1"
    );
    assert_eq!(
        smart
            .format("{Index}", &map([("a", Value::Int(1))]))
            .unwrap(),
        "-1"
    );
    assert_eq!(
        error_of(&smart, "{Index}", &list([Value::Int(5)])),
        envelope(
            "{Index}",
            "No source extension could handle the selector named \"Index\"",
            1
        )
    );
    assert_eq!(
        error_of(&smart, "{0.Index}", &list([strings(["a"])])),
        envelope(
            "{0.Index}",
            "No source extension could handle the selector named \"Index\"",
            3
        )
    );
}

#[test]
fn index_is_restored_after_a_nested_list() {
    let args = list([list((1..=3).map(Value::Int)), strings(["x", "y"])]);
    let result = smart()
        .format("{0:list:[{Index}:{1:list:{}|,}:{Index}]|;}", &args)
        .unwrap();
    assert_eq!(result, "[0:x,y:0];[1:x,y:1];[2:x,y:2]");
}

#[test]
fn index_is_minus_one_again_after_the_list() {
    let args = list([strings(["a", "b"])]);
    let result = smart().format("{0:list:{}|,}[{Index}]", &args).unwrap();
    assert_eq!(result, "a,b[-1]");
}

#[test]
fn a_numeric_selector_indexes_a_list() {
    let data = map([("Numbers", strings(["dummy", "one"]))]);
    let smart = smart();
    assert_eq!(smart.format(">{Numbers.1}<", &data).unwrap(), ">one<");
    assert_eq!(smart.format(">{Numbers[1]}<", &data).unwrap(), ">one<");

    let data = map([("Numbers", list([Value::from("dummy"), Value::Null]))]);
    assert_eq!(smart.format(">{Numbers.1}<", &data).unwrap(), "><");
    assert_eq!(smart.format(">{Numbers[1]}<", &data).unwrap(), "><");
}

#[test]
fn a_null_list_indexed_under_the_nullable_operator_is_empty() {
    let data = map([("Numbers", Value::Null)]);
    let smart = smart();
    assert_eq!(smart.format(">{Numbers?.0}<", &data).unwrap(), "><");
    assert_eq!(smart.format(">{Numbers?[0]}<", &data).unwrap(), "><");
}

#[test]
fn a_null_list_indexed_without_it_is_an_error() {
    let data = map([("Numbers", Value::Null)]);
    let smart = smart();
    for template in [">{Numbers.0}<", ">{Numbers[0]}<"] {
        assert!(
            error_of(&smart, template, &data).contains("the selector named \"0\""),
            "{template}"
        );
    }
}

#[test]
fn a_value_that_is_no_list_is_an_error_when_the_formatter_is_named() {
    let smart = smart();
    for args in [
        list([Value::from("not a list")]),
        list([Value::Int(42)]),
        list([map([("a", Value::Int(1))])]),
    ] {
        assert_eq!(error_of(&smart, "{0:list:{}|, |, and }", &args), NOT_A_LIST);
    }
    assert_eq!(
        error_of(&smart, "{0:list:{}}", &list([strings(["a"])])),
        NOT_A_LIST
    );
}

#[test]
fn a_value_that_is_no_list_is_declined_when_it_is_not() {
    let smart = smart();
    assert_eq!(
        smart
            .format("{0:one|many}", &list([Value::from("x")]))
            .unwrap(),
        "x"
    );
    assert_eq!(
        smart.format("{0:one}", &list([Value::from("x")])).unwrap(),
        "x"
    );
}

#[test]
fn a_list_is_auto_detected() {
    let args = list([strings(["a", "b", "c"])]);
    let smart = smart();
    assert_eq!(smart.format("{0:one|many}", &args).unwrap(), "amanybmanyc");
    assert_eq!(
        smart.format("{0:one|many|last}", &args).unwrap(),
        "amanyblastc"
    );
    assert_eq!(smart.format("{0:{}|many}", &args).unwrap(), "amanybmanyc");

    let mut formatter = ListFormatter::new();
    formatter.set_can_auto_detect(false);
    assert!(!formatter.can_auto_detect());
    let smart = smart_with(throwing(), formatter);
    assert!(smart.format("{0:one|many}", &args).is_err());
}

#[test]
fn the_index_selector_is_recognized_without_a_formatter_name() {
    let items = list([
        map([("Content", Value::from("Content A"))]),
        map([("Content", Value::from("Content B"))]),
    ]);
    let result = smart()
        .format("{0:{Content} with Index {Index}|, }", &list([items]))
        .unwrap();
    assert_eq!(result, "Content A with Index 0, Content B with Index 1");
}

#[test]
fn the_alignment_applies_to_the_items_and_not_to_the_spacers() {
    let args = list([strings(["a", "b", "c"])]);
    let smart = smart();
    assert_eq!(
        smart.format(">{0,5:list:{}|-}<", &args).unwrap(),
        ">    a-    b-    c<"
    );
    assert_eq!(
        smart.format(">{0,-3:list:{}|-}<", &args).unwrap(),
        ">a  -b  -c  <"
    );
    let numbers = list([list([Value::Int(1), Value::Int(2)])]);
    assert_eq!(
        smart.format(">{0,5:list:N2|, }<", &numbers).unwrap(),
        "> 1.00,  2.00<"
    );
    let args = list([strings(["a", "b"]), Value::from("+")]);
    assert_eq!(
        smart.format(">{0,5:list:{}|{1}}<", &args).unwrap(),
        ">    a    +    b<"
    );
}

#[test]
fn a_spacer_whose_escape_sequence_does_not_resolve_fails_where_it_is_written() {
    let args = list([strings(["a", "b", "c"])]);
    assert_eq!(
        error_of(&smart(), r">{0:list:{}|a\qb}<", &args),
        "Unrecognized escape sequence \"\\q\" in literal."
    );
    let smart = smart_with(
        SmartSettings {
            format_error_action: ErrorAction::OutputErrorInResult,
            ..SmartSettings::default()
        },
        ListFormatter::new(),
    );
    assert_eq!(
        smart.format(r">{0:list:{}|a\qb}<", &args).unwrap(),
        ">aUnrecognized escape sequence \"\\q\" in literal.<"
    );
}

#[test]
fn an_escape_sequence_in_a_spacer_is_resolved() {
    let args = list([strings(["a", "b"])]);
    assert_eq!(smart().format(r"{0:list:{}|\n}", &args).unwrap(), "a\nb");
}

#[test]
fn default_formatting_of_a_list_is_still_an_error() {
    assert!(smart().format("{4:list}", &args()).is_err());
}

#[test]
fn the_search_for_the_separators_stops_after_the_fourth() {
    let args = list([strings(["a", "b", "c"])]);
    let smart = smart();
    assert_eq!(smart.format(r"{0:list:{}|-|+|*|x\u12}", &args).unwrap(), "a-b+c");
    assert_eq!(smart.format(r"{0:list:{}|-|+|x\u12|z}", &args).unwrap(), "a-b+c");
    let message = error_of(&smart, r"{0:list:{}|x\u12}", &args);
    assert!(!message.is_empty());
}

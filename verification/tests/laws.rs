use smartformat::extensions::substring::start_and_length;
use smartformat::extensions::template::RegisterError;
use smartformat::parsing::{FormatItem, Parser};
use smartformat::settings::ParserSettings;
use smartformat::decimal::parse_decimal;
use smartformat::extensions::choice::{choose_part, ChoiceError};
use smartformat::extensions::conditional::plain_index;
use smartformat::extensions::list::spacer_part;
use smartformat::extensions::null::null_pick;
use smartformat::extensions::substring::{cut, parse_int, CutError, IntError, SubStringOutOfRangeBehavior};
use smartformat::extensions::template::TemplateFormatter;
use smartformat::extensions::time::options::TimeSpanFormatOptions as O;
use smartformat::formatter::apply_error_action;
use smartformat::text::{split_chars, trim};
use smartformat::{CaseSensitivity, Error, ErrorAction, SmartFormatter, SmartSettings, Value};
use std::cmp::Ordering;

fn chars(s: &str) -> Vec<char> {
    s.chars().collect()
}

fn args(values: Vec<Value>) -> Value {
    Value::List(values)
}

#[test]
fn plain_text_renders_as_itself() {
    let smart = SmartFormatter::default();
    for text in ["", "hello world", "äöü 😀 tab\tnew\nline", "a:b,c|d"] {
        assert_eq!(smart.format(text, &Value::Null).unwrap(), text);
    }
}

#[test]
fn the_error_action_decides_what_a_failure_writes() {
    let raw = chars("{x}");
    let mut out = chars("a");
    let e = apply_error_action(ErrorAction::Error, "boom".to_owned(), 3, &raw, &mut out);
    assert!(matches!(e, Err(Error::Format { ref message, position: 3 }) if message == "boom"));
    assert_eq!(out, chars("a"));
    assert!(apply_error_action(ErrorAction::Ignore, "boom".to_owned(), 3, &raw, &mut out).is_ok());
    assert_eq!(out, chars("a"));
    assert!(apply_error_action(ErrorAction::MaintainTokens, "boom".to_owned(), 3, &raw, &mut out).is_ok());
    assert_eq!(out, chars("a{x}"));
    assert!(apply_error_action(ErrorAction::OutputErrorInResult, "boom".to_owned(), 3, &raw, &mut out).is_ok());
    assert_eq!(out, chars("a{x}boom"));
}

#[test]
fn every_error_action_through_a_format_call() {
    let template = "a{missing}b";
    let value = Value::map(vec![("x".to_owned(), Value::Int(1))]);
    let with = |action| {
        SmartFormatter::new(SmartSettings { format_error_action: action, ..SmartSettings::default() })
            .format(template, &value)
    };
    assert!(matches!(with(ErrorAction::Error), Err(Error::Format { .. })));
    assert_eq!(with(ErrorAction::Ignore).unwrap(), "ab");
    assert_eq!(with(ErrorAction::MaintainTokens).unwrap(), "a{missing}b");
    let written = with(ErrorAction::OutputErrorInResult).unwrap();
    assert!(written.starts_with("aError parsing format string: No source extension could handle the selector named \"missing\" at 2"), "{written}");
    assert!(written.ends_with('b'));
}

#[test]
fn each_error_variant_has_an_input_that_gives_it() {
    let smart = SmartFormatter::default();
    assert!(matches!(smart.format("{", &Value::Null), Err(Error::Parse { .. })));
    assert!(matches!(smart.format("}", &Value::Null), Err(Error::Parse { .. })));
    assert!(matches!(smart.format(r"a\qb", &Value::Null), Err(Error::Escape { .. })));
    assert!(matches!(smart.format("{0:X4}", &args(vec![Value::Int(5)])), Err(Error::UnsupportedSpec { .. })));
    assert!(matches!(smart.format("{nope}", &Value::Null), Err(Error::Format { .. })));
}

#[test]
fn alignment_pads_to_the_width() {
    let smart = SmartFormatter::default();
    let a = args(vec![Value::from("ab")]);
    assert_eq!(smart.format("{0,5}", &a).unwrap(), "   ab");
    assert_eq!(smart.format("{0,-5}", &a).unwrap(), "ab   ");
    assert_eq!(smart.format("{0,1}", &a).unwrap(), "ab");
    // A character outside the Basic Multilingual Plane is two code units wide.
    let wide = args(vec![Value::from("😀")]);
    assert_eq!(smart.format("{0,3}", &wide).unwrap(), " 😀");
}

#[test]
fn numeric_specifiers_of_integers() {
    let smart = SmartFormatter::default();
    let a = args(vec![Value::Int(-1234567)]);
    assert_eq!(smart.format("{0}", &a).unwrap(), "-1234567");
    assert_eq!(smart.format("{0:N}", &a).unwrap(), "-1,234,567.00");
    assert_eq!(smart.format("{0:N0}", &a).unwrap(), "-1,234,567");
    assert_eq!(smart.format("{0:D9}", &a).unwrap(), "-001234567");
    assert_eq!(smart.format("{0:F1}", &a).unwrap(), "-1234567.0");
    assert_eq!(smart.format("{0:G}", &args(vec![Value::UInt(u64::MAX)])).unwrap(), "18446744073709551615");
}

#[test]
fn selectors_reach_strings_lists_and_scopes() {
    let smart = SmartFormatter::default();
    let data = Value::map(vec![
        ("Name".to_owned(), Value::from("Ada")),
        ("Items".to_owned(), Value::List(vec![Value::from("x"), Value::from("y")])),
    ]);
    assert_eq!(smart.format("{Name.ToUpper} {Name.ToLower} {Name.Length}", &data).unwrap(), "ADA ada 3");
    assert_eq!(smart.format("{Items[1]}", &data).unwrap(), "y");
    assert_eq!(smart.format("{Items:list:{Index}={}|, }", &data).unwrap(), "0=x, 1=y");
    assert_eq!(smart.format(r"\u0041\{\}", &Value::Null).unwrap(), "A{}");
}

#[test]
fn split_then_join_gives_the_text_back() {
    let parts = split_chars(&chars("a|b||c"), '|');
    assert_eq!(parts, vec![chars("a"), chars("b"), chars(""), chars("c")]);
    let joined: Vec<String> = parts.iter().map(|p| p.iter().collect()).collect();
    assert_eq!(joined.join("|"), "a|b||c");
    assert_eq!(split_chars(&chars(""), '|'), vec![chars("")]);
    assert_eq!(trim(&chars("  a b \t")), chars("a b"));
}

#[test]
fn choose_picks_the_first_matching_option() {
    let options = vec![chars("a"), chars("b"), chars("a")];
    let case = CaseSensitivity::CaseSensitive;
    assert_eq!(choose_part(&options, &Some(chars("a")), case, 3), Ok(0));
    assert_eq!(choose_part(&options, &Some(chars("b")), case, 4), Ok(1));
    assert_eq!(choose_part(&options, &Some(chars("z")), case, 4), Ok(3));
    assert_eq!(choose_part(&options, &Some(chars("z")), case, 3), Err(ChoiceError::NoMatch));
    assert_eq!(choose_part(&options, &Some(chars("a")), case, 2), Err(ChoiceError::TooFew(3)));
    assert_eq!(choose_part(&options, &Some(chars("a")), case, 5), Err(ChoiceError::TooMany(4)));
    assert_eq!(choose_part(&options, &None, case, 4), Ok(3));
    assert_eq!(
        choose_part(&options, &Some(chars("B")), CaseSensitivity::CaseInsensitive, 3),
        Ok(1)
    );
}

#[test]
fn null_picks_its_part() {
    assert_eq!(null_pick(true, 1), Ok(Some(0)));
    assert_eq!(null_pick(true, 2), Ok(Some(0)));
    assert_eq!(null_pick(false, 2), Ok(Some(1)));
    assert_eq!(null_pick(false, 1), Ok(None));
    assert_eq!(null_pick(false, 3), Err(()));
}

#[test]
fn spacers_go_between_items() {
    // Five items, the four parts of the format all given.
    let written: Vec<Option<usize>> = (0..5).map(|i| spacer_part(i, 5, 4)).collect();
    assert_eq!(written, vec![None, Some(1), Some(1), Some(1), Some(2)]);
    // Exactly two items take the two-spacer.
    assert_eq!(spacer_part(1, 2, 4), Some(3));
    assert_eq!(spacer_part(1, 2, 3), Some(2));
    assert_eq!(spacer_part(1, 2, 2), Some(1));
}

#[test]
fn the_plain_index_of_a_condition() {
    assert_eq!(plain_index(&Value::Int(-5), 3), Ok(2));
    assert_eq!(plain_index(&Value::Int(1), 3), Ok(1));
    assert_eq!(plain_index(&Value::Int(7), 3), Ok(2));
    assert_eq!(plain_index(&Value::Int(3_000_000_000), 3), Err(()));
    assert_eq!(plain_index(&Value::Bool(true), 2), Ok(0));
    assert_eq!(plain_index(&Value::Bool(false), 2), Ok(1));
    assert_eq!(plain_index(&Value::from(""), 2), Ok(1));
    assert_eq!(plain_index(&Value::from("x"), 2), Ok(0));
    assert_eq!(plain_index(&Value::Null, 2), Ok(1));
}

#[test]
fn decimals_compare_as_the_values_they_stand_for() {
    let d = |s: &str| parse_decimal(s).unwrap();
    assert_eq!(d("1.5").cmp_value(&d("2")), Ordering::Less);
    assert_eq!(d("2").cmp_value(&d("10")), Ordering::Less);
    assert_eq!(d("1.5").cmp_value(&d("10")), Ordering::Less);
    assert_eq!(d("10").cmp_value(&d("1.5")), Ordering::Greater);
    assert_eq!(d("-0").cmp_value(&d("0.000")), Ordering::Equal);
    assert_eq!(d("2.5").floor(), 2);
    assert_eq!(d("-2.5").floor(), -3);
    assert_eq!(parse_decimal("1e3").unwrap_err(), "The input string '1e3' was not in a correct format.");
}

#[test]
fn substring_cuts_count_utf16_units() {
    let text = chars("Long John");
    let p = |ps: &[&str]| ps.iter().map(|s| chars(s)).collect::<Vec<_>>();
    let b = SubStringOutOfRangeBehavior::ReturnEmptyString;
    assert_eq!(cut(&text, &p(&["0", "9"]), b), Ok(chars("Long John")));
    assert_eq!(cut(&text, &p(&["-4"]), b), Ok(chars("John")));
    assert_eq!(cut(&text, &p(&["0", "99"]), b), Ok(chars("")));
    assert_eq!(cut(&text, &p(&["0", "99"]), SubStringOutOfRangeBehavior::ThrowException), Err(CutError::OutOfRange));
    assert_eq!(cut(&text, &p(&["x"]), b), Err(CutError::NotANumber(0)));
    assert_eq!(cut(&text, &p(&["1", "y"]), b), Err(CutError::NotANumber(1)));
    assert_eq!(cut(&text, &p(&["99999999999"]), b), Err(CutError::Overflow));
    assert_eq!(parse_int(&chars(" -12 ")), Ok(-12));
    assert_eq!(parse_int(&chars("+7")), Ok(7));
    assert_eq!(parse_int(&chars("-2147483648")), Ok(i32::MIN));
    assert_eq!(parse_int(&chars("2147483648")), Err(IntError::Overflow));
    assert_eq!(parse_int(&chars("1 2")), Err(IntError::Format));
}

#[test]
fn a_registered_template_is_found_and_a_removed_one_is_not() {
    let smart = SmartFormatter::default();
    let mut templates = TemplateFormatter::new(CaseSensitivity::CaseInsensitive);
    assert!(templates.get("A").is_none());
    templates.register(smart.parser(), "a", "{x}").unwrap();
    assert_eq!(templates.get("A").unwrap().raw(), "{x}");
    assert!(templates.register(smart.parser(), "A", "other").is_err());
    assert!(templates.remove("A"));
    assert!(templates.get("a").is_none());
    assert!(templates.is_empty());
}

#[test]
fn merging_options_keeps_what_was_named() {
    let defaults = O::ABBREVIATE_OFF() | O::LESS_THAN() | O::TRUNCATE_AUTO() | O::RANGE_SECONDS();
    let named = O::LESS_THAN_OFF() | O::RANGE_HOURS();
    let merged = named.merge(defaults);
    assert_eq!(merged.mask(named), named);
    assert_eq!(merged.merge(defaults), merged);
    assert_eq!(merged.bits(), 0x2 | 0x8 | 0x20 | 0x800);
}

#[test]
fn index_placeholders_are_replaced_by_their_arguments() {
    let smart = SmartFormatter::default();
    let values = args(vec![
        Value::from("x"),
        Value::Int(-5),
        Value::Bool(true),
        Value::UInt(7),
        Value::TimeSpan(90_061_000_000_000),
    ]);
    assert_eq!(
        smart.format("a {0} b {1} c {2} d {3} e {4}", &values).unwrap(),
        "a x b -5 c True d 7 e 1.01:01:01"
    );
    assert_eq!(smart.format("[{0,4}|{1,-4}]", &values).unwrap(), "[   x|-5  ]");
    let parsed = smart.parser().parse("{0}{0}").unwrap();
    assert_eq!(smart.format_parsed(&parsed, &values).unwrap(), "xx");
    assert_eq!(smart.format("<{0}>", &Value::from("only")).unwrap(), "<only>");
}

#[test]
fn named_placeholders_read_the_first_argument() {
    let smart = SmartFormatter::default();
    let person = Value::map(vec![
        ("Name".to_string(), Value::from("Ada")),
        ("Age".to_string(), Value::Int(36)),
        ("Name".to_string(), Value::from("shadowed")),
    ]);
    assert_eq!(
        smart.format("{Name} is {Age}", &args(vec![person])).unwrap(),
        "Ada is 36"
    );
    assert_eq!(smart.format("{ToUpper}/{Length}", &Value::from("abc")).unwrap(), "ABC/3");
    assert_eq!(smart.format("{Index}", &Value::from("abc")).unwrap(), "-1");
}

#[test]
fn start_and_length_count_back_from_the_end() {
    assert_eq!(start_and_length(5, -2, -1), (3, 1));
    assert_eq!(start_and_length(5, 9, 2), (5, 2));
    assert_eq!(start_and_length(5, 1, 3), (1, 3));
}

#[test]
fn a_register_error_names_its_source() {
    let parser = Parser::new(ParserSettings::default(), false);
    let mut templates = TemplateFormatter::new(CaseSensitivity::CaseSensitive);
    assert!(templates.register(&parser, "a", "x").is_ok());
    match templates.register(&parser, "a", "y") {
        Err(e @ RegisterError::Duplicate(_)) => assert!(e.source().is_none()),
        other => panic!("expected a duplicate, got {other:?}"),
    }
    match templates.register(&parser, "b", "{") {
        Err(e @ RegisterError::Parse(_)) => assert!(e.source().is_some()),
        other => panic!("expected a parse error, got {other:?}"),
    }
}

#[test]
fn a_list_renders_each_item_through_its_nested_format() {
    let smart = SmartFormatter::default();
    let numbers = args(vec![args(vec![Value::Int(1), Value::Int(2), Value::Int(3)])]);
    assert_eq!(smart.format("{0:list:<{}>|, | and }", &numbers).unwrap(), "<1>, <2> and <3>");
    let two = args(vec![args(vec![Value::Int(1), Value::Int(2)])]);
    assert_eq!(smart.format("{0:list:{}|, | and }", &two).unwrap(), "1 and 2");
}

#[test]
fn a_chosen_part_renders_its_nested_placeholder() {
    let smart = SmartFormatter::default();
    let two = args(vec![Value::Int(2)]);
    assert_eq!(smart.format("{0:choose(1|2):[{}]|<{}>}", &two).unwrap(), "<2>");
}

#[test]
fn a_null_check_renders_the_nested_placeholder_of_its_second_part() {
    let smart = SmartFormatter::default();
    let five = args(vec![Value::Int(5)]);
    assert_eq!(smart.format("{0:isnull:none|[{}]}", &five).unwrap(), "[5]");
    assert_eq!(smart.format("{0:isnull:none|[{}]}", &args(vec![Value::Null])).unwrap(), "none");
}

#[test]
fn a_complex_condition_cuts_its_part_before_rendering_it() {
    let smart = SmartFormatter::default();
    assert_eq!(smart.format("{0:cond:>10?big {}|small {}}", &args(vec![Value::Int(20)])).unwrap(), "big 20");
    assert_eq!(smart.format("{0:cond:>10?big {}|small {}}", &args(vec![Value::Int(3)])).unwrap(), "small 3");
    assert_eq!(smart.format("{0:cond:>10?big|small}", &args(vec![Value::UInt(11)])).unwrap(), "big");
}

#[test]
fn a_substring_renders_through_its_nested_format() {
    let smart = SmartFormatter::default();
    assert_eq!(smart.format("{0:substr(0,3):[{}]}", &args(vec![Value::from("Hello")])).unwrap(), "[Hel]");
}

#[test]
fn a_match_renders_the_first_part_with_its_nested_placeholder() {
    let smart = SmartFormatter::default();
    assert_eq!(smart.format("{0:ismatch(^[0-9]+$):num {}|no}", &args(vec![Value::from("123")])).unwrap(), "num 123");
    assert_eq!(smart.format("{0:ismatch(^[0-9]+$):num {}|no {}}", &args(vec![Value::from("abc")])).unwrap(), "no abc");
}

#[test]
fn a_dotted_chain_of_names_picks_through_nested_dictionaries() {
    let smart = SmartFormatter::default();
    let address = Value::map(vec![("City".to_owned(), Value::from("Oslo"))]);
    let person = Value::map(vec![
        ("Name".to_owned(), Value::from("Ada")),
        ("Address".to_owned(), address),
    ]);
    let value = Value::map(vec![("Person".to_owned(), person)]);
    assert_eq!(
        smart.format("{Person.Name} lives in {Person.Address.City}", &value).unwrap(),
        "Ada lives in Oslo"
    );
    assert_eq!(smart.format("{Person.Name.ToUpper}", &value).unwrap(), "ADA");
    assert_eq!(smart.format("{Person.Name.Length}", &value).unwrap(), "3");
}

#[test]
fn a_stray_closing_brace_is_reported_where_it_stands() {
    let parser = Parser::new(ParserSettings::default(), false);
    for (template, at) in [("}", 0usize), ("a}b", 1), ("text } {0}", 5), ("x:y,z}", 5)] {
        match parser.parse(template) {
            Err(Error::Parse { errors }) => {
                assert!(!errors.is_empty());
                assert_eq!(errors[0].message, "Format string has too many closing braces");
                assert_eq!(errors[0].position, at);
            }
            other => panic!("{template:?} parsed as {other:?}"),
        }
    }
    let smart = SmartFormatter::default();
    match smart.format("a}b", &Value::Null) {
        Err(Error::Parse { errors }) => assert_eq!(errors[0].position, 1),
        other => panic!("formatted as {other:?}"),
    }
}

#[test]
fn a_template_with_a_stray_brace_is_refused_with_its_parse_error() {
    let parser = Parser::new(ParserSettings::default(), false);
    let mut templates = TemplateFormatter::new(CaseSensitivity::CaseSensitive);
    match templates.register(&parser, "broken", "ab}") {
        Err(RegisterError::Parse(Error::Parse { errors })) => {
            assert_eq!(errors[0].message, "Format string has too many closing braces");
            assert_eq!(errors[0].position, 2);
        }
        other => panic!("registered as {other:?}"),
    }
    assert_eq!(templates.len(), 0);
}

#[test]
fn a_named_placeholder_goes_to_the_formatter_it_names() {
    let smart = SmartFormatter::default();
    let data = args(vec![Value::Int(2)]);
    assert_eq!(smart.format("{0:choose(1|2):one|two}", &data).unwrap(), "two");
    assert_eq!(smart.format("{0:choose(2|1):one|two}", &data).unwrap(), "one");
    assert!(smart.format("{0:nosuchformatter:one|two}", &data).is_err());
    let word = args(vec![Value::from("Hello")]);
    assert_eq!(smart.format("{0:substr(1,2)}", &word).unwrap(), "el");
    assert_eq!(smart.format("{0:substr(3)}", &word).unwrap(), "lo");
    assert_eq!(smart.format("{0:isnull:none|some}", &args(vec![Value::Null])).unwrap(), "none");
    assert_eq!(smart.format("{0:isnull:none|some}", &word).unwrap(), "some");
    assert_eq!(smart.format("{:isnull():none|some}", &Value::Null).unwrap(), "none");
}

#[test]
fn a_named_placeholder_without_selector_renders_the_named_choice() {
    let smart = SmartFormatter::default();
    assert_eq!(smart.format("{:choose(1|2):one|two}", &args(vec![Value::Int(2)])).unwrap(), "two");
    assert_eq!(smart.format("{:choose(1|2):one|two}", &Value::Int(1)).unwrap(), "one");
    assert_eq!(smart.format("{:choose(1|2):one|two|other}", &Value::Int(7)).unwrap(), "other");
}

#[test]
fn a_named_placeholder_is_read_into_its_parts() {
    let parser = Parser::new(ParserSettings::default(), false);
    let parsed = parser.parse("{:choose(1|2):one|two}").unwrap();
    assert_eq!(parsed.format.items.len(), 1);
    match &parsed.format.items[0] {
        FormatItem::Placeholder(p) => {
            assert!(p.selectors.is_empty());
            assert_eq!(p.formatter_name, chars("choose"));
            assert_eq!(p.options, Some((9, 12)));
            assert_eq!(p.alignment, 0);
            assert_eq!((p.start, p.end), (0, 22));
            let f = p.format.as_ref().unwrap();
            assert_eq!((f.start, f.end), (14, 21));
            assert_eq!(f.items.len(), 1);
            assert!(matches!(f.items[0], FormatItem::Literal(l) if l.start == 14 && l.end == 21));
        }
        FormatItem::Literal(_) => panic!("read as a literal"),
    }
    let parsed = parser.parse("{Name:list(x):}").unwrap();
    match &parsed.format.items[0] {
        FormatItem::Placeholder(p) => {
            assert_eq!(p.selectors.len(), 1);
            assert_eq!(p.selectors[0].text, chars("Name"));
            assert_eq!(p.formatter_name, chars("list"));
            assert_eq!(p.options, Some((11, 12)));
            assert!(p.format.as_ref().unwrap().items.is_empty());
        }
        FormatItem::Literal(_) => panic!("read as a literal"),
    }
}

#[test]
fn a_placeholder_never_closed_is_reported_at_the_end() {
    let parser = Parser::new(ParserSettings::default(), false);
    for (template, end) in [("{", 1usize), ("{name", 5), ("abc{0", 5), ("x: {Some_Name-2", 15)] {
        match parser.parse(template) {
            Err(Error::Parse { errors }) => {
                assert_eq!(errors.len(), 1);
                assert_eq!(errors[0].message, "Format string is missing a closing brace");
                assert_eq!(errors[0].position, end);
            }
            other => panic!("{template:?} parsed as {other:?}"),
        }
    }
    let smart = SmartFormatter::default();
    match smart.format("x{Name", &Value::Null) {
        Err(Error::Parse { errors }) => assert_eq!(errors[0].position, 6),
        other => panic!("formatted as {other:?}"),
    }
}

#[test]
fn the_last_flag_is_the_top_set_bit() {
    let options = O::ABBREVIATE() | O::RANGE_HOURS() | O::RANGE_MINUTES();
    let top = 1u32 << (31 - options.bits().leading_zeros());
    assert_eq!(options.last_flag().unwrap().bits(), top);
    assert_eq!(options.all_flags().last().unwrap().bits(), top);
    assert!(O::NONE().last_flag().is_none());
}

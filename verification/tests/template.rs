use smartformat::extensions::template::{TemplateFormatter, RegisterError};
use smartformat::extensions::conditional::ConditionalFormatter;
use smartformat::settings::ParserSettings;
use smartformat::formatter::DefaultFormatter;
use smartformat::extensions::InvalidSplitChar;
use smartformat::{AnyFormatter, CaseSensitivity, Error, ErrorAction, FormatterRegistry, SmartFormatter, SmartSettings, Value};

fn templates_of(
    smart: &SmartFormatter,
    case_sensitivity: CaseSensitivity,
) -> TemplateFormatter {
    let mut templates = TemplateFormatter::new(case_sensitivity);
    let mut register = |name: &str, template: &str| {
        templates
            .register(smart.parser(), name, template)
            .unwrap_or_else(|error| panic!("registering {name:?} failed: {error:?}"));
    };
    register("firstLast", "{First} {Last}");
    register("lastFirst", "{Last}, {First}");
    register("FIRST", "{First.ToUpper}");
    register("last", "{Last.ToLower}");
    if case_sensitivity == CaseSensitivity::CaseSensitive {
        register("LAST", "{Last.ToUpper}");
    }
    register("NESTED", "{:t:FIRST} {:t:last}");
    templates
}

fn smart_with(case_sensitivity: CaseSensitivity) -> SmartFormatter {
    let mut smart = SmartFormatter::new(SmartSettings {
        format_error_action: ErrorAction::Error,
        case_sensitive: case_sensitivity,
        ..SmartSettings::default()
    });
    let templates = templates_of(&smart, case_sensitivity);
    let formatters = smart.formatters_mut();
    *formatters = FormatterRegistry::empty();
    formatters.push(AnyFormatter::Template(templates));
    formatters.push(AnyFormatter::Default(DefaultFormatter));
    smart
}

fn insensitive() -> SmartFormatter {
    smart_with(CaseSensitivity::CaseInsensitive)
}

fn sensitive() -> SmartFormatter {
    smart_with(CaseSensitivity::CaseSensitive)
}

fn person() -> Value {
    map([
        ("First", Value::from("Scott")),
        ("Last", Value::from("Rippey")),
    ])
}

fn map(entries: impl IntoIterator<Item = (&'static str, Value)>) -> Value {
    Value::Dictionary(
        entries
            .into_iter()
            .map(|(key, value)| (key.to_owned(), value))
            .collect::<Vec<_>>(),
    )
}

fn format(smart: &SmartFormatter, template: &str) -> String {
    smart
        .format(template, &person())
        .unwrap_or_else(|error| panic!("{template:?} failed: {error:?}"))
}

fn error_of(smart: &SmartFormatter, template: &str) -> String {
    match smart.format(template, &person()) {
        Err(Error::Format { message, .. }) => message,
        other => panic!("{template:?}: expected a formatting error, got {other:?}"),
    }
}

#[test]
fn template_name_and_defaults_match_dotnet() {
    let formatter = TemplateFormatter::new(CaseSensitivity::CaseSensitive);
    assert_eq!(formatter.name(), "t");
    assert!(!formatter.can_auto_detect());
    assert_eq!(formatter.case_sensitivity(), CaseSensitivity::CaseSensitive);
    assert!(formatter.is_empty());
    assert_eq!(
        TemplateFormatter::new(CaseSensitivity::CaseSensitive)
            .with_name("template")
            .name(),
        "template"
    );
}

#[test]
fn template_only_the_name_selects_the_formatter() {
    let smart = sensitive();
    assert_eq!(format(&smart, "{:t:firstLast}"), "Scott Rippey");
    assert!(error_of(&smart, "{:template:firstLast}")
        .starts_with("Error parsing format string: No suitable Formatter could be found"),);
}

#[test]
fn sanity_test() {
    assert_eq!(format(&insensitive(), "{First} {Last}"), "Scott Rippey");
}

#[test]
fn template_can_be_called_with_options_or_with_format_string() {
    let smart = insensitive();
    for template in [
        "{:t(firstLast)}",
        "{:t:firstLast}",
        "{:t():firstLast}",
        "{:t(firstLast):IGNORED}",
    ] {
        assert_eq!(format(&smart, template), "Scott Rippey", "{template}");
    }
}

#[test]
fn simple_templates_work_as_expected() {
    let smart = sensitive();
    for (template, expected) in [
        ("{:t:lastFirst}", "Rippey, Scott"),
        ("{:t:FIRST}", "SCOTT"),
        ("{:t:last}", "rippey"),
        ("{:t:LAST}", "RIPPEY"),
    ] {
        assert_eq!(format(&smart, template), expected, "{template}");
    }
}

#[test]
fn multiple_templates_can_be_used() {
    let smart = insensitive();
    for (template, expected) in [
        ("{:t:FIRST} {:t:last}", "SCOTT rippey"),
        (
            "{:t:firstLast} | {:t:lastFirst}",
            "Scott Rippey | Rippey, Scott",
        ),
    ] {
        assert_eq!(format(&smart, template), expected, "{template}");
    }
}

#[test]
fn templates_can_be_nested() {
    let mut smart = SmartFormatter::new(SmartSettings {
        format_error_action: ErrorAction::Error,
        ..SmartSettings::default()
    });
    let mut templates = TemplateFormatter::new(CaseSensitivity::CaseSensitive);
    for (name, template) in [
        ("salutation", "{1:cond:{:t:sal_formal}|{:t:sal_informal}}"),
        ("sal_formal", "Dear Mr {LastName}"),
        ("sal_informal", "Hi {Nickname}"),
    ] {
        templates.register(smart.parser(), name, template).unwrap();
    }
    let formatters = smart.formatters_mut();
    *formatters = FormatterRegistry::empty();
    formatters.push(AnyFormatter::Template(templates));
    formatters.push(AnyFormatter::Conditional(ConditionalFormatter::new()));
    formatters.push(AnyFormatter::Default(DefaultFormatter));

    let person = map([
        ("FirstName", Value::from("Joseph")),
        ("Nickname", Value::from("Joe")),
        ("LastName", Value::from("Doe")),
    ]);
    for (formal, expected) in [(true, "Dear Mr Doe:"), (false, "Hi Joe:")] {
        let args = Value::List(vec![person.clone(), Value::Bool(formal)]);
        assert_eq!(smart.format("{0:t(salutation)}:", &args).unwrap(), expected);
    }
}

#[test]
fn templates_are_case_sensitive() {
    let smart = sensitive();
    for (template, name) in [
        ("{:t:first}", "first"),
        ("{:t:firstlast}", "firstlast"),
        ("{:t:LaSt}", "LaSt"),
    ] {
        assert_eq!(
            error_of(&smart, template),
            not_registered("t", name),
            "{template}"
        );
    }
}

#[test]
fn templates_can_be_case_insensitive() {
    let smart = insensitive();
    for (template, expected) in [
        ("{:t:first}", "SCOTT"),
        ("{:t:FIRST}", "SCOTT"),
        ("{:t:last}", "rippey"),
        ("{:t:LAST}", "rippey"),
        ("{:t:nested}", "SCOTT rippey"),
        ("{:t:NESTED}", "SCOTT rippey"),
        ("{:t:NeStEd}", "SCOTT rippey"),
        ("{:t:fIrStLaSt}", "Scott Rippey"),
    ] {
        assert_eq!(format(&smart, template), expected, "{template}");
    }
    assert_eq!(error_of(&smart, "{:T:nope}"), not_registered("T", "nope"));
}

#[test]
fn an_unregistered_template_is_an_error() {
    let smart = sensitive();
    for (template, name) in [
        ("{:t:does-not-exist}", "does-not-exist"),
        ("{:t(nope)}", "nope"),
        ("{:t:}", ""),
        ("{:t()}", ""),
        ("{:t():}", ""),
    ] {
        assert_eq!(
            error_of(&smart, template),
            not_registered("t", name),
            "{template}"
        );
    }
}

#[test]
fn the_empty_name_can_be_registered() {
    let mut smart = SmartFormatter::new(SmartSettings::default());
    let mut templates = TemplateFormatter::new(CaseSensitivity::CaseSensitive);
    templates.register(smart.parser(), "", "EMPTY").unwrap();
    smart.formatters_mut().push(AnyFormatter::Template(templates));

    for template in ["{:t:}", "{:t()}", "{:t():}"] {
        assert_eq!(format(&smart, template), "EMPTY", "{template}");
    }
}

#[test]
fn a_format_holding_a_placeholder_is_declined() {
    let smart = sensitive();
    for template in ["{:t:{First}}", "{:t:x{First}}"] {
        assert!(
            error_of(&smart, template).starts_with(
                "Error parsing format string: No suitable Formatter could be found"
            ),
            "{template}"
        );
    }
    assert_eq!(format(&smart, "{:t(firstLast):{Nope}}"), "Scott Rippey");
}

#[test]
fn the_template_name_resolves_escape_sequences() {
    let mut smart = SmartFormatter::new(SmartSettings {
        format_error_action: ErrorAction::Error,
        ..SmartSettings::default()
    });
    let mut templates = TemplateFormatter::new(CaseSensitivity::CaseSensitive);
    templates
        .register(smart.parser(), r"back\slash", "BS")
        .unwrap();
    templates
        .register(smart.parser(), "{brace}", "BRACE")
        .unwrap();
    smart.formatters_mut().push(AnyFormatter::Template(templates));

    assert_eq!(format(&smart, r"{:t:back\\slash}"), "BS");
    assert_eq!(format(&smart, r"{:t(back\\slash)}"), "BS");
    assert_eq!(format(&smart, r"{:t:\{brace\}}"), "BRACE");

    assert_eq!(
        error_of(&smart, r"{:t:back\slash}"),
        r#"Unrecognized escape sequence "\s" in literal."#
    );
    assert_eq!(
        error_of(&smart, r"{:t:a\u12}"),
        r#"Unrecognized escape sequence in literal: "\u12}""#
    );
}

#[test]
fn unresolvable_options_fail_the_call() {
    let mut smart = SmartFormatter::new(SmartSettings {
        format_error_action: ErrorAction::OutputErrorInResult,
        ..SmartSettings::default()
    });
    smart.formatters_mut().push(AnyFormatter::Template(TemplateFormatter::new(
        CaseSensitivity::CaseSensitive,
    )));

    match smart.format(r"{:t(a\qb)}", &person()) {
        Err(Error::Escape { message, .. }) => {
            assert_eq!(message, r#"Unrecognized escape sequence "\q" in literal."#);
        }
        other => panic!("expected an escape error, got {other:?}"),
    }
}

#[test]
fn the_alignment_reaches_the_template() {
    let smart = sensitive();
    for template in ["[{,20:t(firstLast)}]", "[{,-20:t(firstLast)}]"] {
        assert_eq!(
            format(&smart, template),
            std::format!("[Scott{}Rippey]", " ".repeat(20)),
            "{template}"
        );
    }
}

#[test]
fn a_template_is_parsed_once_with_the_given_parser() {
    let mut smart = SmartFormatter::with_parser_settings(
        SmartSettings::default(),
        ParserSettings {
            convert_character_string_literals: false,
            ..ParserSettings::default()
        },
    );
    let mut templates = TemplateFormatter::new(CaseSensitivity::CaseSensitive);
    templates.register(smart.parser(), "tab", r"a\tb").unwrap();
    assert_eq!(templates.len(), 1);
    assert_eq!(templates.get("tab").unwrap().raw(), r"a\tb");
    smart.formatters_mut().push(AnyFormatter::Template(templates));

    assert_eq!(format(&smart, "{:t:tab}"), r"a\tb");
}

#[test]
fn register_rejects_a_duplicate_name() {
    let smart = SmartFormatter::new(SmartSettings::default());
    let mut templates = TemplateFormatter::new(CaseSensitivity::CaseSensitive);
    templates.register(smart.parser(), "dup", "one").unwrap();
    let error = templates
        .register(smart.parser(), "dup", "two")
        .unwrap_err();
    assert!(matches!(&error, RegisterError::Duplicate(name) if name == "dup"));
    assert_eq!(
        error.to_text(),
        "An item with the same key has already been added. Key: dup"
    );
    assert_eq!(templates.get("dup").unwrap().raw(), "one");

    let mut insensitive = TemplateFormatter::new(CaseSensitivity::CaseInsensitive);
    insensitive.register(smart.parser(), "dup", "one").unwrap();
    let error = insensitive
        .register(smart.parser(), "DUP", "two")
        .unwrap_err();
    assert_eq!(
        error.to_text(),
        "An item with the same key has already been added. Key: DUP"
    );
    let mut sensitive = TemplateFormatter::new(CaseSensitivity::CaseSensitive);
    sensitive.register(smart.parser(), "dup", "one").unwrap();
    sensitive.register(smart.parser(), "DUP", "two").unwrap();
    assert_eq!(sensitive.len(), 2);
}

#[test]
fn register_reports_a_template_that_does_not_parse() {
    let smart = SmartFormatter::new(SmartSettings::default());
    let mut templates = TemplateFormatter::new(CaseSensitivity::CaseSensitive);
    let error = templates
        .register(smart.parser(), "bad", "{unclosed")
        .unwrap_err();
    assert!(
        matches!(error, RegisterError::Parse(Error::Parse { .. })),
        "{error:?}"
    );
    assert!(templates.is_empty());
}

#[test]
fn a_duplicate_name_that_does_not_parse_reports_the_parse_error() {
    let smart = SmartFormatter::new(SmartSettings::default());
    let mut templates = TemplateFormatter::new(CaseSensitivity::CaseSensitive);
    templates.register(smart.parser(), "dup", "one").unwrap();
    let error = templates
        .register(smart.parser(), "dup", "{unclosed")
        .unwrap_err();
    assert!(
        matches!(error, RegisterError::Parse(Error::Parse { .. })),
        "{error:?}"
    );
    assert_eq!(templates.len(), 1);
    assert_eq!(templates.get("dup").unwrap().raw(), "one");
}

#[test]
fn remove_and_clear() {
    let smart = SmartFormatter::new(SmartSettings::default());
    let mut templates = templates_of(&smart, CaseSensitivity::CaseSensitive);
    let registered = templates.len();
    assert!(templates.remove("firstLast"));
    assert!(!templates.remove("firstLast"));
    assert!(!templates.remove("does-not-exist"));
    assert_eq!(templates.len(), registered - 1);
    templates
        .register(smart.parser(), "firstLast", "AGAIN")
        .unwrap();
    assert_eq!(templates.get("firstLast").unwrap().raw(), "AGAIN");

    templates.clear();
    assert!(templates.is_empty());
    assert!(templates.get("firstLast").is_none());

    let mut insensitive = TemplateFormatter::new(CaseSensitivity::CaseInsensitive);
    insensitive.register(smart.parser(), "a", "A").unwrap();
    assert!(insensitive.remove("A"));
    assert!(insensitive.is_empty());
}

#[test]
fn compatibility_mode_never_reaches_the_formatter() {
    let mut smart = SmartFormatter::new(SmartSettings {
        string_format_compatibility: true,
        ..SmartSettings::default()
    });
    let mut templates = TemplateFormatter::new(CaseSensitivity::CaseSensitive);
    templates.register(smart.parser(), "x", "X").unwrap();
    smart.formatters_mut().push(AnyFormatter::Template(templates));

    let args = Value::List(vec![Value::from("hello")]);
    assert_eq!(smart.format("{0:t:x}", &args).unwrap(), "hello");
}

#[test]
fn an_error_inside_a_template_is_reported_against_the_outer_template() {
    let mut smart = SmartFormatter::new(SmartSettings {
        format_error_action: ErrorAction::OutputErrorInResult,
        ..SmartSettings::default()
    });
    let mut templates = TemplateFormatter::new(CaseSensitivity::CaseSensitive);
    templates.register(smart.parser(), "bad", "{Nope}").unwrap();
    smart.formatters_mut().push(AnyFormatter::Template(templates));

    let rendered = format(&smart, "x{:t:bad}y");
    assert!(
        rendered.contains(
            r#"Error parsing format string: No source extension could handle the selector named "Nope" at 1"#
        ),
        "{rendered}"
    );
    assert!(
        rendered.starts_with('x') && rendered.ends_with('y'),
        "{rendered}"
    );
}

fn not_registered(formatter: &str, name: &str) -> String {
    std::format!("Formatter named '{formatter}' found no registered template named '{name}'")
}

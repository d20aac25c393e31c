use smartformat::extensions::localization::LocalizationProvider;
use smartformat::formatter::DefaultFormatter;
use smartformat::{
    AnyFormatter, CaseSensitivity, FormatterRegistry, Error, ErrorAction, HashMapLocalizationProvider, LocalizationFormatter,
    SmartFormatter, SmartSettings, Value,
};

fn translations() -> Vec<(&'static str, &'static str, &'static str)> {
    vec![
        ("", "WeTranslateText", "We translate text"),
        ("es", "WeTranslateText", "Traducimos el texto"),
        ("fr", "WeTranslateText", "Nous traduisons des textes"),
        ("de", "WeTranslateText", "Wir übersetzen Text"),
        ("", "OnlyExistForInvariantCulture", "This entry only exists in the invariant culture resource"),
        ("", "paper", "Paper"),
        ("de", "paper", "das Papier"),
        ("fr", "paper", "Papier"),
        ("", "{} item", "{} item"),
        ("", "{} items", "{} items"),
        ("es", "{} item", "{} elemento"),
        ("es", "{} items", "{} elementos"),
        ("", "pen", "Pen"),
        ("de", "pen", "der Kugelschreiber"),
        ("fr", "pen", "Bic"),
    ]
}

fn provider() -> HashMapLocalizationProvider {
    HashMapLocalizationProvider::from_triples(&translations())
}

fn chain(names: &[&str]) -> Vec<String> {
    names.iter().map(|n| n.to_string()).collect()
}

fn localization(smart: &SmartFormatter, provider: HashMapLocalizationProvider) -> LocalizationFormatter {
    LocalizationFormatter::new(smart.parser(), provider)
        .with_culture("es", chain(&["es", ""]))
        .with_culture("es-MX", chain(&["es-MX", "es", ""]))
        .with_culture("en", chain(&["en", ""]))
        .with_culture("fr", chain(&["fr", ""]))
        .with_culture("de", chain(&["de", ""]))
        .with_culture("pt", chain(&["pt", ""]))
}

fn smart_with_settings(provider: HashMapLocalizationProvider, settings: SmartSettings) -> SmartFormatter {
    let mut smart = SmartFormatter::new(settings);
    let formatter = localization(&smart, provider);
    smart.formatters_mut().add(AnyFormatter::Localization(formatter));
    smart
}

fn smart_with(provider: HashMapLocalizationProvider) -> SmartFormatter {
    smart_with_settings(provider, SmartSettings::default())
}

fn smart() -> SmartFormatter {
    smart_with(provider())
}

fn map(entries: Vec<(&str, Value)>) -> Value {
    Value::Dictionary(entries.into_iter().map(|(k, v)| (k.to_owned(), v)).collect())
}

fn format(smart: &SmartFormatter, template: &str) -> String {
    smart
        .format(template, &Value::Null)
        .unwrap_or_else(|error| panic!("{template:?} failed: {error:?}"))
}

fn error_of(smart: &SmartFormatter, template: &str) -> String {
    match smart.format(template, &Value::Null) {
        Err(Error::Format { message, .. }) => message,
        other => panic!("{template:?}: expected a formatting error, got {other:?}"),
    }
}

#[test]
fn localization_name_and_defaults_match_dotnet() {
    let smart = SmartFormatter::default();
    let formatter = LocalizationFormatter::new(smart.parser(), HashMapLocalizationProvider::new());
    assert_eq!(formatter.name(), "L");
    assert!(!formatter.can_auto_detect());
    assert_eq!(formatter.with_name("localize").name(), "localize");
}

#[test]
fn localization_only_the_name_selects_the_formatter() {
    let smart = smart();
    assert_eq!(format(&smart, "{:L:WeTranslateText}"), "We translate text");
    assert!(error_of(&smart, "{:localize:WeTranslateText}")
        .starts_with("Error parsing format string: No suitable Formatter could be found"));
}

#[test]
fn the_formatter_name_follows_the_case_sensitivity_setting() {
    let sensitive = smart();
    assert!(error_of(&sensitive, "{:l:WeTranslateText}")
        .starts_with("Error parsing format string: No suitable Formatter could be found"));
    let insensitive = smart_with_settings(
        provider(),
        SmartSettings { case_sensitive: CaseSensitivity::CaseInsensitive, ..SmartSettings::default() },
    );
    assert_eq!(format(&insensitive, "{:l:WeTranslateText}"), "We translate text");
}

#[test]
fn never_auto_detects() {
    let smart = smart();
    assert_eq!(format(&smart, "{:WeTranslateText}"), "");
}

#[test]
fn pure_text_culture_by_format_string() {
    let smart = smart();
    for (template, expected) in [
        ("{:L(es):WeTranslateText}", "Traducimos el texto"),
        ("{:L(en):WeTranslateText}", "We translate text"),
        ("{:L(fr):WeTranslateText}", "Nous traduisons des textes"),
        ("{:L(de):WeTranslateText}", "Wir übersetzen Text"),
    ] {
        assert_eq!(format(&smart, template), expected, "{template}");
    }
}

#[test]
fn pure_text_culture_by_call() {
    let smart = smart();
    for template in ["{:L():WeTranslateText}", "{:L:WeTranslateText}"] {
        assert_eq!(format(&smart, template), "We translate text", "{template}");
    }
}

#[test]
fn the_options_are_trimmed() {
    let smart = smart();
    for template in ["{:L( es ):WeTranslateText}", "{:L(\tes):WeTranslateText}", "{:L(es\t):WeTranslateText}"] {
        assert_eq!(format(&smart, template), "Traducimos el texto", "{template}");
    }
}

#[test]
fn a_specific_culture_falls_back_to_its_language() {
    let smart = smart();
    assert_eq!(format(&smart, "{:L(es-MX):WeTranslateText}"), "Traducimos el texto");
}

#[test]
fn no_localized_string_only_in_invariant_culture() {
    let smart = smart();
    assert_eq!(
        format(&smart, "{:L(pt):OnlyExistForInvariantCulture}"),
        "This entry only exists in the invariant culture resource"
    );
}

#[test]
fn a_culture_this_crate_does_not_ship_is_an_error() {
    let smart = smart();
    let message = error_of(&smart, "{:L(zz-ZZ-really-bad!):WeTranslateText}");
    assert!(
        message.starts_with(
            "Error parsing format string: unknown culture \"zz-ZZ-really-bad!\": no data is shipped for it at 0"
        ),
        "{message}"
    );
}

#[test]
fn missing_format_is_an_error() {
    let smart = smart();
    for template in ["{:L:}", "{:L()}", "{:L():}"] {
        let message = error_of(&smart, template);
        assert!(
            message.starts_with(
                "Error parsing format string: 'Format' for localization must not be null or empty. (Parameter 'formattingInfo') at 0"
            ),
            "{template}: {message}"
        );
    }
}

#[test]
fn no_localized_string_found() {
    let smart = smart();
    let message = error_of(&smart, "{:L(es):NonExisting}");
    assert_eq!(
        message,
        "Error parsing format string: No localized string found for 'NonExisting' at 8\n{:L(es):NonExisting}\n--------^"
    );
    for (action, expected) in [(ErrorAction::Ignore, ""), (ErrorAction::MaintainTokens, "{:L(es):NonExisting}")] {
        let smart = smart_with_settings(
            provider(),
            SmartSettings { format_error_action: action, ..SmartSettings::default() },
        );
        assert_eq!(format(&smart, "{:L(es):NonExisting}"), expected, "{action:?}");
    }
    let smart = smart_with_settings(
        provider(),
        SmartSettings { format_error_action: ErrorAction::OutputErrorInResult, ..SmartSettings::default() },
    );
    assert!(format(&smart, "{:L(es):NonExisting}").contains("No localized string found"));
}

#[test]
fn no_localized_string_found_with_name_fallback() {
    let smart = smart_with(provider().with_return_name_if_not_found(true));
    assert_eq!(format(&smart, "{:L(es):NonExisting}"), "NonExisting");
}

#[test]
fn an_escape_sequence_that_resolves_to_nothing_fails_the_key() {
    let smart = smart();
    assert_eq!(error_of(&smart, r"{:L:a\qb}"), r#"Unrecognized escape sequence "\q" in literal."#);
}

#[test]
fn a_resolved_escape_sequence_is_part_of_the_key() {
    let smart = smart_with(HashMapLocalizationProvider::from_triples(&[("", "a{b", "escaped")]));
    assert_eq!(format(&smart, r"{:L:a\{b}"), "escaped");
}

#[test]
fn a_localized_string_that_does_not_parse_fails() {
    let smart = smart_with(HashMapLocalizationProvider::from_triples(&[("", "BadParse", "{0:")]));
    match smart.format("{:L:BadParse}", &Value::Null) {
        Err(Error::Parse { errors }) => {
            assert_eq!(errors.len(), 1);
            assert!(errors[0].message.contains("closing brace"), "{}", errors[0].message);
        }
        other => panic!("expected a parse error, got {other:?}"),
    }
}

#[test]
fn the_localized_string_is_rendered_against_the_current_value() {
    let smart = smart_with(HashMapLocalizationProvider::from_triples(&[
        ("", "greet", "Hello, {Name}!"),
        ("de", "greet", "Hallo, {Name}!"),
    ]));
    let args = map(vec![("Name", Value::from("Joe"))]);
    assert_eq!(smart.format("{:L(de):greet}", &args).unwrap(), "Hallo, Joe!");
    assert_eq!(smart.format("{:L:greet}", &args).unwrap(), "Hello, Joe!");
}

#[test]
fn a_nested_key_is_rendered_and_looked_up_again() {
    let smart = smart();
    let args = map(vec![("ProductType", Value::from("paper"))]);
    assert_eq!(smart.format("{:L:{ProductType}}", &args).unwrap(), "Paper");
    assert_eq!(smart.format("{:L(de):{ProductType}}", &args).unwrap(), "das Papier");
    assert_eq!(smart.format("{:L(fr):{ProductType}}", &args).unwrap(), "Papier");
    assert_eq!(
        smart.format("{:L:pa{Tail}}", &map(vec![("Tail", Value::from("per"))])).unwrap(),
        "Paper"
    );
}

#[test]
fn the_isolated_render_has_no_arguments_and_no_enclosing_scope() {
    let smart = smart();
    let args = Value::List(vec![Value::from("paper")]);
    let message = match smart.format("{:L(es):{0}}", &args) {
        Err(Error::Format { message, .. }) => message,
        other => panic!("expected a formatting error, got {other:?}"),
    };
    assert_eq!(
        message,
        "Error parsing format string: No source extension could handle the selector named \"0\" at 9\n{:L(es):{0}}\n---------^"
    );
    let args = map(vec![
        ("Outer", Value::from("paper")),
        ("Inner", map(vec![("X", Value::Int(1))])),
    ]);
    let message = match smart.format("{Inner:L:{Outer}}", &args) {
        Err(Error::Format { message, .. }) => message,
        other => panic!("expected a formatting error, got {other:?}"),
    };
    assert_eq!(
        message,
        "Error parsing format string: No source extension could handle the selector named \"Outer\" at 10\n{Inner:L:{Outer}}\n----------^"
    );
    let args = map(vec![("Inner", map(vec![("Outer", Value::from("paper"))]))]);
    assert_eq!(smart.format("{Inner:L:{Outer}}", &args).unwrap(), "Paper");
}

#[test]
fn the_isolated_render_handles_its_own_errors() {
    for (action, expected) in [(ErrorAction::Ignore, ""), (ErrorAction::MaintainTokens, "{:L(es):{0}}")] {
        let smart = smart_with_settings(
            provider(),
            SmartSettings { format_error_action: action, ..SmartSettings::default() },
        );
        let args = Value::List(vec![Value::from("paper")]);
        assert_eq!(smart.format("{:L(es):{0}}", &args).unwrap(), expected, "{action:?}");
    }
    let smart = smart_with_settings(
        provider(),
        SmartSettings { format_error_action: ErrorAction::OutputErrorInResult, ..SmartSettings::default() },
    );
    let args = Value::List(vec![Value::from("paper")]);
    assert!(smart
        .format("{:L(es):{0}}", &args)
        .unwrap()
        .contains("No localized string found for '{0}'"));
}

#[test]
fn the_alignment_reaches_the_isolated_render() {
    let smart = smart_with(HashMapLocalizationProvider::from_triples(&[
        ("", "               paper", "padded key"),
        ("", "        pa       per", "padded literal and placeholder"),
    ]));
    let args = map(vec![("ProductType", Value::from("paper"))]);
    assert_eq!(smart.format("{,20:L:{ProductType}}", &args).unwrap(), "          padded key");
    assert_eq!(
        smart.format("{,10:L:pa{Tail}}", &map(vec![("Tail", Value::from("per"))])).unwrap(),
        "padded literal and placeholder"
    );
}

#[test]
fn the_isolated_render_keeps_the_collection_index() {
    let smart = smart_with(HashMapLocalizationProvider::from_triples(&[("", "0", "first"), ("", "1", "second")]));
    let args = Value::List(vec![Value::List(vec![Value::from("a"), Value::from("b")])]);
    assert_eq!(smart.format("{0:list:{:L:{Index}}|,}", &args).unwrap(), "first,second");
}

#[test]
fn a_localized_string_may_localize_again() {
    let smart = smart_with(HashMapLocalizationProvider::from_triples(&[
        ("", "Outer", "<{:L:Inner}>"),
        ("", "Inner", "INNER"),
    ]));
    assert_eq!(format(&smart, "{:L:Outer}"), "<INNER>");
}

#[test]
fn the_alignment_reaches_the_localized_string() {
    let smart = smart();
    assert_eq!(format(&smart, "{,20:L(es):WeTranslateText}"), " Traducimos el texto");
}

#[test]
fn the_provider_walks_the_culture_chain() {
    let provider = provider();
    assert_eq!(
        provider.get_string("WeTranslateText", &chain(&["es-MX", "es", ""])).as_deref(),
        Some("Traducimos el texto")
    );
    assert_eq!(provider.get_string("pen", &chain(&["it", ""])).as_deref(), Some("Pen"));
    assert_eq!(provider.get_string("nope", &chain(&[""])), None);
}

#[test]
fn the_fallback_culture_is_a_chain_of_its_own() {
    let provider = HashMapLocalizationProvider::from_triples(&[("de", "Missing", "Fehlt")])
        .with_fallback_culture(chain(&["de-DE", "de", ""]));
    assert_eq!(provider.get_string("Missing", &chain(&["fr-FR", "fr", ""])).as_deref(), Some("Fehlt"));
    let provider = HashMapLocalizationProvider::from_triples(&[("de", "Missing", "Fehlt")]);
    assert_eq!(provider.get_string("Missing", &chain(&["fr", ""])), None);
}

#[test]
fn return_name_if_not_found_answers_with_the_key() {
    let provider = HashMapLocalizationProvider::new().with_return_name_if_not_found(true);
    assert_eq!(provider.get_string("Some key", &chain(&["es", ""])).as_deref(), Some("Some key"));
}

#[test]
fn inserting_replaces_and_counts_cultures() {
    let mut provider = HashMapLocalizationProvider::new();
    assert!(provider.is_empty());
    assert_eq!(provider.insert("en-US", "k", "one"), None);
    assert!(provider.contains_culture("en-US"));
    assert_eq!(provider.get("en-US", "k").as_deref(), Some("one"));
    assert_eq!(provider.insert("en-US", "k", "two").as_deref(), Some("one"));
    assert_eq!(provider.get("en-US", "k").as_deref(), Some("two"));
    assert_eq!(provider.len(), 1);
    provider.insert("es", "k", "three");
    assert_eq!(provider.len(), 2);
    assert_eq!(provider.get("es", "k").as_deref(), Some("three"));
    provider.clear();
    assert!(provider.is_empty());
    assert_eq!(provider.get("es", "k"), None);
}

#[test]
fn resource_names_are_matched_case_sensitively() {
    let provider = HashMapLocalizationProvider::from_triples(&[("", "Key", "value")]);
    assert_eq!(provider.get_string("Key", &chain(&[""])).as_deref(), Some("value"));
    assert_eq!(provider.get_string("key", &chain(&[""])), None);
}

#[test]
fn an_error_inside_a_translation_is_reported_against_the_outer_template() {
    let smart = smart_with_settings(
        HashMapLocalizationProvider::from_triples(&[("", "greetNobody", "Hello {Nope}!")]),
        SmartSettings { format_error_action: ErrorAction::OutputErrorInResult, ..SmartSettings::default() },
    );
    assert_eq!(
        format(&smart, "{:L:greetNobody}"),
        "Hello Error parsing format string: No source extension could handle the selector named \"Nope\" at 7\n{:L:greetNobody}\n-------^!"
    );
}

#[test]
fn combine_with_conditional_formatter() {
    let smart = smart();
    let template = "{0:cond:{:L:{} items}|{:L:{} item}|{:L:{} items}}";
    for (count, expected) in [(0i64, "0 items"), (1, "1 item"), (200, "200 items")] {
        let args = Value::List(vec![Value::Int(count)]);
        assert_eq!(smart.format(template, &args).unwrap(), expected, "{count}");
    }
    let template = "{0:cond:{:L(es):{} items}|{:L(es):{} item}|{:L(es):{} items}}";
    let args = Value::List(vec![Value::Int(200)]);
    assert_eq!(smart.format(template, &args).unwrap(), "200 elementos");
}

#[test]
fn an_empty_registry_still_finds_the_formatter() {
    let mut smart = SmartFormatter::default();
    let formatter = localization(&smart, provider());
    let formatters = smart.formatters_mut();
    *formatters = FormatterRegistry::empty();
    formatters.push(AnyFormatter::Localization(formatter));
    formatters.push(AnyFormatter::Default(DefaultFormatter));
    assert_eq!(format(&smart, "{:L(fr):WeTranslateText}"), "Nous traduisons des textes");
}

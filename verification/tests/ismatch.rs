use smartformat::extensions::ismatch::{IsMatchFormatter, RegexOptions};
use smartformat::formatter::DefaultFormatter;
use smartformat::extensions::InvalidSplitChar;
const UNKNOWN_FLAG: &str = "(unknown flag)";
use smartformat::{AnyFormatter, CaseSensitivity, Error, ErrorAction, FormatterRegistry, SmartFormatter, SmartSettings, Value};

fn smart_with_settings(settings: SmartSettings, formatter: IsMatchFormatter) -> SmartFormatter {
    let mut smart = SmartFormatter::new(settings);
    let formatters = smart.formatters_mut();
    *formatters = FormatterRegistry::empty();
    formatters.push(AnyFormatter::IsMatch(formatter));
    formatters.push(AnyFormatter::Default(DefaultFormatter));
    smart
}

fn smart_with(formatter: IsMatchFormatter) -> SmartFormatter {
    smart_with_settings(
        SmartSettings {
            format_error_action: ErrorAction::Error,
            ..SmartSettings::default()
        },
        formatter,
    )
}

fn smart() -> SmartFormatter {
    smart_with(IsMatchFormatter::new())
}

fn with_options(options: RegexOptions) -> SmartFormatter {
    let mut formatter = IsMatchFormatter::new();
    formatter.set_regex_options(options);
    smart_with(formatter)
}

fn the_value() -> Value {
    Value::Dictionary(Vec::from([(
        "theValue".to_owned(),
        Value::from("Some123Content"),
    )]))
}

fn args(values: impl IntoIterator<Item = Value>) -> Value {
    Value::List(values.into_iter().collect())
}

fn format(template: &str) -> String {
    format_with(smart(), template, the_value())
}

fn format_with(smart: SmartFormatter, template: &str, args: Value) -> String {
    smart
        .format(template, &args)
        .unwrap_or_else(|error| panic!("{template:?} failed: {error:?}"))
}

fn error_of(smart: SmartFormatter, template: &str, args: Value) -> (String, usize) {
    match smart.format(template, &args) {
        Err(Error::Format { message, position } | Error::Escape { message, position }) => {
            (message, position)
        }
        other => panic!("{template:?}: expected a formatting error, got {other:?}"),
    }
}

fn message_of(smart: SmartFormatter, template: &str, args: Value) -> String {
    error_of(smart, template, args).0
}

#[test]
fn ismatch_name_and_defaults_match_dotnet() {
    let formatter = IsMatchFormatter::new();
    assert_eq!(formatter.name(), "ismatch");
    assert!(!formatter.can_auto_detect());
    assert_eq!(formatter.split_char(), '|');
    assert_eq!(formatter.regex_options(), RegexOptions::NONE());
    assert_eq!(formatter.placeholder_name_for_matches(), "m");
    assert_eq!(IsMatchFormatter::new().with_name("re").name(), "re");
}

#[test]
fn split_char_is_validated() {
    let mut formatter = IsMatchFormatter::new();
    assert!(formatter.set_split_char('~').is_ok());
    assert_eq!(formatter.split_char(), '~');
    assert_eq!(formatter.set_split_char('x'), Err(InvalidSplitChar('x')));
    assert_eq!(formatter.split_char(), '~');
}

#[test]
fn is_not_auto_detected_by_default() {
    assert_eq!(format("{theValue:a|b}"), "Some123Content");
}

#[test]
fn ismatch_auto_detection_can_be_turned_on() {
    let mut formatter = IsMatchFormatter::new();
    formatter.set_can_auto_detect(true);
    assert!(formatter.can_auto_detect());
    assert_eq!(
        format_with(smart_with(formatter), "{theValue:a|b}", the_value()),
        "a"
    );
}

#[test]
fn formats_and_case_sensitivity() {
    for (template, options, expected) in [
        (
            "{theValue:ismatch(^.+123.+$):Okay - {}|No match content}",
            RegexOptions::NONE(),
            "Okay - Some123Content",
        ),
        (
            "{theValue:ismatch(^.+123.+$):Fixed content if match|No match content}",
            RegexOptions::NONE(),
            "Fixed content if match",
        ),
        (
            "{theValue:ismatch(^.+999.+$):{}|No match content}",
            RegexOptions::NONE(),
            "No match content",
        ),
        (
            "{theValue:ismatch(^.+123.+$):|Only content with no match}",
            RegexOptions::NONE(),
            "",
        ),
        (
            "{theValue:ismatch(^.+999.+$):|Only content with no match}",
            RegexOptions::NONE(),
            "Only content with no match",
        ),
        (
            "{theValue:ismatch(^SOME123.+$):Okay - {}|No match content}",
            RegexOptions::IGNORE_CASE(),
            "Okay - Some123Content",
        ),
        (
            "{theValue:ismatch(^SOME123.+$):Okay - {}|No match content}",
            RegexOptions::NONE(),
            "No match content",
        ),
    ] {
        assert_eq!(
            format_with(with_options(options), template, the_value()),
            expected,
            "{template:?} with {options:?}"
        );
    }
}

#[test]
fn a_format_that_is_not_two_parts_is_an_error() {
    for (template, index) in [
        ("{theValue:ismatch(^.+123.+$):Dummy content}", 29),
        ("{theValue:ismatch(^.+123.+$):a|b|c}", 29),
        ("{theValue:ismatch(^.+123.+$):}", 29),
        ("{theValue:ismatch(^.+123.+$)}", 28),
    ] {
        let (message, position) = error_of(smart(), template, the_value());
        assert_eq!(
            message, "Formatter named 'ismatch' requires at least 2 format options.",
            "{template:?}"
        );
        assert_eq!(position, index, "{template:?}");
    }
}

#[test]
fn a_format_that_is_not_two_parts_is_declined_when_unnamed() {
    let mut formatter = IsMatchFormatter::new();
    formatter.set_can_auto_detect(true);
    assert_eq!(
        format_with(smart_with(formatter), "{theValue:one part}", the_value()),
        "Some123Content"
    );
}

#[test]
fn changed_split_char() {
    for (template, expected) in [
        (
            "{theValue:ismatch(^.+123.+$):|Has match for '{}'|~|No match|}",
            "|Has match for 'Some123Content'|",
        ),
        (
            "{theValue:ismatch(^.+999.+$):|Has match for '{}'|~|No match|}",
            "|No match|",
        ),
    ] {
        let mut formatter = IsMatchFormatter::new();
        formatter.set_split_char('~').unwrap();
        assert_eq!(
            format_with(smart_with(formatter), template, the_value()),
            expected,
            "{template:?}"
        );
    }
}

#[test]
fn match_group_values() {
    assert_eq!(
        format(
            r"{theValue:ismatch(^.+\(1\)\(2\)\(3\).+$):Matches for '{}'\: {m[0]} - {m[1]} - {m[2]} - {m[3]}|No match}"
        ),
        "Matches for 'Some123Content': Some123Content - 1 - 2 - 3"
    );
    assert_eq!(
        format(r"{theValue:ismatch(^.+\(9\)\(9\)\(9\).+$):Matches for '{}'\: {m[1]}|No match}"),
        "No match"
    );
    assert_eq!(
        format(
            r"{theValue:ismatch(^.+\(1\)\(2\)\(3\).+$):First 2 matches in '{}'\: {m[1]} and {m[2]}|No match}"
        ),
        "First 2 matches in 'Some123Content': 1 and 2"
    );
}

#[test]
fn placeholder_name_for_matches_can_be_changed() {
    let mut formatter = IsMatchFormatter::new();
    formatter.set_placeholder_name_for_matches("match");
    assert_eq!(formatter.placeholder_name_for_matches(), "match");
    let value = Value::Dictionary(Vec::from([(
        "theValue".to_owned(),
        Value::from("12345"),
    )]));
    assert_eq!(
        format_with(
            smart_with(formatter),
            r"{theValue:ismatch(^\(123\)\(4\)\(5\)$):First match in '{}'\: {match[1]}|No match}",
            value,
        ),
        "First match in '12345': 123"
    );
}

#[test]
fn a_renamed_matches_placeholder_leaves_the_old_name_ordinary() {
    let mut formatter = IsMatchFormatter::new();
    formatter.set_placeholder_name_for_matches("match");
    let message = message_of(
        smart_with(formatter),
        r"{theValue:ismatch(\(123\)):{m[1]}|no}",
        the_value(),
    );
    assert!(message.contains("selector named \"m\""), "{message}");
}

#[test]
fn the_matches_name_is_compared_ordinally() {
    let smart = smart_with_settings(
        SmartSettings {
            format_error_action: ErrorAction::Error,
            case_sensitive: CaseSensitivity::CaseInsensitive,
            ..SmartSettings::default()
        },
        IsMatchFormatter::new(),
    );
    let message = message_of(smart, r"{theValue:ismatch(\(123\)):{M[1]}|no}", the_value());
    assert!(message.contains("selector named \"M\""), "{message}");
}

#[test]
fn group_zero_is_the_whole_match() {
    assert_eq!(format(r"{theValue:ismatch(123):[{m[0]}]|no}"), "[123]");
}

#[test]
fn a_group_that_did_not_participate_is_empty() {
    assert_eq!(
        format(r"{theValue:ismatch(\(123\)|\(zzz\)):[{m[1]}][{m[2]}]|no}"),
        "[123][]"
    );
}

#[test]
fn an_out_of_range_group_is_a_selector_error() {
    let message = message_of(smart(), r"{theValue:ismatch(123):{m[5]}|no}", the_value());
    assert!(message.contains("selector named \"5\""), "{message}");
}

#[test]
fn the_whole_group_list_needs_a_formatter_that_renders_a_list() {
    let message = message_of(smart(), r"{theValue:ismatch(123):{m}|no}", the_value());
    assert!(
        message.contains("Default formatting of a list is not supported"),
        "{message}"
    );
}

#[test]
fn a_placeholder_that_is_not_the_matches_one_sees_the_value() {
    assert_eq!(
        format("{theValue:ismatch(123):got {} and {theValue}|no}"),
        "got Some123Content and Some123Content"
    );
}

#[test]
fn currency_symbol() {
    for (currency, expected) in [
        ("€ Euro", "Currency: €"),
        ("¥ Yen", "Currency: ¥"),
        ("none", "Unknown"),
    ] {
        let value = Value::Dictionary(Vec::from([(
            "Currency".to_owned(),
            Value::from(currency),
        )]));
        assert_eq!(
            format_with(
                smart(),
                r"{Currency:ismatch(\\p\{Sc\}):Currency: {m[0]}|Unknown}",
                value,
            ),
            expected,
            "{currency:?}"
        );
    }
}

#[test]
fn escaped_option_and_regex_chars() {
    for (search, options) in [
        ("|", r"\\|"),
        ("?", r"\\?"),
        ("+", r"\\+"),
        ("*", r"\\*"),
        ("^", r"\\^"),
        ("$", r"\\$"),
        (".", r"\\."),
        ("[", r"\\["),
        ("]", r"\\]"),
        (":", r"\:"),
        ("\\", r"\\\\"),
        ("(", r"\\\("),
        (")", r"\\\)"),
        ("{", r"\\\{"),
        ("}", r"\\\}"),
    ] {
        let template = std::format!("{{0:ismatch({options}):found {{}}|}}");
        assert_eq!(
            format_with(smart(), &template, args([Value::from(search)])),
            std::format!("found {search}"),
            "{template:?}"
        );
    }
}

#[test]
fn match_special_characters() {
    for (options, input, should_match) in [
        (r"\\\(\([^\\\)]*\)\\\)", "Text (inside) parenthesis", true),
        (r"\\\(\([^\\\)]*\)\\\)", "No parenthesis", false),
        (r"Lon\(?=don\)", "This is London", true),
        (r"Lon\(?=don\)", "This is Loando", false),
        ("<[^<>]+>", "<abcde>", true),
        ("<[^<>]+>", "<>", false),
        (r"\\d\{3,\}", "1234", true),
        (r"\\d\{3,\}", "12", false),
        (r"^.\{5,\}\:,$", "1z%aW:,", true),
        (r"^.\{5,\}\:,$", "1z:,", false),
    ] {
        let template = std::format!("{{0:ismatch({options}):found {{}}|}}");
        let expected = if should_match {
            std::format!("found {input}")
        } else {
            String::new()
        };
        assert_eq!(
            format_with(smart(), &template, args([Value::from(input)])),
            expected,
            "{template:?}"
        );
    }
}

#[test]
fn a_null_value_is_declined() {
    let message = message_of(smart(), "{0:ismatch(^.+$):a|b}", args([Value::Null]));
    assert!(
        message.contains("No suitable Formatter could be found"),
        "{message}"
    );
}

#[test]
fn a_list_value_fails_loudly() {
    let message = message_of(
        smart(),
        "{0:ismatch(System):a|b}",
        args([Value::List(vec![Value::Int(1)])]),
    );
    assert!(message.contains("is not supported"), "{message}");
}

#[test]
fn an_unresolvable_option_escape_fails() {
    let message = message_of(
        smart(),
        r"{0:ismatch(a\qb):yes|no}",
        args([Value::from("x")]),
    );
    assert_eq!(message, "Unrecognized escape sequence \"\\q\" in literal.");
}

#[test]
fn an_empty_pattern_matches_everything() {
    assert_eq!(
        format_with(
            smart(),
            "{0:ismatch():yes [{m[0]}]|no}",
            args([Value::from("abc")])
        ),
        "yes []"
    );
}

#[test]
fn the_alignment_applies_to_every_item() {
    assert_eq!(
        format_with(smart(), "{0,10:ismatch(b):Y|N}", args([Value::from("abc")])),
        "         Y"
    );
}

#[test]
fn honored_regex_options() {
    assert_eq!(
        format_with(
            with_options(RegexOptions::MULTILINE()),
            "{0:ismatch(^b$):yes|no}",
            args([Value::from("a\nb\nc")])
        ),
        "yes"
    );
    assert_eq!(
        format_with(
            smart(),
            "{0:ismatch(^b$):yes|no}",
            args([Value::from("a\nb\nc")])
        ),
        "no"
    );
    assert_eq!(
        format_with(
            with_options(RegexOptions::SINGLELINE()),
            "{0:ismatch(^a.b$):yes|no}",
            args([Value::from("a\nb")])
        ),
        "yes"
    );
    assert_eq!(
        format_with(
            with_options(RegexOptions::IGNORE_PATTERN_WHITESPACE()),
            "{0:ismatch(^a b c$):yes|no}",
            args([Value::from("abc")])
        ),
        "yes"
    );
    assert_eq!(
        format_with(
            with_options(RegexOptions::IGNORE_CASE()),
            "{0:ismatch(^A|B$):yes|no}",
            args([Value::from("b")])
        ),
        "yes"
    );
    assert_eq!(
        format_with(
            with_options(RegexOptions::COMPILED() | RegexOptions::CULTURE_INVARIANT()),
            "{0:ismatch(^abc$):yes|no}",
            args([Value::from("abc")])
        ),
        "yes"
    );
}

#[test]
fn unsupported_regex_options_fail_loudly() {
    for (options, name) in [
        (RegexOptions::EXPLICIT_CAPTURE(), "ExplicitCapture"),
        (RegexOptions::RIGHT_TO_LEFT(), "RightToLeft"),
        (RegexOptions::ECMA_SCRIPT(), "ECMAScript"),
        (RegexOptions::NON_BACKTRACKING(), "NonBacktracking"),
        (RegexOptions::from_bits(1 << 20), UNKNOWN_FLAG),
    ] {
        let message = message_of(
            with_options(options | RegexOptions::IGNORE_CASE()),
            "{0:ismatch(^abc$):yes|no}",
            args([Value::from("abc")]),
        );
        assert_eq!(
            message,
            std::format!(
                "RegexOptions.{name} has no equivalent in the regex engine of this port"
            )
        );
    }
}

#[test]
fn regex_options_debug_reads_like_dotnet() {
    assert_eq!(RegexOptions::NONE().debug_text(), "None");
    assert_eq!(
        (RegexOptions::IGNORE_CASE() | RegexOptions::CULTURE_INVARIANT()).debug_text(),
        "IgnoreCase | CultureInvariant"
    );
    assert_eq!(
        RegexOptions::from_bits(1 << 20).debug_text(),
        "1048576"
    );
    let mut options = RegexOptions::NONE();
    options |= RegexOptions::SINGLELINE();
    assert_eq!(options, RegexOptions::SINGLELINE());
}

#[test]
fn a_pattern_dotnet_accepts_and_fancy_regex_does_not_fails_loudly() {
    for options in [
        r"\(?'x'a\)b",
        r"^ab\\Z",
        r"^\(?<x>a\)\(?<-x>b\)$",
        r"^\\p\{IsBasicLatin\}+$",
    ] {
        let template = std::format!("{{0:ismatch({options}):yes|no}}");
        let message = message_of(smart(), &template, args([Value::from("ab")]));
        assert!(
            message.starts_with("Invalid regular expression"),
            "{template:?}: {message}"
        );
    }
}

#[test]
fn dotnet_syntax_that_both_engines_agree_on() {
    for (options, input) in [
        (r"Lon\(?=don\)", "This is London"),
        (r"\(a\)\\1", "aa"),
        (r"\(?<x>a\)\\k<x>", "aa"),
        (r"\(?>a+\)b", "ab"),
        (r"a\(?#hi\)b", "ab"),
        (r"^\(a\)?\(?\(1\)b|c\)$", "ab"),
    ] {
        let template = std::format!("{{0:ismatch({options}):yes|no}}");
        assert_eq!(
            format_with(smart(), &template, args([Value::from(input)])),
            "yes",
            "{template:?}"
        );
    }
}

#[test]
fn dollar_does_not_match_before_a_final_newline() {
    assert_eq!(
        format_with(
            smart(),
            "{0:ismatch(^abc$):yes|no}",
            args([Value::from("abc\n")])
        ),
        "no"
    );
    assert_eq!(
        format_with(
            smart(),
            r"{0:ismatch(^abc\\z):yes|no}",
            args([Value::from("abc")])
        ),
        "yes"
    );
}

#[test]
fn named_groups_are_numbered_left_to_right() {
    assert_eq!(
        format_with(
            smart(),
            r"{0:ismatch(\(a\)\(?<x>b\)\(c\)):[{m[1]}][{m[2]}][{m[3]}]|no}",
            args([Value::from("abc")])
        ),
        "[a][b][c]"
    );
}

#[test]
fn ignore_pattern_whitespace_stops_at_a_character_class() {
    assert_eq!(
        format_with(
            with_options(RegexOptions::IGNORE_PATTERN_WHITESPACE()),
            "{0:ismatch(^[a b]+$):yes|no}",
            args([Value::from("a b")])
        ),
        "yes"
    );
}

#[test]
fn an_open_lower_bound_is_a_silent_divergence() {
    assert_eq!(
        format_with(
            smart(),
            r"{0:ismatch(^a\{,3\}$):yes|no}",
            args([Value::from("aa")])
        ),
        "yes"
    );
    assert_eq!(
        format_with(
            smart(),
            r"{0:ismatch(^a\{,3\}$):yes|no}",
            args([Value::from("a{,3}")])
        ),
        "no"
    );
}

#[test]
fn character_class_subtraction_is_a_silent_divergence() {
    assert_eq!(
        format_with(
            smart(),
            r"{0:ismatch(^[a-z-[aeiou]]+$):yes|no}",
            args([Value::from("bad")])
        ),
        "yes"
    );
    assert_eq!(
        format_with(
            smart(),
            r"{0:ismatch(^[a-z&&[^aeiou]]+$):yes|no}",
            args([Value::from("bad")])
        ),
        "no"
    );
}

#[test]
fn class_intersection_posix_names_and_nesting_are_silent_divergences() {
    for (pattern, input, here) in [
        (r"^[a&&b]+$", "ab", "no"),
        (r"^[a&&b]+$", "&", "no"),
        (r"^[[\:alpha\:]]+$", "abc", "yes"),
        (r"^[a[bc]]+$", "abc", "yes"),
    ] {
        let template = std::format!("{{0:ismatch({pattern}):yes|no}}");
        assert_eq!(
            format_with(smart(), &template, args([Value::from(input)])),
            here,
            "{template:?} over {input:?}"
        );
    }
}

#[test]
fn matching_counts_scalars_where_dotnet_counts_utf16_units() {
    let emoji = || args([Value::from("\u{1F600}")]);
    assert_eq!(
        format_with(smart(), r"{0:ismatch(^.$):yes|no}", emoji()),
        "yes"
    );
    assert_eq!(
        format_with(smart(), r"{0:ismatch(^..$):yes|no}", emoji()),
        "no"
    );
    assert_eq!(
        format_with(smart(), r"{0:ismatch(^.\{2\}$):yes|no}", emoji()),
        "no"
    );
    assert_eq!(
        format_with(smart(), r"{0:ismatch(^[^a]$):yes|no}", emoji()),
        "yes"
    );
    assert_eq!(
        format_with(
            smart(),
            r"{0:ismatch(^\(.\).*$):[{m[1]}]|no}",
            args([Value::from("\u{1F600}abc")])
        ),
        "[\u{1F600}]"
    );
}

#[test]
fn the_word_character_class_covers_more_than_dotnets() {
    for input in [
        "\u{2167}", // Ⅷ, a letter number (Nl)
        "\u{903}",  // Devanagari visarga, a spacing mark (Mc)
        "a\u{488}", // combining cyrillic hundred thousands (Me)
    ] {
        assert_eq!(
            format_with(
                smart(),
                r"{0:ismatch(^\\w+$):yes|no}",
                args([Value::from(input)])
            ),
            "yes",
            "{input:?}"
        );
    }
    assert_eq!(
        format_with(
            smart(),
            r"{0:ismatch(\\bx\\b):yes|no}",
            args([Value::from("\u{2167}x\u{2167}")])
        ),
        "no"
    );
    assert_eq!(
        format_with(
            smart(),
            r"{0:ismatch(^\\d+$):yes|no}",
            args([Value::from("\u{663}")])
        ),
        "yes"
    );
    assert_eq!(
        format_with(
            smart(),
            r"{0:ismatch(^\\s$):yes|no}",
            args([Value::from("\u{85}")])
        ),
        "yes"
    );
}

#[test]
fn case_insensitive_matching_folds_wider_than_dotnets() {
    let folding = || with_options(RegexOptions::IGNORE_CASE() | RegexOptions::CULTURE_INVARIANT());
    for (pattern, input) in [
        ("^s$", "\u{17f}"),           // ſ, long s
        ("^\u{3c3}$", "\u{3c2}"),     // σ against final ς
        ("^\u{10400}$", "\u{10428}"), // Deseret, a surrogate pair in .NET
    ] {
        let template = std::format!("{{0:ismatch({pattern}):yes|no}}");
        assert_eq!(
            format_with(folding(), &template, args([Value::from(input)])),
            "yes",
            "{template:?} over {input:?}"
        );
    }
    for (pattern, input, both) in [
        ("^k$", "\u{212a}", "yes"),      // Kelvin sign
        ("^\u{1e9e}$", "\u{df}", "yes"), // ẞ against ß
        ("^i$", "\u{131}", "no"),        // dotless ı
        ("^i$", "\u{130}", "no"),        // dotted İ
    ] {
        let template = std::format!("{{0:ismatch({pattern}):yes|no}}");
        assert_eq!(
            format_with(folding(), &template, args([Value::from(input)])),
            both,
            "{template:?} over {input:?}"
        );
    }
}

#[test]
fn a_nul_escape_matches_nothing_and_an_octal_escape_fails() {
    assert_eq!(
        format_with(
            smart(),
            r"{0:ismatch(^\\0$):yes|no}",
            args([Value::from("\0")])
        ),
        "no"
    );
    assert_eq!(
        format_with(
            smart(),
            r"{0:ismatch(a\\0b):yes|no}",
            args([Value::from("a\0b")])
        ),
        "no"
    );
    assert_eq!(
        format_with(
            smart(),
            r"{0:ismatch(^\\x00$):yes|no}",
            args([Value::from("\0")])
        ),
        "yes"
    );
    let message = message_of(
        smart(),
        r"{0:ismatch(^\\101$):yes|no}",
        args([Value::from("A")]),
    );
    assert!(
        message.starts_with("Invalid regular expression"),
        "{message}"
    );
}

#[test]
fn lookaround_and_backreferences_work() {
    assert_eq!(
        format_with(
            smart(),
            r"{0:ismatch(Lon\(?=don\)):yes|no}",
            args([Value::from("This is London")])
        ),
        "yes"
    );
    assert_eq!(
        format_with(
            smart(),
            r"{0:ismatch(\(a\)\\1):yes|no}",
            args([Value::from("aa")])
        ),
        "yes"
    );
}

#[test]
fn a_runaway_pattern_hits_the_backtrack_limit() {
    let mut formatter = IsMatchFormatter::new();
    formatter.set_backtrack_limit(1000);
    assert_eq!(formatter.backtrack_limit(), 1000);
    let message = message_of(
        smart_with(formatter),
        r"{0:ismatch(^\(?=a\)\(a+\)+$):yes|no}",
        args([Value::String("a".repeat(30) + "b")]),
    );
    assert_eq!(
        message,
        "Regular expression \"^(?=a)(a+)+$\" exceeded the backtrack limit of 1000 steps"
    );
}

#[test]
fn the_default_backtrack_limit_is_fancy_regexs() {
    assert_eq!(IsMatchFormatter::new().backtrack_limit(), 1_000_000);
    assert_eq!(
        format_with(
            smart(),
            r"{0:ismatch(^\(?=a\)\(a+\)+$):yes|no}",
            args([Value::String("a".repeat(30))])
        ),
        "yes"
    );
}

#[test]
fn non_string_values_match_their_text() {
    assert_eq!(format_with(smart(), "{0:ismatch(True):yes|no}", args([Value::Bool(true)])), "yes");
    assert_eq!(format_with(smart(), r"{0:ismatch(^\(1\)2$):a {m[1]}|b}", args([Value::Int(12)])), "a 1");
}

use smartformat::extensions::time::options::TimeSpanFormatOptions as O;
use smartformat::extensions::time::options::parse;
#[test]
fn flag_values_are_the_dotnet_enumeration() {
    assert_eq!(O::NONE().bits(), 0x0);
    assert_eq!(O::ABBREVIATE().bits(), 0x1);
    assert_eq!(O::ABBREVIATE_OFF().bits(), 0x2);
    assert_eq!(O::LESS_THAN().bits(), 0x4);
    assert_eq!(O::LESS_THAN_OFF().bits(), 0x8);
    assert_eq!(O::TRUNCATE_SHORTEST().bits(), 0x10);
    assert_eq!(O::TRUNCATE_AUTO().bits(), 0x20);
    assert_eq!(O::TRUNCATE_FILL().bits(), 0x40);
    assert_eq!(O::TRUNCATE_FULL().bits(), 0x80);
    assert_eq!(O::RANGE_MILLI_SECONDS().bits(), 0x100);
    assert_eq!(O::RANGE_SECONDS().bits(), 0x200);
    assert_eq!(O::RANGE_MINUTES().bits(), 0x400);
    assert_eq!(O::RANGE_HOURS().bits(), 0x800);
    assert_eq!(O::RANGE_DAYS().bits(), 0x1000);
    assert_eq!(O::RANGE_WEEKS().bits(), 0x2000);
}

#[test]
fn every_keyword_sets_its_flag() {
    for (text, expected) in [
        ("w", O::RANGE_WEEKS()),
        ("week", O::RANGE_WEEKS()),
        ("weeks", O::RANGE_WEEKS()),
        ("d", O::RANGE_DAYS()),
        ("day", O::RANGE_DAYS()),
        ("days", O::RANGE_DAYS()),
        ("h", O::RANGE_HOURS()),
        ("hour", O::RANGE_HOURS()),
        ("hours", O::RANGE_HOURS()),
        ("m", O::RANGE_MINUTES()),
        ("minute", O::RANGE_MINUTES()),
        ("minutes", O::RANGE_MINUTES()),
        ("s", O::RANGE_SECONDS()),
        ("second", O::RANGE_SECONDS()),
        ("seconds", O::RANGE_SECONDS()),
        ("ms", O::RANGE_MILLI_SECONDS()),
        ("millisecond", O::RANGE_MILLI_SECONDS()),
        ("milliseconds", O::RANGE_MILLI_SECONDS()),
        ("short", O::TRUNCATE_SHORTEST()),
        ("auto", O::TRUNCATE_AUTO()),
        ("fill", O::TRUNCATE_FILL()),
        ("full", O::TRUNCATE_FULL()),
        ("abbr", O::ABBREVIATE()),
        ("noabbr", O::ABBREVIATE_OFF()),
        ("less", O::LESS_THAN()),
        ("noless", O::LESS_THAN_OFF()),
    ] {
        assert_eq!(parse(text), expected, "{text}");
        assert_eq!(parse(&text.to_uppercase()), expected, "{text} uppercased");
    }
}

#[test]
fn keywords_are_whole_words() {
    assert_eq!(parse("1hours"), O::NONE());
    assert_eq!(parse("hoursminutes"), O::NONE());
    assert_eq!(parse("shorter"), O::NONE());
    assert_eq!(parse("xyz"), O::NONE());
    assert_eq!(parse(""), O::NONE());
    assert_eq!(parse("   "), O::NONE());
    assert_eq!(parse("hours,minutes"), O::RANGE_HOURS() | O::RANGE_MINUTES());
    assert_eq!(parse("hours-minutes"), O::RANGE_HOURS() | O::RANGE_MINUTES());
    assert_eq!(parse("hours minutes"), O::RANGE_HOURS() | O::RANGE_MINUTES());
    assert_eq!(
        parse("the hours and minutes"),
        O::RANGE_HOURS() | O::RANGE_MINUTES()
    );
}

#[test]
fn opposite_keywords_both_set_their_flag() {
    assert_eq!(parse("less noless"), O::LESS_THAN() | O::LESS_THAN_OFF());
    assert_eq!(parse("abbr noabbr"), O::ABBREVIATE() | O::ABBREVIATE_OFF());
    assert_eq!(parse("auto short"), O::TRUNCATE_AUTO() | O::TRUNCATE_SHORTEST());
}

#[test]
fn merge_fills_in_empty_groups_only() {
    let defaults =
        O::ABBREVIATE_OFF() | O::LESS_THAN() | O::TRUNCATE_AUTO() | O::RANGE_SECONDS() | O::RANGE_DAYS();

    let hours = parse("hours").merge(defaults);
    assert_eq!(hours.mask(O::RANGE_MASK()), O::RANGE_HOURS());
    assert_eq!(hours.mask(O::TRUNCATE_MASK()), O::TRUNCATE_AUTO());
    assert_eq!(hours.mask(O::LESS_THAN_MASK()), O::LESS_THAN());
    assert_eq!(hours.mask(O::ABBREVIATE_MASK()), O::ABBREVIATE_OFF());

    assert_eq!(O::NONE().merge(defaults), defaults);
    assert_eq!(
        parse("noless").merge(defaults).mask(O::LESS_THAN_MASK()),
        O::LESS_THAN_OFF()
    );
}

#[test]
fn flags_come_out_lowest_first() {
    let range = parse("weeks milliseconds");
    assert_eq!(range.first_flag(), Some(O::RANGE_MILLI_SECONDS()));
    assert_eq!(range.last_flag(), Some(O::RANGE_WEEKS()));
    assert_eq!(O::NONE().first_flag(), None);
    assert_eq!(O::NONE().last_flag(), None);
    assert_eq!(
        parse("fill short").mask(O::TRUNCATE_MASK()).first_flag(),
        Some(O::TRUNCATE_SHORTEST())
    );
}

#[test]
fn display_names_the_flags() {
    assert_eq!(O::NONE().to_text(), "None");
    assert_eq!(O::RANGE_WEEKS().to_text(), "RangeWeeks");
    assert_eq!(
        (O::ABBREVIATE() | O::RANGE_DAYS()).to_text(),
        "Abbreviate, RangeDays"
    );
}

use smartformat::extensions::time::text_info::format_one;

#[test]
fn composite_formatting_substitutes_one_argument() {
    assert_eq!(format_one("{0} day", "3"), "3 day");
    assert_eq!(format_one("{{0}} {0}", "3"), "{0} 3");
    assert_eq!(format_one("no items", "3"), "no items");
    assert_eq!(format_one("", "3"), "");
    assert_eq!(format_one("{1}", "3"), "{1}");
    assert_eq!(format_one("{0", "3"), "{0");
}

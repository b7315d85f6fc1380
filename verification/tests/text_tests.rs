use exfil::text::decimal_text;

#[test]
fn decimal_text_writes_prefix_then_numeral() {
    assert_eq!(decimal_text("p", 0), "p0");
    assert_eq!(decimal_text("p", 7), "p7");
    assert_eq!(decimal_text("Preset ", 10), "Preset 10");
    assert_eq!(decimal_text("", 1234567890), "1234567890");
    assert_eq!(decimal_text("n", u64::MAX), format!("n{}", u64::MAX));
}

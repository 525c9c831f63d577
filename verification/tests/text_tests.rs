use iacc::text::{chars_of, push_decimal};

#[test]
fn chars_of_gives_the_characters_in_order() {
    assert_eq!(chars_of(""), Vec::<char>::new());
    assert_eq!(chars_of("abc"), vec!['a', 'b', 'c']);
    assert_eq!(chars_of("h\u{e9}\u{4e16}!"), vec!['h', '\u{e9}', '\u{4e16}', '!']);
}

#[test]
fn push_decimal_appends_the_numeral() {
    let mut out = String::from("#");
    push_decimal(&mut out, 0);
    assert_eq!(out, "#0");
    push_decimal(&mut out, 7);
    push_decimal(&mut out, 10);
    push_decimal(&mut out, 909);
    assert_eq!(out, "#0710909");
    let mut out = String::new();
    push_decimal(&mut out, u64::MAX);
    assert_eq!(out, "18446744073709551615");
    let mut out = String::new();
    push_decimal(&mut out, 1_000_000);
    assert_eq!(out, "1000000");
}

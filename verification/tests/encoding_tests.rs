use terror::text::push_decimal;

#[test]
fn decimals_are_written_without_leading_zeros() {
    let mut s = String::new();
    push_decimal(&mut s, 0);
    s.push(' ');
    push_decimal(&mut s, 7);
    s.push(' ');
    push_decimal(&mut s, 42);
    s.push(' ');
    push_decimal(&mut s, 255);
    assert_eq!(s, "0 7 42 255");
}

//! Tests for the numeral codec: alphabet round trips and edge cases.

use babel::{address_alphabet, from_arb_base, page_alphabet, to_arb_base, BabelError, Big};

fn chars(s: &str) -> Vec<char> {
    s.chars().collect()
}

fn text(v: &[char]) -> String {
    v.iter().collect()
}

#[test]
fn zero_is_first_symbol_address_alphabet() {
    let out = to_arb_base(Big::from_u64(0), &address_alphabet());
    assert_eq!(text(&out), "A");
}

#[test]
fn zero_is_first_symbol_page_alphabet() {
    let out = to_arb_base(Big::from_u64(0), &page_alphabet());
    assert_eq!(text(&out), " ");
}

#[test]
fn last_single_digit_address_alphabet() {
    let out = to_arb_base(Big::from_u64(63), &address_alphabet());
    assert_eq!(text(&out), "_");
}

#[test]
fn sixty_four_needs_two_digits() {
    let out = to_arb_base(Big::from_u64(64), &address_alphabet());
    assert_eq!(text(&out), "BA");
}

#[test]
fn page_text_to_address_digits() {
    // 'b' has ordinal 2 and 'a' ordinal 1, so "ba" is 2 * 29 + 1 = 59,
    // which is the single address symbol '7'.
    let v = from_arb_base(&chars("ba"), &page_alphabet()).unwrap();
    let out = to_arb_base(v, &address_alphabet());
    assert_eq!(text(&out), "7");
}

#[test]
fn bijection_round_trip_address_alphabet() {
    // to_integer(from_integer(v)) == v, checked through the string side:
    // re-encoding the decoded value gives the canonical numeral back.
    let set = address_alphabet();
    let v = from_arb_base(&chars("Babel"), &set).unwrap();
    let out = to_arb_base(v, &set);
    assert_eq!(text(&out), "Babel");
}

#[test]
fn bijection_round_trip_page_alphabet() {
    let set = page_alphabet();
    let v = from_arb_base(&chars("hello, library."), &set).unwrap();
    let out = to_arb_base(v, &set);
    assert_eq!(text(&out), "hello, library.");
}

#[test]
fn leading_zero_symbols_are_dropped() {
    // a leading space is a leading zero digit: it does not survive the
    // round trip through the integer.
    let set = page_alphabet();
    let v = from_arb_base(&chars("  ab"), &set).unwrap();
    let out = to_arb_base(v, &set);
    assert_eq!(text(&out), "ab");
}

#[test]
fn empty_text_is_zero() {
    let set = page_alphabet();
    let v = from_arb_base(&chars(""), &set).unwrap();
    assert!(v.is_zero());
}

#[test]
fn unknown_symbol_is_rejected() {
    let e = from_arb_base(&chars("abc!"), &page_alphabet()).unwrap_err();
    assert_eq!(e, BabelError::UnknownSymbolError);
}

#[test]
fn uppercase_is_unknown_in_page_alphabet() {
    let e = from_arb_base(&chars("Hello"), &page_alphabet()).unwrap_err();
    assert_eq!(e, BabelError::UnknownSymbolError);
}

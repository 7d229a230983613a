//! Tests for parsing the textual address representation.

use babel::{parse_address, read, search_at, AddressField, BabelError};

#[test]
fn all_fields_at_their_bounds_are_out_of_range() {
    // every numeric field sits exactly at its exclusive upper bound; the
    // first one checked, the wall, decides the error.
    let e = parse_address("4:5:32:410:ABC").unwrap_err();
    assert_eq!(e, BabelError::LocationOutOfRangeError(AddressField::Wall));
}

#[test]
fn shelf_at_bound_is_out_of_range() {
    let e = parse_address("0:5:0:0:ABC").unwrap_err();
    assert_eq!(e, BabelError::LocationOutOfRangeError(AddressField::Shelf));
}

#[test]
fn volume_at_bound_is_out_of_range() {
    let e = parse_address("0:0:32:0:ABC").unwrap_err();
    assert_eq!(e, BabelError::LocationOutOfRangeError(AddressField::Volume));
}

#[test]
fn page_at_bound_is_out_of_range() {
    let e = parse_address("0:0:0:410:ABC").unwrap_err();
    assert_eq!(e, BabelError::LocationOutOfRangeError(AddressField::Page));
}

#[test]
fn four_fields_are_malformed() {
    let e = parse_address("1:2:3:4").unwrap_err();
    assert_eq!(e, BabelError::MalformedAddressError);
}

#[test]
fn six_fields_are_malformed() {
    let e = parse_address("1:2:3:4:ABC:extra").unwrap_err();
    assert_eq!(e, BabelError::MalformedAddressError);
}

#[test]
fn non_numeric_field_is_malformed() {
    let e = parse_address("one:2:3:4:ABC").unwrap_err();
    assert_eq!(e, BabelError::MalformedAddressError);
}

#[test]
fn empty_numeric_field_is_malformed() {
    let e = parse_address("1::3:4:ABC").unwrap_err();
    assert_eq!(e, BabelError::MalformedAddressError);
}

#[test]
fn huge_numeric_field_is_out_of_range() {
    let e = parse_address("99999999999999999999:0:0:0:ABC").unwrap_err();
    assert_eq!(e, BabelError::LocationOutOfRangeError(AddressField::Wall));
}

#[test]
fn valid_address_parses_exactly() {
    let a = parse_address("3:4:31:409:Babel").unwrap();
    assert_eq!(a.wall, 3);
    assert_eq!(a.shelf, 4);
    assert_eq!(a.volume, 31);
    assert_eq!(a.page, 409);
    assert_eq!(a.hex, "Babel");
}

#[test]
fn empty_locator_field_parses_as_empty_string() {
    let a = parse_address("0:0:0:0:").unwrap();
    assert_eq!(a.hex, "");
}

#[test]
fn rendered_address_has_colon_separated_fields() {
    let a = parse_address("3:4:31:409:Babel").unwrap();
    assert_eq!(a.to_text(), "3:4:31:409:Babel");
}

#[test]
fn rendering_zero_fields_writes_zero_digits() {
    let a = parse_address("0:0:0:0:A").unwrap();
    assert_eq!(a.to_text(), "0:0:0:0:A");
}

#[test]
fn parsed_address_round_trips_through_read() {
    let encoded = search_at("a page in the library", 2, 3, 17, 100).unwrap();
    let rendered = encoded.to_text();
    let parsed = parse_address(&rendered).unwrap();
    assert_eq!(parsed.wall, 2);
    assert_eq!(parsed.shelf, 3);
    assert_eq!(parsed.volume, 17);
    assert_eq!(parsed.page, 100);
    assert_eq!(parsed.hex, encoded.hex);
    let page = read(&parsed).unwrap();
    assert!(page.starts_with("a page in the library"));
}

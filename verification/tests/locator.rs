//! Tests for encoding, decoding and padding whole pages.

use babel::{normalize, pad_rand, read, search, search_at, Address, AddressField, BabelError,
    PAGE_LENGTH};

#[test]
fn hello_round_trips_at_fixed_location() {
    // encoding "hello" at (1, 2, 3, 4) and reading the address back with
    // the same location yields "hello" right-padded with spaces.
    let addr = search_at("hello", 1, 2, 3, 4).unwrap();
    assert_eq!(addr.wall, 1);
    assert_eq!(addr.shelf, 2);
    assert_eq!(addr.volume, 3);
    assert_eq!(addr.page, 4);
    let page = read(&addr).unwrap();
    let mut expected = String::from("hello");
    while expected.chars().count() < PAGE_LENGTH {
        expected.push(' ');
    }
    assert_eq!(page, expected);
}

#[test]
fn empty_query_round_trips_to_blank_page() {
    // the empty text encodes as content zero; at the all-zero location the
    // whole combined integer is zero as well.
    let addr = search_at("", 0, 0, 0, 0).unwrap();
    assert_eq!(addr.hex, "A");
    let page = read(&addr).unwrap();
    assert_eq!(page.chars().count(), PAGE_LENGTH);
    assert!(page.chars().all(|c| c == ' '));
}

#[test]
fn locator_string_is_deterministic() {
    // the content term is independent of any randomness: encoding the same
    // text at the same location twice gives the same locator string.
    let a = search_at("hello", 1, 2, 3, 4).unwrap();
    let b = search_at("hello", 1, 2, 3, 4).unwrap();
    assert_eq!(a.hex, b.hex);
}

#[test]
fn different_locations_give_different_locator_strings() {
    let a = search_at("hello", 1, 2, 3, 4).unwrap();
    let b = search_at("hello", 0, 0, 0, 0).unwrap();
    assert_ne!(a.hex, b.hex);
}

#[test]
fn search_round_trips_at_random_location() {
    let addr = search("the library of babel").unwrap();
    assert!(addr.wall < 4 && addr.shelf < 5 && addr.volume < 32 && addr.page < 410);
    let page = read(&addr).unwrap();
    assert_eq!(page, normalize("the library of babel"));
}

#[test]
fn search_rejects_foreign_symbols() {
    let e = search("Hello").unwrap_err();
    assert_eq!(e, BabelError::UnknownSymbolError);
}

#[test]
fn normalize_pads_and_truncates() {
    let empty = normalize("");
    assert_eq!(empty.chars().count(), PAGE_LENGTH);
    assert!(empty.chars().all(|c| c == ' '));

    let long: String = std::iter::repeat('a').take(PAGE_LENGTH + 7).collect();
    let cut = normalize(&long);
    assert_eq!(cut.chars().count(), PAGE_LENGTH);
    assert!(cut.chars().all(|c| c == 'a'));
}

#[test]
fn read_rejects_out_of_range_wall() {
    let addr = Address { hex: String::from("A"), wall: 4, shelf: 0, volume: 0, page: 0 };
    let e = read(&addr).unwrap_err();
    assert_eq!(e, BabelError::LocationOutOfRangeError(AddressField::Wall));
}

#[test]
fn read_rejects_out_of_range_page() {
    let addr = Address { hex: String::from("A"), wall: 0, shelf: 0, volume: 0, page: 410 };
    let e = read(&addr).unwrap_err();
    assert_eq!(e, BabelError::LocationOutOfRangeError(AddressField::Page));
}

#[test]
fn read_rejects_foreign_locator_symbols() {
    let addr = Address { hex: String::from("AB!"), wall: 0, shelf: 0, volume: 0, page: 0 };
    let e = read(&addr).unwrap_err();
    assert_eq!(e, BabelError::UnknownSymbolError);
}

#[test]
fn any_valid_address_reads_to_a_full_page() {
    // a location different from the one used at encode time still decodes,
    // just to some other page of the library.
    let addr = search_at("hello", 1, 2, 3, 4).unwrap();
    let other = Address { hex: addr.hex.clone(), wall: 0, shelf: 1, volume: 2, page: 3 };
    let page = read(&other).unwrap();
    assert_eq!(page.chars().count(), PAGE_LENGTH);
}

#[test]
fn pad_rand_keeps_full_text_unchanged() {
    let long: String = std::iter::repeat('x').take(PAGE_LENGTH).collect();
    assert_eq!(pad_rand(&long), long);
    let longer: String = std::iter::repeat('x').take(PAGE_LENGTH + 3).collect();
    assert_eq!(pad_rand(&longer), longer);
}

#[test]
fn pad_rand_embeds_text_in_full_page() {
    let padded = pad_rand("hello");
    assert_eq!(padded.chars().count(), PAGE_LENGTH);
    assert!(padded.contains("hello"));
    let set = babel::page_alphabet();
    assert!(padded.chars().all(|c| set.contains(&c)));
}

#[test]
fn padded_page_encodes_and_round_trips() {
    let padded = pad_rand("noisy page");
    let addr = search_at(&padded, 3, 4, 31, 409).unwrap();
    let page = read(&addr).unwrap();
    assert_eq!(page, padded);
}

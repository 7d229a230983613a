//! A library of every possible page: a reversible mapping between short text
//! and a compact address inside an endless hexagonal library.
//!
//! A page is a fixed-width string over a 29-symbol alphabet.  Encoding turns a
//! page into an unbounded integer, folds a bounded shelf location into it, and
//! renders the sum over a 64-symbol address alphabet; decoding reverses the
//! chain exactly.

use vstd::prelude::*;

pub mod alphabet;
pub mod bignum;
pub mod codec;
pub mod locator;
pub mod parse;
pub mod text;

pub use crate::alphabet::{address_alphabet, page_alphabet};
pub use crate::bignum::Big;
pub use crate::codec::{from_arb_base, to_arb_base};
pub use crate::locator::{normalize, pad_rand, read, search, search_at, Address};
pub use crate::parse::parse_address;

verus! {

/// Number of symbol rows on one page.
pub const ROWS: usize = 40;

/// Number of symbols in one row of a page.
pub const COLUMNS: usize = 80;

/// Every normalized page holds exactly this many symbols.
pub const PAGE_LENGTH: usize = 3200;

/// The four bounded coordinates of a location within one hexagon.
#[derive(Clone, Copy, Debug, PartialEq, Eq, Structural)]
pub enum AddressField {
    Wall,
    Shelf,
    Volume,
    Page,
}

/// Everything that can go wrong with caller-supplied data.  Each error is
/// deterministic and indicates invalid input, never a transient condition.
#[derive(Clone, Copy, Debug, PartialEq, Eq, Structural)]
pub enum BabelError {
    /// A symbol of the input is not drawn from the active alphabet.
    UnknownSymbolError,
    /// The named location coordinate is at or above its exclusive bound.
    LocationOutOfRangeError(AddressField),
    /// An address text does not have five colon-separated fields, or a
    /// numeric field holds a non-digit or is empty.
    MalformedAddressError,
}

} // verus!

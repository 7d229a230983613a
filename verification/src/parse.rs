//! Parsing of the textual address representation
//! `wall:shelf:volume:page:locator`.
//!
//! The text must split on `:` into exactly five fields; the first four are
//! decimal numerals checked, in order, against their exclusive bounds 4, 5,
//! 32 and 410.  A wrong field count or a non-numeric field is a malformed
//! address; a numeric field at or above its bound is an out-of-range
//! location coordinate.

use crate::alphabet::{dec_alpha, dec_alphabet, find_index, lemma_dec_alpha_distinct};
use crate::codec::{all_in_set, lemma_to_int_nonneg, lemma_to_int_push, to_int_rec};
use crate::locator::Address;
use crate::text::{chars_string, str_chars};
use crate::{AddressField, BabelError};
use vstd::prelude::*;

verus! {

/// The fields of `s` split on the colon symbol; always at least one field.
pub open spec fn split_colon(s: Seq<char>) -> Seq<Seq<char>>
    decreases s.len(),
{
    if s.len() == 0 {
        seq![Seq::<char>::empty()]
    } else if s.last() == ':' {
        split_colon(s.drop_last()).push(Seq::<char>::empty())
    } else {
        let r = split_colon(s.drop_last());
        r.update(r.len() - 1, r.last().push(s.last()))
    }
}

/// A numeric address field: non-empty and all decimal digits.
pub open spec fn field_ok(f: Seq<char>) -> bool {
    f.len() >= 1 && all_in_set(f, dec_alpha())
}

/// Value of a numeric address field read as a decimal numeral.
pub open spec fn dec_value(f: Seq<char>) -> int {
    to_int_rec(f, dec_alpha())
}

/// Exclusive upper bound of the `i`-th numeric address field.
pub open spec fn field_bound(i: int) -> int {
    if i == 0 {
        4
    } else if i == 1 {
        5
    } else if i == 2 {
        32
    } else {
        410
    }
}

/// Name of the `i`-th numeric address field.
pub open spec fn field_name(i: int) -> AddressField {
    if i == 0 {
        AddressField::Wall
    } else if i == 1 {
        AddressField::Shelf
    } else if i == 2 {
        AddressField::Volume
    } else {
        AddressField::Page
    }
}

/// The first error among the four numeric fields, checked in order, or
/// `None` when all four are well-formed and within bounds.
pub open spec fn check_fields(fs: Seq<Seq<char>>, i: int) -> Option<BabelError>
    decreases 4 - i,
{
    if i < 0 || i >= 4 {
        None
    } else if !field_ok(fs[i]) {
        Some(BabelError::MalformedAddressError)
    } else if dec_value(fs[i]) >= field_bound(i) {
        Some(BabelError::LocationOutOfRangeError(field_name(i)))
    } else {
        check_fields(fs, i + 1)
    }
}

/// The colon-separated fields of `chars`, in order.
fn split_fields(chars: &Vec<char>) -> (r: Vec<Vec<char>>)
    ensures
        r@.map_values(|f: Vec<char>| f@) == split_colon(chars@),
        r@.len() == split_colon(chars@).len(),
{
    let mut done: Vec<Vec<char>> = Vec::new();
    let mut cur: Vec<char> = Vec::new();
    let mut i: usize = 0;
    proof {
        assert(chars@.take(0) =~= Seq::<char>::empty());
        assert(done@.map_values(|f: Vec<char>| f@).push(cur@) =~~= split_colon(chars@.take(0)));
    }
    while i < chars.len()
        invariant
            i <= chars@.len(),
            split_colon(chars@.take(i as int)) == done@.map_values(|f: Vec<char>| f@).push(cur@),
        decreases chars@.len() - i,
    {
        let ghost prev = split_colon(chars@.take(i as int));
        let ghost old_done = done@;
        let ghost old_cur = cur@;
        let c = chars[i];
        proof {
            assert(chars@.take(i + 1).drop_last() =~= chars@.take(i as int));
            assert(chars@.take(i + 1).last() == chars@[i as int]);
        }
        if c == ':' {
            done.push(cur);
            cur = Vec::new();
            proof {
                assert(split_colon(chars@.take(i + 1)) == prev.push(Seq::<char>::empty()));
                assert(done@.map_values(|f: Vec<char>| f@).push(cur@) =~~= prev.push(
                    Seq::<char>::empty(),
                ));
            }
        } else {
            cur.push(c);
            proof {
                assert(split_colon(chars@.take(i + 1)) == prev.update(
                    prev.len() - 1,
                    prev.last().push(chars@[i as int]),
                ));
                assert(done@.map_values(|f: Vec<char>| f@).push(cur@) =~~= prev.update(
                    prev.len() - 1,
                    prev.last().push(chars@[i as int]),
                ));
            }
        }
        i += 1;
    }
    done.push(cur);
    proof {
        assert(chars@.take(chars@.len() as int) =~= chars@);
        assert(done@.map_values(|f: Vec<char>| f@) =~~= split_colon(chars@));
    }
    done
}

/// Value of a decimal field, capped at 1000, which is above every location
/// bound; `None` when the field is empty or holds a non-digit.
fn parse_dec_capped(f: &Vec<char>) -> (r: Option<u64>)
    ensures
        match r {
            Some(v) => field_ok(f@) && ((v as int == dec_value(f@) && v < 1000) || (v == 1000
                && dec_value(f@) >= 1000)),
            None => !field_ok(f@),
        },
{
    if f.len() == 0 {
        return None;
    }
    let dset = dec_alphabet();
    proof {
        lemma_dec_alpha_distinct();
    }
    let mut val: u64 = 0;
    let mut i: usize = 0;
    proof {
        assert(f@.take(0) =~= Seq::<char>::empty());
    }
    while i < f.len()
        invariant
            dset@ == dec_alpha(),
            i <= f@.len(),
            all_in_set(f@.take(i as int), dec_alpha()),
            (val as int == dec_value(f@.take(i as int)) && val < 1000) || (val == 1000
                && dec_value(f@.take(i as int)) >= 1000),
        decreases f@.len() - i,
    {
        let d = match find_index(&dset, f[i]) {
            Some(d) => d,
            None => {
                assert(!all_in_set(f@, dec_alpha()));
                return None;
            },
        };
        proof {
            assert(f@.take(i as int).push(f@[i as int]) =~= f@.take(i + 1));
            lemma_to_int_push(f@.take(i as int), dec_alpha(), f@[i as int]);
            assert(all_in_set(f@.take(i + 1), dec_alpha())) by {
                assert(forall|j: int| 0 <= j < i + 1 ==> f@.take(i + 1)[j] == f@[j]);
            }
        }
        if val < 1000 {
            val = val * 10 + (d as u64);
            if val > 1000 {
                val = 1000;
            }
        }
        i += 1;
    }
    proof {
        assert(f@.take(f@.len() as int) =~= f@);
    }
    Some(val)
}

/// Parse the textual address `wall:shelf:volume:page:locator`.  The text
/// must split into exactly five fields; the numeric fields are checked in
/// order against their bounds, and the first offending field decides the
/// error.  The locator field itself is taken verbatim; its symbols are only
/// checked when the address is read.
pub fn parse_address(text: &str) -> (r: Result<Address, BabelError>)
    ensures
        ({
            let fs = split_colon(text@);
            &&& (fs.len() != 5 ==> r == Err::<Address, BabelError>(
                BabelError::MalformedAddressError,
            ))
            &&& (fs.len() == 5 ==> match check_fields(fs, 0) {
                Some(e) => r == Err::<Address, BabelError>(e),
                None => match r {
                    Ok(a) => {
                        &&& a.wall == dec_value(fs[0])
                        &&& a.shelf == dec_value(fs[1])
                        &&& a.volume == dec_value(fs[2])
                        &&& a.page == dec_value(fs[3])
                        &&& a.hex@ == fs[4]
                    },
                    Err(_) => false,
                },
            })
        }),
{
    let chars = str_chars(text);
    let fields = split_fields(&chars);
    let ghost fs = split_colon(text@);
    if fields.len() != 5 {
        return Err(BabelError::MalformedAddressError);
    }
    proof {
        assert forall|k: int| 0 <= k < 5 implies fs[k] == fields@[k]@ by {
            assert(fields@.map_values(|f: Vec<char>| f@)[k] == fields@[k]@);
        }
    }
    let wall: u32 = match parse_dec_capped(&fields[0]) {
        None => {
            return Err(BabelError::MalformedAddressError);
        },
        Some(v) => {
            if v >= 4 {
                return Err(BabelError::LocationOutOfRangeError(AddressField::Wall));
            }
            proof {
                assert(field_ok(fs[0]) && dec_value(fs[0]) < 4);
                assert(check_fields(fs, 0) == check_fields(fs, 1));
            }
            v as u32
        },
    };
    let shelf: u32 = match parse_dec_capped(&fields[1]) {
        None => {
            return Err(BabelError::MalformedAddressError);
        },
        Some(v) => {
            if v >= 5 {
                return Err(BabelError::LocationOutOfRangeError(AddressField::Shelf));
            }
            proof {
                assert(field_ok(fs[1]) && dec_value(fs[1]) < 5);
                assert(check_fields(fs, 1) == check_fields(fs, 2));
            }
            v as u32
        },
    };
    let volume: u32 = match parse_dec_capped(&fields[2]) {
        None => {
            return Err(BabelError::MalformedAddressError);
        },
        Some(v) => {
            if v >= 32 {
                return Err(BabelError::LocationOutOfRangeError(AddressField::Volume));
            }
            proof {
                assert(field_ok(fs[2]) && dec_value(fs[2]) < 32);
                assert(check_fields(fs, 2) == check_fields(fs, 3));
            }
            v as u32
        },
    };
    let page: u32 = match parse_dec_capped(&fields[3]) {
        None => {
            return Err(BabelError::MalformedAddressError);
        },
        Some(v) => {
            if v >= 410 {
                return Err(BabelError::LocationOutOfRangeError(AddressField::Page));
            }
            proof {
                assert(field_ok(fs[3]) && dec_value(fs[3]) < 410);
                assert(check_fields(fs, 3) == check_fields(fs, 4));
            }
            v as u32
        },
    };
    let hex = chars_string(&fields[4]);
    Ok(Address { hex, wall, shelf, volume, page })
}

} // verus!

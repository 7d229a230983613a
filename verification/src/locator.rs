//! The locator codec: a page of text to an address in the library and back.
//!
//! Encoding normalizes the text to `PAGE_LENGTH` symbols, reads it as a
//! base-29 integer, folds a bounded shelf location into the integer with a
//! `30^PAGE_LENGTH` multiplier, and writes the sum over the 64-symbol
//! address alphabet.  Because a page's integer is always below the
//! multiplier, the two terms never overlap, and decoding with the same
//! location recovers the page exactly.

use crate::alphabet::{
    addr_alpha, address_alphabet, dec_alpha, dec_alphabet, digit_of, in_set,
    lemma_addr_alpha_distinct, lemma_digit_of_index, lemma_page_alpha_distinct, page_alpha,
    page_alphabet,
};
use crate::bignum::{big_add, big_ge, big_mul_u64, big_sub, Big};
use crate::codec::{
    all_in_set, from_arb_base, from_int_rec, lemma_alphabet_bijection, lemma_from_int_len,
    lemma_to_int_bound, lemma_to_int_injective, lemma_to_int_nonneg, lemma_to_int_prepend_first,
    to_arb_base, to_int_rec,
};
use crate::text::{chars_string, str_chars};
use crate::{AddressField, BabelError, PAGE_LENGTH};
use vstd::arithmetic::mul::lemma_mul_nonnegative;
use vstd::arithmetic::power::{lemma_pow0, lemma_pow1, lemma_pow_adds, lemma_pow_positive, pow};
use vstd::prelude::*;
use vstd::string::StrSliceExecFns;

verus! {

/// A position in the library: the encoded locator string plus the four
/// bounded coordinates of the shelf location inside one hexagon.
#[derive(Debug)]
pub struct Address {
    pub hex: String,
    pub wall: u32,
    pub shelf: u32,
    pub volume: u32,
    pub page: u32,
}

/// The textual form of an address: the four location coordinates as decimal
/// numerals and the locator string, separated by colons.
pub open spec fn address_text_spec(hex: Seq<char>, w: nat, s: nat, v: nat, p: nat) -> Seq<char> {
    from_int_rec(w, dec_alpha()) + seq![':'] + from_int_rec(s, dec_alpha()) + seq![':']
        + from_int_rec(v, dec_alpha()) + seq![':'] + from_int_rec(p, dec_alpha()) + seq![':'] + hex
}

/// Appends every symbol of `src` to `dst`, in order.
fn append_chars(dst: &mut Vec<char>, src: &Vec<char>)
    ensures
        final(dst)@ == old(dst)@ + src@,
{
    let mut i: usize = 0;
    proof {
        assert(dst@ =~= old(dst)@ + src@.take(0));
    }
    while i < src.len()
        invariant
            i <= src@.len(),
            dst@ == old(dst)@ + src@.take(i as int),
        decreases src@.len() - i,
    {
        dst.push(src[i]);
        proof {
            assert(dst@ =~= old(dst)@ + src@.take(i + 1));
        }
        i += 1;
    }
    proof {
        assert(src@.take(src@.len() as int) =~= src@);
    }
}

impl Address {
    /// The textual representation `wall:shelf:volume:page:locator`, the
    /// form that `parse_address` reads.
    pub fn to_text(&self) -> (r: String)
        ensures
            r@ == address_text_spec(
                self.hex@,
                self.wall as nat,
                self.shelf as nat,
                self.volume as nat,
                self.page as nat,
            ),
    {
        let dset = dec_alphabet();
        let mut out = to_arb_base(Big::from_u64(self.wall as u64), &dset);
        out.push(':');
        proof {
            assert(out@ =~= from_int_rec(self.wall as nat, dec_alpha()) + seq![':']);
        }
        append_chars(&mut out, &to_arb_base(Big::from_u64(self.shelf as u64), &dset));
        out.push(':');
        append_chars(&mut out, &to_arb_base(Big::from_u64(self.volume as u64), &dset));
        out.push(':');
        append_chars(&mut out, &to_arb_base(Big::from_u64(self.page as u64), &dset));
        out.push(':');
        let hex_chars = str_chars(self.hex.as_str());
        append_chars(&mut out, &hex_chars);
        proof {
            assert(out@ =~= address_text_spec(
                self.hex@,
                self.wall as nat,
                self.shelf as nat,
                self.volume as nat,
                self.page as nat,
            ));
        }
        chars_string(&out)
    }
}

/// The four location coordinates packed into one integer with fixed decimal
/// weights; distinct in-bounds tuples pack to distinct integers.
pub open spec fn pack(w: int, s: int, v: int, p: int) -> int {
    w * 1000000 + s * 100000 + v * 1000 + p
}

/// A text brought to exactly `PAGE_LENGTH` symbols: longer text is
/// truncated, shorter text is right-padded with spaces.
pub open spec fn normalize_spec(t: Seq<char>) -> Seq<char> {
    if t.len() >= PAGE_LENGTH {
        t.take(PAGE_LENGTH as int)
    } else {
        t + Seq::new((PAGE_LENGTH - t.len()) as nat, |i: int| ' ')
    }
}

/// A decoded numeral brought to exactly `PAGE_LENGTH` symbols: a longer one
/// is truncated, a shorter one is left-padded with the page alphabet's
/// first symbol (the space), which is its zero digit.
pub open spec fn fit_page(s: Seq<char>) -> Seq<char> {
    if s.len() >= PAGE_LENGTH {
        s.take(PAGE_LENGTH as int)
    } else {
        Seq::new((PAGE_LENGTH - s.len()) as nat, |i: int| ' ') + s
    }
}

/// The locator string that encoding `t` at the given location produces: the
/// address-alphabet numeral of the page's integer plus the packed location
/// times `30^PAGE_LENGTH`.
pub open spec fn encode_hex_spec(t: Seq<char>, w: int, s: int, v: int, p: int) -> Seq<char> {
    from_int_rec(
        (to_int_rec(normalize_spec(t), page_alpha()) + pack(w, s, v, p) * pow(
            30,
            PAGE_LENGTH as nat,
        )) as nat,
        addr_alpha(),
    )
}

/// The page that decoding the locator string `hex` at the given location
/// yields: the magnitude of the locator's integer minus the location term,
/// written over the page alphabet and fitted to the page width.
pub open spec fn read_spec(hex: Seq<char>, w: int, s: int, v: int, p: int) -> Seq<char> {
    let combined = to_int_rec(hex, addr_alpha());
    let shelf_term = pack(w, s, v, p) * pow(30, PAGE_LENGTH as nat);
    let content = if combined >= shelf_term {
        combined - shelf_term
    } else {
        shelf_term - combined
    };
    fit_page(from_int_rec(content as nat, page_alpha()))
}

#[verifier::external_type_specification]
#[verifier::external_body]
pub struct ExThreadRng(rand::rngs::ThreadRng);

/// Relies on rand's `rng`: a handle to the thread-local random generator.
#[verifier::external_body]
fn make_rng() -> rand::rngs::ThreadRng {
    rand::rng()
}

/// Relies on rand's `RngExt::random_range` over `0..n`: a value uniformly
/// drawn from `[0, n)`; the range is never empty, so the call cannot panic.
#[verifier::external_body]
fn rand_below(rng: &mut rand::rngs::ThreadRng, n: u32) -> (r: u32)
    requires
        1 <= n,
    ensures
        r < n,
{
    <rand::rngs::ThreadRng as rand::RngExt>::random_range(rng, 0..n)
}

/// `30^PAGE_LENGTH`, the multiplier separating the content term from the
/// location term.
fn pow30_page() -> (r: Big)
    ensures
        r@ == pow(30, PAGE_LENGTH as nat),
{
    let mut acc = Big::from_u64(1);
    let mut i: usize = 0;
    proof {
        lemma_pow0(30);
    }
    while i < PAGE_LENGTH
        invariant
            i <= PAGE_LENGTH,
            acc@ == pow(30, i as nat),
        decreases PAGE_LENGTH - i,
    {
        acc = big_mul_u64(&acc, 30);
        proof {
            lemma_pow_adds(30, i as nat, 1);
            lemma_pow1(30);
        }
        i += 1;
    }
    acc
}

/// The space is the page alphabet's first symbol, hence its zero digit.
proof fn lemma_space_digit()
    ensures
        digit_of(page_alpha(), ' ') == 0,
        in_set(page_alpha(), ' '),
{
    assert(page_alpha()[0] == ' ');
}

/// Normalizing page-alphabet text keeps every symbol in the page alphabet
/// and yields exactly `PAGE_LENGTH` symbols.
proof fn lemma_normalize_all_in_set(t: Seq<char>)
    requires
        all_in_set(t, page_alpha()),
    ensures
        all_in_set(normalize_spec(t), page_alpha()),
        normalize_spec(t).len() == PAGE_LENGTH,
{
    lemma_space_digit();
    let nrm = normalize_spec(t);
    if t.len() >= PAGE_LENGTH {
        assert forall|i: int| 0 <= i < nrm.len() implies in_set(page_alpha(), nrm[i]) by {
            assert(nrm[i] == t[i]);
        }
    } else {
        assert forall|i: int| 0 <= i < nrm.len() implies in_set(page_alpha(), nrm[i]) by {
            if i < t.len() {
                assert(nrm[i] == t[i]);
            } else {
                assert(nrm[i] == ' ');
            }
        }
    }
}

/// `chars` brought to exactly `PAGE_LENGTH` symbols by truncation or
/// right-padding with spaces.
fn normalize_chars(chars: &Vec<char>) -> (r: Vec<char>)
    ensures
        r@ == normalize_spec(chars@),
{
    let mut page: Vec<char> = Vec::new();
    if chars.len() >= PAGE_LENGTH {
        let mut i: usize = 0;
        proof {
            assert(page@ =~= chars@.take(0));
        }
        while i < PAGE_LENGTH
            invariant
                chars@.len() >= PAGE_LENGTH,
                i <= PAGE_LENGTH,
                page@ == chars@.take(i as int),
            decreases PAGE_LENGTH - i,
        {
            page.push(chars[i]);
            proof {
                assert(chars@.take(i as int).push(chars@[i as int]) =~= chars@.take(i + 1));
            }
            i += 1;
        }
    } else {
        let mut i: usize = 0;
        proof {
            assert(page@ =~= chars@.take(0));
        }
        while i < chars.len()
            invariant
                i <= chars@.len(),
                page@ == chars@.take(i as int),
            decreases chars@.len() - i,
        {
            page.push(chars[i]);
            proof {
                assert(chars@.take(i as int).push(chars@[i as int]) =~= chars@.take(i + 1));
            }
            i += 1;
        }
        proof {
            assert(chars@.take(chars@.len() as int) =~= chars@);
        }
        while page.len() < PAGE_LENGTH
            invariant
                chars@.len() < PAGE_LENGTH,
                chars@.len() <= page@.len() <= PAGE_LENGTH,
                page@ == chars@ + Seq::new((page@.len() - chars@.len()) as nat, |x: int| ' '),
            decreases PAGE_LENGTH - page@.len(),
        {
            page.push(' ');
            proof {
                assert(page@ =~= chars@ + Seq::new(
                    (page@.len() - chars@.len()) as nat,
                    |x: int| ' ',
                ));
            }
        }
    }
    page
}

/// `digits` brought to exactly `PAGE_LENGTH` symbols by truncation or
/// left-padding with spaces.
fn fit_page_chars(digits: &Vec<char>) -> (r: Vec<char>)
    ensures
        r@ == fit_page(digits@),
{
    let mut out: Vec<char> = Vec::new();
    if digits.len() >= PAGE_LENGTH {
        let mut i: usize = 0;
        proof {
            assert(out@ =~= digits@.take(0));
        }
        while i < PAGE_LENGTH
            invariant
                digits@.len() >= PAGE_LENGTH,
                i <= PAGE_LENGTH,
                out@ == digits@.take(i as int),
            decreases PAGE_LENGTH - i,
        {
            out.push(digits[i]);
            proof {
                assert(digits@.take(i as int).push(digits@[i as int]) =~= digits@.take(i + 1));
            }
            i += 1;
        }
    } else {
        let pad: usize = PAGE_LENGTH - digits.len();
        let mut i: usize = 0;
        proof {
            assert(out@ =~= Seq::new(0, |x: int| ' '));
        }
        while i < pad
            invariant
                i <= pad,
                out@ == Seq::new(i as nat, |x: int| ' '),
            decreases pad - i,
        {
            out.push(' ');
            proof {
                assert(out@ =~= Seq::new((i + 1) as nat, |x: int| ' '));
            }
            i += 1;
        }
        let ghost pad_seq = Seq::new(pad as nat, |x: int| ' ');
        let mut j: usize = 0;
        proof {
            assert(out@ =~= pad_seq + digits@.take(0));
        }
        while j < digits.len()
            invariant
                j <= digits@.len(),
                pad == PAGE_LENGTH - digits@.len(),
                digits@.len() < PAGE_LENGTH,
                pad_seq == Seq::new(pad as nat, |x: int| ' '),
                out@ == pad_seq + digits@.take(j as int),
            decreases digits@.len() - j,
        {
            out.push(digits[j]);
            proof {
                assert(out@ =~= pad_seq + digits@.take(j + 1));
            }
            j += 1;
        }
        proof {
            assert(digits@.take(digits@.len() as int) =~= digits@);
        }
    }
    out
}

/// The text `value` brought to exactly `PAGE_LENGTH` symbols: truncated
/// when longer, right-padded with spaces when shorter.  Total over any
/// input.
pub fn normalize(value: &str) -> (r: String)
    ensures
        r@ == normalize_spec(value@),
{
    let chars = str_chars(value);
    let page = normalize_chars(&chars);
    chars_string(&page)
}

/// Encode `value` as the page at the given, caller-fixed shelf location.
/// The locator string is a deterministic function of the text and the
/// location; the call fails exactly when the normalized text holds a symbol
/// outside the page alphabet.
pub fn search_at(value: &str, wall: u32, shelf: u32, volume: u32, page: u32) -> (r: Result<
    Address,
    BabelError,
>)
    requires
        wall < 4,
        shelf < 5,
        volume < 32,
        page < 410,
    ensures
        match r {
            Ok(a) => {
                &&& all_in_set(normalize_spec(value@), page_alpha())
                &&& a.wall == wall
                &&& a.shelf == shelf
                &&& a.volume == volume
                &&& a.page == page
                &&& a.hex@ == encode_hex_spec(
                    value@,
                    wall as int,
                    shelf as int,
                    volume as int,
                    page as int,
                )
            },
            Err(e) => e == BabelError::UnknownSymbolError && !all_in_set(
                normalize_spec(value@),
                page_alpha(),
            ),
        },
{
    let chars = str_chars(value);
    let page_chars = normalize_chars(&chars);
    let pset = page_alphabet();
    proof {
        lemma_page_alpha_distinct();
    }
    let content = match from_arb_base(&page_chars, &pset) {
        Ok(c) => c,
        Err(_) => {
            return Err(BabelError::UnknownSymbolError);
        },
    };
    let loc: u64 = (wall as u64) * 1000000 + (shelf as u64) * 100000 + (volume as u64) * 1000 + (
    page as u64);
    let mul = pow30_page();
    let shelf_term = big_mul_u64(&mul, loc);
    let combined = big_add(&content, &shelf_term);
    let aset = address_alphabet();
    proof {
        lemma_addr_alpha_distinct();
        lemma_to_int_nonneg(page_chars@, page_alpha());
        assert(loc as int == pack(wall as int, shelf as int, volume as int, page as int));
        assert(combined@ == to_int_rec(normalize_spec(value@), page_alpha()) + pack(
            wall as int,
            shelf as int,
            volume as int,
            page as int,
        ) * pow(30, PAGE_LENGTH as nat));
    }
    let hex_chars = to_arb_base(combined, &aset);
    let hex = chars_string(&hex_chars);
    Ok(Address { hex, wall, shelf, volume, page })
}

/// Encode `value` as a page at a freshly drawn random shelf location.  The
/// location is random; the locator string is the deterministic encoding of
/// the text at that location.
pub fn search(value: &str) -> (r: Result<Address, BabelError>)
    ensures
        match r {
            Ok(a) => {
                &&& a.wall < 4
                &&& a.shelf < 5
                &&& a.volume < 32
                &&& a.page < 410
                &&& all_in_set(normalize_spec(value@), page_alpha())
                &&& a.hex@ == encode_hex_spec(
                    value@,
                    a.wall as int,
                    a.shelf as int,
                    a.volume as int,
                    a.page as int,
                )
            },
            Err(e) => e == BabelError::UnknownSymbolError && !all_in_set(
                normalize_spec(value@),
                page_alpha(),
            ),
        },
{
    let mut rng = make_rng();
    let wall = rand_below(&mut rng, 4);
    let shelf = rand_below(&mut rng, 5);
    let volume = rand_below(&mut rng, 32);
    let page = rand_below(&mut rng, 410);
    search_at(value, wall, shelf, volume, page)
}

/// Decode the page stored at `addr`.  Out-of-range location coordinates are
/// rejected first, in order; then a locator string with a symbol outside
/// the address alphabet; otherwise the decoded page of exactly
/// `PAGE_LENGTH` symbols is returned.
pub fn read(addr: &Address) -> (r: Result<String, BabelError>)
    ensures
        match r {
            Ok(s) => {
                &&& addr.wall < 4
                &&& addr.shelf < 5
                &&& addr.volume < 32
                &&& addr.page < 410
                &&& all_in_set(addr.hex@, addr_alpha())
                &&& s@ == read_spec(
                    addr.hex@,
                    addr.wall as int,
                    addr.shelf as int,
                    addr.volume as int,
                    addr.page as int,
                )
            },
            Err(e) => match e {
                BabelError::LocationOutOfRangeError(f) => {
                    ||| (f == AddressField::Wall && addr.wall >= 4)
                    ||| (f == AddressField::Shelf && addr.wall < 4 && addr.shelf >= 5)
                    ||| (f == AddressField::Volume && addr.wall < 4 && addr.shelf < 5
                        && addr.volume >= 32)
                    ||| (f == AddressField::Page && addr.wall < 4 && addr.shelf < 5 && addr.volume
                        < 32 && addr.page >= 410)
                },
                BabelError::UnknownSymbolError => addr.wall < 4 && addr.shelf < 5 && addr.volume
                    < 32 && addr.page < 410 && !all_in_set(addr.hex@, addr_alpha()),
                BabelError::MalformedAddressError => false,
            },
        },
{
    if addr.wall >= 4 {
        return Err(BabelError::LocationOutOfRangeError(AddressField::Wall));
    }
    if addr.shelf >= 5 {
        return Err(BabelError::LocationOutOfRangeError(AddressField::Shelf));
    }
    if addr.volume >= 32 {
        return Err(BabelError::LocationOutOfRangeError(AddressField::Volume));
    }
    if addr.page >= 410 {
        return Err(BabelError::LocationOutOfRangeError(AddressField::Page));
    }
    let hex_chars = str_chars(addr.hex.as_str());
    let aset = address_alphabet();
    proof {
        lemma_addr_alpha_distinct();
    }
    let combined = match from_arb_base(&hex_chars, &aset) {
        Ok(c) => c,
        Err(_) => {
            return Err(BabelError::UnknownSymbolError);
        },
    };
    let loc: u64 = (addr.wall as u64) * 1000000 + (addr.shelf as u64) * 100000 + (addr.volume
        as u64) * 1000 + (addr.page as u64);
    let mul = pow30_page();
    let shelf_term = big_mul_u64(&mul, loc);
    let content = if big_ge(&combined, &shelf_term) {
        big_sub(&combined, &shelf_term)
    } else {
        big_sub(&shelf_term, &combined)
    };
    let pset = page_alphabet();
    proof {
        lemma_page_alpha_distinct();
        lemma_to_int_nonneg(hex_chars@, addr_alpha());
        assert(loc as int == pack(
            addr.wall as int,
            addr.shelf as int,
            addr.volume as int,
            addr.page as int,
        ));
    }
    let digits = to_arb_base(content, &pset);
    let fitted = fit_page_chars(&digits);
    Ok(chars_string(&fitted))
}

/// Return `value` unchanged when it already fills a page; otherwise embed
/// it verbatim at a random offset, surrounded by independently drawn random
/// page-alphabet symbols, to exactly `PAGE_LENGTH` symbols.
pub fn pad_rand(value: &str) -> (r: String)
    ensures
        value@.len() >= PAGE_LENGTH ==> r@ == value@,
        value@.len() < PAGE_LENGTH ==> {
            &&& r@.len() == PAGE_LENGTH
            &&& exists|off: int|
                {
                    &&& 0 <= off <= PAGE_LENGTH - value@.len()
                    &&& #[trigger] r@.subrange(off, off + value@.len()) == value@
                    &&& forall|i: int|
                        (0 <= i < off || off + value@.len() <= i < PAGE_LENGTH) ==> in_set(
                            page_alpha(),
                            #[trigger] r@[i],
                        )
                }
        },
{
    let n = value.unicode_len();
    if n >= PAGE_LENGTH {
        return value.to_owned();
    }
    let chars = str_chars(value);
    let pset = page_alphabet();
    proof {
        lemma_page_alpha_distinct();
    }
    let mut rng = make_rng();
    let slots: u32 = (PAGE_LENGTH - n + 1) as u32;
    let before = rand_below(&mut rng, slots) as usize;
    let mut page: Vec<char> = Vec::new();
    let mut i: usize = 0;
    while i < before
        invariant
            pset@ == page_alpha(),
            i <= before,
            page@.len() == i,
            forall|j: int| 0 <= j < i ==> in_set(page_alpha(), #[trigger] page@[j]),
        decreases before - i,
    {
        let d = rand_below(&mut rng, 29);
        page.push(pset[d as usize]);
        proof {
            lemma_digit_of_index(page_alpha(), d as int);
        }
        i += 1;
    }
    let ghost pre = page@;
    let mut j: usize = 0;
    proof {
        assert(page@ =~= pre + chars@.take(0));
    }
    while j < chars.len()
        invariant
            j <= chars@.len(),
            page@ == pre + chars@.take(j as int),
        decreases chars@.len() - j,
    {
        page.push(chars[j]);
        proof {
            assert(page@ =~= pre + chars@.take(j + 1));
        }
        j += 1;
    }
    proof {
        assert(chars@.take(chars@.len() as int) =~= chars@);
        assert(page@ == pre + chars@);
    }
    while page.len() < PAGE_LENGTH
        invariant
            pset@ == page_alpha(),
            pre.len() + chars@.len() <= page@.len() <= PAGE_LENGTH,
            pre.len() + chars@.len() <= PAGE_LENGTH,
            page@.subrange(0, pre.len() as int) == pre,
            page@.subrange(pre.len() as int, (pre.len() + chars@.len()) as int) == chars@,
            forall|j: int| 0 <= j < pre.len() ==> in_set(page_alpha(), #[trigger] page@[j]),
            forall|j: int|
                pre.len() + chars@.len() <= j < page@.len() ==> in_set(
                    page_alpha(),
                    #[trigger] page@[j],
                ),
        decreases PAGE_LENGTH - page@.len(),
    {
        let ghost old_page = page@;
        let d = rand_below(&mut rng, 29);
        page.push(pset[d as usize]);
        proof {
            lemma_digit_of_index(page_alpha(), d as int);
            assert(page@.subrange(0, pre.len() as int) =~= old_page.subrange(
                0,
                pre.len() as int,
            ));
            assert(page@.subrange(pre.len() as int, (pre.len() + chars@.len()) as int)
                =~= old_page.subrange(pre.len() as int, (pre.len() + chars@.len()) as int));
        }
    }
    let r = chars_string(&page);
    proof {
        let off = pre.len() as int;
        assert(r@.subrange(off, off + value@.len()) == value@);
        assert(0 <= off <= PAGE_LENGTH - value@.len());
    }
    r
}

/// Multiplying by a larger base never shrinks a power; both stay positive.
proof fn lemma_pow_base_le(a: int, b: int, e: nat)
    requires
        1 <= a <= b,
    ensures
        0 < pow(a, e) <= pow(b, e),
    decreases e,
{
    reveal(pow);
    lemma_pow_positive(a, e);
    lemma_pow_positive(b, e);
    if e > 0 {
        lemma_pow_base_le(a, b, (e - 1) as nat);
        assert(pow(a, e) == a * pow(a, (e - 1) as nat));
        assert(pow(b, e) == b * pow(b, (e - 1) as nat));
        assert(a * pow(a, (e - 1) as nat) <= b * pow(b, (e - 1) as nat)) by (nonlinear_arith)
            requires
                1 <= a <= b,
                0 < pow(a, (e - 1) as nat) <= pow(b, (e - 1) as nat),
        ;
    }
}

/// Non-overlap law: a full page's integer over the page alphabet is always
/// below the multiplier `30^PAGE_LENGTH`, so the location term of an
/// encoded address can never interfere with the content term.
pub proof fn lemma_non_overlap(page: Seq<char>)
    requires
        page.len() == PAGE_LENGTH,
        all_in_set(page, page_alpha()),
    ensures
        0 <= to_int_rec(page, page_alpha()) < pow(30, PAGE_LENGTH as nat),
{
    lemma_page_alpha_distinct();
    lemma_to_int_bound(page, page_alpha());
    lemma_pow_base_le(29, 30, PAGE_LENGTH as nat);
}

/// Packing injectivity law: no two distinct in-bounds location tuples pack
/// to the same integer.
pub proof fn lemma_pack_injective(
    w1: int,
    s1: int,
    v1: int,
    p1: int,
    w2: int,
    s2: int,
    v2: int,
    p2: int,
)
    requires
        0 <= w1 < 4,
        0 <= s1 < 5,
        0 <= v1 < 32,
        0 <= p1 < 410,
        0 <= w2 < 4,
        0 <= s2 < 5,
        0 <= v2 < 32,
        0 <= p2 < 410,
        pack(w1, s1, v1, p1) == pack(w2, s2, v2, p2),
    ensures
        w1 == w2,
        s1 == s2,
        v1 == v2,
        p1 == p2,
{
}

/// Round-trip law: for text of at most `PAGE_LENGTH` page-alphabet symbols,
/// decoding an address encoded at a fixed location with that same location
/// yields exactly the normalized text.
pub proof fn lemma_round_trip(t: Seq<char>, w: int, s: int, v: int, p: int)
    requires
        t.len() <= PAGE_LENGTH,
        all_in_set(t, page_alpha()),
        0 <= w < 4,
        0 <= s < 5,
        0 <= v < 32,
        0 <= p < 410,
    ensures
        read_spec(encode_hex_spec(t, w, s, v, p), w, s, v, p) == normalize_spec(t),
{
    lemma_page_alpha_distinct();
    lemma_addr_alpha_distinct();
    lemma_space_digit();
    let pa = page_alpha();
    let aa = addr_alpha();
    let page = normalize_spec(t);
    lemma_normalize_all_in_set(t);
    lemma_non_overlap(page);
    let c = to_int_rec(page, pa);
    let m = pow(30, PAGE_LENGTH as nat);
    let l = pack(w, s, v, p);
    lemma_pow_base_le(29, 30, PAGE_LENGTH as nat);
    lemma_mul_nonnegative(l, m);
    let combined = c + l * m;
    assert(combined >= 0);
    lemma_alphabet_bijection(combined as nat, aa);
    let hex = encode_hex_spec(t, w, s, v, p);
    assert(to_int_rec(hex, aa) == combined);
    // decoding: the content term is recovered exactly
    assert(combined >= l * m);
    let digits = from_int_rec(c as nat, pa);
    lemma_alphabet_bijection(c as nat, pa);
    lemma_to_int_bound(page, pa);
    assert(pow(pa.len() as int, PAGE_LENGTH as nat) == pow(29, PAGE_LENGTH as nat));
    lemma_from_int_len(c as nat, pa, PAGE_LENGTH as nat);
    let fitted = fit_page(digits);
    if digits.len() == PAGE_LENGTH {
        assert(fitted =~= digits);
    } else {
        let k = (PAGE_LENGTH - digits.len()) as nat;
        assert(Seq::new(k, |i: int| ' ') =~= Seq::new(k, |i: int| pa[0]));
        lemma_to_int_prepend_first(digits, pa, k);
        assert(fitted == Seq::new(k, |i: int| ' ') + digits);
        assert(to_int_rec(fitted, pa) == to_int_rec(digits, pa));
        assert forall|i: int| 0 <= i < fitted.len() implies in_set(pa, fitted[i]) by {
            if i < k {
                assert(fitted[i] == ' ');
            } else {
                assert(fitted[i] == digits[i - k]);
            }
        }
    }
    assert(fitted.len() == PAGE_LENGTH);
    assert(to_int_rec(fitted, pa) == c);
    assert(all_in_set(fitted, pa));
    lemma_to_int_injective(fitted, page, pa);
    assert(read_spec(hex, w, s, v, p) == fitted);
}

} // verus!

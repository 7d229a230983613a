//! The ordered symbol alphabets of the library, and ordinal lookup in them.
//!
//! An alphabet is an ordered, duplicate-free sequence of symbols; the symbol
//! at position `i` has digit value `i` in the numeral system the alphabet
//! defines.  Three alphabets are used: the 29-symbol page alphabet, the
//! 64-symbol address alphabet, and the 10 decimal digits.

use vstd::prelude::*;

verus! {

/// Symbol with ordinal `i` of the 29-symbol page alphabet: space, the
/// lowercase letters, comma and period.
pub open spec fn page_symbol(i: int) -> char {
    if i == 0 { ' ' }
    else if i == 1 { 'a' }
    else if i == 2 { 'b' }
    else if i == 3 { 'c' }
    else if i == 4 { 'd' }
    else if i == 5 { 'e' }
    else if i == 6 { 'f' }
    else if i == 7 { 'g' }
    else if i == 8 { 'h' }
    else if i == 9 { 'i' }
    else if i == 10 { 'j' }
    else if i == 11 { 'k' }
    else if i == 12 { 'l' }
    else if i == 13 { 'm' }
    else if i == 14 { 'n' }
    else if i == 15 { 'o' }
    else if i == 16 { 'p' }
    else if i == 17 { 'q' }
    else if i == 18 { 'r' }
    else if i == 19 { 's' }
    else if i == 20 { 't' }
    else if i == 21 { 'u' }
    else if i == 22 { 'v' }
    else if i == 23 { 'w' }
    else if i == 24 { 'x' }
    else if i == 25 { 'y' }
    else if i == 26 { 'z' }
    else if i == 27 { ',' }
    else { '.' }
}

/// The page alphabet as an ordered sequence; its base is 29.
pub open spec fn page_alpha() -> Seq<char> {
    Seq::new(29, |i: int| page_symbol(i))
}

/// Symbol with ordinal `i` of the 64-symbol address alphabet: the uppercase
/// letters, the lowercase letters, the ten digits, dash and underscore.
pub open spec fn addr_symbol(i: int) -> char {
    if i == 0 { 'A' }
    else if i == 1 { 'B' }
    else if i == 2 { 'C' }
    else if i == 3 { 'D' }
    else if i == 4 { 'E' }
    else if i == 5 { 'F' }
    else if i == 6 { 'G' }
    else if i == 7 { 'H' }
    else if i == 8 { 'I' }
    else if i == 9 { 'J' }
    else if i == 10 { 'K' }
    else if i == 11 { 'L' }
    else if i == 12 { 'M' }
    else if i == 13 { 'N' }
    else if i == 14 { 'O' }
    else if i == 15 { 'P' }
    else if i == 16 { 'Q' }
    else if i == 17 { 'R' }
    else if i == 18 { 'S' }
    else if i == 19 { 'T' }
    else if i == 20 { 'U' }
    else if i == 21 { 'V' }
    else if i == 22 { 'W' }
    else if i == 23 { 'X' }
    else if i == 24 { 'Y' }
    else if i == 25 { 'Z' }
    else if i == 26 { 'a' }
    else if i == 27 { 'b' }
    else if i == 28 { 'c' }
    else if i == 29 { 'd' }
    else if i == 30 { 'e' }
    else if i == 31 { 'f' }
    else if i == 32 { 'g' }
    else if i == 33 { 'h' }
    else if i == 34 { 'i' }
    else if i == 35 { 'j' }
    else if i == 36 { 'k' }
    else if i == 37 { 'l' }
    else if i == 38 { 'm' }
    else if i == 39 { 'n' }
    else if i == 40 { 'o' }
    else if i == 41 { 'p' }
    else if i == 42 { 'q' }
    else if i == 43 { 'r' }
    else if i == 44 { 's' }
    else if i == 45 { 't' }
    else if i == 46 { 'u' }
    else if i == 47 { 'v' }
    else if i == 48 { 'w' }
    else if i == 49 { 'x' }
    else if i == 50 { 'y' }
    else if i == 51 { 'z' }
    else if i == 52 { '0' }
    else if i == 53 { '1' }
    else if i == 54 { '2' }
    else if i == 55 { '3' }
    else if i == 56 { '4' }
    else if i == 57 { '5' }
    else if i == 58 { '6' }
    else if i == 59 { '7' }
    else if i == 60 { '8' }
    else if i == 61 { '9' }
    else if i == 62 { '-' }
    else { '_' }
}

/// The address alphabet as an ordered sequence; its base is 64.
pub open spec fn addr_alpha() -> Seq<char> {
    Seq::new(64, |i: int| addr_symbol(i))
}

/// Symbol with ordinal `i` of the decimal alphabet.
pub open spec fn dec_symbol(i: int) -> char {
    if i == 0 { '0' }
    else if i == 1 { '1' }
    else if i == 2 { '2' }
    else if i == 3 { '3' }
    else if i == 4 { '4' }
    else if i == 5 { '5' }
    else if i == 6 { '6' }
    else if i == 7 { '7' }
    else if i == 8 { '8' }
    else { '9' }
}

/// The ten decimal digits as an ordered sequence.
pub open spec fn dec_alpha() -> Seq<char> {
    Seq::new(10, |i: int| dec_symbol(i))
}

/// Ordinal of the first occurrence of `c` in `set`, or -1 when `c` is absent.
pub open spec fn digit_of(set: Seq<char>, c: char) -> int
    decreases set.len(),
{
    if set.len() == 0 {
        -1
    } else if set[0] == c {
        0
    } else {
        let rest = digit_of(set.drop_first(), c);
        if rest < 0 {
            -1
        } else {
            1 + rest
        }
    }
}

/// Whether symbol `c` occurs in the alphabet `set`.
pub open spec fn in_set(set: Seq<char>, c: char) -> bool {
    digit_of(set, c) >= 0
}

/// An alphabet must not repeat a symbol: ordinals would be ambiguous.
pub open spec fn distinct(set: Seq<char>) -> bool {
    forall|i: int, j: int| 0 <= i < j < set.len() ==> set[i] != set[j]
}

/// A found ordinal is a position of the symbol it was looked up for.
pub proof fn lemma_digit_of_in_range(set: Seq<char>, c: char)
    requires
        digit_of(set, c) >= 0,
    ensures
        digit_of(set, c) < set.len(),
        set[digit_of(set, c)] == c,
    decreases set.len(),
{
    if set.len() > 0 && set[0] != c {
        let rest = digit_of(set.drop_first(), c);
        if rest >= 0 {
            lemma_digit_of_in_range(set.drop_first(), c);
            assert(set.drop_first()[rest] == set[1 + rest]);
        }
    }
}

/// In a duplicate-free alphabet, looking up the symbol at position `d`
/// yields `d` back.
pub proof fn lemma_digit_of_index(set: Seq<char>, d: int)
    requires
        distinct(set),
        0 <= d < set.len(),
    ensures
        digit_of(set, set[d]) == d,
    decreases set.len(),
{
    if d > 0 {
        let rest = set.drop_first();
        assert(set[0] != set[d]);
        assert forall|i: int, j: int| 0 <= i < j < rest.len() implies rest[i] != rest[j] by {
            assert(rest[i] == set[i + 1]);
            assert(rest[j] == set[j + 1]);
        }
        lemma_digit_of_index(rest, d - 1);
        assert(rest[d - 1] == set[d]);
    }
}

/// A symbol that occurs nowhere in the alphabet has no ordinal.
pub proof fn lemma_digit_of_absent(set: Seq<char>, c: char)
    requires
        forall|j: int| 0 <= j < set.len() ==> set[j] != c,
    ensures
        digit_of(set, c) == -1,
    decreases set.len(),
{
    if set.len() > 0 {
        let rest = set.drop_first();
        assert forall|j: int| 0 <= j < rest.len() implies rest[j] != c by {
            assert(rest[j] == set[j + 1]);
        }
        lemma_digit_of_absent(rest, c);
    }
}

/// The first position holding `c` is the ordinal of `c`.
pub proof fn lemma_digit_of_first(set: Seq<char>, c: char, i: int)
    requires
        0 <= i < set.len(),
        set[i] == c,
        forall|j: int| 0 <= j < i ==> set[j] != c,
    ensures
        digit_of(set, c) == i,
    decreases set.len(),
{
    if i > 0 {
        let rest = set.drop_first();
        assert(set[0] != c);
        assert(rest[i - 1] == c);
        assert forall|j: int| 0 <= j < i - 1 implies rest[j] != c by {
            assert(rest[j] == set[j + 1]);
        }
        lemma_digit_of_first(rest, c, i - 1);
    }
}

/// The page alphabet is duplicate-free; its first symbol is the space.
pub proof fn lemma_page_alpha_distinct()
    ensures
        distinct(page_alpha()),
        page_alpha().len() == 29,
        page_alpha()[0] == ' ',
{
    assert forall|i: int, j: int| 0 <= i < j < 29 implies page_alpha()[i] != page_alpha()[j] by {
        assert(page_alpha()[i] == page_symbol(i));
        assert(page_alpha()[j] == page_symbol(j));
    }
}

/// The address alphabet is duplicate-free.
pub proof fn lemma_addr_alpha_distinct()
    ensures
        distinct(addr_alpha()),
        addr_alpha().len() == 64,
{
    assert forall|i: int, j: int| 0 <= i < j < 64 implies addr_alpha()[i] != addr_alpha()[j] by {
        assert(addr_alpha()[i] == addr_symbol(i));
        assert(addr_alpha()[j] == addr_symbol(j));
    }
}

/// The decimal alphabet is duplicate-free.
pub proof fn lemma_dec_alpha_distinct()
    ensures
        distinct(dec_alpha()),
        dec_alpha().len() == 10,
{
    assert forall|i: int, j: int| 0 <= i < j < 10 implies dec_alpha()[i] != dec_alpha()[j] by {
        assert(dec_alpha()[i] == dec_symbol(i));
        assert(dec_alpha()[j] == dec_symbol(j));
    }
}

/// The page alphabet as an executable vector of its 29 symbols in order.
pub fn page_alphabet() -> (v: Vec<char>)
    ensures
        v@ == page_alpha(),
{
    let v: Vec<char> = vec![
        ' ', 'a', 'b', 'c', 'd', 'e', 'f', 'g', 'h', 'i', 'j', 'k', 'l', 'm',
        'n', 'o', 'p', 'q', 'r', 's', 't', 'u', 'v', 'w', 'x', 'y', 'z', ',', '.',
    ];
    proof {
        assert(v@ =~= page_alpha());
    }
    v
}

/// The address alphabet as an executable vector of its 64 symbols in order.
pub fn address_alphabet() -> (v: Vec<char>)
    ensures
        v@ == addr_alpha(),
{
    let v: Vec<char> = vec![
        'A', 'B', 'C', 'D', 'E', 'F', 'G', 'H', 'I', 'J', 'K', 'L', 'M',
        'N', 'O', 'P', 'Q', 'R', 'S', 'T', 'U', 'V', 'W', 'X', 'Y', 'Z',
        'a', 'b', 'c', 'd', 'e', 'f', 'g', 'h', 'i', 'j', 'k', 'l', 'm',
        'n', 'o', 'p', 'q', 'r', 's', 't', 'u', 'v', 'w', 'x', 'y', 'z',
        '0', '1', '2', '3', '4', '5', '6', '7', '8', '9', '-', '_',
    ];
    proof {
        assert(v@ =~= addr_alpha());
    }
    v
}

/// The decimal digits as an executable vector in order.
pub fn dec_alphabet() -> (v: Vec<char>)
    ensures
        v@ == dec_alpha(),
{
    let v: Vec<char> = vec!['0', '1', '2', '3', '4', '5', '6', '7', '8', '9'];
    proof {
        assert(v@ =~= dec_alpha());
    }
    v
}

/// Ordinal of `c` in the alphabet `set`, or `None` when `c` is not a symbol
/// of it.
pub fn find_index(set: &Vec<char>, c: char) -> (r: Option<usize>)
    ensures
        match r {
            Some(d) => d == digit_of(set@, c) && d < set@.len() && set@[d as int] == c,
            None => digit_of(set@, c) == -1,
        },
{
    let mut i: usize = 0;
    while i < set.len()
        invariant
            i <= set@.len(),
            forall|j: int| 0 <= j < i ==> set@[j] != c,
        decreases set@.len() - i,
    {
        if set[i] == c {
            proof {
                lemma_digit_of_first(set@, c, i as int);
            }
            return Some(i);
        }
        i += 1;
    }
    proof {
        lemma_digit_of_absent(set@, c);
    }
    None
}

} // verus!

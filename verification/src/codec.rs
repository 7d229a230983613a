//! The numeral codec: text over an ordered alphabet to an unbounded
//! non-negative integer and back.
//!
//! A text is read as a big-endian numeral whose base is the alphabet's size
//! and whose digit values are the symbols' ordinals.  `from_arb_base` and
//! `to_arb_base` are the executable directions; the spec functions
//! `to_int_rec` and `from_int_rec` are the mathematical reference, and the
//! lemmas below establish that the two directions are mutually inverse.

use crate::alphabet::{
    digit_of, distinct, find_index, in_set, lemma_digit_of_in_range, lemma_digit_of_index,
};
use crate::bignum::{big_add_u64, big_divmod_u64, big_mul_u64, Big};
use crate::BabelError;
use vstd::arithmetic::div_mod::{
    lemma_div_decreases, lemma_fundamental_div_mod, lemma_fundamental_div_mod_converse_div,
    lemma_fundamental_div_mod_converse_mod, lemma_mod_bound,
};
use vstd::arithmetic::mul::{lemma_mul_inequality, lemma_mul_nonnegative};
use vstd::arithmetic::power::{lemma_pow0, lemma_pow1, lemma_pow_adds, pow};
use vstd::prelude::*;

verus! {

/// All symbols of `s` are drawn from the alphabet `set`.
pub open spec fn all_in_set(s: Seq<char>, set: Seq<char>) -> bool {
    forall|i: int| 0 <= i < s.len() ==> in_set(set, s[i])
}

/// Value of the big-endian numeral `s` over the alphabet `set`; the empty
/// text stands for zero.
pub open spec fn to_int_rec(s: Seq<char>, set: Seq<char>) -> int
    decreases s.len(),
{
    if s.len() == 0 {
        0
    } else {
        to_int_rec(s.drop_last(), set) * set.len() + digit_of(set, s.last())
    }
}

/// Canonical big-endian numeral of `v` over the alphabet `set`: no leading
/// zero symbols, and zero itself is written as the alphabet's first symbol.
pub open spec fn from_int_rec(v: nat, set: Seq<char>) -> Seq<char>
    decreases v,
{
    if set.len() < 2 {
        Seq::empty()
    } else if v < set.len() {
        seq![set[v as int]]
    } else {
        proof {
            lemma_div_decreases(v as int, set.len() as int);
        }
        from_int_rec((v as int / set.len() as int) as nat, set).push(
            set[v as int % set.len() as int],
        )
    }
}

/// Appending a symbol multiplies the numeral's value by the base and adds
/// the symbol's digit value.
pub proof fn lemma_to_int_push(s: Seq<char>, set: Seq<char>, c: char)
    ensures
        to_int_rec(s.push(c), set) == to_int_rec(s, set) * set.len() + digit_of(set, c),
{
    assert(s.push(c).drop_last() =~= s);
    assert(s.push(c).last() == c);
}

/// A numeral over an alphabet never stands for a negative value.
pub proof fn lemma_to_int_nonneg(s: Seq<char>, set: Seq<char>)
    requires
        all_in_set(s, set),
    ensures
        to_int_rec(s, set) >= 0,
    decreases s.len(),
{
    if s.len() > 0 {
        let dl = s.drop_last();
        assert(all_in_set(dl, set));
        lemma_to_int_nonneg(dl, set);
        assert(in_set(set, s[s.len() - 1]));
        lemma_mul_nonnegative(to_int_rec(dl, set), set.len() as int);
    }
}

/// A numeral of `n` symbols stands for a value below base-to-the-`n`.
pub proof fn lemma_to_int_bound(s: Seq<char>, set: Seq<char>)
    requires
        all_in_set(s, set),
    ensures
        0 <= to_int_rec(s, set) < pow(set.len() as int, s.len()),
    decreases s.len(),
{
    let b = set.len() as int;
    if s.len() == 0 {
        lemma_pow0(b);
    } else {
        let dl = s.drop_last();
        assert(all_in_set(dl, set));
        lemma_to_int_bound(dl, set);
        assert(in_set(set, s[s.len() - 1]));
        lemma_digit_of_in_range(set, s.last());
        let t = to_int_rec(dl, set);
        let d = digit_of(set, s.last());
        let p1 = pow(b, (s.len() - 1) as nat);
        lemma_pow_adds(b, (s.len() - 1) as nat, 1);
        lemma_pow1(b);
        assert(pow(b, s.len()) == p1 * b);
        assert(t * b + d < p1 * b) by (nonlinear_arith)
            requires
                0 <= t < p1,
                0 <= d < b,
        ;
    }
}

/// Alphabet bijection law: over any duplicate-free alphabet of at least two
/// symbols, re-reading the numeral written for a value yields that value
/// back; the numeral is never empty and uses only alphabet symbols.
pub proof fn lemma_alphabet_bijection(value: nat, set: Seq<char>)
    requires
        set.len() >= 2,
        distinct(set),
    ensures
        to_int_rec(from_int_rec(value, set), set) == value,
        from_int_rec(value, set).len() >= 1,
        all_in_set(from_int_rec(value, set), set),
    decreases value,
{
    let b = set.len() as int;
    if value < set.len() {
        let s = seq![set[value as int]];
        lemma_digit_of_index(set, value as int);
        assert(s.len() == 1);
        assert(s.last() == set[value as int]);
        assert(s.drop_last() =~= Seq::<char>::empty());
        assert(to_int_rec(Seq::<char>::empty(), set) == 0);
        assert(to_int_rec(s, set) == to_int_rec(s.drop_last(), set) * (set.len() as int)
            + digit_of(set, s.last()));
        assert(in_set(set, s[0]));
    } else {
        lemma_fundamental_div_mod(value as int, b);
        lemma_mod_bound(value as int, b);
        lemma_div_decreases(value as int, b);
        let q = (value as int / b) as nat;
        let d = value as int % b;
        lemma_alphabet_bijection(q, set);
        let w = from_int_rec(q, set);
        lemma_to_int_push(w, set, set[d]);
        lemma_digit_of_index(set, d);
        assert(from_int_rec(value, set) == w.push(set[d]));
        assert(to_int_rec(w.push(set[d]), set) == q * b + d);
        assert(all_in_set(w.push(set[d]), set)) by {
            assert(forall|i: int|
                0 <= i < w.len() ==> w.push(set[d])[i] == w[i]);
            assert(in_set(set, set[d]));
        }
    }
}

/// The numeral of a value below base-to-the-`n` has at most `n` symbols.
pub proof fn lemma_from_int_len(v: nat, set: Seq<char>, n: nat)
    requires
        set.len() >= 2,
        n >= 1,
        v < pow(set.len() as int, n),
    ensures
        from_int_rec(v, set).len() <= n,
    decreases v,
{
    let b = set.len() as int;
    if v >= set.len() {
        let q = (v as int / b) as nat;
        lemma_fundamental_div_mod(v as int, b);
        lemma_mod_bound(v as int, b);
        lemma_div_decreases(v as int, b);
        lemma_pow_adds(b, (n - 1) as nat, 1);
        lemma_pow1(b);
        if n == 1 {
            assert(pow(b, 1) == b);
            assert(false);
        }
        if q >= pow(b, (n - 1) as nat) {
            lemma_mul_inequality(pow(b, (n - 1) as nat), q as int, b);
            assert(false);
        }
        lemma_from_int_len(q, set, (n - 1) as nat);
    }
}

/// Leading copies of the alphabet's first symbol do not change a numeral's
/// value: they are leading zeros.
pub proof fn lemma_to_int_prepend_first(s: Seq<char>, set: Seq<char>, k: nat)
    requires
        set.len() >= 1,
    ensures
        to_int_rec(Seq::new(k, |i: int| set[0]) + s, set) == to_int_rec(s, set),
    decreases s.len(), k,
{
    let pad = Seq::new(k, |i: int| set[0]);
    if s.len() == 0 {
        assert(pad + s =~= pad);
        if k > 0 {
            let pad1 = Seq::new((k - 1) as nat, |i: int| set[0]);
            assert(pad.drop_last() =~= pad1 + Seq::<char>::empty());
            lemma_to_int_prepend_first(Seq::<char>::empty(), set, (k - 1) as nat);
            assert(pad.last() == set[0]);
            assert(digit_of(set, set[0]) == 0);
            assert(to_int_rec(pad, set) == to_int_rec(pad.drop_last(), set) * set.len() + 0);
        }
    } else {
        assert((pad + s).drop_last() =~= pad + s.drop_last());
        assert((pad + s).last() == s.last());
        lemma_to_int_prepend_first(s.drop_last(), set, k);
    }
}

/// Two numerals of the same length over the same duplicate-free alphabet
/// that stand for the same value are the same text.
pub proof fn lemma_to_int_injective(s1: Seq<char>, s2: Seq<char>, set: Seq<char>)
    requires
        set.len() >= 2,
        distinct(set),
        all_in_set(s1, set),
        all_in_set(s2, set),
        s1.len() == s2.len(),
        to_int_rec(s1, set) == to_int_rec(s2, set),
    ensures
        s1 == s2,
    decreases s1.len(),
{
    if s1.len() == 0 {
        assert(s1 =~= s2);
    } else {
        let b = set.len() as int;
        let x = to_int_rec(s1, set);
        let dl1 = s1.drop_last();
        let dl2 = s2.drop_last();
        assert(in_set(set, s1[s1.len() - 1]));
        assert(in_set(set, s2[s2.len() - 1]));
        lemma_digit_of_in_range(set, s1.last());
        lemma_digit_of_in_range(set, s2.last());
        let d1 = digit_of(set, s1.last());
        let d2 = digit_of(set, s2.last());
        lemma_fundamental_div_mod_converse_mod(x, b, to_int_rec(dl1, set), d1);
        lemma_fundamental_div_mod_converse_mod(x, b, to_int_rec(dl2, set), d2);
        assert(d1 == d2);
        assert(s1.last() == s2.last());
        lemma_fundamental_div_mod_converse_div(x, b, to_int_rec(dl1, set), d1);
        lemma_fundamental_div_mod_converse_div(x, b, to_int_rec(dl2, set), d2);
        assert(all_in_set(dl1, set));
        assert(all_in_set(dl2, set));
        lemma_to_int_injective(dl1, dl2, set);
        assert forall|i: int| 0 <= i < s1.len() implies s1[i] == s2[i] by {
            if i < s1.len() - 1 {
                assert(s1[i] == dl1[i]);
                assert(s2[i] == dl2[i]);
            }
        }
        assert(s1 =~= s2);
    }
}

/// Value of `value` read as a big-endian numeral over the alphabet `set`.
/// Fails exactly when a symbol of `value` is not in the alphabet.
pub fn from_arb_base(value: &Vec<char>, set: &Vec<char>) -> (r: Result<Big, BabelError>)
    requires
        set@.len() >= 2,
    ensures
        match r {
            Ok(b) => all_in_set(value@, set@) && b@ == to_int_rec(value@, set@),
            Err(e) => e == BabelError::UnknownSymbolError && !all_in_set(value@, set@),
        },
{
    let mut result = Big::from_u64(0);
    let mut i: usize = 0;
    proof {
        assert(value@.take(0) =~= Seq::<char>::empty());
    }
    while i < value.len()
        invariant
            set@.len() >= 2,
            i <= value@.len(),
            all_in_set(value@.take(i as int), set@),
            result@ == to_int_rec(value@.take(i as int), set@),
        decreases value@.len() - i,
    {
        match find_index(set, value[i]) {
            Option::Some(d) => {
                result = big_add_u64(&big_mul_u64(&result, set.len() as u64), d as u64);
                proof {
                    assert(value@.take(i as int).push(value@[i as int]) =~= value@.take(
                        i + 1,
                    ));
                    lemma_to_int_push(value@.take(i as int), set@, value@[i as int]);
                    assert(all_in_set(value@.take(i + 1), set@)) by {
                        assert(forall|j: int|
                            0 <= j < i + 1 ==> value@.take(i + 1)[j] == value@[j]);
                        assert(in_set(set@, value@[i as int]));
                    }
                }
                i += 1;
            },
            Option::None => {
                assert(!in_set(set@, value@[i as int]));
                return Err(BabelError::UnknownSymbolError);
            },
        }
    }
    proof {
        assert(value@.take(value@.len() as int) =~= value@);
    }
    Ok(result)
}

/// The canonical numeral of `value` over the alphabet `set`, most
/// significant symbol first; zero is written as the alphabet's first symbol.
pub fn to_arb_base(value: Big, set: &Vec<char>) -> (r: Vec<char>)
    requires
        set@.len() >= 2,
    ensures
        r@ == from_int_rec(value@, set@),
{
    let ghost orig: nat = value@;
    let b: u64 = set.len() as u64;
    let mut rem = value;
    let mut digits: Vec<char> = Vec::new();
    loop
        invariant_except_break
            digits@.len() > 0 ==> rem@ > 0,
        invariant
            set@.len() >= 2,
            b == set@.len(),
            b <= usize::MAX as u64,
            digits@.len() == 0 ==> rem@ == orig,
            digits@.len() > 0 ==> from_int_rec(orig, set@) == (if rem@ == 0 {
                digits@.reverse()
            } else {
                from_int_rec(rem@, set@) + digits@.reverse()
            }),
        ensures
            digits@.len() > 0,
            rem@ == 0,
            from_int_rec(orig, set@) == digits@.reverse(),
        decreases rem@ + (if digits@.len() == 0 { 1int } else { 0int }),
    {
        let ghost r0: nat = rem@;
        let ghost old_digits = digits@;
        let (q, d) = big_divmod_u64(&rem, b);
        proof {
            lemma_fundamental_div_mod(r0 as int, b as int);
            lemma_mod_bound(r0 as int, b as int);
            assert(d < b);
        }
        digits.push(set[d as usize]);
        rem = q;
        proof {
            let rev_old = old_digits.reverse();
            let rev_new = digits@.reverse();
            assert(b <= usize::MAX as u64);
            assert((d as usize) as int == d as int);
            assert(digits@ == old_digits.push(set@[d as int]));
            assert(digits@.len() == old_digits.len() + 1);
            assert forall|i: int| 0 <= i < rev_new.len() implies rev_new[i] == (
            seq![set@[d as int]] + rev_old)[i] by {
                if i == 0 {
                    assert(rev_new[0] == digits@[digits@.len() - 1]);
                } else {
                    assert(rev_new[i] == digits@[digits@.len() - 1 - i]);
                    assert(digits@[digits@.len() - 1 - i] == old_digits[old_digits.len() - 1 - (
                    i - 1)]);
                    assert(rev_old[i - 1] == old_digits[old_digits.len() - 1 - (i - 1)]);
                }
            }
            assert(rev_new =~= seq![set@[d as int]] + rev_old);
            if r0 < b {
                assert(rem@ == 0 && d as int == r0 as int) by (nonlinear_arith)
                    requires
                        0 <= r0 < b,
                        rem@ == (r0 as int) / (b as int),
                        d == (r0 as int) % (b as int),
                ;
                assert(from_int_rec(r0, set@) == seq![set@[r0 as int]]);
            } else {
                assert(rem@ >= 1) by (nonlinear_arith)
                    requires
                        r0 >= b,
                        b >= 2,
                        rem@ == (r0 as int) / (b as int),
                ;
                assert(from_int_rec(r0, set@) == from_int_rec(rem@, set@).push(
                    set@[d as int],
                ));
            }
            if old_digits.len() == 0 {
                assert(r0 == orig);
                if r0 < b {
                    assert(rev_new =~= seq![set@[r0 as int]]);
                    assert(from_int_rec(orig, set@) == rev_new);
                } else {
                    assert(from_int_rec(rem@, set@) + rev_new =~= from_int_rec(orig, set@));
                }
            } else {
                assert(r0 > 0);
                assert(from_int_rec(orig, set@) == from_int_rec(r0, set@) + rev_old);
                if r0 < b {
                    assert(rev_new =~= seq![set@[r0 as int]] + rev_old);
                    assert(from_int_rec(orig, set@) == rev_new);
                } else {
                    assert(from_int_rec(rem@, set@) + rev_new =~= (from_int_rec(rem@, set@)
                        .push(set@[d as int])) + rev_old);
                    assert(from_int_rec(orig, set@) == from_int_rec(rem@, set@) + rev_new);
                }
            }
            if rem@ > 0 {
                assert(rem@ < r0) by (nonlinear_arith)
                    requires
                        b >= 2,
                        rem@ >= 1,
                        rem@ == (r0 as int) / (b as int),
                        r0 == (b as int) * ((r0 as int) / (b as int)) + ((r0 as int) % (
                        b as int)),
                        (r0 as int) % (b as int) >= 0,
                ;
            }
        }
        if rem.is_zero() {
            break ;
        }
    }
    let mut out: Vec<char> = Vec::new();
    let mut j: usize = digits.len();
    proof {
        assert(digits@.subrange(j as int, digits@.len() as int) =~= Seq::<char>::empty());
        assert(out@ =~= digits@.subrange(j as int, digits@.len() as int).reverse());
    }
    while j > 0
        invariant
            j <= digits@.len(),
            out@ == digits@.subrange(j as int, digits@.len() as int).reverse(),
        decreases j,
    {
        j -= 1;
        out.push(digits[j]);
        proof {
            assert(out@ =~= digits@.subrange(j as int, digits@.len() as int).reverse());
        }
    }
    proof {
        assert(digits@.subrange(0, digits@.len() as int) =~= digits@);
    }
    out
}

} // verus!

//! Decimal rendering and parsing of unsigned numbers, with the lemmas that
//! make the codec's round-trip proof go through: parsing the digit string of
//! `n` followed by a non-digit yields `n` back.

use vstd::prelude::*;

verus! {

/// Whether `c` is a decimal digit.
pub open spec fn is_digit(c: char) -> bool {
    48 <= c as int <= 57
}

/// The numeric value of a digit character.
pub open spec fn digit_val(c: char) -> nat {
    (c as int - 48) as nat
}

/// The digit character for a value below ten.
pub open spec fn digit_char(d: nat) -> char {
    if d == 0 {
        '0'
    } else if d == 1 {
        '1'
    } else if d == 2 {
        '2'
    } else if d == 3 {
        '3'
    } else if d == 4 {
        '4'
    } else if d == 5 {
        '5'
    } else if d == 6 {
        '6'
    } else if d == 7 {
        '7'
    } else if d == 8 {
        '8'
    } else {
        '9'
    }
}

/// The decimal digit string of `n`, most significant digit first, no sign,
/// no leading zero except for `n == 0` itself.
pub open spec fn spec_digits(n: nat) -> Seq<char>
    decreases n,
{
    if n < 10 {
        seq![digit_char(n)]
    } else {
        spec_digits(n / 10).push(digit_char(n % 10))
    }
}

/// Every character of `s` is a decimal digit.
pub open spec fn all_digits(s: Seq<char>) -> bool {
    forall|i: int| 0 <= i < s.len() ==> is_digit(#[trigger] s[i])
}

/// Greedily consumes the digit prefix of `s`, folding it onto `acc`.
pub open spec fn parse_digits_rec(s: Seq<char>, acc: nat) -> (nat, Seq<char>)
    decreases s.len(),
{
    if s.len() > 0 && is_digit(s[0]) {
        parse_digits_rec(s.skip(1), acc * 10 + digit_val(s[0]))
    } else {
        (acc, s)
    }
}

/// Parses a number from the front of `s`: `None` when `s` does not start
/// with a digit, otherwise the value of the maximal digit prefix and the
/// remainder.
pub open spec fn spec_parse_number(s: Seq<char>) -> Option<(nat, Seq<char>)> {
    if s.len() > 0 && is_digit(s[0]) {
        Some(parse_digits_rec(s, 0))
    } else {
        None
    }
}

/// The value of a digit string folded onto `acc`, front first.
pub open spec fn fold_digits(s: Seq<char>, acc: nat) -> nat
    decreases s.len(),
{
    if s.len() == 0 {
        acc
    } else {
        fold_digits(s.skip(1), acc * 10 + digit_val(s[0]))
    }
}

/// Ten to the `k`.
pub open spec fn pow10(k: nat) -> nat
    decreases k,
{
    if k == 0 {
        1nat
    } else {
        10 * pow10((k - 1) as nat)
    }
}

/// The digit string of `n` consists of digits only.
pub proof fn lemma_digits_all_digits(n: nat)
    ensures
        all_digits(spec_digits(n)),
        spec_digits(n).len() >= 1,
    decreases n,
{
    if n >= 10 {
        lemma_digits_all_digits(n / 10);
    }
}

/// The greedy parse walks through any digit prefix, folding it onto `acc`.
pub proof fn lemma_parse_through_digits(d: Seq<char>, rest: Seq<char>, acc: nat)
    requires
        all_digits(d),
    ensures
        parse_digits_rec(d + rest, acc) == parse_digits_rec(rest, fold_digits(d, acc)),
    decreases d.len(),
{
    if d.len() == 0 {
        assert(d + rest =~= rest);
    } else {
        assert((d + rest)[0] == d[0]);
        assert((d + rest).skip(1) =~= d.skip(1) + rest);
        lemma_parse_through_digits(d.skip(1), rest, acc * 10 + digit_val(d[0]));
    }
}

/// Folding one more digit multiplies the accumulated value by ten.
pub proof fn lemma_fold_digits_push(d: Seq<char>, c: char, acc: nat)
    ensures
        fold_digits(d.push(c), acc) == fold_digits(d, acc) * 10 + digit_val(c),
    decreases d.len(),
{
    if d.len() == 0 {
        assert(d.push(c)[0] == c);
        assert(d.push(c).skip(1) =~= Seq::<char>::empty());
        assert(fold_digits(d.push(c), acc) == fold_digits(
            Seq::<char>::empty(),
            acc * 10 + digit_val(c),
        ));
        assert(fold_digits(Seq::<char>::empty(), acc * 10 + digit_val(c)) == acc * 10
            + digit_val(c));
        assert(fold_digits(d, acc) == acc);
    } else {
        assert(d.push(c)[0] == d[0]);
        assert(d.push(c).skip(1) =~= d.skip(1).push(c));
        lemma_fold_digits_push(d.skip(1), c, acc * 10 + digit_val(d[0]));
        assert(fold_digits(d.push(c), acc) == fold_digits(
            d.skip(1).push(c),
            acc * 10 + digit_val(d[0]),
        ));
        assert(fold_digits(d, acc) == fold_digits(d.skip(1), acc * 10 + digit_val(d[0])));
    }
}

/// Folding the digit string of `n` onto `acc` yields `acc * 10^len + n`.
pub proof fn lemma_fold_digits_of(n: nat, acc: nat)
    ensures
        fold_digits(spec_digits(n), acc) == acc * pow10(spec_digits(n).len()) + n,
    decreases n,
{
    if n < 10 {
        let d = spec_digits(n);
        assert(d == seq![digit_char(n)]);
        assert(d.len() == 1 && d[0] == digit_char(n));
        assert(d.skip(1) =~= Seq::<char>::empty());
        assert(digit_val(digit_char(n)) == n);
        assert(fold_digits(d, acc) == fold_digits(d.skip(1), acc * 10 + digit_val(d[0])));
        assert(fold_digits(d, acc) == acc * 10 + n);
        assert(pow10(0nat) == 1);
        assert(pow10(1nat) == 10);
        assert(acc * pow10(1) == acc * 10) by (nonlinear_arith)
            requires pow10(1nat) == 10;
    } else {
        let q = n / 10;
        let r = n % 10;
        let dq = spec_digits(q);
        lemma_fold_digits_of(q, acc);
        lemma_fold_digits_push(dq, digit_char(r), acc);
        assert(digit_val(digit_char(r)) == r);
        let k = dq.len();
        assert(spec_digits(n) == dq.push(digit_char(r)));
        assert(spec_digits(n).len() == k + 1);
        assert(fold_digits(spec_digits(n), acc) == (acc * pow10(k) + q) * 10 + r);
        assert((acc * pow10(k) + q) * 10 + r == acc * (10 * pow10(k)) + (q * 10 + r))
            by (nonlinear_arith);
        assert(q * 10 + r == n) by (nonlinear_arith)
            requires q == n / 10, r == n % 10;
        assert(pow10(k + 1) == 10 * pow10(k));
    }
}

/// Parsing the digit string of `n` followed by anything that does not start
/// with a digit yields exactly `n` and that remainder.
pub proof fn lemma_parse_number_of_digits(n: nat, rest: Seq<char>)
    requires
        rest.len() == 0 || !is_digit(rest[0]),
    ensures
        spec_parse_number(spec_digits(n) + rest) == Some((n, rest)),
{
    lemma_digits_all_digits(n);
    let s = spec_digits(n) + rest;
    assert(s[0] == spec_digits(n)[0]);
    lemma_parse_through_digits(spec_digits(n), rest, 0);
    lemma_fold_digits_of(n, 0);
    assert(parse_digits_rec(rest, n) == (n, rest));
}

/// The folded value never drops below the accumulator it started from.
pub proof fn lemma_parse_digits_rec_ge_acc(s: Seq<char>, acc: nat)
    ensures
        parse_digits_rec(s, acc).0 >= acc,
    decreases s.len(),
{
    if s.len() > 0 && is_digit(s[0]) {
        lemma_parse_digits_rec_ge_acc(s.skip(1), acc * 10 + digit_val(s[0]));
        assert(acc * 10 >= acc) by (nonlinear_arith);
    }
}

/// Executable digit character for a value below ten.
pub fn digit_char_of(d: u64) -> (r: char)
    requires
        d < 10,
    ensures
        r == digit_char(d as nat),
{
    if d == 0 {
        '0'
    } else if d == 1 {
        '1'
    } else if d == 2 {
        '2'
    } else if d == 3 {
        '3'
    } else if d == 4 {
        '4'
    } else if d == 5 {
        '5'
    } else if d == 6 {
        '6'
    } else if d == 7 {
        '7'
    } else if d == 8 {
        '8'
    } else {
        '9'
    }
}

/// Appends the decimal digit string of `n` to `out`.
pub fn push_digits(n: u64, out: &mut Vec<char>)
    ensures
        final(out)@ == old(out)@ + spec_digits(n as nat),
    decreases n,
{
    if n < 10 {
        out.push(digit_char_of(n));
        assert(final(out)@ =~= old(out)@ + spec_digits(n as nat));
    } else {
        push_digits(n / 10, out);
        out.push(digit_char_of(n % 10));
        assert(final(out)@ =~= old(out)@ + spec_digits(n as nat));
    }
}

/// Executable digit test.
pub fn is_digit_char(c: char) -> (r: bool)
    ensures
        r == is_digit(c),
{
    let x = c as u32;
    48 <= x && x <= 57
}

/// Parses a number from `v` starting at `start`, mirroring
/// [`spec_parse_number`] on `v@.skip(start)`. Returns `None` where the spec
/// parse fails or the value does not fit in a `u64`; otherwise the value and
/// the cursor just past the digits.
pub fn parse_number(v: &Vec<char>, start: usize) -> (r: Option<(u64, usize)>)
    requires
        start <= v@.len(),
    ensures
        match r {
            Some((n, j)) => {
                &&& start <= j <= v@.len()
                &&& spec_parse_number(v@.skip(start as int)) == Some(
                    (n as nat, v@.skip(j as int)),
                )
            },
            None => match spec_parse_number(v@.skip(start as int)) {
                Some((n, _)) => n > u64::MAX,
                None => true,
            },
        },
{
    if start >= v.len() || !is_digit_char(v[start]) {
        assert(start < v@.len() ==> v@.skip(start as int)[0] == v@[start as int]);
        return None;
    }
    let ghost s0 = v@.skip(start as int);
    let mut i: usize = start;
    let mut acc: u64 = 0;
    loop
        invariant
            start <= i <= v@.len(),
            s0 == v@.skip(start as int),
            parse_digits_rec(s0, 0) == parse_digits_rec(v@.skip(i as int), acc as nat),
            s0.len() > 0 && is_digit(s0[0]),
        decreases v@.len() - i,
    {
        if i >= v.len() || !is_digit_char(v[i]) {
            proof {
                if i < v@.len() {
                    assert(v@.skip(i as int)[0] == v@[i as int]);
                }
                assert(parse_digits_rec(v@.skip(i as int), acc as nat) == (
                    acc as nat,
                    v@.skip(i as int),
                ));
                assert(spec_parse_number(s0) == Some((acc as nat, v@.skip(i as int))));
            }
            return Some((acc, i));
        }
        let c = v[i];
        assert(v@.skip(i as int)[0] == c);
        let d: u64 = (c as u32 as u64) - 48;
        assert(d == digit_val(c));
        let wide: u128 = (acc as u128) * 10 + (d as u128);
        proof {
            assert(v@.skip(i as int).skip(1) =~= v@.skip(i as int + 1));
            assert(parse_digits_rec(v@.skip(i as int), acc as nat) == parse_digits_rec(
                v@.skip(i as int + 1),
                acc as nat * 10 + digit_val(c),
            ));
        }
        if wide > u64::MAX as u128 {
            proof {
                lemma_parse_digits_rec_ge_acc(
                    v@.skip(i as int + 1),
                    acc as nat * 10 + digit_val(c),
                );
                assert(parse_digits_rec(s0, 0).0 > u64::MAX);
            }
            return None;
        }
        acc = wide as u64;
        i = i + 1;
    }
}

} // verus!

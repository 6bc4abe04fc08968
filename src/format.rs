//! Decimal values as text: two fractional digits, comma-grouped thousands
//! and a leading `-` for negative values.

use vstd::prelude::*;
use crate::decimal::{half_even, pow10, pow10_i128, round_to_integer, Dec, lemma_pow10_pos};
use crate::text::text_of;
use crate::parser::without_commas;
use vstd::arithmetic::div_mod::{
    lemma_div_denominator, lemma_fundamental_div_mod_converse, lemma_mod_breakdown, lemma_mod_mod,
};

verus! {

/// The character of a decimal digit.
pub open spec fn digit_char(d: int) -> char {
    if d == 0 {
        '0'
    } else if d == 1 {
        '1'
    } else if d == 2 {
        '2'
    } else if d == 3 {
        '3'
    } else if d == 4 {
        '4'
    } else if d == 5 {
        '5'
    } else if d == 6 {
        '6'
    } else if d == 7 {
        '7'
    } else if d == 8 {
        '8'
    } else {
        '9'
    }
}

/// The decimal digits of `n`, without leading zeros.
pub open spec fn digits(n: nat) -> Seq<char>
    decreases n,
{
    if n < 10 {
        seq![digit_char(n as int)]
    } else {
        digits(n / 10).push(digit_char((n % 10) as int))
    }
}

/// The three digits of `n < 1000`, with leading zeros.
pub open spec fn three_digits(n: nat) -> Seq<char> {
    seq![digit_char((n / 100) as int), digit_char(((n / 10) % 10) as int), digit_char((n % 10) as int)]
}

/// The digits of `n` with a comma between groups of three, counted from
/// the ones place.
pub open spec fn grouped(n: nat) -> Seq<char>
    decreases n,
{
    if n < 1000 {
        digits(n)
    } else {
        grouped(n / 1000) + seq![','] + three_digits(n % 1000)
    }
}

/// A count of cents as text: optional sign, grouped whole part, point and
/// two digits.
pub open spec fn cents_text(negative: bool, cents: nat) -> Seq<char> {
    (if negative {
        seq!['-']
    } else {
        Seq::<char>::empty()
    }) + grouped(cents / 100) + seq!['.', digit_char(((cents / 10) % 10) as int), digit_char((cents % 10) as int)]
}

/// `|d| * 100`, rounded half to even.
pub open spec fn cents_of(d: Dec) -> int {
    let a = if d.mantissa < 0 {
        -d.mantissa
    } else {
        d.mantissa as int
    };
    if d.scale >= 2 {
        half_even(a, pow10((d.scale - 2) as nat))
    } else {
        a * pow10((2 - d.scale) as nat)
    }
}

fn digit(d: u64) -> (c: char)
    requires
        d < 10,
    ensures
        c == digit_char(d as int),
{
    match d {
        0 => '0',
        1 => '1',
        2 => '2',
        3 => '3',
        4 => '4',
        5 => '5',
        6 => '6',
        7 => '7',
        8 => '8',
        _ => '9',
    }
}

/// Appends the digits of `n`.
pub fn push_digits(v: &mut Vec<char>, n: u64)
    ensures
        final(v)@ == old(v)@ + digits(n as nat),
    decreases n,
{
    if n < 10 {
        v.push(digit(n));
        assert(final(v)@ =~= old(v)@ + digits(n as nat));
    } else {
        push_digits(v, n / 10);
        v.push(digit(n % 10));
        assert(v@ =~= old(v)@ + digits(n as nat));
    }
}

/// Appends the digits of `n`, comma-grouped.
fn push_grouped(v: &mut Vec<char>, n: u64)
    ensures
        final(v)@ == old(v)@ + grouped(n as nat),
    decreases n,
{
    if n < 1000 {
        push_digits(v, n);
    } else {
        push_grouped(v, n / 1000);
        let r = n % 1000;
        v.push(',');
        v.push(digit(r / 100));
        v.push(digit((r / 10) % 10));
        v.push(digit(r % 10));
        assert(v@ =~= old(v)@ + grouped(n as nat));
    }
}

/// Formats a value with exactly two fractional digits (rounded half to
/// even), commas between groups of three integer digits and a leading `-`
/// when negative. `None` when the count of cents exceeds `u64::MAX`.
pub fn dec_to_str(d: Dec) -> (r: Option<String>)
    requires
        d.wf(),
    ensures
        r is Some <==> cents_of(d) <= u64::MAX,
        r matches Some(s) ==> s@ == cents_text(d.mantissa < 0, cents_of(d) as nat),
{
    let a: i128 = if d.mantissa < 0 {
        -d.mantissa
    } else {
        d.mantissa
    };
    let cents: i128 = if d.scale >= 2 {
        round_to_integer(Dec { mantissa: a, scale: d.scale - 2 }).mantissa
    } else {
        let p = pow10_i128(2 - d.scale);
        proof {
            assert(pow10(2) == 100) by {
                reveal_with_fuel(pow10, 3);
            }
            crate::decimal::lemma_pow10_mono((2 - d.scale) as nat, 2);
            lemma_pow10_pos((2 - d.scale) as nat);
            assert(a * p <= 79228162514264337593543950335 * 100) by (nonlinear_arith)
                requires
                    0 <= a <= 79228162514264337593543950335,
                    1 <= p <= 100,
            ;
        }
        a * p
    };
    proof {
        if d.scale >= 2 {
            lemma_pow10_pos((d.scale - 2) as nat);
            let q = a as int / pow10((d.scale - 2) as nat);
            assert(q >= 0) by (nonlinear_arith)
                requires
                    a >= 0,
                    pow10((d.scale - 2) as nat) >= 1,
                    q == a as int / pow10((d.scale - 2) as nat),
            ;
        }
        assert(cents == cents_of(d));
        assert(cents >= 0);
    }
    if cents > 18446744073709551615 {
        return None;
    }
    let c = cents as u64;
    let mut v: Vec<char> = Vec::new();
    if d.mantissa < 0 {
        v.push('-');
    }
    push_grouped(&mut v, c / 100);
    v.push('.');
    v.push(digit((c / 10) % 10));
    v.push(digit(c % 10));
    assert(v@ =~= cents_text(d.mantissa < 0, c as nat));
    Some(text_of(&v))
}


/// A count of cents in plain notation: optional sign, whole digits, point
/// and two digits.
pub open spec fn plain_text(negative: bool, cents: nat) -> Seq<char> {
    (if negative {
        seq!['-']
    } else {
        Seq::<char>::empty()
    }) + digits(cents / 100) + seq!['.', digit_char(((cents / 10) % 10) as int), digit_char((cents % 10) as int)]
}

proof fn lemma_without_commas_append(a: Seq<char>, b: Seq<char>)
    ensures
        without_commas(a + b) == without_commas(a) + without_commas(b),
    decreases b.len(),
{
    if b.len() == 0 {
        assert(a + b =~= a);
        assert(without_commas(a) + without_commas(b) =~= without_commas(a));
    } else {
        lemma_without_commas_append(a, b.drop_last());
        assert((a + b).drop_last() =~= a + b.drop_last());
        if b.last() != ',' {
            assert(without_commas(a) + without_commas(b.drop_last()).push(b.last()) =~= (without_commas(a) + without_commas(b.drop_last())).push(b.last()));
        }
    }
}

proof fn lemma_without_commas_digits(s: Seq<char>)
    requires
        forall|i: int| 0 <= i < s.len() ==> s[i] != ',',
    ensures
        without_commas(s) == s,
    decreases s.len(),
{
    if s.len() > 0 {
        lemma_without_commas_digits(s.drop_last());
        assert(s.drop_last().push(s.last()) =~= s);
    }
}

proof fn lemma_digits_no_comma(n: nat)
    ensures
        forall|i: int| 0 <= i < digits(n).len() ==> digits(n)[i] != ',',
    decreases n,
{
    if n >= 10 {
        lemma_digits_no_comma(n / 10);
        let p = digits(n / 10);
        assert(digits(n) == p.push(digit_char((n % 10) as int)));
        assert forall|i: int| 0 <= i < digits(n).len() implies digits(n)[i] != ',' by {
            if i < p.len() {
                assert(digits(n)[i] == p[i]);
            }
        }
    }
}

proof fn lemma_digits_split(n: nat)
    requires
        n >= 1000,
    ensures
        digits(n) == digits(n / 1000) + three_digits(n % 1000),
{
    let m = n % 1000;
    lemma_mod_mod(n as int, 10, 100);
    lemma_mod_breakdown(n as int, 10, 100);
    lemma_mod_breakdown(n as int, 100, 10);
    lemma_fundamental_div_mod_converse(m as int, 10, (n as int / 10) % 100, n as int % 10);
    lemma_fundamental_div_mod_converse(m as int, 100, (n as int / 100) % 10, n as int % 100);
    lemma_mod_mod(n as int / 10, 10, 10);
    lemma_div_denominator(n as int, 10, 10);
    lemma_div_denominator(n as int, 100, 10);
    assert(n / 10 >= 10 && n / 100 >= 10);
    assert(n / 10 / 10 == n / 100);
    assert(n / 100 / 10 == n / 1000);
    let d1 = digits(n / 1000);
    assert(digits(n / 100) == d1.push(digit_char(((n / 100) % 10) as int)));
    assert(digits(n / 10) == digits(n / 100).push(digit_char(((n / 10) % 10) as int)));
    assert(digits(n) == digits(n / 10).push(digit_char((n % 10) as int)));
    assert((n / 100) % 10 == m / 100);
    assert((n / 10) % 10 == (m / 10) % 10);
    assert(n % 10 == m % 10);
    assert(digits(n) =~= digits(n / 1000) + three_digits(m));
}

proof fn lemma_grouped_plain(n: nat)
    ensures
        without_commas(grouped(n)) == digits(n),
    decreases n,
{
    lemma_digits_no_comma(n);
    if n < 1000 {
        lemma_without_commas_digits(digits(n));
    } else {
        lemma_grouped_plain(n / 1000);
        let t = three_digits(n % 1000);
        lemma_without_commas_append(grouped(n / 1000) + seq![','], t);
        lemma_without_commas_append(grouped(n / 1000), seq![',']);
        lemma_without_commas_digits(t);
        assert(without_commas(seq![',']) =~= Seq::<char>::empty()) by {
            assert(seq![','].drop_last() =~= Seq::<char>::empty());
            assert(without_commas(Seq::<char>::empty()) == Seq::<char>::empty());
        }
        lemma_digits_split(n);
        assert(without_commas(grouped(n / 1000)) + Seq::<char>::empty() =~= without_commas(grouped(n / 1000)));
    }
}

/// Formatting a value of at most two fractional digits is exact: the count
/// of cents is `|d| * 100` and the text, its commas removed, is the plain
/// decimal notation of that count.
pub proof fn lemma_format_exact(d: Dec)
    requires
        d.wf(),
        d.scale <= 2,
    ensures
        cents_of(d) * pow10(26) == (if d.units() < 0 {
            -d.units()
        } else {
            d.units()
        }),
        without_commas(cents_text(d.mantissa < 0, cents_of(d) as nat)) == plain_text(
            d.mantissa < 0,
            cents_of(d) as nat,
        ),
{
    let k = (2 - d.scale) as nat;
    let a = if d.mantissa < 0 {
        -d.mantissa
    } else {
        d.mantissa as int
    };
    crate::decimal::lemma_pow10_add(k, 26);
    lemma_pow10_pos((28 - d.scale) as nat);
    lemma_pow10_pos(k);
    lemma_pow10_pos(26);
    assert(d.units() == d.mantissa * pow10((28 - d.scale) as nat));
    assert((k + 26) as nat == (28 - d.scale) as nat);
    assert(cents_of(d) == a * pow10(k));
    assert(a * pow10(k) * pow10(26) == a * pow10((28 - d.scale) as nat)) by (nonlinear_arith)
        requires
            pow10((k + 26) as nat) == pow10(k) * pow10(26),
            (k + 26) as nat == (28 - d.scale) as nat,
    ;
    assert(d.mantissa < 0 ==> d.units() < 0) by (nonlinear_arith)
        requires
            d.units() == d.mantissa * pow10((28 - d.scale) as nat),
            pow10((28 - d.scale) as nat) >= 1,
    ;
    lemma_pow10_pos((28 - d.scale) as nat);
    assert(d.mantissa >= 0 ==> d.units() >= 0) by (nonlinear_arith)
        requires
            d.units() == d.mantissa * pow10((28 - d.scale) as nat),
            pow10((28 - d.scale) as nat) >= 1,
    ;
    assert(d.mantissa < 0 ==> -d.units() == a * pow10((28 - d.scale) as nat)) by (nonlinear_arith)
        requires
            d.units() == d.mantissa * pow10((28 - d.scale) as nat),
            d.mantissa < 0 ==> a == -d.mantissa,
    ;
    let c = cents_of(d) as nat;
    assert(c >= 0) by (nonlinear_arith)
        requires
            c == a * pow10(k),
            a >= 0,
            pow10(k) >= 1,
    ;
    let sign = if d.mantissa < 0 {
        seq!['-']
    } else {
        Seq::<char>::empty()
    };
    let tail = seq!['.', digit_char(((c / 10) % 10) as int), digit_char((c % 10) as int)];
    lemma_grouped_plain(c / 100);
    lemma_without_commas_append(sign + grouped(c / 100), tail);
    lemma_without_commas_append(sign, grouped(c / 100));
    lemma_without_commas_digits(sign);
    lemma_without_commas_digits(tail);
}

} // verus!

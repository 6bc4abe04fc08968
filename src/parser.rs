//! Command-line option groups read into exact decimals.

use vstd::prelude::*;
use crate::decimal::{
    Dec, sum_units, decimal_of, normalized, pow10, pow10_i128, read_decimal, lemma_pow10_add,
    lemma_pow10_mono, lemma_pow10_pos, MAX_MANTISSA, MAX_SCALE,
};
use crate::text::{chars_of, push_text, same_text, split_words, text_of, words_of};

verus! {

/// Largest accepted magnitude, `10^15`, counted in units of `10^-28`.
pub open spec fn bound_units() -> int {
    pow10(43)
}

/// Why reading the option groups failed.
#[derive(Debug, PartialEq, Eq)]
pub enum ArgError {
    /// A token, commas removed, that is not a decimal number.
    Parse(String),
    /// A token, commas removed, whose magnitude exceeds `10^15`.
    Magnitude(String),
    /// No values for `-a`.
    MissingAlloc,
    /// No values for `-c`.
    MissingCurrent,
    /// No value for `-d`.
    MissingDelta,
    /// `-a` and `-c` have different numbers of values.
    LengthMismatch,
    /// The values of `-a` do not sum to 100.
    AllocSum,
}

impl ArgError {
    /// The text shown to the user.
    pub open spec fn spec_message(&self) -> Seq<char> {
        match self {
            ArgError::Parse(s) => "unable to parse '"@ + s@ + "' to a number"@,
            ArgError::Magnitude(s) => "magnitude of '"@ + s@ + "' exceeds 1,000,000,000,000,000"@,
            ArgError::MissingAlloc => "no values provided for <alloc>"@,
            ArgError::MissingCurrent => "no values provided for <current>"@,
            ArgError::MissingDelta => "no value provided for <delta>"@,
            ArgError::LengthMismatch => "number of values provided for <alloc> and <current> differ"@,
            ArgError::AllocSum => "values for <alloc> do not sum to 100"@,
        }
    }

    /// The text shown to the user.
    pub fn message(&self) -> (r: String)
        ensures
            r@ == self.spec_message(),
    {
        let mut v: Vec<char> = Vec::new();
        match self {
            ArgError::Parse(s) => {
                push_text(&mut v, "unable to parse '");
                push_text(&mut v, s.as_str());
                push_text(&mut v, "' to a number");
            },
            ArgError::Magnitude(s) => {
                push_text(&mut v, "magnitude of '");
                push_text(&mut v, s.as_str());
                push_text(&mut v, "' exceeds 1,000,000,000,000,000");
            },
            ArgError::MissingAlloc => push_text(&mut v, "no values provided for <alloc>"),
            ArgError::MissingCurrent => push_text(&mut v, "no values provided for <current>"),
            ArgError::MissingDelta => push_text(&mut v, "no value provided for <delta>"),
            ArgError::LengthMismatch => push_text(
                &mut v,
                "number of values provided for <alloc> and <current> differ",
            ),
            ArgError::AllocSum => push_text(&mut v, "values for <alloc> do not sum to 100"),
        }
        assert(v@ =~= self.spec_message());
        text_of(&v)
    }
}

/// The token stops a group: at least two characters, a leading `-`, and a
/// second character that is not a decimal digit.
pub open spec fn is_marker(t: Seq<char>) -> bool {
    t.len() >= 2 && t[0] == '-' && !('0' <= t[1] && t[1] <= '9')
}

/// `s` with every `,` removed.
pub open spec fn without_commas(s: Seq<char>) -> Seq<char>
    decreases s.len(),
{
    if s.len() == 0 {
        s
    } else {
        let r = without_commas(s.drop_last());
        if s.last() == ',' {
            r
        } else {
            r.push(s.last())
        }
    }
}

/// The token, commas removed, reads as a decimal.
pub open spec fn parses(t: Seq<char>) -> bool {
    decimal_of(without_commas(t)) is Some
}

/// The token's value in units of `10^-28`.
pub open spec fn token_units(t: Seq<char>) -> int {
    let (m, s) = decimal_of(without_commas(t))->0;
    m * pow10((MAX_SCALE - s) as nat)
}

/// The token reads as a decimal of magnitude at most `10^15`.
pub open spec fn accepted(t: Seq<char>) -> bool {
    parses(t) && -bound_units() <= token_units(t) <= bound_units()
}

/// `e` is the error reported for the token `t`.
pub open spec fn reports(e: ArgError, t: Seq<char>) -> bool {
    match e {
        ArgError::Parse(s) => !parses(t) && s@ == without_commas(t),
        ArgError::Magnitude(s) => parses(t) && !accepted(t) && s@ == without_commas(t),
        _ => false,
    }
}

/// Whether help is asked for: at most one token (the program's name), or a
/// `-h` or `--help` token anywhere.
pub fn parse_help(args: &[String]) -> (r: bool)
    ensures
        r == (args@.len() <= 1 || exists|i: int|
            0 <= i < args@.len() && (args@[i]@ == "-h"@ || args@[i]@ == "--help"@)),
{
    if args.len() <= 1 {
        return true;
    }
    let mut i: usize = 0;
    while i < args.len()
        invariant
            i <= args@.len(),
            forall|j: int| 0 <= j < i ==> !(args@[j]@ == "-h"@ || args@[j]@ == "--help"@),
        decreases args@.len() - i,
    {
        if same_text(args[i].as_str(), "-h") || same_text(args[i].as_str(), "--help") {
            return true;
        }
        i = i + 1;
    }
    false
}

/// Whether the token stops a group.
pub fn token_is_marker(t: &str) -> (r: bool)
    ensures
        r == is_marker(t@),
{
    if t.unicode_len() < 2 {
        return false;
    }
    let c0 = t.get_char(0);
    let c1 = t.get_char(1);
    c0 == '-' && !('0' <= c1 && c1 <= '9')
}

/// The characters of `t` without commas.
pub fn strip_commas(t: &str) -> (r: Vec<char>)
    ensures
        r@ == without_commas(t@),
{
    let chars = chars_of(t);
    let mut out: Vec<char> = Vec::new();
    let mut i: usize = 0;
    while i < chars.len()
        invariant
            chars@ == t@,
            i <= chars@.len(),
            out@ == without_commas(chars@.take(i as int)),
        decreases chars@.len() - i,
    {
        let c = chars[i];
        assert(chars@.take(i as int + 1).drop_last() =~= chars@.take(i as int));
        if c != ',' {
            out.push(c);
        }
        i = i + 1;
    }
    assert(chars@.take(i as int) =~= chars@);
    out
}

/// Whether `|d|` exceeds `10^15`.
fn exceeds_bound(d: Dec) -> (r: bool)
    requires
        d.wf(),
    ensures
        r == !(-bound_units() <= d.units() <= bound_units()),
{
    let ghost k = (MAX_SCALE - d.scale) as nat;
    proof {
        lemma_pow10_add((15 + d.scale) as nat, k);
        lemma_pow10_pos(k);
    }
    let m = if d.mantissa < 0 {
        -d.mantissa
    } else {
        d.mantissa
    };
    proof {
        assert(d.units() == d.mantissa * pow10(k));
        assert(-d.units() == (-d.mantissa) * pow10(k)) by (nonlinear_arith)
            requires
                d.units() == d.mantissa * pow10(k),
        ;
    }
    if d.scale >= 14 {
        proof {
            lemma_pow10_mono(29, (15 + d.scale) as nat);
            assert(pow10(29) == 100000000000000000000000000000) by {
                reveal_with_fuel(pow10, 30);
            }
            assert(m * pow10(k) <= pow10((15 + d.scale) as nat) * pow10(k)) by (nonlinear_arith)
                requires
                    m <= pow10((15 + d.scale) as nat),
                    pow10(k) >= 1,
            ;
        }
        false
    } else {
        let q = pow10_i128(15 + d.scale);
        proof {
            if m > q {
                assert(m * pow10(k) > q * pow10(k)) by (nonlinear_arith)
                    requires
                        m > q,
                        pow10(k) >= 1,
                ;
            } else {
                assert(m * pow10(k) <= q * pow10(k)) by (nonlinear_arith)
                    requires
                        m <= q,
                        pow10(k) >= 1,
                ;
            }
        }
        m > q
    }
}

/// Reads one token: commas are removed, the rest is read as a decimal,
/// refused above a magnitude of `10^15`, and normalized.
pub fn parse_value(t: &str) -> (r: Result<Dec, ArgError>)
    ensures
        match r {
            Ok(d) => accepted(t@) && d.wf() && d.is_normal() && d.units() == token_units(t@),
            Err(e) => !accepted(t@) && reports(e, t@),
        },
{
    let cleaned = text_of(&strip_commas(t));
    let read = read_decimal(cleaned.as_str());
    accept_read(cleaned, read)
}

/// Finishes reading a token from its comma-free text and what was read of
/// it: no number is a parse error, a magnitude above `10^15` a magnitude
/// error, and any other number is returned normalized.
pub fn accept_read(cleaned: String, read: Option<Dec>) -> (r: Result<Dec, ArgError>)
    requires
        read matches Some(d) ==> d.wf(),
    ensures
        match read {
            None => r matches Err(ArgError::Parse(s)) && s@ == cleaned@,
            Some(d) => if -bound_units() <= d.units() <= bound_units() {
                r matches Ok(e) && e.wf() && e.is_normal() && e.units() == d.units()
            } else {
                r matches Err(ArgError::Magnitude(s)) && s@ == cleaned@
            },
        },
{
    match read {
        None => Err(ArgError::Parse(cleaned)),
        Some(d) => {
            if exceeds_bound(d) {
                Err(ArgError::Magnitude(cleaned))
            } else {
                Ok(normalized(d))
            }
        },
    }
}


/// The characters of each token.
pub open spec fn views(args: Seq<String>) -> Seq<Seq<char>> {
    args.map_values(|a: String| a@)
}

/// Index of the first token equal to `opt` at or after `from`, else the length.
pub open spec fn find_from(toks: Seq<Seq<char>>, opt: Seq<char>, from: int) -> int
    decreases toks.len() - from,
{
    if from < 0 || from >= toks.len() {
        toks.len() as int
    } else if toks[from] == opt {
        from
    } else {
        find_from(toks, opt, from + 1)
    }
}

/// Index of the first marker at or after `from`, else the length.
pub open spec fn marker_from(toks: Seq<Seq<char>>, from: int) -> int
    decreases toks.len() - from,
{
    if from < 0 || from >= toks.len() {
        toks.len() as int
    } else if is_marker(toks[from]) {
        from
    } else {
        marker_from(toks, from + 1)
    }
}

/// Index of the first token in `[from, end)` that is not accepted, else `end`.
pub open spec fn fault_from(toks: Seq<Seq<char>>, from: int, end: int) -> int
    decreases end - from,
{
    if from < 0 || from >= end {
        end
    } else if !accepted(toks[from]) {
        from
    } else {
        fault_from(toks, from + 1, end)
    }
}

/// `opt` occurs among the tokens.
pub open spec fn group_present(toks: Seq<Seq<char>>, opt: Seq<char>) -> bool {
    find_from(toks, opt, 0) < toks.len()
}

/// Index of the group's first value: just after the first `opt`.
pub open spec fn group_start(toks: Seq<Seq<char>>, opt: Seq<char>) -> int {
    find_from(toks, opt, 0) + 1
}

/// Index just past the group's last value: the next marker, or the end.
pub open spec fn group_end(toks: Seq<Seq<char>>, opt: Seq<char>) -> int {
    marker_from(toks, group_start(toks, opt))
}

/// Index of the group's first token that is not accepted, else `group_end`.
pub open spec fn group_fault(toks: Seq<Seq<char>>, opt: Seq<char>) -> int {
    fault_from(toks, group_start(toks, opt), group_end(toks, opt))
}

/// Every value of the group is accepted (an absent group has none).
pub open spec fn group_ok(toks: Seq<Seq<char>>, opt: Seq<char>) -> bool {
    !group_present(toks, opt) || group_fault(toks, opt) == group_end(toks, opt)
}

/// Number of values in the group.
pub open spec fn group_len(toks: Seq<Seq<char>>, opt: Seq<char>) -> int {
    if group_present(toks, opt) {
        group_end(toks, opt) - group_start(toks, opt)
    } else {
        0
    }
}

/// `v` holds the group's values, in order, normalized.
pub open spec fn group_values(toks: Seq<Seq<char>>, opt: Seq<char>, v: Seq<Dec>) -> bool {
    &&& v.len() == group_len(toks, opt)
    &&& forall|j: int|
        0 <= j < v.len() ==> #[trigger] v[j].wf() && v[j].is_normal() && v[j].units()
            == token_units(toks[group_start(toks, opt) + j])
}

/// What reading the group `opt` of `toks` gives: its values, or the error of
/// its first token that is not accepted.
pub open spec fn group_outcome(
    toks: Seq<Seq<char>>,
    opt: Seq<char>,
    r: Result<Vec<Dec>, ArgError>,
) -> bool {
    match r {
        Ok(v) => group_ok(toks, opt) && group_values(toks, opt, v@),
        Err(e) => !group_ok(toks, opt) && reports(e, toks[group_fault(toks, opt)]),
    }
}

proof fn lemma_marker_from_ge(toks: Seq<Seq<char>>, from: int)
    requires
        0 <= from <= toks.len(),
    ensures
        from <= marker_from(toks, from) <= toks.len(),
    decreases toks.len() - from,
{
    if from < toks.len() && !is_marker(toks[from]) {
        lemma_marker_from_ge(toks, from + 1);
    }
}

/// Reads the values of the group `opt`: the tokens after the first token
/// equal to `opt`, up to the next marker or the end. An absent group has no
/// values; the first token that is not accepted fails the whole group.
pub fn parse_group(args: &[String], opt: &str) -> (r: Result<Vec<Dec>, ArgError>)
    ensures
        group_outcome(views(args@), opt@, r),
{
    let ghost toks = views(args@);
    let n = args.len();
    let mut i: usize = 0;
    while i < n && !same_text(args[i].as_str(), opt)
        invariant
            n == args@.len() == toks.len(),
            toks == views(args@),
            i <= n,
            find_from(toks, opt@, 0) == find_from(toks, opt@, i as int),
        decreases n - i,
    {
        i = i + 1;
    }
    let mut out: Vec<Dec> = Vec::new();
    if i == n {
        let r = Ok(out);
        assert(group_outcome(toks, opt@, r));
        return r;
    }
    assert(toks[i as int] == args@[i as int]@);
    i = i + 1;
    let ghost start = i as int;
    let ghost end = marker_from(toks, start);
    proof {
        lemma_marker_from_ge(toks, start);
    }
    while i < n && !token_is_marker(args[i].as_str())
        invariant
            n == args@.len() == toks.len(),
            toks == views(args@),
            start == group_start(toks, opt@),
            group_present(toks, opt@),
            end == group_end(toks, opt@),
            start <= i <= end <= n,
            marker_from(toks, i as int) == end,
            fault_from(toks, start, end) == fault_from(toks, i as int, end),
            out@.len() == i - start,
            forall|j: int|
                0 <= j < out@.len() ==> #[trigger] out@[j].wf() && out@[j].is_normal()
                    && out@[j].units() == token_units(toks[start + j]),
        decreases n - i,
    {
        proof {
            lemma_marker_from_ge(toks, i as int + 1);
            assert(toks[i as int] == args@[i as int]@);
            assert(i < end);
        }
        match parse_value(args[i].as_str()) {
            Ok(d) => {
                out.push(d);
                assert(out@[out@.len() - 1] == d);
            },
            Err(e) => {
                assert(fault_from(toks, i as int, end) == i);
                assert(group_fault(toks, opt@) == i);
                assert(reports(e, toks[i as int]));
                assert(!group_ok(toks, opt@));
                let r = Err(e);
                assert(group_outcome(toks, opt@, r));
                return r;
            },
        }
        i = i + 1;
    }
    proof {
        if i < n {
            assert(toks[i as int] == args@[i as int]@);
        }
        assert(i == end);
        assert(fault_from(toks, i as int, end) == end);
        assert(group_values(toks, opt@, out@));
    }
    let r = Ok(out);
    assert(group_outcome(toks, opt@, r));
    r
}


/// `10^28`, one in units of `10^-28`.
const ONE_UNITS: i128 = 10000000000000000000000000000;

/// Whether the values sum to exactly 100. Each value has a magnitude of at
/// most `10^15`; the sum is kept as whole units plus a fraction, so that no
/// partial sum can overflow.
pub fn sums_to_hundred(v: &Vec<Dec>) -> (r: bool)
    requires
        forall|j: int|
            0 <= j < v@.len() ==> #[trigger] v@[j].wf() && -bound_units() <= v@[j].units()
                <= bound_units(),
    ensures
        r == (sum_units(v@) == 100 * pow10(MAX_SCALE as nat)),
{
    let ghost u = pow10(MAX_SCALE as nat);
    proof {
        assert(pow10(28) == 10000000000000000000000000000) by {
            reveal_with_fuel(pow10, 29);
        }
        lemma_pow10_add(15, 28);
        assert(pow10(15) == 1000000000000000) by {
            reveal_with_fuel(pow10, 16);
        }
    }
    let mut whole: i128 = 0;
    let mut frac: i128 = 0;
    let mut i: usize = 0;
    while i < v.len()
        invariant
            forall|j: int|
                0 <= j < v@.len() ==> #[trigger] v@[j].wf() && -bound_units() <= v@[j].units()
                    <= bound_units(),
            u == ONE_UNITS,
            u == pow10(28),
            bound_units() == 1000000000000000 * u,
            i <= v@.len(),
            0 <= frac < ONE_UNITS,
            -(i as int) * 1000000000000001 <= whole <= (i as int) * 1000000000000001,
            whole * ONE_UNITS + frac == sum_units(v@.take(i as int)),
        decreases v@.len() - i,
    {
        let d = v[i];
        assert(v@[i as int].wf());
        let k = MAX_SCALE - d.scale;
        let p = pow10_i128(d.scale);
        let q_scale = pow10_i128(k);
        let a: i128 = if d.mantissa < 0 {
            -d.mantissa
        } else {
            d.mantissa
        };
        proof {
            lemma_pow10_pos(d.scale as nat);
        }
        let q = a / p;
        let rem = a % p;
        proof {
            lemma_pow10_add(d.scale as nat, k as nat);
            lemma_pow10_pos(d.scale as nat);
            lemma_pow10_pos(k as nat);
            assert(d.scale as nat + k as nat == 28);
            assert(pow10((d.scale as nat + k as nat) as nat) == pow10(28));
            assert(p * q_scale == pow10(d.scale as nat) * pow10(k as nat));
            assert(p * q_scale == u);
            assert(a == q * p + rem) by (nonlinear_arith)
                requires
                    q == a / p,
                    rem == a % p,
                    p >= 1,
            ;
            assert(rem * q_scale < u) by (nonlinear_arith)
                requires
                    0 <= rem < p,
                    q_scale >= 1,
                    p * q_scale == u,
            ;
            assert(a * q_scale == q * u + rem * q_scale) by (nonlinear_arith)
                requires
                    a == q * p + rem,
                    p * q_scale == u,
            ;
            assert(d.mantissa < 0 ==> a * q_scale == -d.units()) by (nonlinear_arith)
                requires
                    d.units() == d.mantissa * q_scale,
                    d.mantissa < 0 ==> a == -d.mantissa,
            ;
            assert(d.mantissa >= 0 ==> a * q_scale == d.units()) by (nonlinear_arith)
                requires
                    d.units() == d.mantissa * q_scale,
                    d.mantissa >= 0 ==> a == d.mantissa,
            ;
            assert(q <= 1000000000000000) by (nonlinear_arith)
                requires
                    a * q_scale == q * u + rem * q_scale,
                    rem * q_scale >= 0,
                    a * q_scale <= 1000000000000000 * u,
                    u > 0,
            ;
            assert(rem * q_scale >= 0) by (nonlinear_arith)
                requires
                    rem >= 0,
                    q_scale >= 1,
            ;
            assert(v@.take(i as int + 1).drop_last() =~= v@.take(i as int));
        }
        let f = rem * q_scale;
        assert(d.mantissa >= 0 ==> d.units() == q * ONE_UNITS + f);
        assert(d.mantissa < 0 ==> d.units() == -(q * ONE_UNITS + f));
        if d.mantissa >= 0 {
            whole = whole + q;
            frac = frac + f;
            if frac >= ONE_UNITS {
                frac = frac - ONE_UNITS;
                whole = whole + 1;
            }
        } else {
            whole = whole - q;
            frac = frac - f;
            if frac < 0 {
                frac = frac + ONE_UNITS;
                whole = whole - 1;
            }
        }
        proof {
            assert(sum_units(v@.take(i as int + 1)) == sum_units(v@.take(i as int)) + d.units());
        }
        i = i + 1;
    }
    proof {
        assert(v@.take(i as int) =~= v@);
    }
    whole == 100 && frac == 0
}


/// The text of an optional default.
pub open spec fn opt_view(o: Option<&str>) -> Option<Seq<char>> {
    match o {
        Some(s) => Some(s@),
        None => None,
    }
}

/// The tokens that `-a` is read from: the arguments, or, when they give
/// `-a` no value and a default is set, `-a` followed by the default's words.
pub open spec fn alloc_tokens(toks: Seq<Seq<char>>, default_alloc: Option<Seq<char>>) -> Seq<
    Seq<char>,
> {
    if group_ok(toks, "-a"@) && group_len(toks, "-a"@) == 0 && default_alloc is Some {
        seq!["-a"@] + words_of(default_alloc->0)
    } else {
        toks
    }
}

/// `e` is the error that reading the three groups gives when it fails.
pub open spec fn groups_error(toks: Seq<Seq<char>>, default_alloc: Option<Seq<char>>, e: ArgError) -> bool {
    let at = alloc_tokens(toks, default_alloc);
    if !group_ok(at, "-a"@) {
        reports(e, at[group_fault(at, "-a"@)])
    } else if !group_ok(toks, "-d"@) {
        reports(e, toks[group_fault(toks, "-d"@)])
    } else if !group_ok(toks, "-c"@) {
        reports(e, toks[group_fault(toks, "-c"@)])
    } else if group_len(at, "-a"@) == 0 {
        e == ArgError::MissingAlloc
    } else if group_len(toks, "-c"@) == 0 {
        e == ArgError::MissingCurrent
    } else if group_len(at, "-a"@) != group_len(toks, "-c"@) {
        e == ArgError::LengthMismatch
    } else {
        e == ArgError::AllocSum
    }
}

/// Reads and validates the groups `-a` (allocation), `-c` (current values)
/// and `-d` (delta). `-a` falls back on the words of `default_alloc`, `-d`
/// on a single zero. Fails on the first bad token (in `-a`, then `-d`, then
/// `-c`), then when `-a` or `-c` is empty, when they differ in length, or
/// when the allocation does not sum to exactly 100.
pub fn parse_groups(args: &[String], default_alloc: Option<&str>) -> (r: Result<
    (Vec<Dec>, Vec<Dec>, Vec<Dec>),
    ArgError,
>)
    ensures
        ({
            let toks = views(args@);
            let at = alloc_tokens(toks, opt_view(default_alloc));
            match r {
                Ok((a, c, d)) => {
                    &&& group_ok(at, "-a"@) && group_ok(toks, "-d"@) && group_ok(toks, "-c"@)
                    &&& group_values(at, "-a"@, a@)
                    &&& group_values(toks, "-c"@, c@)
                    &&& if group_len(toks, "-d"@) == 0 {
                        d@.len() == 1 && d@[0].wf() && d@[0].is_normal() && d@[0].units() == 0
                    } else {
                        group_values(toks, "-d"@, d@)
                    }
                    &&& a@.len() > 0 && a@.len() == c@.len()
                    &&& sum_units(a@) == 100 * pow10(MAX_SCALE as nat)
                },
                Err(e) => groups_error(toks, opt_view(default_alloc), e),
            }
        }),
{
    let ghost toks = views(args@);
    let ghost at = alloc_tokens(toks, opt_view(default_alloc));
    let mut alloc = match parse_group(args, "-a") {
        Ok(v) => v,
        Err(e) => {
            return Err(e);
        },
    };
    if alloc.len() == 0 {
        match default_alloc {
            Some(s) => {
                let mut alloc_args = split_words(s);
                alloc_args.insert(0, "-a".to_owned());
                proof {
                    assert(alloc_args@.map_values(|w: String| w@) =~= seq!["-a"@] + words_of(s@));
                    assert(views(alloc_args@) == at);
                }
                alloc = match parse_group(alloc_args.as_slice(), "-a") {
                    Ok(v) => v,
                    Err(e) => {
                        return Err(e);
                    },
                };
            },
            None => {},
        }
    }
    let mut delta = match parse_group(args, "-d") {
        Ok(v) => v,
        Err(e) => {
            return Err(e);
        },
    };
    let ghost delta_given = delta@.len() > 0;
    if delta.len() == 0 {
        delta = vec![Dec::zero()];
    }
    let current = match parse_group(args, "-c") {
        Ok(v) => v,
        Err(e) => {
            return Err(e);
        },
    };
    if alloc.len() == 0 {
        return Err(ArgError::MissingAlloc);
    }
    if current.len() == 0 {
        return Err(ArgError::MissingCurrent);
    }
    if delta.len() == 0 {
        return Err(ArgError::MissingDelta);
    }
    if alloc.len() != current.len() {
        return Err(ArgError::LengthMismatch);
    }
    proof {
        assert forall|j: int| 0 <= j < alloc@.len() implies #[trigger] alloc@[j].wf()
            && -bound_units() <= alloc@[j].units() <= bound_units() by {
            assert(alloc@[j].wf());
            lemma_find_from_ge(at, "-a"@, 0);
            assert(accepted(at[group_start(at, "-a"@) + j])) by {
                lemma_fault_free(at, group_start(at, "-a"@), group_end(at, "-a"@), group_start(at, "-a"@) + j);
            }
        }
    }
    if !sums_to_hundred(&alloc) {
        return Err(ArgError::AllocSum);
    }
    Ok((alloc, current, delta))
}

proof fn lemma_find_from_ge(toks: Seq<Seq<char>>, opt: Seq<char>, from: int)
    requires
        0 <= from <= toks.len(),
    ensures
        from <= find_from(toks, opt, from) <= toks.len(),
    decreases toks.len() - from,
{
    if from < toks.len() && toks[from] != opt {
        lemma_find_from_ge(toks, opt, from + 1);
    }
}

proof fn lemma_fault_free(toks: Seq<Seq<char>>, from: int, end: int, j: int)
    requires
        0 <= from <= j < end,
        fault_from(toks, from, end) == end,
    ensures
        accepted(toks[j]),
    decreases j - from,
{
    if j > from {
        lemma_fault_free(toks, from + 1, end, j);
    }
}

} // verus!

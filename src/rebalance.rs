//! The rebalance arithmetic: total value, target value of each component
//! and the change that reaches it, all exact.

use vstd::prelude::*;
use crate::column::Column;
use crate::format::{cents_of, cents_text};
use crate::column::widest;
use crate::table::{Table, index_rows, widths_sum};
use crate::decimal::{
    Dec, checked_difference, checked_share, checked_sum, fits, lemma_aligned_sum, lemma_pow10_pos,
    lemma_small_fits, normalize, normal_of, pow10, share_of, sum_of, sum_units, MAX_SCALE,
};

verus! {

/// 100 in units of `10^-28`.
pub open spec fn hundred_units() -> int {
    100 * pow10(MAX_SCALE as nat)
}

/// The outcome of a rebalance.
#[derive(Debug)]
pub struct Rebalance {
    /// Delta plus the sum of current values.
    pub total: Dec,
    /// Target value of each component: its allocation percentage of `total`.
    pub future: Vec<Dec>,
    /// `future - current` for each component.
    pub change: Vec<Dec>,
}

/// `f` is `a` percent of `t`, exactly.
pub open spec fn is_share(f: Dec, a: Dec, t: Dec) -> bool {
    f.units() * hundred_units() == a.units() * t.units()
}

proof fn lemma_scaled_sum(alloc: Seq<Dec>, future: Seq<Dec>, total: Dec)
    requires
        alloc.len() == future.len(),
        forall|i: int| 0 <= i < future.len() ==> is_share(#[trigger] future[i], alloc[i], total),
    ensures
        sum_units(future) * hundred_units() == sum_units(alloc) * total.units(),
    decreases future.len(),
{
    if future.len() > 0 {
        let fl = future.drop_last();
        let al = alloc.drop_last();
        assert forall|i: int| 0 <= i < fl.len() implies is_share(#[trigger] fl[i], al[i], total) by {
            assert(fl[i] == future[i]);
        }
        lemma_scaled_sum(al, fl, total);
        assert(is_share(future[future.len() - 1], alloc[alloc.len() - 1], total));
        assert(sum_units(future) * hundred_units() == sum_units(alloc) * total.units())
            by (nonlinear_arith)
            requires
                sum_units(future) == sum_units(fl) + future.last().units(),
                sum_units(alloc) == sum_units(al) + alloc.last().units(),
                sum_units(fl) * hundred_units() == sum_units(al) * total.units(),
                future.last().units() * hundred_units() == alloc.last().units() * total.units(),
        ;
    }
}

/// Conservation of value: when the allocation sums to 100, the target
/// values sum to the total.
pub proof fn lemma_total_conserved(alloc: Seq<Dec>, future: Seq<Dec>, total: Dec)
    requires
        alloc.len() == future.len(),
        sum_units(alloc) == hundred_units(),
        forall|i: int| 0 <= i < future.len() ==> is_share(#[trigger] future[i], alloc[i], total),
    ensures
        sum_units(future) == total.units(),
{
    lemma_scaled_sum(alloc, future, total);
    crate::decimal::lemma_pow10_pos(MAX_SCALE as nat);
    assert(sum_units(future) == total.units()) by (nonlinear_arith)
        requires
            sum_units(future) * hundred_units() == hundred_units() * total.units(),
            hundred_units() > 0,
    ;
}

/// At most two fractional digits and a magnitude of at most `10^15`.
pub open spec fn is_plain_amount(d: Dec) -> bool {
    d.scale <= 2 && -pow10(43) <= d.units() <= pow10(43)
}

/// Inputs of everyday size: at most 1000 components, at most two fractional
/// digits everywhere, allocations within 100 and amounts within `10^15` in
/// magnitude.
pub open spec fn everyday(alloc: Seq<Dec>, current: Seq<Dec>, delta: Dec) -> bool {
    &&& alloc.len() <= 1000
    &&& is_plain_amount(delta)
    &&& forall|i: int|
        0 <= i < alloc.len() ==> (#[trigger] alloc[i]).scale <= 2 && -hundred_units()
            <= alloc[i].units() <= hundred_units()
    &&& forall|i: int| 0 <= i < current.len() ==> is_plain_amount(#[trigger] current[i])
}

proof fn lemma_powers()
    ensures
        pow10(26) == 100000000000000000000000000,
        pow10(28) == 10000000000000000000000000000,
        pow10(43) == 10000000000000000000000000000000000000000000,
        pow10(50) == 100000000000000000000000000000000000000000000000000,
{
    reveal_with_fuel(pow10, 51);
}

/// A mantissa of at most two fractional digits is at most the value's
/// magnitude in hundredths.
proof fn lemma_mantissa_bound(d: Dec, b: int)
    requires
        d.wf(),
        d.scale <= 2,
        -b * pow10(26) <= d.units() <= b * pow10(26),
    ensures
        -b <= d.mantissa <= b,
{
    let k = (MAX_SCALE - d.scale) as nat;
    crate::decimal::lemma_pow10_mono(26, k);
    lemma_pow10_pos(26);
    let p = pow10(k);
    let q = pow10(26);
    if d.mantissa > b {
        assert(d.mantissa * p > b * q) by (nonlinear_arith)
            requires
                d.mantissa > b,
                p >= q,
                q >= 1,
                b * q >= -d.units(),
                d.units() == d.mantissa * p,
        ;
    }
    assert(b >= 0) by (nonlinear_arith)
        requires
            -b * q <= b * q,
            q >= 1,
    ;
    if d.mantissa < -b {
        assert(d.mantissa * p <= d.mantissa * q) by (nonlinear_arith)
            requires
                d.mantissa < -b,
                b >= 0,
                p >= q,
        ;
        assert(d.mantissa * q < -b * q) by (nonlinear_arith)
            requires
                d.mantissa < -b,
                q >= 1,
        ;
    }
}

proof fn lemma_negated_units(d: Dec)
    requires
        d.wf(),
    ensures
        d.negated().wf(),
        d.negated().units() == -d.units(),
{
    let q = pow10((MAX_SCALE - d.scale) as nat);
    assert((-d.mantissa) * q == -(d.mantissa * q)) by (nonlinear_arith);
}

/// The exact running sum from zero, left to right; `None` when a partial
/// sum does not fit.
pub open spec fn running_sum(vals: Seq<Dec>) -> Option<Dec>
    decreases vals.len(),
{
    if vals.len() == 0 {
        Some(Dec { mantissa: 0, scale: 0 })
    } else {
        match running_sum(vals.drop_last()) {
            Some(acc) => sum_of(acc, vals.last()),
            None => None,
        }
    }
}

proof fn lemma_running_sum_stuck(vals: Seq<Dec>, k: int)
    requires
        0 <= k <= vals.len(),
        running_sum(vals.take(k)) is None,
    ensures
        running_sum(vals) is None,
    decreases vals.len() - k,
{
    if k < vals.len() {
        assert(vals.take(k + 1).drop_last() =~= vals.take(k));
        lemma_running_sum_stuck(vals, k + 1);
    } else {
        assert(vals.take(k) =~= vals);
    }
}

/// The normalized total `delta0 + sum(current)`, when every step fits.
pub open spec fn total_of(current: Seq<Dec>, delta0: Dec) -> Option<Dec> {
    match running_sum(current) {
        Some(h) => match sum_of(delta0, h) {
            Some(s) => Some(normal_of(s)),
            None => None,
        },
        None => None,
    }
}

/// The share of the total and the change of one component both fit.
pub open spec fn component_fits(a: Dec, c: Dec, t: Dec) -> bool {
    match share_of(a, t) {
        Some(f) => sum_of(normal_of(f), c.negated()) is Some,
        None => false,
    }
}

/// Every exact intermediate value of the rebalance fits the representation.
pub open spec fn rebalance_fits(alloc: Seq<Dec>, current: Seq<Dec>, delta0: Dec) -> bool {
    match total_of(current, delta0) {
        Some(t) => forall|i: int|
            0 <= i < alloc.len() ==> component_fits(#[trigger] alloc[i], current[i], t),
        None => false,
    }
}

/// Sum of the values, exact; `None` when a partial sum does not fit.
fn checked_total(values: &Vec<Dec>) -> (r: Option<Dec>)
    requires
        forall|i: int| 0 <= i < values@.len() ==> (#[trigger] values@[i]).wf(),
    ensures
        r matches Some(d) ==> d.wf() && d.units() == sum_units(values@),
        r == running_sum(values@),
        values@.len() <= 1000 && (forall|i: int|
            0 <= i < values@.len() ==> is_plain_amount(#[trigger] values@[i])) ==> (r matches Some(
            d,
        ) && d.scale <= 2 && -1000 * pow10(43) <= d.units() <= 1000 * pow10(43)),
{
    let ghost plain = values@.len() <= 1000 && (forall|i: int|
        0 <= i < values@.len() ==> is_plain_amount(#[trigger] values@[i]));
    proof {
        lemma_powers();
    }
    let mut acc = Dec::zero();
    let mut i: usize = 0;
    while i < values.len()
        invariant
            forall|i: int| 0 <= i < values@.len() ==> (#[trigger] values@[i]).wf(),
            i <= values@.len(),
            acc.wf(),
            acc.units() == sum_units(values@.take(i as int)),
            running_sum(values@.take(i as int)) == Some(acc),
            plain == (values@.len() <= 1000 && (forall|i: int|
                0 <= i < values@.len() ==> is_plain_amount(#[trigger] values@[i]))),
            pow10(43) == 10000000000000000000000000000000000000000000,
            pow10(50) == 100000000000000000000000000000000000000000000000000,
            plain ==> acc.scale <= 2 && -(i as int) * 10000000000000000000000000000000000000000000
                <= acc.units() <= (i as int) * 10000000000000000000000000000000000000000000,
        decreases values@.len() - i,
    {
        assert(values@[i as int].wf());
        proof {
            if plain {
                assert(is_plain_amount(values@[i as int]));
                lemma_aligned_sum(acc, values@[i as int]);
                let m = if acc.scale <= values@[i as int].scale {
                    values@[i as int].scale
                } else {
                    acc.scale
                };
                lemma_small_fits(crate::decimal::aligned_sum(acc, values@[i as int]), (MAX_SCALE - m) as nat, acc.units() + values@[i as int].units());
            }
        }
        assert(values@.take(i as int + 1).drop_last() =~= values@.take(i as int));
        match checked_sum(acc, values[i]) {
            Some(s) => {
                acc = s;
            },
            None => {
                proof {
                    lemma_running_sum_stuck(values@, i as int + 1);
                }
                return None;
            },
        }
        i = i + 1;
    }
    assert(values@.take(i as int) =~= values@);
    Some(acc)
}

/// `rb` is the exact rebalance of the inputs: the total is `delta0` plus
/// the current values, each target is its allocation's share of the total,
/// each change is target minus current, all normalized; and the targets add
/// up to the total when the allocation sums to 100.
pub open spec fn rebalanced(alloc: Seq<Dec>, current: Seq<Dec>, delta0: Dec, rb: Rebalance) -> bool {
    &&& rb.total.wf() && rb.total.is_normal()
    &&& rb.total.units() == delta0.units() + sum_units(current)
    &&& rb.future@.len() == alloc.len() && rb.change@.len() == alloc.len()
    &&& forall|i: int|
        0 <= i < alloc.len() ==> {
            &&& (#[trigger] rb.future@[i]).wf() && rb.future@[i].is_normal()
            &&& is_share(rb.future@[i], alloc[i], rb.total)
            &&& rb.change@[i].wf() && rb.change@[i].is_normal()
            &&& rb.change@[i].units() == rb.future@[i].units() - current[i].units()
        }
    &&& sum_units(alloc) == hundred_units() ==> sum_units(rb.future@) == rb.total.units()
}

/// Computes `total = delta[0] + sum(current)`, `future[i] = alloc[i] / 100 *
/// total` and `change[i] = future[i] - current[i]`, each exact and
/// normalized. `None` exactly when an exact intermediate value does not fit
/// the decimal representation (96-bit mantissa, at most 28 fractional
/// digits), which never happens on inputs of everyday size.
pub fn rebalance(alloc: &Vec<Dec>, current: &Vec<Dec>, delta: &Vec<Dec>) -> (r: Option<Rebalance>)
    requires
        alloc@.len() == current@.len(),
        delta@.len() >= 1,
        delta@[0].wf(),
        forall|i: int| 0 <= i < alloc@.len() ==> (#[trigger] alloc@[i]).wf(),
        forall|i: int| 0 <= i < current@.len() ==> (#[trigger] current@[i]).wf(),
    ensures
        r matches Some(rb) ==> rebalanced(alloc@, current@, delta@[0], rb),
        r is Some <==> rebalance_fits(alloc@, current@, delta@[0]),
        r matches Some(rb) ==> total_of(current@, delta@[0]) == Some(rb.total),
        everyday(alloc@, current@, delta@[0]) ==> r is Some,
{
    let ghost small = everyday(alloc@, current@, delta@[0]);
    proof {
        lemma_powers();
    }
    let held = match checked_total(current) {
        Some(s) => s,
        None => {
            return None;
        },
    };
    proof {
        if small {
            lemma_aligned_sum(delta@[0], held);
            let m = if delta@[0].scale <= held.scale {
                held.scale
            } else {
                delta@[0].scale
            };
            lemma_small_fits(crate::decimal::aligned_sum(delta@[0], held), (MAX_SCALE - m) as nat, delta@[0].units() + held.units());
        }
    }
    let total = match checked_sum(delta[0], held) {
        Some(s) => normalize(s),
        None => {
            return None;
        },
    };
    proof {
        if small {
            lemma_mantissa_bound(total, 1001 * 100000000000000000int);
        }
    }
    let n = alloc.len();
    let mut future: Vec<Dec> = Vec::new();
    let mut change: Vec<Dec> = Vec::new();
    let mut i: usize = 0;
    while i < n
        invariant
            n == alloc@.len() == current@.len(),
            forall|i: int| 0 <= i < alloc@.len() ==> (#[trigger] alloc@[i]).wf(),
            forall|i: int| 0 <= i < current@.len() ==> (#[trigger] current@[i]).wf(),
            total.wf(),
            i <= n,
            future@.len() == i && change@.len() == i,
            forall|j: int|
                0 <= j < i ==> {
                    &&& (#[trigger] future@[j]).wf() && future@[j].is_normal()
                    &&& is_share(future@[j], alloc@[j], total)
                    &&& change@[j].wf() && change@[j].is_normal()
                    &&& change@[j].units() == future@[j].units() - current@[j].units()
                },
            small == everyday(alloc@, current@, delta@[0]),
            total_of(current@, delta@[0]) == Some(total),
            forall|j: int| 0 <= j < i ==> component_fits(#[trigger] alloc@[j], current@[j], total),
            pow10(26) == 100000000000000000000000000,
            pow10(28) == 10000000000000000000000000000,
            pow10(43) == 10000000000000000000000000000000000000000000,
            pow10(50) == 100000000000000000000000000000000000000000000000000,
            small ==> total.scale <= 2 && -1001 * pow10(43) <= total.units() <= 1001 * pow10(43)
                && -1001 * 100000000000000000 <= total.mantissa <= 1001 * 100000000000000000,
        decreases n - i,
    {
        assert(alloc@[i as int].wf() && current@[i as int].wf());
        proof {
            if small {
                let a = alloc@[i as int];
                assert(a.scale <= 2 && -hundred_units() <= a.units() <= hundred_units());
                lemma_mantissa_bound(a, 10000int);
                assert(-10000 * (1001 * 100000000000000000) <= a.mantissa * total.mantissa <= 10000 * (1001 * 100000000000000000)) by (nonlinear_arith)
                    requires
                        -10000 <= a.mantissa <= 10000,
                        -1001 * 100000000000000000 <= total.mantissa <= 1001 * 100000000000000000,
                ;
            }
        }
        let f = match checked_share(alloc[i], total) {
            Some(s) => normalize(s),
            None => {
                return None;
            },
        };
        proof {
            if small {
                let a = alloc@[i as int];
                let fu = f.units();
                let cap = 1001 * pow10(43);
                assert(-cap <= fu <= cap) by (nonlinear_arith)
                    requires
                        fu * (100 * pow10(28)) == a.units() * total.units(),
                        -100 * pow10(28) <= a.units() <= 100 * pow10(28),
                        -cap <= total.units() <= cap,
                        pow10(28) > 0,
                ;
                let c0 = current@[i as int];
                assert(is_plain_amount(c0));
                lemma_negated_units(c0);
                lemma_aligned_sum(f, c0.negated());
                let m = if f.scale <= c0.scale {
                    c0.scale
                } else {
                    f.scale
                };
                lemma_small_fits(crate::decimal::aligned_sum(f, c0.negated()), (MAX_SCALE - m) as nat, f.units() + c0.negated().units());
            }
        }
        let c = match checked_difference(f, current[i]) {
            Some(s) => normalize(s),
            None => {
                return None;
            },
        };
        future.push(f);
        change.push(c);
        i = i + 1;
    }
    proof {
        if sum_units(alloc@) == hundred_units() {
            lemma_total_conserved(alloc@, future@, total);
        }
    }
    assert(rebalance_fits(alloc@, current@, delta@[0]));
    let rb = Rebalance { total, future, change };
    assert(rebalanced(alloc@, current@, delta@[0], rb));
    Some(rb)
}


/// The formatted text of each value.
pub open spec fn formatted(vals: Seq<Dec>) -> Seq<Seq<char>> {
    Seq::new(vals.len(), |i: int| cents_text(vals[i].mantissa < 0, cents_of(vals[i]) as nat))
}

/// Every value can be formatted: its count of cents fits `u64`.
pub open spec fn all_format(vals: Seq<Dec>) -> bool {
    forall|i: int| 0 <= i < vals.len() ==> cents_of(#[trigger] vals[i]) <= u64::MAX
}

/// The result table can be built: every value formats, the row count fits
/// `u64` and the line width fits `usize`.
pub open spec fn report_fits(current: Seq<Dec>, future: Seq<Dec>, change: Seq<Dec>) -> bool {
    &&& all_format(current) && all_format(future) && all_format(change)
    &&& current.len() < u64::MAX
    &&& widest(8, formatted(current)) + widest(5, formatted(future)) + widest(6, formatted(change))
        + 73 <= usize::MAX
}

/// The result table: columns `#`, `Original`, `Final` and `Change`, one row
/// per component, each as wide as its widest text. `None` exactly when a
/// value is too large to format or the table too wide to measure.
pub fn report(current: &Vec<Dec>, rb: &Rebalance) -> (r: Option<String>)
    requires
        current@.len() == rb.future@.len() == rb.change@.len(),
        forall|i: int| 0 <= i < current@.len() ==> (#[trigger] current@[i]).wf(),
        forall|i: int| 0 <= i < rb.future@.len() ==> (#[trigger] rb.future@[i]).wf(),
        forall|i: int| 0 <= i < rb.change@.len() ==> (#[trigger] rb.change@[i]).wf(),
    ensures
        r is Some <==> report_fits(current@, rb.future@, rb.change@),
        r matches Some(s) ==> exists|t: Table|
            {
                &&& #[trigger] t.wf()
                &&& s@ == crate::table::table_text(t.spec_columns(), t.spec_width())
                &&& t.spec_columns().len() == 4
                &&& t.spec_columns()[0].header() == "#"@
                &&& t.spec_columns()[0].rows() == index_rows(current@.len())
                &&& t.spec_columns()[0].spec_width() == widest(1, index_rows(current@.len()))
                &&& t.spec_columns()[1].header() == "Original"@
                &&& t.spec_columns()[1].rows() == formatted(current@)
                &&& t.spec_columns()[1].spec_width() == widest(8, formatted(current@))
                &&& t.spec_columns()[2].header() == "Final"@
                &&& t.spec_columns()[2].rows() == formatted(rb.future@)
                &&& t.spec_columns()[2].spec_width() == widest(5, formatted(rb.future@))
                &&& t.spec_columns()[3].header() == "Change"@
                &&& t.spec_columns()[3].rows() == formatted(rb.change@)
                &&& t.spec_columns()[3].spec_width() == widest(6, formatted(rb.change@))
                &&& t.spec_width() == widths_sum(t.spec_columns()) + 13
            },
{
    let original = match Column::from_decimals("Original", current.as_slice()) {
        Some(c) => c,
        None => {
            return None;
        },
    };
    let future = match Column::from_decimals("Final", rb.future.as_slice()) {
        Some(c) => c,
        None => {
            return None;
        },
    };
    let change = match Column::from_decimals("Change", rb.change.as_slice()) {
        Some(c) => c,
        None => {
            return None;
        },
    };
    proof {
        reveal_strlit("Original");
        reveal_strlit("Final");
        reveal_strlit("Change");
        assert(original.rows() =~= formatted(current@));
        assert(future.rows() =~= formatted(rb.future@));
        assert(change.rows() =~= formatted(rb.change@));
    }
    let w1 = original.width() as u128;
    let w2 = future.width() as u128;
    let w3 = change.width() as u128;
    if w1 + w2 + w3 + 9 + 64 > usize::MAX as u128 || current.len() as u128 >= u64::MAX as u128 {
        return None;
    }
    let columns = vec![original, future, change];
    proof {
        reveal_with_fuel(widths_sum, 4);
        assert(columns@.drop_last().drop_last().drop_last() =~= Seq::<Column>::empty());
        assert(widths_sum(columns@) == w1 + w2 + w3);
    }
    let t = Table::new(columns);
    proof {
        assert(t.spec_columns()[1] == columns@[0]) by {
            assert(t.spec_columns().skip(1)[0] == t.spec_columns()[1]);
        }
        assert(t.spec_columns()[2] == columns@[1]) by {
            assert(t.spec_columns().skip(1)[1] == t.spec_columns()[2]);
        }
        assert(t.spec_columns()[3] == columns@[2]) by {
            assert(t.spec_columns().skip(1)[2] == t.spec_columns()[3]);
        }
        assert(t.spec_columns()[0].rows().len() == current@.len());
    }
    Some(t.draw())
}

} // verus!

use vstd::prelude::*;
use crate::csv_parser::{CsvRow, row_model};
use crate::decimal::{
    Decimal, aligned, greater, in_i128, lemma_pow10_24, lemma_pow10_add, lemma_pow10_positive,
    lemma_round_exact, lemma_scaled_grows, parse_decimal, parsed_decimal, pow10, product_checked,
    round_half_away, rounded, sum_checked,
};
use crate::error::{AppError, is_invalid_formula, is_invalid_operation};
use crate::formula_evaluator::{EvaluatedFormula, EvaluatedRow, evaluated_model, evaluated_row_model};

verus! {

/// The value of a row's first formula read as a number; zero where it is absent or
/// is no number.
pub open spec fn first_value(fs: Seq<Seq<char>>) -> (int, nat) {
    if fs.len() > 0 && parsed_decimal(fs[0]) is Some {
        parsed_decimal(fs[0])->0
    } else {
        (0, 0)
    }
}

/// Digits after the point that each cost keeps.
pub const COST_SCALE: u32 = 12;

/// The cascading costs: the first row's value, then each row's value plus `fee`
/// times the cost before it, each cost rounded to `COST_SCALE` digits after the
/// point (a half away from zero). `None` where a step does not fit.
pub open spec fn adjusted_costs(values: Seq<(int, nat)>, fee: (int, nat)) -> Option<Seq<(int, nat)>>
    decreases values.len(),
{
    if values.len() == 0 {
        Some(Seq::empty())
    } else {
        match adjusted_costs(values.drop_last(), fee) {
            None => None,
            Some(prev) => if prev.len() == 0 {
                Some(seq![rounded(values.last(), COST_SCALE as nat)])
            } else {
                match product_checked(fee, prev.last()) {
                    Some(p) => match sum_checked(values.last(), p) {
                        Some(c) => Some(prev.push(rounded(c, COST_SCALE as nat))),
                        None => None,
                    },
                    None => None,
                }
            },
        }
    }
}

/// `a` and `b` denote the same number.
pub open spec fn same_value(a: (int, nat), b: (int, nat)) -> bool {
    a.0 * pow10(b.1) == b.0 * pow10(a.1)
}

proof fn lemma_zero_fee_step(v: (int, nat), t: nat)
    requires
        t <= 2 * COST_SCALE,
        v.1 <= COST_SCALE,
        -1_000_000_000_000 <= v.0 <= 1_000_000_000_000,
    ensures
        sum_checked(v, (0, t)) is Some,
        rounded(sum_checked(v, (0, t))->0, COST_SCALE as nat).1 <= COST_SCALE,
        same_value(rounded(sum_checked(v, (0, t))->0, COST_SCALE as nat), v),
{
    let s = COST_SCALE as nat;
    if v.1 <= t {
        let k = (t - v.1) as nat;
        let p = pow10(k);
        lemma_pow10_positive(k);
        lemma_scaled_grows(1, k, 24);
        lemma_pow10_24();
        let x = v.0 * p;
        assert(-1_000_000_000_000_000_000_000_000_000_000_000_000 <= x <= 1_000_000_000_000_000_000_000_000_000_000_000_000) by (nonlinear_arith)
            requires x == v.0 * p, 1 <= p <= 1_000_000_000_000_000_000_000_000, -1_000_000_000_000 <= v.0 <= 1_000_000_000_000;
        assert(aligned(v, (0, t)) == (x, 0int, t));
        assert(in_i128(x));
        assert(sum_checked(v, (0, t)) == Some((x, t)));
        lemma_pow10_add(v.1, k);
        assert(pow10(t) == pow10(v.1) * p);
        if t <= s {
            assert(x * pow10(v.1) == v.0 * pow10(t)) by (nonlinear_arith)
                requires x == v.0 * p, pow10(t) == pow10(v.1) * p;
        } else {
            let j = (s - v.1) as nat;
            let kq = (t - s) as nat;
            let q = pow10(kq);
            let c = v.0 * pow10(j);
            lemma_pow10_add(j, kq);
            assert(p == pow10(j) * q);
            assert(x == c * q) by (nonlinear_arith)
                requires x == v.0 * p, p == pow10(j) * q, c == v.0 * pow10(j);
            lemma_pow10_positive((kq - 1) as nat);
            assert(q == 10 * pow10((kq - 1) as nat));
            lemma_round_exact(c, q);
            assert(rounded((x, t), s) == (c, s));
            lemma_pow10_add(v.1, j);
            assert(pow10(s) == pow10(v.1) * pow10(j));
            assert(c * pow10(v.1) == v.0 * pow10(s)) by (nonlinear_arith)
                requires c == v.0 * pow10(j), pow10(s) == pow10(v.1) * pow10(j);
        }
    } else {
        let k = (v.1 - t) as nat;
        assert(0 * pow10(k) == 0) by (nonlinear_arith);
        assert(aligned(v, (0, t)) == (v.0, 0int, v.1));
        assert(sum_checked(v, (0, t)) == Some((v.0, v.1)));
    }
}

/// With a fee of zero nothing cascades: each cost is its row's first value,
/// for values of up to twelve digits before and after the point.
pub proof fn zero_fee_keeps_first_values(values: Seq<(int, nat)>, fee: (int, nat))
    requires
        fee.0 == 0,
        fee.1 <= COST_SCALE,
        forall|i: int|
            0 <= i < values.len() ==> (#[trigger] values[i]).1 <= COST_SCALE && -1_000_000_000_000
                <= values[i].0 <= 1_000_000_000_000,
    ensures
        adjusted_costs(values, fee) is Some,
        adjusted_costs(values, fee)->0.len() == values.len(),
        forall|i: int|
            0 <= i < values.len() ==> same_value(
                #[trigger] adjusted_costs(values, fee)->0[i],
                values[i],
            ) && adjusted_costs(values, fee)->0[i].1 <= COST_SCALE,
    decreases values.len(),
{
    if values.len() > 0 {
        let prev_values = values.drop_last();
        assert forall|i: int| 0 <= i < prev_values.len() implies (#[trigger] prev_values[i]).1
            <= COST_SCALE && -1_000_000_000_000 <= prev_values[i].0 <= 1_000_000_000_000 by {
            assert(prev_values[i] == values[i]);
        }
        zero_fee_keeps_first_values(prev_values, fee);
        let prev = adjusted_costs(prev_values, fee)->0;
        let v = values.last();
        assert(v == values[values.len() - 1]);
        if prev.len() == 0 {
            assert(rounded(v, COST_SCALE as nat) == v);
            assert(adjusted_costs(values, fee)->0 =~= seq![v]);
        } else {
            let last = prev.last();
            assert(last == prev[prev.len() - 1]);
            assert(0 * last.0 == 0) by (nonlinear_arith);
            assert(product_checked(fee, last) == Some((0int, fee.1 + last.1)));
            lemma_zero_fee_step(v, fee.1 + last.1);
            let c = rounded(sum_checked(v, (0, fee.1 + last.1))->0, COST_SCALE as nat);
            let costs = adjusted_costs(values, fee)->0;
            assert(costs == prev.push(c));
            assert forall|i: int| 0 <= i < values.len() implies same_value(#[trigger] costs[i], values[i])
                && costs[i].1 <= COST_SCALE by {
                if i < prev.len() {
                    assert(costs[i] == prev[i]);
                    assert(values[i] == prev_values[i]);
                }
            }
        }
    }
}

proof fn lemma_costs_prefix_fails(values: Seq<(int, nat)>, fee: (int, nat), i: int)
    requires
        0 <= i <= values.len(),
        adjusted_costs(values.take(i), fee) is None,
    ensures
        adjusted_costs(values, fee) is None,
    decreases values.len() - i,
{
    if i < values.len() {
        assert(values.take(i + 1).drop_last() =~= values.take(i));
        lemma_costs_prefix_fails(values, fee, i + 1);
    } else {
        assert(values.take(i) =~= values);
    }
}

pub open spec fn decimal_models(v: Seq<Decimal>) -> Seq<(int, nat)> {
    v.map_values(|d: Decimal| d.model())
}

/// The first-formula values of the rows, in order.
pub open spec fn first_values(rows: Seq<CsvRow>) -> Seq<(int, nat)> {
    rows.map_values(|r: CsvRow| first_value(row_model(r).1))
}

/// The cost of each row in order, each carrying `fee` times the cost before it
/// and rounded to `COST_SCALE` digits after the point; fails with an arithmetic
/// error where a step does not fit a `Decimal`. The rounding keeps the scale
/// bounded, so that happens only for magnitudes near the `i128` limit.
pub fn calculate_adjusted_cost(rows: &Vec<CsvRow>, fee: Decimal) -> (r: Result<Vec<Decimal>, AppError>)
    ensures
        adjusted_costs(first_values(rows@), fee.model()) is Some <==> r is Ok,
        r is Ok ==> decimal_models(r->Ok_0@) == adjusted_costs(first_values(rows@), fee.model())->0,
        r is Err ==> is_invalid_operation(r->Err_0),
{
    let ghost values = first_values(rows@);
    let mut out: Vec<Decimal> = Vec::new();
    let mut i: usize = 0;
    assert(values.take(0) =~= Seq::<(int, nat)>::empty());
    assert(decimal_models(out@) =~= Seq::<(int, nat)>::empty());
    while i < rows.len()
        invariant
            i <= rows.len(),
            values == first_values(rows@),
            adjusted_costs(values.take(i as int), fee.model()) == Some(decimal_models(out@)),
            out@.len() == i,
        decreases rows.len() - i,
    {
        assert(values.take(i + 1).drop_last() =~= values.take(i as int));
        let row = &rows[i];
        let first = if row.formulas.len() > 0 {
            match parse_decimal(row.formulas[0].as_str()) {
                Some(d) => d,
                None => Decimal::zero(),
            }
        } else {
            Decimal::zero()
        };
        assert(first.model() == values[i as int]);
        assert(values.take(i + 1).last() == values[i as int]);
        let ghost prior = out@;
        if i == 0 {
            out.push(first.round_to(COST_SCALE));
        } else {
            let last = out[i - 1];
            let step = match fee.checked_mul(last) {
                Some(p) => first.checked_add(p),
                None => None,
            };
            match step {
                Some(c) => {
                    out.push(c.round_to(COST_SCALE));
                },
                None => {
                    proof {
                        lemma_costs_prefix_fails(values, fee.model(), i + 1);
                    }
                    return Err(AppError::invalid_operation("adjusted cost out of range"));
                },
            }
        }
        assert(decimal_models(out@) =~= decimal_models(prior).push(out@[i as int].model()));
        i = i + 1;
    }
    assert(values.take(i as int) =~= values);
    Ok(out)
}

/// Whether any cost is strictly greater than the threshold.
pub fn is_cost_too_high(adjusted_cost: &Vec<Decimal>, cost_threshold: Decimal) -> (r: bool)
    ensures
        r == exists|i: int|
            0 <= i < adjusted_cost@.len() && greater(
                #[trigger] adjusted_cost@[i].model(),
                cost_threshold.model(),
            ),
{
    let mut i: usize = 0;
    while i < adjusted_cost.len()
        invariant
            i <= adjusted_cost.len(),
            forall|j: int|
                0 <= j < i ==> !greater(#[trigger] adjusted_cost@[j].model(), cost_threshold.model()),
        decreases adjusted_cost.len() - i,
    {
        if adjusted_cost[i].greater_than(cost_threshold) {
            return true;
        }
        i = i + 1;
    }
    false
}

/// The sum of the values of one formula name.
#[derive(Debug)]
pub struct NamedTotal {
    pub name: String,
    pub total: Decimal,
}

pub open spec fn total_model(t: NamedTotal) -> (Seq<char>, (int, nat)) {
    (t.name@, t.total.model())
}

/// What summing by name comes to.
pub enum Totals {
    /// (name, sum) for each name, in order of first appearance.
    Sums(Seq<(Seq<char>, (int, nat))>),
    /// A formula without a value.
    Missing,
    /// A sum that does not fit.
    Overflow,
}

/// Every formula of the rows, row by row and in order within a row.
pub open spec fn all_formulas(rows: Seq<(nat, Seq<(Seq<char>, Option<(int, nat)>)>)>) -> Seq<
    (Seq<char>, Option<(int, nat)>),
>
    decreases rows.len(),
{
    if rows.len() == 0 {
        Seq::empty()
    } else {
        all_formulas(rows.drop_last()) + rows.last().1
    }
}

pub open spec fn has_name(t: Seq<(Seq<char>, (int, nat))>, name: Seq<char>) -> bool {
    exists|k: int| 0 <= k < t.len() && (#[trigger] t[k]).0 == name
}

/// Adds `v` to the sum of `name`, a new name starting from zero.
pub open spec fn add_named(t: Seq<(Seq<char>, (int, nat))>, name: Seq<char>, v: (int, nat)) -> Option<
    Seq<(Seq<char>, (int, nat))>,
> {
    if has_name(t, name) {
        let k = choose|k: int| 0 <= k < t.len() && (#[trigger] t[k]).0 == name;
        match sum_checked(t[k].1, v) {
            Some(s) => Some(t.update(k, (name, s))),
            None => None,
        }
    } else {
        Some(t.push((name, v)))
    }
}

/// The sums by name of the formulas in order.
pub open spec fn totals(fs: Seq<(Seq<char>, Option<(int, nat)>)>) -> Totals
    decreases fs.len(),
{
    if fs.len() == 0 {
        Totals::Sums(Seq::empty())
    } else {
        match totals(fs.drop_last()) {
            Totals::Sums(t) => match fs.last().1 {
                None => Totals::Missing,
                Some(v) => match add_named(t, fs.last().0, v) {
                    Some(t2) => Totals::Sums(t2),
                    None => Totals::Overflow,
                },
            },
            other => other,
        }
    }
}

pub open spec fn names_unique(t: Seq<(Seq<char>, (int, nat))>) -> bool {
    forall|a: int, b: int| 0 <= a < b < t.len() ==> (#[trigger] t[a]).0 != (#[trigger] t[b]).0
}

proof fn lemma_totals_stop(fs: Seq<(Seq<char>, Option<(int, nat)>)>, j: int)
    requires
        0 <= j <= fs.len(),
        !(totals(fs.take(j)) is Sums),
    ensures
        totals(fs) == totals(fs.take(j)),
    decreases fs.len() - j,
{
    if j < fs.len() {
        assert(fs.take(j + 1).drop_last() =~= fs.take(j));
        lemma_totals_stop(fs, j + 1);
    } else {
        assert(fs.take(j) =~= fs);
    }
}

/// Adds `v` under `name` in `acc`.
fn add_to_totals(acc: &mut Vec<NamedTotal>, name: &String, v: Decimal) -> (ok: bool)
    requires
        names_unique(old(acc)@.map_values(|t: NamedTotal| total_model(t))),
    ensures
        ({
            let before = old(acc)@.map_values(|t: NamedTotal| total_model(t));
            let after = final(acc)@.map_values(|t: NamedTotal| total_model(t));
            &&& ok <==> add_named(before, name@, v.model()) is Some
            &&& ok ==> after == add_named(before, name@, v.model())->0
            &&& ok ==> names_unique(after)
        }),
{
    let ghost before = acc@.map_values(|t: NamedTotal| total_model(t));
    let mut k: usize = 0;
    while k < acc.len()
        invariant
            k <= acc.len(),
            acc@ == old(acc)@,
            before == acc@.map_values(|t: NamedTotal| total_model(t)),
            names_unique(before),
            forall|j: int| 0 <= j < k ==> (#[trigger] before[j]).0 != name@,
        decreases acc.len() - k,
    {
        if acc[k].name == *name {
            assert(before[k as int].0 == name@);
            let ghost c = choose|c: int| 0 <= c < before.len() && (#[trigger] before[c]).0 == name@;
            assert(c == k) by {
                if c != k as int {
                    if c < k {
                        assert(before[c].0 != before[k as int].0);
                    } else {
                        assert(before[k as int].0 != before[c].0);
                    }
                }
            }
            match acc[k].total.checked_add(v) {
                Some(sum) => {
                    let n = acc[k].name.clone();
                    acc.set(k, NamedTotal { name: n, total: sum });
                    assert(acc@.map_values(|t: NamedTotal| total_model(t)) =~= before.update(
                        k as int,
                        (name@, sum.model()),
                    ));
                    return true;
                },
                None => {
                    return false;
                },
            }
        }
        k = k + 1;
    }
    acc.push(NamedTotal { name: name.clone(), total: v });
    assert(acc@.map_values(|t: NamedTotal| total_model(t)) =~= before.push((name@, v.model())));
    true
}

/// Sums the formula values by name over all rows, row by row and in order within
/// a row. Fails with a formula error on a formula without a value, and with an
/// arithmetic error where a sum does not fit.
pub fn calculate_results(results: &Vec<EvaluatedRow>) -> (r: Result<Vec<NamedTotal>, AppError>)
    ensures
        ({
            let fs = all_formulas(results@.map_values(|x: EvaluatedRow| evaluated_row_model(x)));
            match totals(fs) {
                Totals::Sums(t) => r is Ok && r->Ok_0@.map_values(|x: NamedTotal| total_model(x)) == t
                    && names_unique(t),
                Totals::Missing => r is Err && is_invalid_formula(r->Err_0),
                Totals::Overflow => r is Err && is_invalid_operation(r->Err_0),
            }
        }),
{
    let ghost rm = results@.map_values(|x: EvaluatedRow| evaluated_row_model(x));
    let ghost fs = all_formulas(rm);
    let mut acc: Vec<NamedTotal> = Vec::new();
    let mut ri: usize = 0;
    let ghost mut seen: Seq<(Seq<char>, Option<(int, nat)>)> = Seq::empty();
    assert(rm.take(0) =~= Seq::<(nat, Seq<(Seq<char>, Option<(int, nat)>)>)>::empty());
    assert(acc@.map_values(|x: NamedTotal| total_model(x)) =~= Seq::<(Seq<char>, (int, nat))>::empty());
    while ri < results.len()
        invariant
            ri <= results.len(),
            rm == results@.map_values(|x: EvaluatedRow| evaluated_row_model(x)),
            fs == all_formulas(rm),
            seen == all_formulas(rm.take(ri as int)),
            totals(seen) == Totals::Sums(acc@.map_values(|x: NamedTotal| total_model(x))),
            names_unique(acc@.map_values(|x: NamedTotal| total_model(x))),
        decreases results.len() - ri,
    {
        let row = &results[ri];
        let ghost fm = row.formulas@.map_values(|f: EvaluatedFormula| evaluated_model(f));
        assert(rm.take(ri + 1).drop_last() =~= rm.take(ri as int));
        assert(rm.take(ri + 1).last().1 == fm);
        let ghost next = all_formulas(rm.take(ri + 1));
        assert(next == seen + fm);
        let mut j: usize = 0;
        assert(seen + fm.take(0) =~= seen);
        while j < row.formulas.len()
            invariant
                j <= row.formulas.len(),
                ri < results.len(),
                row == &results[ri as int],
                fm == row.formulas@.map_values(|f: EvaluatedFormula| evaluated_model(f)),
                next == seen + fm,
                rm == results@.map_values(|x: EvaluatedRow| evaluated_row_model(x)),
                fs == all_formulas(rm),
                next == all_formulas(rm.take(ri + 1)),
                totals(seen + fm.take(j as int)) == Totals::Sums(
                    acc@.map_values(|x: NamedTotal| total_model(x)),
                ),
                names_unique(acc@.map_values(|x: NamedTotal| total_model(x))),
            decreases row.formulas.len() - j,
        {
            let ghost cur = seen + fm.take(j as int);
            assert((seen + fm.take(j + 1)).drop_last() =~= cur);
            assert((seen + fm.take(j + 1)).last() == fm[j as int]);
            let f = &row.formulas[j];
            match f.value {
                None => {
                    proof {
                        assert(totals(seen + fm.take(j + 1)) is Missing);
                        assert(seen + fm.take(j + 1) =~= next.take(seen.len() + j + 1));
                        lemma_totals_stop(next, seen.len() + j + 1);
                        lemma_all_formulas_prefix(rm, ri + 1);
                        lemma_totals_stop(fs, next.len() as int);
                    }
                    return Err(AppError::invalid_formula("formula without a value", f.name.as_str()));
                },
                Some(v) => {
                    if !add_to_totals(&mut acc, &f.name, v) {
                        proof {
                            assert(totals(seen + fm.take(j + 1)) is Overflow);
                            assert(seen + fm.take(j + 1) =~= next.take(seen.len() + j + 1));
                            lemma_totals_stop(next, seen.len() + j + 1);
                            lemma_all_formulas_prefix(rm, ri + 1);
                            lemma_totals_stop(fs, next.len() as int);
                        }
                        return Err(AppError::invalid_operation("sum out of range"));
                    }
                },
            }
            j = j + 1;
        }
        assert(fm.take(j as int) =~= fm);
        proof {
            seen = next;
        }
        ri = ri + 1;
    }
    assert(rm.take(ri as int) =~= rm);
    Ok(acc)
}

proof fn lemma_all_formulas_prefix(rows: Seq<(nat, Seq<(Seq<char>, Option<(int, nat)>)>)>, i: int)
    requires
        0 <= i <= rows.len(),
    ensures
        all_formulas(rows.take(i)) =~= all_formulas(rows).take(all_formulas(rows.take(i)).len() as int),
        all_formulas(rows.take(i)).len() <= all_formulas(rows).len(),
    decreases rows.len() - i,
{
    if i < rows.len() {
        assert(rows.take(i + 1).drop_last() =~= rows.take(i));
        lemma_all_formulas_prefix(rows, i + 1);
    } else {
        assert(rows.take(i) =~= rows);
    }
}

} // verus!

use vstd::prelude::*;
use crate::csv_parser::{
    ingest, is_config, rows_come_from_data_records, rows_from_data_records,
    ColumnEntry, CsvData, CsvRow, Formula, column_of, entry_model, offset_of, parse_formula,
    row_model, sole_marker,
};
use crate::decimal::{Decimal, lemma_foreign_char_no_number, parsed_decimal};
use crate::error::{AppError, is_invalid_formula, is_invalid_formula_with, syntax_message};
use crate::naming::{decimal_text, joined, numbers_joined};

verus! {

#[derive(Debug)]
pub struct EvaluatedFormula {
    pub name: String,
    pub value: Option<Decimal>,
}

#[derive(Debug)]
pub struct EvaluatedRow {
    pub row_number: usize,
    pub formulas: Vec<EvaluatedFormula>,
}

/// A column index entry as (label, name, value).
pub type EntryModel = (Seq<char>, Seq<char>, Option<(int, nat)>);

/// What one formula text comes to.
pub enum Resolution {
    Value((int, nat)),
    /// A reference whose column is missing, whose offset is out of range, or
    /// whose entry has no value.
    Unresolved,
    /// Neither a number nor a reference.
    Syntax,
}

/// The position of the reference marker of a reference.
pub open spec fn marker_of(f: Seq<char>) -> int {
    choose|k: int| sole_marker(f, k)
}

/// The value at `offset` in the column `label`, if there is one.
pub open spec fn entry_value(entries: Seq<EntryModel>, label: Seq<char>, offset: nat) -> Option<
    (int, nat),
> {
    let col = column_of(entries, label);
    if offset < col.len() {
        col[offset as int].2
    } else {
        None
    }
}

/// A literal is its own value; a reference takes the value of the entry it names.
pub open spec fn resolve(entries: Seq<EntryModel>, f: Seq<char>) -> Resolution {
    match parsed_decimal(f) {
        Some(v) => Resolution::Value(v),
        None => if exists|k: int| sole_marker(f, k) && offset_of(f.skip(k + 1)) is Some {
            let k = marker_of(f);
            match entry_value(entries, f.take(k), offset_of(f.skip(k + 1))->0) {
                Some(v) => Resolution::Value(v),
                None => Resolution::Unresolved,
            }
        } else {
            Resolution::Syntax
        },
    }
}

/// What a row's formulas come to, read in order up to the first that does not resolve.
pub enum RowResolution {
    Values(Seq<(int, nat)>),
    Dropped,
    Syntax,
}

pub open spec fn resolve_row(entries: Seq<EntryModel>, fs: Seq<Seq<char>>) -> RowResolution
    decreases fs.len(),
{
    if fs.len() == 0 {
        RowResolution::Values(Seq::empty())
    } else {
        match resolve_row(entries, fs.drop_last()) {
            RowResolution::Values(vs) => match resolve(entries, fs.last()) {
                Resolution::Value(v) => RowResolution::Values(vs.push(v)),
                Resolution::Unresolved => RowResolution::Dropped,
                Resolution::Syntax => RowResolution::Syntax,
            },
            other => other,
        }
    }
}

/// An evaluated formula as (name, value).
pub open spec fn evaluated_model(f: EvaluatedFormula) -> (Seq<char>, Option<(int, nat)>) {
    (
        f.name@,
        match f.value {
            Some(d) => Some(d.model()),
            None => None,
        },
    )
}

pub open spec fn evaluated_row_model(r: EvaluatedRow) -> (nat, Seq<(Seq<char>, Option<(int, nat)>)>) {
    (r.row_number as nat, r.formulas@.map_values(|f: EvaluatedFormula| evaluated_model(f)))
}

/// The formulas of row `n` with these values, named `{n}_{position}`.
pub open spec fn named(n: nat, vs: Seq<(int, nat)>) -> Seq<(Seq<char>, Option<(int, nat)>)> {
    Seq::new(vs.len(), |p: int| (joined(decimal_text(n), decimal_text(p as nat)), Some(vs[p])))
}

/// The evaluated rows: every row whose formulas all resolve, in order; `None` where
/// a formula of a row that is read is neither a number nor a reference.
pub open spec fn evaluate(entries: Seq<EntryModel>, rows: Seq<(nat, Seq<Seq<char>>)>) -> Option<
    Seq<(nat, Seq<(Seq<char>, Option<(int, nat)>)>)>,
>
    decreases rows.len(),
{
    if rows.len() == 0 {
        Some(Seq::empty())
    } else {
        match evaluate(entries, rows.drop_last()) {
            Some(out) => match resolve_row(entries, rows.last().1) {
                RowResolution::Values(vs) => Some(out.push((rows.last().0, named(rows.last().0, vs)))),
                RowResolution::Dropped => Some(out),
                RowResolution::Syntax => None,
            },
            None => None,
        }
    }
}

proof fn lemma_column_prefix(entries: Seq<EntryModel>, label: Seq<char>, i: int)
    requires
        0 <= i <= entries.len(),
    ensures
        column_of(entries.take(i), label).len() <= column_of(entries, label).len(),
        column_of(entries.take(i), label) =~= column_of(entries, label).take(
            column_of(entries.take(i), label).len() as int,
        ),
    decreases entries.len() - i,
{
    if i < entries.len() {
        assert(entries.take(i + 1).drop_last() =~= entries.take(i));
        lemma_column_prefix(entries, label, i + 1);
    } else {
        assert(entries.take(i) =~= entries);
    }
}

/// The value at `offset` in the column `label`; `None` where the column is
/// missing, the offset is out of range or the entry has no value.
pub fn lookup(entries: &Vec<ColumnEntry>, label: &String, offset: usize) -> (r: Option<Decimal>)
    ensures
        match r {
            Some(d) => Some(d.model()),
            None => None::<(int, nat)>,
        } == entry_value(entries@.map_values(|e: ColumnEntry| entry_model(e)), label@, offset as nat),
{
    let ghost em = entries@.map_values(|e: ColumnEntry| entry_model(e));
    let mut count: usize = 0;
    let mut i: usize = 0;
    assert(em.take(0) =~= Seq::<EntryModel>::empty());
    while i < entries.len()
        invariant
            i <= entries.len(),
            em == entries@.map_values(|e: ColumnEntry| entry_model(e)),
            count as int == column_of(em.take(i as int), label@).len(),
            count <= offset,
        decreases entries.len() - i,
    {
        assert(em.take(i + 1).drop_last() =~= em.take(i as int));
        assert(em.take(i + 1).last() == entry_model(entries@[i as int]));
        if entries[i].label == *label {
            if count == offset {
                proof {
                    lemma_column_prefix(em, label@, i + 1);
                    let pre = column_of(em.take(i + 1), label@);
                    assert(pre == column_of(em.take(i as int), label@).push(em[i as int]));
                    assert(pre[offset as int] == em[i as int]);
                    assert(column_of(em, label@)[offset as int] == pre[offset as int]);
                }
                return entries[i].value;
            }
            count = count + 1;
        }
        i = i + 1;
    }
    assert(em.take(i as int) =~= em);
    None
}

proof fn lemma_marker_unique(f: Seq<char>, k: int)
    requires
        sole_marker(f, k),
    ensures
        marker_of(f) == k,
{
    let m = marker_of(f);
    assert(sole_marker(f, m));
    if m != k {
        assert(f[k] == '@');
    }
}

/// Evaluates one formula text.
fn resolve_formula(entries: &Vec<ColumnEntry>, f: &String) -> (r: Result<Option<Decimal>, AppError>)
    ensures
        match resolve(entries@.map_values(|e: ColumnEntry| entry_model(e)), f@) {
            Resolution::Value(v) => r matches Ok(Some(d)) && d.model() == v,
            Resolution::Unresolved => r matches Ok(None),
            Resolution::Syntax => r is Err && is_invalid_formula(r->Err_0),
        },
{
    match parse_formula(f.as_str()) {
        Ok(Formula::Literal(d)) => Ok(Some(d)),
        Ok(Formula::Reference(label, offset)) => {
            proof {
                let k = choose|k: int|
                    sole_marker(f@, k) && label@ == f@.take(k) && offset_of(f@.skip(k + 1)) == Some(
                        offset as nat,
                    );
                lemma_marker_unique(f@, k);
            }
            Ok(lookup(entries, &label, offset))
        },
        Err(e) => Err(e),
    }
}

proof fn lemma_row_stops(entries: Seq<EntryModel>, fs: Seq<Seq<char>>, j: int)
    requires
        0 <= j <= fs.len(),
        !(resolve_row(entries, fs.take(j)) is Values),
    ensures
        resolve_row(entries, fs) == resolve_row(entries, fs.take(j)),
    decreases fs.len() - j,
{
    if j < fs.len() {
        assert(fs.take(j + 1).drop_last() =~= fs.take(j));
        lemma_row_stops(entries, fs, j + 1);
    } else {
        assert(fs.take(j) =~= fs);
    }
}

proof fn lemma_evaluate_prefix_fails(
    entries: Seq<EntryModel>,
    rows: Seq<(nat, Seq<Seq<char>>)>,
    i: int,
)
    requires
        0 <= i <= rows.len(),
        evaluate(entries, rows.take(i)) is None,
    ensures
        evaluate(entries, rows) is None,
    decreases rows.len() - i,
{
    if i < rows.len() {
        assert(rows.take(i + 1).drop_last() =~= rows.take(i));
        lemma_evaluate_prefix_fails(entries, rows, i + 1);
    } else {
        assert(rows.take(i) =~= rows);
    }
}

/// Formula `i` of row `j` is neither a number nor a reference, and `e` reports
/// it with its row number and text.
pub open spec fn syntax_error_at(
    entries: Seq<EntryModel>,
    rows: Seq<(nat, Seq<Seq<char>>)>,
    j: int,
    i: int,
    e: AppError,
) -> bool {
    &&& 0 <= j < rows.len()
    &&& 0 <= i < rows[j].1.len()
    &&& resolve(entries, rows[j].1[i]) is Syntax
    &&& is_invalid_formula_with(e, syntax_message(rows[j].0, rows[j].1[i]))
}

/// Formula `i` of row `j` of the table is neither a number nor a reference, and
/// `e` reports it with its row number and text.
pub open spec fn syntax_error_in(data: CsvData, j: int, i: int, e: AppError) -> bool {
    syntax_error_at(
        data.entries@.map_values(|x: ColumnEntry| entry_model(x)),
        data.rows@.map_values(|x: CsvRow| row_model(x)),
        j,
        i,
        e,
    )
}

/// Resolves every row of the table against its column index. A row with a
/// reference that does not resolve is left out whole; a formula that is neither
/// a number nor a reference fails the whole evaluation.
pub fn evaluate_formulas(data: CsvData) -> (r: Result<Vec<EvaluatedRow>, AppError>)
    ensures
        ({
            let em = data.entries@.map_values(|e: ColumnEntry| entry_model(e));
            let rm = data.rows@.map_values(|r: CsvRow| row_model(r));
            &&& evaluate(em, rm) is Some <==> r is Ok
            &&& r is Ok ==> r->Ok_0@.map_values(|x: EvaluatedRow| evaluated_row_model(x))
                == evaluate(em, rm)->0
        }),
        match r {
            Err(e) => exists|j: int, i: int| #[trigger] syntax_error_in(data, j, i, e),
            Ok(_) => true,
        },
{
    let ghost em = data.entries@.map_values(|e: ColumnEntry| entry_model(e));
    let ghost rm = data.rows@.map_values(|r: CsvRow| row_model(r));
    let mut results: Vec<EvaluatedRow> = Vec::new();
    let mut ri: usize = 0;
    assert(rm.take(0) =~= Seq::<(nat, Seq<Seq<char>>)>::empty());
    assert(results@.map_values(|x: EvaluatedRow| evaluated_row_model(x)) =~= Seq::<
        (nat, Seq<(Seq<char>, Option<(int, nat)>)>),
    >::empty());
    while ri < data.rows.len()
        invariant
            ri <= data.rows.len(),
            em == data.entries@.map_values(|e: ColumnEntry| entry_model(e)),
            rm == data.rows@.map_values(|r: CsvRow| row_model(r)),
            evaluate(em, rm.take(ri as int)) == Some(
                results@.map_values(|x: EvaluatedRow| evaluated_row_model(x)),
            ),
        decreases data.rows.len() - ri,
    {
        let row = &data.rows[ri];
        let ghost fm = row.formulas@.map_values(|f: String| f@);
        assert(rm[ri as int] == (row.row_number as nat, fm));
        assert(rm.take(ri + 1).drop_last() =~= rm.take(ri as int));
        assert(rm.take(ri + 1).last() == rm[ri as int]);
        let mut formulas: Vec<EvaluatedFormula> = Vec::new();
        let mut dropped = false;
        let mut j: usize = 0;
        let ghost mut vs: Seq<(int, nat)> = Seq::empty();
        assert(fm.take(0) =~= Seq::<Seq<char>>::empty());
        assert(formulas@.map_values(|f: EvaluatedFormula| evaluated_model(f)) =~= named(
            row.row_number as nat,
            vs,
        ));
        while j < row.formulas.len() && !dropped
            invariant
                j <= row.formulas.len(),
                ri < data.rows.len(),
                row == &data.rows[ri as int],
                !dropped ==> vs.len() == j,
                rm == data.rows@.map_values(|r: CsvRow| row_model(r)),
                fm == row.formulas@.map_values(|f: String| f@),
                em == data.entries@.map_values(|e: ColumnEntry| entry_model(e)),
                !dropped ==> resolve_row(em, fm.take(j as int)) == RowResolution::Values(vs),
                !dropped ==> formulas@.map_values(|f: EvaluatedFormula| evaluated_model(f)) == named(
                    row.row_number as nat,
                    vs,
                ),
                dropped ==> resolve_row(em, fm.take(j as int)) == RowResolution::Dropped,
                evaluate(em, rm.take(ri as int)) == Some(
                    results@.map_values(|x: EvaluatedRow| evaluated_row_model(x)),
                ),
                rm.take(ri + 1).drop_last() == rm.take(ri as int),
                rm.take(ri + 1).last() == (row.row_number as nat, fm),
            decreases row.formulas.len() - j,
        {
            assert(fm.take(j + 1).drop_last() =~= fm.take(j as int));
            assert(fm.take(j + 1).last() == row.formulas@[j as int]@);
            match resolve_formula(&data.entries, &row.formulas[j]) {
                Err(_) => {
                    let err = AppError::syntax_error(row.row_number, row.formulas[j].as_str());
                    proof {
                        assert(syntax_error_at(em, rm, ri as int, j as int, err));
                        assert(syntax_error_in(data, ri as int, j as int, err));
                        assert(rm.len() == data.rows@.len());
                        lemma_row_stops(em, fm, j + 1);
                        assert(resolve(em, fm.take(j + 1).last()) is Syntax);
                        assert(resolve_row(em, fm.take(j + 1)) is Syntax);
                        assert(evaluate(em, rm.take(ri + 1)) is None);
                        lemma_evaluate_prefix_fails(em, rm, ri + 1);
                    }
                    return Err(err);
                },
                Ok(None) => {
                    dropped = true;
                },
                Ok(Some(d)) => {
                    let name = numbers_joined(row.row_number, j);
                    let ghost prior = formulas@;
                    let item = EvaluatedFormula { name, value: Some(d) };
                    formulas.push(item);
                    proof {
                        assert(evaluated_model(item) == (
                            joined(decimal_text(row.row_number as nat), decimal_text(j as nat)),
                            Some(d.model()),
                        ));
                        let ghost old_vs = vs;
                        vs = vs.push(d.model());
                        assert(formulas@ == prior.push(item));
                        assert(formulas@.map_values(|f: EvaluatedFormula| evaluated_model(f)) =~= prior.map_values(
                            |f: EvaluatedFormula| evaluated_model(f),
                        ).push(evaluated_model(item)));
                        assert(named(row.row_number as nat, vs) =~= named(row.row_number as nat, old_vs).push(
                            evaluated_model(item),
                        ));
                        assert(formulas@.map_values(|f: EvaluatedFormula| evaluated_model(f)) =~= named(
                            row.row_number as nat,
                            vs,
                        ));
                    }
                },
            }
            j = j + 1;
        }
        if !dropped {
            assert(fm.take(j as int) =~= fm);
            let ghost prior = results@;
            let out = EvaluatedRow { row_number: row.row_number, formulas };
            results.push(out);
            assert(results@.map_values(|x: EvaluatedRow| evaluated_row_model(x)) =~= prior.map_values(
                |x: EvaluatedRow| evaluated_row_model(x),
            ).push(evaluated_row_model(out)));
        } else {
            proof {
                lemma_row_stops(em, fm, j as int);
            }
        }
        ri = ri + 1;
    }
    assert(rm.take(ri as int) =~= rm);
    Ok(results)
}

/// A formula that reads as a number evaluates to that number, unchanged.
pub proof fn literal_evaluates_to_itself(entries: Seq<EntryModel>, f: Seq<char>, v: (int, nat))
    requires
        parsed_decimal(f) == Some(v),
    ensures
        resolve(entries, f) == Resolution::Value(v),
{
}

/// A reference `label@offset` to an entry of an existing column, within range and
/// with a value, evaluates to exactly that value.
pub proof fn reference_evaluates_to_target(
    entries: Seq<EntryModel>,
    f: Seq<char>,
    k: int,
    offset: nat,
    v: (int, nat),
)
    requires
        sole_marker(f, k),
        offset_of(f.skip(k + 1)) == Some(offset),
        offset < column_of(entries, f.take(k)).len(),
        column_of(entries, f.take(k))[offset as int].2 == Some(v),
    ensures
        resolve(entries, f) == Resolution::Value(v),
{
    lemma_foreign_char_no_number(f, k);
    lemma_marker_unique(f, k);
}

/// A reference whose offset is not an unsigned integer is a syntax error, not an
/// unresolved reference.
pub proof fn bad_offset_is_syntax_error(entries: Seq<EntryModel>, f: Seq<char>, k: int)
    requires
        sole_marker(f, k),
        offset_of(f.skip(k + 1)) is None,
    ensures
        resolve(entries, f) == Resolution::Syntax,
{
    lemma_foreign_char_no_number(f, k);
    assert forall|m: int| sole_marker(f, m) implies offset_of(#[trigger] f.skip(m + 1)) is None by {
        if m != k {
            assert(f[k] == '@');
        }
    }
}

/// The evaluated row that a row of the input gives when all its formulas resolve.
pub open spec fn complete_row(entries: Seq<EntryModel>, row: (nat, Seq<Seq<char>>)) -> (
    nat,
    Seq<(Seq<char>, Option<(int, nat)>)>,
) {
    (row.0, named(row.0, resolve_row(entries, row.1)->Values_0))
}

/// A row with a reference that does not resolve adds nothing to the evaluated rows.
pub proof fn unresolved_row_is_absent(
    entries: Seq<EntryModel>,
    rows: Seq<(nat, Seq<Seq<char>>)>,
    row: (nat, Seq<Seq<char>>),
)
    requires
        resolve_row(entries, row.1) is Dropped,
    ensures
        evaluate(entries, rows.push(row)) == evaluate(entries, rows),
{
    assert(rows.push(row).drop_last() =~= rows);
}

/// `x` is the complete evaluation of one of `rows`.
pub open spec fn is_complete_row_of(
    entries: Seq<EntryModel>,
    rows: Seq<(nat, Seq<Seq<char>>)>,
    x: (nat, Seq<(Seq<char>, Option<(int, nat)>)>),
) -> bool {
    exists|j: int|
        0 <= j < rows.len() && resolve_row(entries, #[trigger] rows[j].1) is Values && x
            == complete_row(entries, rows[j])
}

/// No partial row is ever produced: every evaluated row is a row of the input
/// whose formulas all resolved, with all of its values.
pub proof fn only_complete_rows(entries: Seq<EntryModel>, rows: Seq<(nat, Seq<Seq<char>>)>)
    requires
        evaluate(entries, rows) is Some,
    ensures
        forall|o: int|
            0 <= o < evaluate(entries, rows)->0.len() ==> is_complete_row_of(
                entries,
                rows,
                #[trigger] evaluate(entries, rows)->0[o],
            ),
    decreases rows.len(),
{
    if rows.len() > 0 {
        let prev = rows.drop_last();
        only_complete_rows(entries, prev);
        let out = evaluate(entries, rows)->0;
        let before = evaluate(entries, prev)->0;
        assert forall|o: int| 0 <= o < out.len() implies is_complete_row_of(
            entries,
            rows,
            #[trigger] out[o],
        ) by {
            if o < before.len() {
                assert(out[o] == before[o]);
                assert(is_complete_row_of(entries, prev, before[o]));
                let j = choose|j: int|
                    0 <= j < prev.len() && resolve_row(entries, #[trigger] prev[j].1) is Values
                        && before[o] == complete_row(entries, prev[j]);
                assert(rows[j] == prev[j]);
                assert(resolve_row(entries, rows[j].1) is Values);
            } else {
                let last = rows.len() - 1;
                assert(rows[last] == rows.last());
                assert(resolve_row(entries, rows[last].1) is Values);
                assert(out[o] == complete_row(entries, rows[last]));
            }
        }
    }
}

proof fn lemma_row_values(entries: Seq<EntryModel>, fs: Seq<Seq<char>>)
    requires
        resolve_row(entries, fs) is Values,
    ensures
        resolve_row(entries, fs)->Values_0.len() == fs.len(),
        forall|i: int|
            0 <= i < fs.len() ==> resolve(entries, #[trigger] fs[i]) == Resolution::Value(
                resolve_row(entries, fs)->Values_0[i],
            ),
    decreases fs.len(),
{
    if fs.len() > 0 {
        lemma_row_values(entries, fs.drop_last());
        assert forall|i: int| 0 <= i < fs.len() implies resolve(entries, #[trigger] fs[i])
            == Resolution::Value(resolve_row(entries, fs)->Values_0[i]) by {
            if i < fs.len() - 1 {
                assert(fs.drop_last()[i] == fs[i]);
            }
        }
    }
}

proof fn lemma_complete_rows_kept(entries: Seq<EntryModel>, rows: Seq<(nat, Seq<Seq<char>>)>, j: int)
    requires
        evaluate(entries, rows) is Some,
        0 <= j < rows.len(),
        resolve_row(entries, rows[j].1) is Values,
    ensures
        exists|o: int|
            0 <= o < evaluate(entries, rows)->0.len() && #[trigger] evaluate(entries, rows)->0[o]
                == complete_row(entries, rows[j]),
    decreases rows.len(),
{
    let prev = rows.drop_last();
    let out = evaluate(entries, rows)->0;
    if j < rows.len() - 1 {
        assert(prev[j] == rows[j]);
        lemma_complete_rows_kept(entries, prev, j);
        let o = choose|o: int|
            0 <= o < evaluate(entries, prev)->0.len() && #[trigger] evaluate(entries, prev)->0[o]
                == complete_row(entries, prev[j]);
        assert(out[o] == complete_row(entries, rows[j]));
    } else {
        assert(rows.last() == rows[j]);
        let o = evaluate(entries, prev)->0.len() as int;
        assert(out[o] == complete_row(entries, rows[j]));
    }
}

/// In a row whose formulas all resolve, a formula that reads as a number comes
/// out under the name `{row}_{position}` with that number, unchanged.
pub proof fn literal_reaches_output(
    entries: Seq<EntryModel>,
    rows: Seq<(nat, Seq<Seq<char>>)>,
    j: int,
    i: int,
    v: (int, nat),
)
    requires
        evaluate(entries, rows) is Some,
        0 <= j < rows.len(),
        0 <= i < rows[j].1.len(),
        resolve_row(entries, rows[j].1) is Values,
        parsed_decimal(rows[j].1[i]) == Some(v),
    ensures
        exists|o: int|
            0 <= o < evaluate(entries, rows)->0.len() && #[trigger] evaluate(entries, rows)->0[o].0
                == rows[j].0 && evaluate(entries, rows)->0[o].1[i] == (
                joined(decimal_text(rows[j].0), decimal_text(i as nat)),
                Some(v),
            ),
{
    lemma_row_values(entries, rows[j].1);
    lemma_complete_rows_kept(entries, rows, j);
    let out = evaluate(entries, rows)->0;
    let o = choose|o: int| 0 <= o < out.len() && #[trigger] out[o] == complete_row(entries, rows[j]);
    assert(out[o].0 == rows[j].0);
}

/// In a row whose formulas all resolve, a reference `label@offset` to an entry
/// with a value comes out under the name `{row}_{position}` with exactly that value.
pub proof fn reference_reaches_output(
    entries: Seq<EntryModel>,
    rows: Seq<(nat, Seq<Seq<char>>)>,
    j: int,
    i: int,
    k: int,
    offset: nat,
    v: (int, nat),
)
    requires
        evaluate(entries, rows) is Some,
        0 <= j < rows.len(),
        0 <= i < rows[j].1.len(),
        resolve_row(entries, rows[j].1) is Values,
        sole_marker(rows[j].1[i], k),
        offset_of(rows[j].1[i].skip(k + 1)) == Some(offset),
        offset < column_of(entries, rows[j].1[i].take(k)).len(),
        column_of(entries, rows[j].1[i].take(k))[offset as int].2 == Some(v),
    ensures
        exists|o: int|
            0 <= o < evaluate(entries, rows)->0.len() && #[trigger] evaluate(entries, rows)->0[o].0
                == rows[j].0 && evaluate(entries, rows)->0[o].1[i] == (
                joined(decimal_text(rows[j].0), decimal_text(i as nat)),
                Some(v),
            ),
{
    reference_evaluates_to_target(entries, rows[j].1[i], k, offset, v);
    lemma_row_values(entries, rows[j].1);
    lemma_complete_rows_kept(entries, rows, j);
    let out = evaluate(entries, rows)->0;
    let o = choose|o: int| 0 <= o < out.len() && #[trigger] out[o] == complete_row(entries, rows[j]);
    assert(out[o].0 == rows[j].0);
}

pub open spec fn row_numbers_distinct(rows: Seq<(nat, Seq<Seq<char>>)>) -> bool {
    forall|a: int, b: int| 0 <= a < b < rows.len() ==> (#[trigger] rows[a]).0 != (#[trigger] rows[b]).0
}

/// Where row numbers are distinct, a row with a reference that does not resolve
/// has no evaluated row: no part of it ever appears.
pub proof fn unresolved_reference_drops_row(
    entries: Seq<EntryModel>,
    rows: Seq<(nat, Seq<Seq<char>>)>,
    j: int,
    i: int,
)
    requires
        evaluate(entries, rows) is Some,
        row_numbers_distinct(rows),
        0 <= j < rows.len(),
        0 <= i < rows[j].1.len(),
        resolve(entries, rows[j].1[i]) is Unresolved,
    ensures
        forall|o: int|
            0 <= o < evaluate(entries, rows)->0.len() ==> (#[trigger] evaluate(entries, rows)->0[o]).0
                != rows[j].0,
{
    if resolve_row(entries, rows[j].1) is Values {
        lemma_row_values(entries, rows[j].1);
    }
    only_complete_rows(entries, rows);
    let out = evaluate(entries, rows)->0;
    assert forall|o: int| 0 <= o < out.len() implies (#[trigger] out[o]).0 != rows[j].0 by {
        assert(is_complete_row_of(entries, rows, out[o]));
        let jj = choose|jj: int|
            0 <= jj < rows.len() && resolve_row(entries, #[trigger] rows[jj].1) is Values && out[o]
                == complete_row(entries, rows[jj]);
        if jj != j {
            if jj < j {
                assert(rows[jj].0 != rows[j].0);
            } else {
                assert(rows[j].0 != rows[jj].0);
            }
        }
    }
}

/// A formula that is neither a number nor a reference, after formulas of its row
/// that all resolve, fails the whole evaluation, whatever the other rows hold.
pub proof fn syntax_error_fails_evaluation(
    entries: Seq<EntryModel>,
    rows: Seq<(nat, Seq<Seq<char>>)>,
    j: int,
    i: int,
)
    requires
        0 <= j < rows.len(),
        0 <= i < rows[j].1.len(),
        resolve_row(entries, rows[j].1.take(i)) is Values,
        resolve(entries, rows[j].1[i]) is Syntax,
    ensures
        evaluate(entries, rows) is None,
{
    let fs = rows[j].1;
    assert(fs.take(i + 1).drop_last() =~= fs.take(i));
    assert(fs.take(i + 1).last() == fs[i]);
    lemma_row_stops(entries, fs, i + 1);
    assert(rows.take(j + 1).drop_last() =~= rows.take(j));
    assert(rows.take(j + 1).last() == rows[j]);
    assert(evaluate(entries, rows.take(j + 1)) is None);
    lemma_evaluate_prefix_fails(entries, rows, j + 1);
}

/// Across ingestion and evaluation: every evaluated row comes from a data record
/// of at least three fields, never from a configuration record.
pub proof fn evaluated_rows_come_from_data_records(records: Seq<Option<Seq<Seq<char>>>>)
    requires
        ingest(records) is Some,
        evaluate(ingest(records)->0.entries, ingest(records)->0.rows) is Some,
    ensures
        ({
            let out = evaluate(ingest(records)->0.entries, ingest(records)->0.rows)->0;
            forall|o: int|
                0 <= o < out.len() ==> (#[trigger] out[o]).0 < records.len() && records[out[o].0 as int]
                    is Some && !is_config(records[out[o].0 as int]->0)
                    && records[out[o].0 as int]->0.len() >= 3
        }),
{
    let st = ingest(records)->0;
    rows_come_from_data_records(records);
    only_complete_rows(st.entries, st.rows);
    let out = evaluate(st.entries, st.rows)->0;
    assert forall|o: int| 0 <= o < out.len() implies (#[trigger] out[o]).0 < records.len()
        && records[out[o].0 as int] is Some && !is_config(records[out[o].0 as int]->0)
        && records[out[o].0 as int]->0.len() >= 3 by {
        assert(is_complete_row_of(st.entries, st.rows, out[o]));
        let j = choose|j: int|
            0 <= j < st.rows.len() && resolve_row(st.entries, #[trigger] st.rows[j].1) is Values
                && out[o] == complete_row(st.entries, st.rows[j]);
        assert(out[o].0 == st.rows[j].0);
    }
}

/// The rows that ingestion builds have distinct row numbers.
pub proof fn ingested_row_numbers_distinct(records: Seq<Option<Seq<Seq<char>>>>)
    requires
        ingest(records) is Some,
    ensures
        row_numbers_distinct(ingest(records)->0.rows),
{
    rows_come_from_data_records(records);
    let rows = ingest(records)->0.rows;
    assert forall|a: int, b: int| 0 <= a < b < rows.len() implies (#[trigger] rows[a]).0
        != (#[trigger] rows[b]).0 by {
        assert(rows[a].0 < rows[b].0);
    }
}

} // verus!

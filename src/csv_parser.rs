use vstd::prelude::*;
use vstd::string::StringExecFns;
use crate::decimal::{
    Decimal, all_digits, digits_value, is_digit, lemma_digits_prefix, parse_decimal, parsed_decimal,
};
use crate::error::{AppError, is_invalid_formula, is_invalid_formula_with, setting_message};
use crate::naming::{decimal_text, joined, number_joined, text_joined};

verus! {

/// A formula cell, once classified.
#[derive(Debug)]
pub enum Formula {
    Literal(Decimal),
    /// A column label and a row offset into that column.
    Reference(String, usize),
}

/// The digits of an offset: the text less one leading `+`.
pub open spec fn offset_digits(t: Seq<char>) -> Seq<char> {
    if t.len() > 0 && t[0] == '+' {
        t.drop_first()
    } else {
        t
    }
}

/// A row offset: an optional `+`, then one or more decimal digits whose value
/// fits in `usize`.
pub open spec fn offset_of(t: Seq<char>) -> Option<nat> {
    let d = offset_digits(t);
    if d.len() > 0 && all_digits(d) && digits_value(d) <= usize::MAX {
        Some(digits_value(d) as nat)
    } else {
        None
    }
}

/// `k` is the position of the only reference marker `@` in `s`.
pub open spec fn sole_marker(s: Seq<char>, k: int) -> bool {
    0 <= k < s.len() && s[k] == '@' && forall|j: int|
        0 <= j < s.len() && j != k ==> #[trigger] s[j] != '@'
}

/// Reads a row offset.
fn parse_offset(t: &str) -> (r: Option<usize>)
    ensures
        r is Some <==> offset_of(t@) is Some,
        r is Some ==> r->0 as nat == offset_of(t@)->0,
{
    let n = t.unicode_len();
    let mut start: usize = 0;
    if n > 0 && t.get_char(0) == '+' {
        start = 1;
    }
    let ghost d = offset_digits(t@);
    assert(d =~= t@.subrange(start as int, n as int));
    if start == n {
        return None;
    }
    let mut v: usize = 0;
    let mut i: usize = start;
    assert(d.take(0) =~= Seq::<char>::empty());
    while i < n
        invariant
            start <= i <= n,
            n == t@.len(),
            d == t@.subrange(start as int, n as int),
            d == offset_digits(t@),
            forall|j: int| 0 <= j < i - start ==> is_digit(#[trigger] d[j]),
            v as int == digits_value(d.take(i - start)),
        decreases n - i,
    {
        let c = t.get_char(i);
        let ghost k = i - start;
        assert(d.take(k + 1).drop_last() =~= d.take(k));
        assert(d.take(k + 1).last() == c);
        if !('0' <= c && c <= '9') {
            assert(d[k] == c);
            return None;
        }
        let dv = ((c as u32) - ('0' as u32)) as usize;
        let next = match v.checked_mul(10) {
            Some(x) => x.checked_add(dv),
            None => None,
        };
        match next {
            Some(x) => {
                v = x;
            },
            None => {
                proof {
                    if all_digits(d) {
                        lemma_digits_prefix(d, k + 1);
                    }
                }
                return None;
            },
        }
        i = i + 1;
    }
    assert(d.take(n - start) =~= d);
    Some(v)
}

/// Classifies a formula's text: a decimal literal first; failing that, a
/// reference `label@offset` with exactly one `@`. Anything else is a syntax error.
/// A literal that a `Decimal` cannot hold (`1e39`, forty digits, `inf`, `NaN`)
/// counts as no number, so it too is a syntax error here, and a plain cell
/// holding it gets no value in the column index.
pub fn parse_formula(formula_str: &str) -> (r: Result<Formula, AppError>)
    ensures
        parsed_decimal(formula_str@) is Some <==> r matches Ok(Formula::Literal(_)),
        r matches Ok(Formula::Literal(d)) ==> d.model() == parsed_decimal(formula_str@)->0,
        r matches Ok(Formula::Reference(label, offset)) ==> exists|k: int|
            sole_marker(formula_str@, k) && label@ == formula_str@.take(k) && offset_of(
                formula_str@.skip(k + 1),
            ) == Some(offset as nat),
        r is Err <==> parsed_decimal(formula_str@) is None && forall|k: int|
            sole_marker(formula_str@, k) ==> offset_of(#[trigger] formula_str@.skip(k + 1))
                is None,
        r is Err ==> is_invalid_formula_with(
            r->Err_0,
            if exists|k: int| sole_marker(formula_str@, k) {
                "invalid reference offset"@ + ": "@ + formula_str@
            } else {
                "invalid formula"@ + ": "@ + formula_str@
            },
        ),
{
    let lit = parse_decimal(formula_str);
    if let Some(d) = lit {
        return Ok(Formula::Literal(d));
    }
    assert(parsed_decimal(formula_str@) is None);
    let n = formula_str.unicode_len();
    let mut first: Option<usize> = None;
    let mut i: usize = 0;
    while i < n
        invariant
            i <= n,
            n == formula_str@.len(),
            parsed_decimal(formula_str@) is None,
            first is None ==> forall|j: int| 0 <= j < i ==> #[trigger] formula_str@[j] != '@',
            first is Some ==> first->0 < i && formula_str@[first->0 as int] == '@' && forall|j: int|
                0 <= j < i && j != first->0 ==> #[trigger] formula_str@[j] != '@',
        decreases n - i,
    {
        if formula_str.get_char(i) == '@' {
            match first {
                None => {
                    first = Some(i);
                },
                Some(k) => {
                    proof {
                        assert forall|m: int| #[trigger] sole_marker(formula_str@, m) implies false by {
                            if m != i {
                                assert(formula_str@[i as int] == '@');
                            } else {
                                assert(formula_str@[k as int] == '@');
                            }
                        }
                    }
                    return Err(AppError::invalid_formula("invalid formula", formula_str));
                },
            }
        }
        i = i + 1;
    }
    match first {
        None => {
            proof {
                assert forall|m: int| #[trigger] sole_marker(formula_str@, m) implies false by {
                    assert(formula_str@[m] == '@');
                }
            }
            Err(AppError::invalid_formula("invalid formula", formula_str))
        },
        Some(k) => {
            let label = formula_str.substring_char(0, k);
            let rest = formula_str.substring_char(k + 1, n);
            assert(rest@ =~= formula_str@.skip(k + 1));
            assert(sole_marker(formula_str@, k as int));
            match parse_offset(rest) {
                Some(offset) => Ok(Formula::Reference(String::from_str(label), offset)),
                None => {
                    proof {
                        assert forall|m: int| sole_marker(formula_str@, m) implies offset_of(
                            #[trigger] formula_str@.skip(m + 1),
                        ) is None by {
                            if m != k {
                                assert(formula_str@[k as int] == '@');
                            }
                        }
                    }
                    Err(AppError::invalid_formula("invalid reference offset", formula_str))
                },
            }
        },
    }
}

/// A data row: its index among the source records and the texts of its formula
/// cells, the leading `=` taken off.
#[derive(Debug)]
pub struct CsvRow {
    pub row_number: usize,
    pub formulas: Vec<String>,
}

/// One slot of the column index: the column it belongs to, its name and its
/// value (`None` for a formula cell or a literal that is no number).
#[derive(Debug)]
pub struct ColumnEntry {
    pub label: String,
    pub name: String,
    pub value: Option<Decimal>,
}

/// The ingested table. A column is the sequence of the entries with its label,
/// in the order in which they were appended.
#[derive(Debug)]
pub struct CsvData {
    pub rows: Vec<CsvRow>,
    pub entries: Vec<ColumnEntry>,
    pub fee: Decimal,
    pub cost_threshold: Decimal,
}

/// A row as (row number, formula texts).
pub open spec fn row_model(r: CsvRow) -> (nat, Seq<Seq<char>>) {
    (r.row_number as nat, r.formulas@.map_values(|f: String| f@))
}

/// A column entry as (label, name, value).
pub open spec fn entry_model(e: ColumnEntry) -> (Seq<char>, Seq<char>, Option<(int, nat)>) {
    (
        e.label@,
        e.name@,
        match e.value {
            Some(d) => Some(d.model()),
            None => None,
        },
    )
}

/// The entries of the column `label`, in order.
pub open spec fn column_of(entries: Seq<(Seq<char>, Seq<char>, Option<(int, nat)>)>, label: Seq<char>) -> Seq<
    (Seq<char>, Seq<char>, Option<(int, nat)>),
>
    decreases entries.len(),
{
    if entries.len() == 0 {
        Seq::empty()
    } else if entries.last().0 == label {
        column_of(entries.drop_last(), label).push(entries.last())
    } else {
        column_of(entries.drop_last(), label)
    }
}

/// The pieces of `t` between commas.
pub open spec fn split_commas(t: Seq<char>) -> Seq<Seq<char>>
    decreases t.len(),
{
    if t.len() == 0 {
        seq![Seq::empty()]
    } else {
        let parts = split_commas(t.drop_last());
        if t.last() == ',' {
            parts.push(Seq::empty())
        } else {
            parts.update(parts.len() - 1, parts.last().push(t.last()))
        }
    }
}

/// The cells of a record: its fields from the third on, each split at commas.
pub open spec fn cells_of(fields: Seq<Seq<char>>) -> Seq<Seq<char>>
    decreases fields.len(),
{
    if fields.len() <= 2 {
        Seq::empty()
    } else {
        cells_of(fields.drop_last()) + split_commas(fields.last())
    }
}

pub open spec fn is_formula_cell(cell: Seq<char>) -> bool {
    cell.len() > 0 && cell[0] == '='
}

/// The label of the column of the cell at `position` (from 1) in a row of `group`.
pub open spec fn column_label(position: nat, group: Seq<char>) -> Seq<char> {
    joined(decimal_text(position), group)
}

/// The column entries that a row of `group` with these cells appends.
pub open spec fn row_entries(group: Seq<char>, cells: Seq<Seq<char>>) -> Seq<
    (Seq<char>, Seq<char>, Option<(int, nat)>),
>
    decreases cells.len(),
{
    if cells.len() == 0 {
        Seq::empty()
    } else {
        let label = column_label(cells.len(), group);
        let cell = cells.last();
        row_entries(group, cells.drop_last()).push(
            if is_formula_cell(cell) {
                (label, joined(label, "price"@), None)
            } else {
                (label, joined(label, "value"@), parsed_decimal(cell))
            },
        )
    }
}

/// The entry that the cell at index `p` of a row of `group` appends: a formula
/// cell a placeholder without value, a plain cell its number unchanged.
pub open spec fn cell_entry(group: Seq<char>, cells: Seq<Seq<char>>, p: int) -> (
    Seq<char>,
    Seq<char>,
    Option<(int, nat)>,
) {
    let label = column_label((p + 1) as nat, group);
    if is_formula_cell(cells[p]) {
        (label, joined(label, "price"@), None)
    } else {
        (label, joined(label, "value"@), parsed_decimal(cells[p]))
    }
}

/// A row appends one entry per cell, in cell order, each as `cell_entry` says:
/// a literal is stored unchanged under `{position}_{group}_value`.
pub proof fn row_entries_cell_by_cell(group: Seq<char>, cells: Seq<Seq<char>>)
    ensures
        row_entries(group, cells).len() == cells.len(),
        forall|p: int|
            0 <= p < cells.len() ==> #[trigger] row_entries(group, cells)[p] == cell_entry(
                group,
                cells,
                p,
            ),
    decreases cells.len(),
{
    if cells.len() > 0 {
        let prev = cells.drop_last();
        row_entries_cell_by_cell(group, prev);
        assert forall|p: int| 0 <= p < cells.len() implies #[trigger] row_entries(group, cells)[p]
            == cell_entry(group, cells, p) by {
            if p < prev.len() {
                assert(prev[p] == cells[p]);
                assert(row_entries(group, cells)[p] == row_entries(group, prev)[p]);
                assert(cell_entry(group, prev, p) == cell_entry(group, cells, p));
            }
        }
    }
}

/// The formula texts of a row with these cells.
pub open spec fn row_formulas(cells: Seq<Seq<char>>) -> Seq<Seq<char>>
    decreases cells.len(),
{
    if cells.len() == 0 {
        Seq::empty()
    } else if is_formula_cell(cells.last()) {
        row_formulas(cells.drop_last()).push(cells.last().drop_first())
    } else {
        row_formulas(cells.drop_last())
    }
}

/// What ingestion has built so far.
pub struct Ingested {
    pub rows: Seq<(nat, Seq<Seq<char>>)>,
    pub entries: Seq<(Seq<char>, Seq<char>, Option<(int, nat)>)>,
    pub fee: (int, nat),
    pub threshold: (int, nat),
    /// The field count of the last data row taken.
    pub prev: Option<nat>,
}

pub open spec fn is_config(fields: Seq<Seq<char>>) -> bool {
    fields.len() > 0 && fields[0].len() > 0 && fields[0][0] == '!'
}

/// The text of a configuration record's value; empty where it has none.
pub open spec fn setting_value(fields: Seq<Seq<char>>) -> Seq<char> {
    if fields.len() >= 2 {
        fields[1]
    } else {
        Seq::empty()
    }
}

/// The setting that a configuration row gives, or `None` where its value is missing
/// or is no number.
pub open spec fn config_value(fields: Seq<Seq<char>>) -> Option<(int, nat)> {
    if fields.len() >= 2 {
        parsed_decimal(fields[1])
    } else {
        None
    }
}

/// One record read at index `i`: a configuration row sets a parameter, a data row
/// with at least three fields and as many as the last data row taken is appended
/// with its cells, and any other record is passed over. `None` where a
/// configuration row holds no number.
pub open spec fn ingest_record(st: Ingested, i: nat, record: Option<Seq<Seq<char>>>) -> Option<Ingested> {
    match record {
        None => Some(st),
        Some(fields) => if is_config(fields) {
            if fields[0] == "!fee"@ {
                match config_value(fields) {
                    Some(v) => Some(Ingested { fee: v, ..st }),
                    None => None,
                }
            } else if fields[0] == "!cost_threshold"@ {
                match config_value(fields) {
                    Some(v) => Some(Ingested { threshold: v, ..st }),
                    None => None,
                }
            } else {
                Some(st)
            }
        } else if fields.len() < 3 || (st.prev is Some && st.prev->0 != fields.len()) {
            Some(st)
        } else {
            let cells = cells_of(fields);
            Some(
                Ingested {
                    rows: st.rows.push((i, row_formulas(cells))),
                    entries: st.entries + row_entries(fields[0], cells),
                    prev: Some(fields.len()),
                    ..st
                },
            )
        },
    }
}

/// A record as the texts of its fields.
pub open spec fn record_model(r: Option<Vec<String>>) -> Option<Seq<Seq<char>>> {
    match r {
        Some(v) => Some(v@.map_values(|f: String| f@)),
        None => None,
    }
}

/// The whole table, read record by record from nothing; the parameters start at zero.
pub open spec fn ingest(records: Seq<Option<Seq<Seq<char>>>>) -> Option<Ingested>
    decreases records.len(),
{
    if records.len() == 0 {
        Some(
            Ingested {
                rows: Seq::empty(),
                entries: Seq::empty(),
                fee: (0, 0),
                threshold: (0, 0),
                prev: None,
            },
        )
    } else {
        match ingest(records.drop_last()) {
            Some(st) => ingest_record(st, (records.len() - 1) as nat, records.last()),
            None => None,
        }
    }
}

impl CsvData {
    /// The state of ingestion that this table stands for, with no last row yet.
    pub open spec fn matches(self, st: Ingested) -> bool {
        &&& self.rows@.map_values(|r: CsvRow| row_model(r)) == st.rows
        &&& self.entries@.map_values(|e: ColumnEntry| entry_model(e)) == st.entries
        &&& self.fee.model() == st.fee
        &&& self.cost_threshold.model() == st.threshold
    }
}

/// The pieces of `t` between commas.
fn split_at_commas(t: &str) -> (r: Vec<String>)
    ensures
        r@.map_values(|p: String| p@) == split_commas(t@),
{
    let n = t.unicode_len();
    let mut parts: Vec<String> = Vec::new();
    let mut start: usize = 0;
    let mut i: usize = 0;
    assert(t@.take(0) =~= Seq::<char>::empty());
    assert(parts@.map_values(|p: String| p@).push(t@.subrange(0, 0)) =~= split_commas(t@.take(0)));
    while i < n
        invariant
            start <= i <= n,
            n == t@.len(),
            parts@.map_values(|p: String| p@).push(t@.subrange(start as int, i as int))
                == split_commas(t@.take(i as int)),
        decreases n - i,
    {
        let c = t.get_char(i);
        let ghost before = parts@.map_values(|p: String| p@);
        assert(t@.take(i + 1).drop_last() =~= t@.take(i as int));
        if c == ',' {
            let piece = String::from_str(t.substring_char(start, i));
            assert(piece@ == t@.subrange(start as int, i as int));
            parts.push(piece);
            assert(parts@.map_values(|p: String| p@) =~= before.push(t@.subrange(start as int, i as int)));
            start = i + 1;
            assert(t@.subrange(start as int, i + 1) =~= Seq::<char>::empty());
            assert(parts@.map_values(|p: String| p@).push(t@.subrange(start as int, i + 1))
                =~= split_commas(t@.take(i + 1)));
        } else {
            assert(t@.subrange(start as int, i + 1) =~= t@.subrange(start as int, i as int).push(c));
            assert(parts@.map_values(|p: String| p@).push(t@.subrange(start as int, i + 1))
                =~= split_commas(t@.take(i + 1)));
        }
        i = i + 1;
    }
    let last = String::from_str(t.substring_char(start, n));
    parts.push(last);
    assert(t@.take(n as int) =~= t@);
    assert(parts@.map_values(|p: String| p@) =~= split_commas(t@));
    parts
}

/// The cells of a record, as `cells_of` gives them.
fn record_cells(fields: &Vec<String>) -> (r: Vec<String>)
    ensures
        r@.map_values(|p: String| p@) == cells_of(fields@.map_values(|f: String| f@)),
{
    let mut cells: Vec<String> = Vec::new();
    let mut k: usize = 2;
    let ghost fm = fields@.map_values(|f: String| f@);
    if fields.len() <= 2 {
        return cells;
    }
    assert(cells@.map_values(|p: String| p@) =~= cells_of(fm.take(2)));
    while k < fields.len()
        invariant
            2 <= k <= fields.len(),
            fm == fields@.map_values(|f: String| f@),
            cells@.map_values(|p: String| p@) == cells_of(fm.take(k as int)),
        decreases fields.len() - k,
    {
        let pieces = split_at_commas(fields[k].as_str());
        let ghost before = cells@.map_values(|p: String| p@);
        let mut j: usize = 0;
        while j < pieces.len()
            invariant
                j <= pieces.len(),
                cells@.map_values(|p: String| p@) == before + pieces@.map_values(|p: String| p@).take(j as int),
            decreases pieces.len() - j,
        {
            let piece = pieces[j].clone();
            assert(piece@ == pieces@.map_values(|p: String| p@)[j as int]);
            let ghost prior = cells@;
            cells.push(piece);
            assert(cells@ == prior.push(piece));
            assert(cells@.map_values(|p: String| p@) =~= prior.map_values(|p: String| p@).push(piece@));
            assert(cells@.map_values(|p: String| p@) =~= before + pieces@.map_values(|p: String| p@).take(j + 1));
            j = j + 1;
        }
        assert(fm.take(k + 1).drop_last() =~= fm.take(k as int));
        assert(pieces@.map_values(|p: String| p@).take(j as int) =~= pieces@.map_values(|p: String| p@));
        k = k + 1;
    }
    assert(fm.take(k as int) =~= fm);
    cells
}

/// Appends a data row read at index `i`: its formula texts as a new row, and one
/// column entry per cell.
fn append_row(data: &mut CsvData, i: usize, fields: &Vec<String>)
    requires
        fields.len() >= 3,
    ensures
        ({
            let fm = fields@.map_values(|f: String| f@);
            let cells = cells_of(fm);
            &&& final(data).rows@.map_values(|r: CsvRow| row_model(r)) == old(data).rows@.map_values(
                |r: CsvRow| row_model(r),
            ).push((i as nat, row_formulas(cells)))
            &&& final(data).entries@.map_values(|e: ColumnEntry| entry_model(e)) == old(
                data,
            ).entries@.map_values(|e: ColumnEntry| entry_model(e)) + row_entries(fm[0], cells)
            &&& final(data).fee == old(data).fee
            &&& final(data).cost_threshold == old(data).cost_threshold
        }),
{
    let ghost fm = fields@.map_values(|f: String| f@);
    let cells = record_cells(fields);
    let ghost cm = cells@.map_values(|p: String| p@);
    let group = fields[0].as_str();
    let ghost start_entries = data.entries@.map_values(|e: ColumnEntry| entry_model(e));
    let mut formulas: Vec<String> = Vec::new();
    let mut j: usize = 0;
    assert(cm.take(0) =~= Seq::<Seq<char>>::empty());
    assert(start_entries + row_entries(fm[0], cm.take(0)) =~= start_entries);
    while j < cells.len()
        invariant
            j <= cells.len(),
            cm == cells@.map_values(|p: String| p@),
            cm == cells_of(fm),
            group@ == fm[0],
            data.entries@.map_values(|e: ColumnEntry| entry_model(e)) == start_entries
                + row_entries(fm[0], cm.take(j as int)),
            formulas@.map_values(|f: String| f@) == row_formulas(cm.take(j as int)),
            data.rows == old(data).rows,
            data.fee == old(data).fee,
            data.cost_threshold == old(data).cost_threshold,
        decreases cells.len() - j,
    {
        let cell = cells[j].as_str();
        assert(cell@ == cm[j as int]);
        assert(cm.take(j + 1).drop_last() =~= cm.take(j as int));
        assert(cm.take(j + 1).last() == cell@);
        let label = number_joined(j + 1, group);
        let n = cell.unicode_len();
        let ghost prior_entries = data.entries@;
        let ghost prior_formulas = formulas@;
        if n > 0 && cell.get_char(0) == '=' {
            let text = String::from_str(cell.substring_char(1, n));
            assert(text@ =~= cell@.drop_first());
            formulas.push(text);
            assert(formulas@.map_values(|f: String| f@) =~= prior_formulas.map_values(|f: String| f@).push(
                text@,
            ));
            let name = text_joined(label.as_str(), "price");
            let entry = ColumnEntry { label, name, value: None };
            data.entries.push(entry);
            assert(data.entries@.map_values(|e: ColumnEntry| entry_model(e)) =~= prior_entries.map_values(
                |e: ColumnEntry| entry_model(e),
            ).push(entry_model(entry)));
        } else {
            let value = parse_decimal(cell);
            let name = text_joined(label.as_str(), "value");
            let entry = ColumnEntry { label, name, value };
            data.entries.push(entry);
            assert(data.entries@.map_values(|e: ColumnEntry| entry_model(e)) =~= prior_entries.map_values(
                |e: ColumnEntry| entry_model(e),
            ).push(entry_model(entry)));
            assert(formulas@.map_values(|f: String| f@) == row_formulas(cm.take(j + 1)));
        }
        j = j + 1;
    }
    assert(cm.take(j as int) =~= cm);
    let ghost prior_rows = data.rows@;
    let row = CsvRow { row_number: i, formulas };
    data.rows.push(row);
    assert(data.rows@.map_values(|r: CsvRow| row_model(r)) =~= prior_rows.map_values(|r: CsvRow| row_model(r)).push(
        row_model(row),
    ));
}

proof fn lemma_ingest_prefix_fails(records: Seq<Option<Seq<Seq<char>>>>, i: int)
    requires
        0 <= i <= records.len(),
        ingest(records.take(i)) is None,
    ensures
        ingest(records) is None,
    decreases records.len() - i,
{
    if i < records.len() {
        assert(records.take(i + 1).drop_last() =~= records.take(i));
        lemma_ingest_prefix_fails(records, i + 1);
    } else {
        assert(records.take(i) =~= records);
    }
}

/// Builds the table from the source records in order (`None` for a record that
/// could not be read, which still takes its index).
pub fn parse_records(records: &Vec<Option<Vec<String>>>) -> (r: Result<CsvData, AppError>)
    ensures
        ingest(records@.map_values(|x: Option<Vec<String>>| record_model(x))) is Some <==> r is Ok,
        r is Ok ==> r->Ok_0.matches(
            ingest(records@.map_values(|x: Option<Vec<String>>| record_model(x)))->0,
        ),
        r is Err ==> exists|i: int|
            0 <= i < records@.len() && #[trigger] record_model(records@[i]) is Some
                && is_invalid_formula_with(
                r->Err_0,
                setting_message(
                    i as nat,
                    record_model(records@[i])->0[0],
                    setting_value(record_model(records@[i])->0),
                ),
            ),
{
    let ghost rs = records@.map_values(|x: Option<Vec<String>>| record_model(x));
    let mut data = CsvData {
        rows: Vec::new(),
        entries: Vec::new(),
        fee: Decimal::zero(),
        cost_threshold: Decimal::zero(),
    };
    let mut prev: Option<usize> = None;
    let mut i: usize = 0;
    assert(rs.take(0) =~= Seq::<Option<Seq<Seq<char>>>>::empty());
    assert(data.rows@.map_values(|r: CsvRow| row_model(r)) =~= Seq::<(nat, Seq<Seq<char>>)>::empty());
    assert(data.entries@.map_values(|e: ColumnEntry| entry_model(e)) =~= Seq::<
        (Seq<char>, Seq<char>, Option<(int, nat)>),
    >::empty());
    while i < records.len()
        invariant
            i <= records.len(),
            rs == records@.map_values(|x: Option<Vec<String>>| record_model(x)),
            ingest(rs.take(i as int)) is Some,
            data.matches(ingest(rs.take(i as int))->0),
            ingest(rs.take(i as int))->0.prev == match prev {
                Some(p) => Some(p as nat),
                None => None::<nat>,
            },
        decreases records.len() - i,
    {
        assert(rs.take(i + 1).drop_last() =~= rs.take(i as int));
        assert(rs.take(i + 1).last() == rs[i as int]);
        match &records[i] {
            None => {},
            Some(fields) => {
                let ghost fm = fields@.map_values(|f: String| f@);
                assert(rs[i as int] == Some(fm));
                let n = fields.len();
                let bang = n > 0 && fields[0].as_str().unicode_len() > 0 && fields[0].as_str().get_char(0) == '!';
                if bang {
                    let fee_key = String::from_str("!fee");
                    let threshold_key = String::from_str("!cost_threshold");
                    let is_fee = fields[0] == fee_key;
                    let is_threshold = fields[0] == threshold_key;
                    if is_fee || is_threshold {
                        let v = if n >= 2 {
                            parse_decimal(fields[1].as_str())
                        } else {
                            None
                        };
                        match v {
                            Some(d) => {
                                if is_fee {
                                    data.fee = d;
                                } else {
                                    data.cost_threshold = d;
                                }
                            },
                            None => {
                                proof {
                                    lemma_ingest_prefix_fails(rs, i + 1);
                                }
                                let value = if n >= 2 {
                                    fields[1].as_str()
                                } else {
                                    ""
                                };
                                proof {
                                    reveal_strlit("");
                                    if n >= 2 {
                                        assert(fields@[1]@ == fm[1]);
                                    }
                                    assert(value@ =~= setting_value(fm));
                                }
                                return Err(AppError::setting_error(i, fields[0].as_str(), value));
                            },
                        }
                    }
                } else if n < 3 {
                } else if prev.is_some() && prev.unwrap() != n {
                } else {
                    append_row(&mut data, i, fields);
                    prev = Some(n);
                }
            },
        }
        i = i + 1;
    }
    assert(rs.take(i as int) =~= rs);
    Ok(data)
}

/// A data record (not a configuration record) of fewer than three fields adds no row and no column entry,
/// whatever it holds.
pub proof fn short_record_is_dropped(st: Ingested, i: nat, fields: Seq<Seq<char>>)
    requires
        fields.len() < 3,
        !is_config(fields),
    ensures
        ingest_record(st, i, Some(fields)) is Some,
        ingest_record(st, i, Some(fields))->0.rows == st.rows,
        ingest_record(st, i, Some(fields))->0.entries == st.entries,
{
}

/// A configuration record never becomes a row, and adds no column entry.
pub proof fn config_record_is_no_row(st: Ingested, i: nat, fields: Seq<Seq<char>>)
    requires
        is_config(fields),
        ingest_record(st, i, Some(fields)) is Some,
    ensures
        ingest_record(st, i, Some(fields))->0.rows == st.rows,
        ingest_record(st, i, Some(fields))->0.entries == st.entries,
{
}

/// Every row of the table comes from a data record of at least three fields at
/// its own index, and the rows stand in the order of the records.
pub open spec fn rows_from_data_records(
    records: Seq<Option<Seq<Seq<char>>>>,
    rows: Seq<(nat, Seq<Seq<char>>)>,
) -> bool {
    &&& forall|r: int|
        0 <= r < rows.len() ==> (#[trigger] rows[r]).0 < records.len() && records[rows[r].0 as int]
            is Some && !is_config(records[rows[r].0 as int]->0) && records[rows[r].0 as int]->0.len()
            >= 3
    &&& forall|a: int, b: int| 0 <= a < b < rows.len() ==> (#[trigger] rows[a]).0 < (#[trigger] rows[b]).0
}

/// Across the whole table: configuration records and records of fewer than three
/// fields never become rows.
pub proof fn rows_come_from_data_records(records: Seq<Option<Seq<Seq<char>>>>)
    requires
        ingest(records) is Some,
    ensures
        rows_from_data_records(records, ingest(records)->0.rows),
    decreases records.len(),
{
    if records.len() > 0 {
        let prev = records.drop_last();
        rows_come_from_data_records(prev);
        let before = ingest(prev)->0.rows;
        let rows = ingest(records)->0.rows;
        assert forall|r: int| 0 <= r < before.len() implies (#[trigger] before[r]).0 < records.len()
            && records[before[r].0 as int] == prev[before[r].0 as int] by {}
        if rows.len() > before.len() {
            assert(rows == before.push(rows.last()));
            assert(rows.last().0 == records.len() - 1);
        } else {
            assert(rows == before);
        }
    }
}

/// What the CSV reader (no header row, records of any length, fields trimmed of
/// white space) reads from a text: each record's fields, or `None` for a record
/// that it rejects.
pub uninterp spec fn csv_records(text: Seq<char>) -> Seq<Option<Seq<Seq<char>>>>;

/// Relies on `csv::ReaderBuilder` with `has_headers(false)`, `flexible(true)` and
/// `Trim::All`, and on
/// `StringRecord::iter`: the records of the text in order, a record that the reader
/// rejects standing as `None`.
#[verifier::external_body]
fn read_records(text: &str) -> (r: Vec<Option<Vec<String>>>)
    ensures
        r@.map_values(|x: Option<Vec<String>>| record_model(x)) == csv_records(text@),
{
    let mut reader = csv::ReaderBuilder::new().has_headers(false).flexible(true).trim(
        csv::Trim::All,
    ).from_reader(
        text.as_bytes(),
    );
    reader.records().map(|rec| rec.ok().map(|rec| rec.iter().map(String::from).collect())).collect()
}

/// Reads the table from its CSV text.
pub fn parse_csv_text(text: &str) -> (r: Result<CsvData, AppError>)
    ensures
        ingest(csv_records(text@)) is Some <==> r is Ok,
        r is Ok ==> r->Ok_0.matches(ingest(csv_records(text@))->0),
        r is Err ==> is_invalid_formula(r->Err_0),
{
    let records = read_records(text);
    parse_records(&records)
}

} // verus!

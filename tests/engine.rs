use formula_sheet::calculator::{
    calculate_adjusted_cost, calculate_results, is_cost_too_high, COST_SCALE,
};
use formula_sheet::csv_parser::{parse_csv_text, parse_formula, parse_records, CsvRow, Formula};
use formula_sheet::decimal::{parse_decimal, Decimal};
use formula_sheet::naming::{number_joined, numbers_joined};
use formula_sheet::error::{AppError, CsvParserError, FormulaEvaluationErrorEnum};
use formula_sheet::formula_evaluator::{evaluate_formulas, lookup, EvaluatedFormula, EvaluatedRow};

fn to_f64(d: Decimal) -> f64 {
    d.units as f64 / 10f64.powi(d.scale as i32)
}

fn record(fields: &[&str]) -> Option<Vec<String>> {
    Some(fields.iter().map(|f| f.to_string()).collect())
}

fn row(n: usize, formulas: &[&str]) -> CsvRow {
    CsvRow { row_number: n, formulas: formulas.iter().map(|f| f.to_string()).collect() }
}

fn is_invalid_formula(e: &AppError) -> bool {
    matches!(e, AppError::FormulaEvaluationError(FormulaEvaluationErrorEnum::InvalidFormula(_)))
}

#[test]
fn decimal_literals() {
    assert_eq!(parse_decimal("10"), Some(Decimal::new(10, 0)));
    assert_eq!(parse_decimal("-3.25"), Some(Decimal::new(-325, 2)));
    assert_eq!(parse_decimal("+2"), Some(Decimal::new(2, 0)));
    assert_eq!(parse_decimal(".5"), Some(Decimal::new(5, 1)));
    assert_eq!(parse_decimal("5."), Some(Decimal::new(5, 0)));
    assert_eq!(parse_decimal(""), None);
    assert_eq!(parse_decimal("-"), None);
    assert_eq!(parse_decimal("1.2.3"), None);
    assert_eq!(parse_decimal("abc"), None);
    assert_eq!(parse_decimal("1_A@0"), None);
}

#[test]
fn decimal_exponents() {
    assert_eq!(parse_decimal("1e3"), Some(Decimal::new(1000, 0)));
    assert_eq!(parse_decimal("2.5E-1"), Some(Decimal::new(25, 2)));
    assert_eq!(parse_decimal("-1.25e1"), Some(Decimal::new(-125, 1)));
    assert_eq!(parse_decimal("7e+2"), Some(Decimal::new(700, 0)));
    assert_eq!(parse_decimal("0e99999999999999999999999999999999999999999"), Some(Decimal::new(0, 0)));
    assert_eq!(parse_decimal("1e99999999999999999999999999999999999999999"), None);
    assert_eq!(parse_decimal("1e39"), None);
    assert_eq!(parse_decimal("1e38"), Some(Decimal::new(100_000_000_000_000_000_000_000_000_000_000_000_000, 0)));
    assert_eq!(parse_decimal("1e"), None);
    assert_eq!(parse_decimal("e5"), None);
    assert_eq!(parse_decimal("1e2e3"), None);
    assert_eq!(parse_decimal("1e2.5"), None);
    assert_eq!(parse_decimal("inf"), None);
    assert_eq!(parse_decimal("NaN"), None);
}

#[test]
fn exponent_literal_is_a_literal_everywhere() {
    match parse_formula("1e3") {
        Ok(Formula::Literal(d)) => assert_eq!(d, Decimal::new(1000, 0)),
        _ => panic!("expected a literal"),
    }
    let records = vec![record(&["A", "x", "2.5E-1", "=1e3"])];
    let data = parse_records(&records).unwrap();
    assert_eq!(data.entries[0].value, Some(Decimal::new(25, 2)));
    let costs = calculate_adjusted_cost(&data.rows, Decimal::new(0, 0)).unwrap();
    assert_eq!(costs, vec![Decimal::new(1000, 0)]);
}

#[test]
fn decimal_too_long_is_no_number() {
    let digits = "9".repeat(60);
    assert_eq!(parse_decimal(&digits), None);
}

#[test]
fn decimal_arithmetic_and_order() {
    let a = Decimal::new(15, 1);
    let b = Decimal::new(2, 0);
    assert_eq!(a.checked_add(b), Some(Decimal::new(35, 1)));
    assert_eq!(a.checked_mul(b), Some(Decimal::new(30, 1)));
    assert!(b.greater_than(a));
    assert!(!a.greater_than(b));
    assert!(!a.greater_than(Decimal::new(150, 2)));
    assert_eq!(Decimal::new(i128::MAX, 0).checked_add(Decimal::new(1, 0)), None);
    assert!(Decimal::new(i128::MAX, 0).greater_than(Decimal::new(1, 1)));
    assert!(Decimal::new(-1, 0).greater_than(Decimal::new(i128::MIN, 30)));
    assert!(!Decimal::new(i128::MIN, 0).greater_than(Decimal::new(-1, 30)));
}

#[test]
fn formula_literal_first() {
    match parse_formula("12.5") {
        Ok(Formula::Literal(d)) => assert_eq!(d, Decimal::new(125, 1)),
        _ => panic!("expected a literal"),
    }
}

#[test]
fn formula_reference() {
    match parse_formula("1_A@3") {
        Ok(Formula::Reference(label, offset)) => {
            assert_eq!(label, "1_A");
            assert_eq!(offset, 3);
        }
        _ => panic!("expected a reference"),
    }
}

#[test]
fn reference_offset_may_carry_plus() {
    match parse_formula("a@+5") {
        Ok(Formula::Reference(label, offset)) => {
            assert_eq!(label, "a");
            assert_eq!(offset, 5);
        }
        _ => panic!("expected a reference"),
    }
    assert!(matches!(&parse_formula("a@+"), Err(e) if is_invalid_formula(e)));
    assert!(matches!(&parse_formula("a@-5"), Err(e) if is_invalid_formula(e)));
}

#[test]
fn reference_with_non_numeric_offset_is_syntax_error() {
    let r = parse_formula("col@abc");
    assert!(matches!(&r, Err(e) if is_invalid_formula(e)));
}

#[test]
fn formula_without_marker_or_two_markers_is_syntax_error() {
    assert!(matches!(&parse_formula("abc"), Err(e) if is_invalid_formula(e)));
    assert!(matches!(&parse_formula("a@1@2"), Err(e) if is_invalid_formula(e)));
    assert!(matches!(&parse_formula("a@"), Err(e) if is_invalid_formula(e)));
    assert!(matches!(&parse_formula("a@99999999999999999999999"), Err(e) if is_invalid_formula(e)));
}

#[test]
fn ingestion_builds_rows_and_columns() {
    let records = vec![
        record(&["!fee", "0.1"]),
        record(&["!cost_threshold", "30"]),
        record(&["A", "x", "10", "=5"]),
        None,
        record(&["A", "x", "20", "=1_A@0"]),
        record(&["B", "y"]),
        record(&["A", "x", "1", "2", "3"]),
        record(&["A", "x", "oops", "=1_A@1"]),
    ];
    let data = parse_records(&records).unwrap();
    assert_eq!(data.fee, Decimal::new(1, 1));
    assert_eq!(data.cost_threshold, Decimal::new(30, 0));
    let numbers: Vec<usize> = data.rows.iter().map(|r| r.row_number).collect();
    assert_eq!(numbers, vec![2, 4, 7]);
    assert_eq!(data.rows[0].formulas, vec!["5".to_string()]);
    assert_eq!(data.rows[1].formulas, vec!["1_A@0".to_string()]);
    let names: Vec<&str> = data.entries.iter().map(|e| e.name.as_str()).collect();
    assert_eq!(
        names,
        vec!["1_A_value", "2_A_price", "1_A_value", "2_A_price", "1_A_value", "2_A_price"]
    );
    assert_eq!(data.entries[0].label, "1_A");
    assert_eq!(data.entries[0].value, Some(Decimal::new(10, 0)));
    assert_eq!(data.entries[1].value, None);
    assert_eq!(data.entries[4].value, None);
}

#[test]
fn column_index_lookup() {
    let records = vec![
        record(&["A", "x", "10", "=5"]),
        record(&["A", "x", "20", "=1_A@0"]),
        record(&["B", "x", "30", "=1"]),
    ];
    let data = parse_records(&records).unwrap();
    let label = "1_A".to_string();
    assert_eq!(lookup(&data.entries, &label, 0), Some(Decimal::new(10, 0)));
    assert_eq!(lookup(&data.entries, &label, 1), Some(Decimal::new(20, 0)));
    assert_eq!(lookup(&data.entries, &label, 2), None);
    assert_eq!(lookup(&data.entries, &"2_A".to_string(), 0), None);
    assert_eq!(lookup(&data.entries, &"1_B".to_string(), 0), Some(Decimal::new(30, 0)));
    assert_eq!(lookup(&data.entries, &"9_Z".to_string(), 0), None);
}

#[test]
fn rows_with_two_fields_are_excluded() {
    let records = vec![record(&["A", "5"]), record(&["A", "x", "=5"])];
    let data = parse_records(&records).unwrap();
    assert_eq!(data.rows.len(), 1);
    assert_eq!(data.rows[0].row_number, 1);
    assert_eq!(data.entries.len(), 1);
    assert_eq!(data.entries[0].name, "1_A_price");
}

#[test]
fn cells_are_split_at_commas() {
    let records = vec![record(&["G", "x", "1,=2", "=3"])];
    let data = parse_records(&records).unwrap();
    assert_eq!(data.rows[0].formulas, vec!["2".to_string(), "3".to_string()]);
    let labels: Vec<&str> = data.entries.iter().map(|e| e.label.as_str()).collect();
    assert_eq!(labels, vec!["1_G", "2_G", "3_G"]);
}

#[test]
fn bad_setting_fails_ingestion() {
    let records = vec![record(&["!fee", "lots"])];
    assert!(matches!(&parse_records(&records), Err(e) if is_invalid_formula(e)));
    let records = vec![record(&["A", "x", "1"]), record(&["!fee"])];
    match parse_records(&records) {
        Err(e) => assert_eq!(
            e.message(),
            "Formula evaluation error: Invalid formula: invalid setting in record 1: !fee = "
        ),
        Ok(_) => panic!("expected an error"),
    }
    let records = vec![record(&["!cost_threshold", "high"])];
    match parse_records(&records) {
        Err(e) => assert_eq!(
            e.message(),
            "Formula evaluation error: Invalid formula: invalid setting in record 0: !cost_threshold = high"
        ),
        Ok(_) => panic!("expected an error"),
    }
    let records = vec![record(&["!other", "lots"])];
    assert!(parse_records(&records).is_ok());
}

#[test]
fn config_rows_never_evaluated() {
    let records = vec![
        record(&["!fee", "0.5"]),
        record(&["A", "x", "=1"]),
        record(&["!cost_threshold", "9"]),
    ];
    let data = parse_records(&records).unwrap();
    let out = evaluate_formulas(data).unwrap();
    assert_eq!(out.len(), 1);
    assert_eq!(out[0].row_number, 1);
}

#[test]
fn literal_evaluates_unchanged() {
    let records = vec![record(&["A", "x", "=2.75,=-1"])];
    let out = evaluate_formulas(parse_records(&records).unwrap()).unwrap();
    assert_eq!(out[0].formulas[0].name, "0_0");
    assert_eq!(out[0].formulas[0].value, Some(Decimal::new(275, 2)));
    assert_eq!(out[0].formulas[1].name, "0_1");
    assert_eq!(out[0].formulas[1].value, Some(Decimal::new(-1, 0)));
}

#[test]
fn reference_evaluates_to_referenced_value() {
    let records = vec![
        record(&["A", "x", "10", "=5"]),
        record(&["A", "x", "20", "=1_A@1"]),
    ];
    let out = evaluate_formulas(parse_records(&records).unwrap()).unwrap();
    assert_eq!(out.len(), 2);
    assert_eq!(out[1].row_number, 1);
    assert_eq!(out[1].formulas[0].name, "1_0");
    assert_eq!(out[1].formulas[0].value, Some(Decimal::new(20, 0)));
}

#[test]
fn unresolved_rows_are_dropped_whole() {
    let records = vec![
        record(&["A", "x", "10", "=5"]),
        record(&["A", "x", "=1", "=2_A@0"]),
        record(&["A", "x", "=1", "=9_Z@0"]),
        record(&["A", "x", "=1", "=1_A@7"]),
        record(&["A", "x", "=4", "=1_A@0"]),
    ];
    let out = evaluate_formulas(parse_records(&records).unwrap()).unwrap();
    let numbers: Vec<usize> = out.iter().map(|r| r.row_number).collect();
    assert_eq!(numbers, vec![0, 4]);
    assert_eq!(out[1].formulas.len(), 2);
    assert_eq!(out[1].formulas[1].value, Some(Decimal::new(10, 0)));
}

#[test]
fn syntax_error_fails_whole_evaluation() {
    let records = vec![record(&["A", "x", "=1"]), record(&["A", "x", "=col@abc"])];
    let r = evaluate_formulas(parse_records(&records).unwrap());
    assert!(matches!(&r, Err(e) if is_invalid_formula(e)));
    match r {
        Err(e) => assert_eq!(
            e.message(),
            "Formula evaluation error: Invalid formula: invalid formula in row 1: col@abc"
        ),
        Ok(_) => panic!("expected an error"),
    }
}

#[test]
fn syntax_error_after_unresolved_reference_is_row_local() {
    let records = vec![record(&["A", "x", "=Q@0,=nonsense"])];
    let out = evaluate_formulas(parse_records(&records).unwrap()).unwrap();
    assert!(out.is_empty());
}

#[test]
fn adjusted_cost_recurrence() {
    let rows = vec![row(0, &["10"]), row(1, &["20"]), row(2, &["30"])];
    let costs = calculate_adjusted_cost(&rows, Decimal::new(1, 1)).unwrap();
    let values: Vec<f64> = costs.iter().map(|d| to_f64(*d)).collect();
    assert_eq!(values, vec![10.0, 21.0, 32.1]);
    assert_eq!(costs[2], Decimal::new(3210, 2));
}

#[test]
fn adjusted_cost_long_table_with_fractional_fee() {
    let rows: Vec<CsvRow> = (0..200).map(|i| row(i, &["10"])).collect();
    let costs = calculate_adjusted_cost(&rows, Decimal::new(1, 1)).unwrap();
    assert_eq!(costs.len(), 200);
    assert_eq!(costs[2], Decimal::new(1110, 2));
    assert_eq!(costs[199], Decimal::new(11_111_111_111_111, COST_SCALE));
    assert!((to_f64(costs[199]) - 100.0 / 9.0).abs() < 1e-9);
    let costs = calculate_adjusted_cost(&rows, Decimal::new(5, 2)).unwrap();
    assert_eq!(costs.len(), 200);
    assert!((to_f64(costs[199]) - 10.0 / 0.95).abs() < 1e-9);
}

#[test]
fn adjusted_cost_rounds_half_away_from_zero() {
    let rows = vec![row(0, &["0.0000000000005"]), row(1, &["-0.0000000000005"])];
    let costs = calculate_adjusted_cost(&rows, Decimal::new(0, 0)).unwrap();
    assert_eq!(costs[0], Decimal::new(1, COST_SCALE));
    assert_eq!(to_f64(costs[1]), -1e-12);
}

#[test]
fn adjusted_cost_zero_fee_keeps_first_values() {
    let rows: Vec<CsvRow> = (0..100).map(|i| row(i, &[format!("{}.5", i).as_str()])).collect();
    let costs = calculate_adjusted_cost(&rows, Decimal::new(0, 1)).unwrap();
    for (i, c) in costs.iter().enumerate() {
        assert_eq!(to_f64(*c), i as f64 + 0.5);
    }
}

#[test]
fn adjusted_cost_row_without_formulas_in_the_middle() {
    let rows = vec![row(0, &["10"]), row(1, &[]), row(2, &["1"])];
    let costs = calculate_adjusted_cost(&rows, Decimal::new(5, 1)).unwrap();
    let values: Vec<f64> = costs.iter().map(|d| to_f64(*d)).collect();
    assert_eq!(values, vec![10.0, 5.0, 3.5]);
}

#[test]
fn rounding_to_a_scale() {
    assert_eq!(Decimal::new(12345, 3).round_to(2), Decimal::new(1235, 2));
    assert_eq!(Decimal::new(-12345, 3).round_to(2), Decimal::new(-1235, 2));
    assert_eq!(Decimal::new(12344, 3).round_to(2), Decimal::new(1234, 2));
    assert_eq!(Decimal::new(7, 1).round_to(3), Decimal::new(7, 1));
    assert_eq!(Decimal::new(i128::MIN, 50).round_to(0), Decimal::new(0, 0));
    assert_eq!(Decimal::new(i128::MIN, 1).round_to(0), Decimal::new(i128::MIN / 10 - 1, 0));
}

#[test]
fn adjusted_cost_unparseable_or_absent_is_zero() {
    let rows = vec![row(0, &["x@1"]), row(1, &[]), row(2, &["4"])];
    let costs = calculate_adjusted_cost(&rows, Decimal::new(2, 0)).unwrap();
    let values: Vec<f64> = costs.iter().map(|d| to_f64(*d)).collect();
    assert_eq!(values, vec![0.0, 0.0, 4.0]);
    assert!(calculate_adjusted_cost(&Vec::new(), Decimal::new(2, 0)).unwrap().is_empty());
}

#[test]
fn adjusted_cost_overflow_is_an_error() {
    let big = "1".repeat(38);
    let rows = vec![row(0, &[big.as_str()]), row(1, &["1"])];
    let r = calculate_adjusted_cost(&rows, Decimal::new(100, 0));
    assert!(matches!(
        r,
        Err(AppError::FormulaEvaluationError(FormulaEvaluationErrorEnum::InvalidOperation(_)))
    ));
}

#[test]
fn threshold_check() {
    let costs = vec![Decimal::new(10, 0), Decimal::new(210, 1), Decimal::new(3210, 2)];
    assert!(is_cost_too_high(&costs, Decimal::new(30, 0)));
    assert!(!is_cost_too_high(&costs, Decimal::new(40, 0)));
    assert!(!is_cost_too_high(&costs, Decimal::new(321, 1)));
    assert!(!is_cost_too_high(&Vec::new(), Decimal::new(0, 0)));
}

fn evaluated(n: usize, items: &[(&str, Option<Decimal>)]) -> EvaluatedRow {
    EvaluatedRow {
        row_number: n,
        formulas: items
            .iter()
            .map(|(name, value)| EvaluatedFormula { name: name.to_string(), value: *value })
            .collect(),
    }
}

#[test]
fn results_sum_by_name() {
    let rows = vec![
        evaluated(0, &[("total", Some(Decimal::new(50, 1)))]),
        evaluated(1, &[("total", Some(Decimal::new(7, 0)))]),
    ];
    let totals = calculate_results(&rows).unwrap();
    assert_eq!(totals.len(), 1);
    assert_eq!(totals[0].name, "total");
    assert_eq!(to_f64(totals[0].total), 12.0);
}

#[test]
fn results_keep_names_apart() {
    let rows = vec![
        evaluated(0, &[("a", Some(Decimal::new(1, 0))), ("b", Some(Decimal::new(2, 0)))]),
        evaluated(1, &[("a", Some(Decimal::new(3, 0)))]),
    ];
    let totals = calculate_results(&rows).unwrap();
    assert_eq!(totals.len(), 2);
    assert_eq!((totals[0].name.as_str(), totals[0].total), ("a", Decimal::new(4, 0)));
    assert_eq!((totals[1].name.as_str(), totals[1].total), ("b", Decimal::new(2, 0)));
}

#[test]
fn results_reject_missing_value() {
    let rows = vec![evaluated(0, &[("a", None)])];
    assert!(matches!(&calculate_results(&rows), Err(e) if is_invalid_formula(e)));
}

#[test]
fn results_reject_overflow() {
    let rows = vec![evaluated(
        0,
        &[("a", Some(Decimal::new(i128::MAX, 0))), ("a", Some(Decimal::new(1, 0)))],
    )];
    assert!(matches!(
        calculate_results(&rows),
        Err(AppError::FormulaEvaluationError(FormulaEvaluationErrorEnum::InvalidOperation(_)))
    ));
}

#[test]
fn csv_text_end_to_end() {
    let text = "!fee,0.1\n!cost_threshold,30\nA, x ,10,=5\nA,x,20,=1_A@0\nA,x,30,=1_A@5\nB,y\n";
    let data = parse_csv_text(text).unwrap();
    assert_eq!(data.fee, Decimal::new(1, 1));
    let numbers: Vec<usize> = data.rows.iter().map(|r| r.row_number).collect();
    assert_eq!(numbers, vec![2, 3, 4]);
    let out = evaluate_formulas(data).unwrap();
    assert_eq!(out.len(), 2);
    assert_eq!(out[0].formulas[0].name, "2_0");
    assert_eq!(out[0].formulas[0].value, Some(Decimal::new(5, 0)));
    assert_eq!(out[1].formulas[0].name, "3_0");
    assert_eq!(out[1].formulas[0].value, Some(Decimal::new(10, 0)));
}

#[test]
fn quoted_field_holds_several_cells() {
    let text = "A,x,\"1, =2\"\n";
    let data = parse_csv_text(text).unwrap();
    assert_eq!(data.rows[0].formulas, Vec::<String>::new());
    assert_eq!(data.entries.len(), 2);
    assert_eq!(data.entries[1].name, "2_A_value");
    assert_eq!(data.entries[1].value, None);
}

#[test]
fn errors_convert() {
    let e = AppError::from(FormulaEvaluationErrorEnum::VariableNotFound("v".to_string()));
    assert_eq!(e.message(), "Formula evaluation error: Variable not found: v");
    let e = AppError::from(CsvParserError::CsvError("bad".to_string()));
    assert_eq!(e.message(), "CSV parsing error: CSV error: bad");
}

#[test]
fn error_messages() {
    let e = FormulaEvaluationErrorEnum::InvalidFormula("x".to_string());
    assert_eq!(e.message(), "Invalid formula: x");
    let e = FormulaEvaluationErrorEnum::InvalidOperation("y".to_string());
    assert_eq!(e.message(), "Invalid operation: y");
    let e = AppError::FormulaEvaluationError(FormulaEvaluationErrorEnum::VariableNotFound(
        "z".to_string(),
    ));
    assert_eq!(e.message(), "Formula evaluation error: Variable not found: z");
    let e = AppError::CsvParsingError(CsvParserError::IoError("gone".to_string()));
    assert_eq!(e.message(), "CSV parsing error: I/O error: gone");
    let r = parse_formula("1@x");
    match r {
        Err(e) => assert_eq!(e.message(), "Formula evaluation error: Invalid formula: invalid reference offset: 1@x"),
        Ok(_) => panic!("expected an error"),
    }
}

#[test]
fn names_carry_decimal_numbers() {
    assert_eq!(number_joined(0, "G"), "0_G");
    assert_eq!(number_joined(1234, "G"), "1234_G");
    assert_eq!(numbers_joined(90, 7), "90_7");
    assert_eq!(numbers_joined(usize::MAX, 10), format!("{}_10", usize::MAX));
}

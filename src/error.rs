use vstd::prelude::*;
use vstd::string::StringExecFns;
use crate::naming::{decimal_text, usize_text};

verus! {

/// Failure to read the source table; each carries the reader's message.
#[derive(Debug)]
pub enum CsvParserError {
    IoError(String),
    CsvError(String),
}

#[derive(Debug)]
pub enum FormulaEvaluationErrorEnum {
    InvalidFormula(String),
    VariableNotFound(String),
    InvalidOperation(String),
}

#[derive(Debug)]
pub enum AppError {
    CsvParsingError(CsvParserError),
    FormulaEvaluationError(FormulaEvaluationErrorEnum),
}

/// The error is a formula-syntax error.
pub open spec fn is_invalid_formula(e: AppError) -> bool {
    e matches AppError::FormulaEvaluationError(FormulaEvaluationErrorEnum::InvalidFormula(_))
}

/// The error is an arithmetic result that the number type cannot hold.
pub open spec fn is_invalid_operation(e: AppError) -> bool {
    e matches AppError::FormulaEvaluationError(FormulaEvaluationErrorEnum::InvalidOperation(_))
}

/// The error is a formula-syntax error with message `msg`.
pub open spec fn is_invalid_formula_with(e: AppError, msg: Seq<char>) -> bool {
    e matches AppError::FormulaEvaluationError(FormulaEvaluationErrorEnum::InvalidFormula(m))
        && m@ == msg
}

/// The message of a formula that is neither a number nor a reference, with its row.
pub open spec fn syntax_message(row: nat, cell: Seq<char>) -> Seq<char> {
    "invalid formula in row "@ + decimal_text(row) + ": "@ + cell
}

/// The message of a configuration record whose value is no number.
pub open spec fn setting_message(record: nat, key: Seq<char>, value: Seq<char>) -> Seq<char> {
    "invalid setting in record "@ + decimal_text(record) + ": "@ + key + " = "@ + value
}

impl AppError {
    /// A formula-syntax error whose message names the offending text.
    pub fn invalid_formula(what: &str, text: &str) -> (r: AppError)
        ensures
            is_invalid_formula_with(r, what@ + ": "@ + text@),
    {
        let msg = String::from_str(what).concat(": ").concat(text);
        AppError::FormulaEvaluationError(FormulaEvaluationErrorEnum::InvalidFormula(msg))
    }

    /// A formula-syntax error met in a row, naming the row and the cell.
    pub fn syntax_error(row: usize, cell: &str) -> (r: AppError)
        ensures
            is_invalid_formula_with(r, syntax_message(row as nat, cell@)),
    {
        let number = usize_text(row);
        let msg = String::from_str("invalid formula in row ").concat(number.as_str()).concat(
            ": ",
        ).concat(cell);
        AppError::FormulaEvaluationError(FormulaEvaluationErrorEnum::InvalidFormula(msg))
    }

    /// A configuration record whose value is no number, naming the record, the
    /// key and the value.
    pub fn setting_error(record: usize, key: &str, value: &str) -> (r: AppError)
        ensures
            is_invalid_formula_with(r, setting_message(record as nat, key@, value@)),
    {
        let number = usize_text(record);
        let msg = String::from_str("invalid setting in record ").concat(number.as_str()).concat(
            ": ",
        ).concat(key).concat(" = ").concat(value);
        AppError::FormulaEvaluationError(FormulaEvaluationErrorEnum::InvalidFormula(msg))
    }

    /// An arithmetic error whose message names the operation.
    pub fn invalid_operation(what: &str) -> (r: AppError)
        ensures
            r matches AppError::FormulaEvaluationError(
                FormulaEvaluationErrorEnum::InvalidOperation(m),
            ) && m@ == what@,
    {
        AppError::FormulaEvaluationError(
            FormulaEvaluationErrorEnum::InvalidOperation(String::from_str(what)),
        )
    }
}

impl From<CsvParserError> for AppError {
    fn from(error: CsvParserError) -> (r: AppError)
        ensures
            r == AppError::CsvParsingError(error),
    {
        AppError::CsvParsingError(error)
    }
}

impl vstd::std_specs::convert::FromSpecImpl<CsvParserError> for AppError {
    open spec fn obeys_from_spec() -> bool {
        true
    }

    open spec fn from_spec(v: CsvParserError) -> AppError {
        AppError::CsvParsingError(v)
    }
}

impl From<FormulaEvaluationErrorEnum> for AppError {
    fn from(error: FormulaEvaluationErrorEnum) -> (r: AppError)
        ensures
            r == AppError::FormulaEvaluationError(error),
    {
        AppError::FormulaEvaluationError(error)
    }
}

impl vstd::std_specs::convert::FromSpecImpl<FormulaEvaluationErrorEnum> for AppError {
    open spec fn obeys_from_spec() -> bool {
        true
    }

    open spec fn from_spec(v: FormulaEvaluationErrorEnum) -> AppError {
        AppError::FormulaEvaluationError(v)
    }
}

impl FormulaEvaluationErrorEnum {
    /// The message, with the kind of error in front.
    pub fn message(&self) -> (r: String)
        ensures
            r@ == match self {
                FormulaEvaluationErrorEnum::InvalidFormula(v) => "Invalid formula: "@ + v@,
                FormulaEvaluationErrorEnum::VariableNotFound(v) => "Variable not found: "@ + v@,
                FormulaEvaluationErrorEnum::InvalidOperation(v) => "Invalid operation: "@ + v@,
            },
    {
        match self {
            FormulaEvaluationErrorEnum::InvalidFormula(v) => String::from_str(
                "Invalid formula: ",
            ).concat(v.as_str()),
            FormulaEvaluationErrorEnum::VariableNotFound(v) => String::from_str(
                "Variable not found: ",
            ).concat(v.as_str()),
            FormulaEvaluationErrorEnum::InvalidOperation(v) => String::from_str(
                "Invalid operation: ",
            ).concat(v.as_str()),
        }
    }
}

impl CsvParserError {
    /// The message, with the kind of error in front.
    pub fn message(&self) -> (r: String)
        ensures
            r@ == match self {
                CsvParserError::IoError(v) => "I/O error: "@ + v@,
                CsvParserError::CsvError(v) => "CSV error: "@ + v@,
            },
    {
        match self {
            CsvParserError::IoError(v) => String::from_str("I/O error: ").concat(v.as_str()),
            CsvParserError::CsvError(v) => String::from_str("CSV error: ").concat(v.as_str()),
        }
    }
}

impl AppError {
    /// The message, with the stage that failed in front.
    pub fn message(&self) -> (r: String)
        ensures
            r@ == match self {
                AppError::CsvParsingError(e) => "CSV parsing error: "@ + match e {
                    CsvParserError::IoError(v) => "I/O error: "@ + v@,
                    CsvParserError::CsvError(v) => "CSV error: "@ + v@,
                },
                AppError::FormulaEvaluationError(e) => "Formula evaluation error: "@ + match e {
                    FormulaEvaluationErrorEnum::InvalidFormula(v) => "Invalid formula: "@ + v@,
                    FormulaEvaluationErrorEnum::VariableNotFound(v) => "Variable not found: "@ + v@,
                    FormulaEvaluationErrorEnum::InvalidOperation(v) => "Invalid operation: "@ + v@,
                },
            },
    {
        match self {
            AppError::CsvParsingError(e) => {
                let inner = e.message();
                let r = String::from_str("CSV parsing error: ").concat(inner.as_str());
                r
            },
            AppError::FormulaEvaluationError(e) => {
                let inner = e.message();
                let r = String::from_str("Formula evaluation error: ").concat(inner.as_str());
                r
            },
        }
    }
}

} // verus!

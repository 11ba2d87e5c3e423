//! Cell values, converted values, and the per-cell conversion rule set.
//!
//! A [`CellValue`] is one spreadsheet cell: a closed union of the kinds a
//! sheet can hold. A [`CsvValue`] is the outcome of converting one cell:
//! either a text fragment ready for emission, or a message saying why the
//! cell cannot be emitted. The mapping is [`convert_spec`], implemented by
//! [`CsvValue::from_cell`]; it is total, and failure is a value, not an
//! abort — the row-consuming side decides what to do with a failed cell.

use vstd::prelude::*;
use crate::epoch_conversion::{serial_date_text, ExcelEpoch};
use crate::render::{i64_to_string, int_text};

verus! {

/// One spreadsheet cell value.
///
/// Date/time serials arrive already rounded to a whole day count, and floats
/// arrive as their shortest round-trip decimal rendering: both are produced
/// at the boundary that reads the sheet, since the conversion rules use no
/// other part of them.
pub enum CellValue {
    /// A cell with nothing in it.
    Empty,
    /// Plain text.
    Text(String),
    /// A date (or time) that the sheet already stores as ISO 8601 text.
    DateTimeIso(String),
    /// A duration that the sheet already stores as ISO 8601 text.
    DurationIso(String),
    /// A numeric date/time: the serial day count, rounded to the nearest
    /// whole day.
    DateTime(i64),
    /// A floating-point number, as its decimal text rendering.
    Float(String),
    /// A signed integer.
    Int(i64),
    /// A boolean.
    Bool(bool),
    /// A computation error embedded in the sheet, as its description.
    Error(String),
}

/// The outcome of converting one cell: `Ok` holds a ready-to-emit text
/// fragment, `Err` holds a human-readable failure description.
pub struct CsvValue(pub Result<String, String>);

impl View for CsvValue {
    type V = Result<Seq<char>, Seq<char>>;

    open spec fn view(&self) -> Self::V {
        match self.0 {
            Ok(s) => Ok(s@),
            Err(e) => Err(e@),
        }
    }
}

/// The single operation-level error type: a descriptive message.
pub struct CsvError(pub String);

/// What converting a cell yields, for every kind of cell.
pub open spec fn convert_spec(cell: CellValue) -> Result<Seq<char>, Seq<char>> {
    match cell {
        CellValue::Empty => Err("Empty Value"@),
        CellValue::Text(s) => Ok(seq!['"'] + s@ + seq!['"']),
        CellValue::DateTimeIso(s) => Ok(seq!['"'] + s@ + seq!['"']),
        CellValue::DurationIso(s) => Ok(seq!['"'] + s@ + seq!['"']),
        CellValue::DateTime(serial) => Ok(serial_date_text(serial as int)),
        CellValue::Float(repr) => Ok(repr@),
        CellValue::Int(i) => Ok(int_text(i as int)),
        CellValue::Bool(b) => Ok(if b {
            "true"@
        } else {
            "false"@
        }),
        CellValue::Error(e) => Err("error in sheet, fix or remove cell error: "@ + e@),
    }
}

/// Wraps text in one literal double quote on each side. No escaping of
/// embedded quotes is done: the quoting only lets a field safely contain the
/// configured separator.
fn quote_wrap(s: &str) -> (r: String)
    ensures
        r@ == seq!['"'] + s@ + seq!['"'],
{
    proof {
        reveal_strlit("\"");
    }
    let mut out = String::from_str("\"");
    out.append(s);
    out.append("\"");
    proof {
        assert(out@ =~= seq!['"'] + s@ + seq!['"']);
    }
    out
}

impl CsvValue {
    /// Converts one cell. Total: every kind of cell has exactly one outcome,
    /// and that outcome is `convert_spec` of the cell.
    pub fn from_cell(value: &CellValue) -> (r: CsvValue)
        ensures
            r@ == convert_spec(*value),
    {
        match value {
            CellValue::Empty => {
                proof {
                    reveal_strlit("Empty Value");
                }
                CsvValue(Err("Empty Value".to_owned()))
            },
            CellValue::Text(s) => CsvValue(Ok(quote_wrap(s.as_str()))),
            CellValue::DateTimeIso(s) => CsvValue(Ok(quote_wrap(s.as_str()))),
            CellValue::DurationIso(s) => CsvValue(Ok(quote_wrap(s.as_str()))),
            CellValue::DateTime(serial) => {
                let epoch = ExcelEpoch(*serial);
                CsvValue(Ok(epoch.to_date_string()))
            },
            CellValue::Float(repr) => CsvValue(Ok(repr.as_str().to_owned())),
            CellValue::Int(i) => CsvValue(Ok(i64_to_string(*i))),
            CellValue::Bool(b) => {
                if *b {
                    CsvValue(Ok("true".to_owned()))
                } else {
                    CsvValue(Ok("false".to_owned()))
                }
            },
            CellValue::Error(e) => {
                proof {
                    reveal_strlit("error in sheet, fix or remove cell error: ");
                }
                let mut message = String::from_str("error in sheet, fix or remove cell error: ");
                message.append(e.as_str());
                CsvValue(Err(message))
            },
        }
    }
}

/// Text-like cells (text, ISO date text, ISO duration text) convert to the
/// original text with exactly one double quote added on each side and
/// nothing changed in between.
pub proof fn lemma_text_like_quoted(cell: CellValue, s: Seq<char>)
    requires
        (cell matches CellValue::Text(t) && t@ == s) || (cell matches CellValue::DateTimeIso(t)
            && t@ == s) || (cell matches CellValue::DurationIso(t) && t@ == s),
    ensures
        convert_spec(cell) matches Ok(o) && o.len() == s.len() + 2 && o[0] == '"'
            && o[o.len() - 1] == '"' && o.subrange(1, o.len() - 1) == s,
{
    let o = convert_spec(cell)->Ok_0;
    assert(o.subrange(1, o.len() - 1) =~= s);
}

/// An empty cell always fails, with the message `Empty Value` exactly.
pub proof fn lemma_empty_failure()
    ensures
        convert_spec(CellValue::Empty) matches Err(m) && m == "Empty Value"@,
{
}

/// An error cell always fails, with the fixed prefix followed by the cell's
/// own error text, verbatim.
pub proof fn lemma_error_failure(e: String)
    ensures
        convert_spec(CellValue::Error(e)) matches Err(m) && m == "error in sheet, fix or remove cell error: "@
            + e@ && m.skip(m.len() - e@.len()) == e@,
{
    let m = "error in sheet, fix or remove cell error: "@ + e@;
    assert(m.skip(m.len() - e@.len()) =~= e@);
}

/// Numeric date/time conversion is deterministic and always succeeds: the
/// outcome is the date text of the whole-day serial and of nothing else, so
/// any two cells carrying the same serial convert to the same text.
pub proof fn lemma_datetime_deterministic(serial: i64)
    ensures
        convert_spec(CellValue::DateTime(serial)) == Ok::<Seq<char>, Seq<char>>(
            serial_date_text(serial as int),
        ),
{
}

/// A boolean cell converts to exactly `true` or `false`, and the two cases
/// are distinct.
pub proof fn lemma_bool_text()
    ensures
        convert_spec(CellValue::Bool(true)) == Ok::<Seq<char>, Seq<char>>("true"@),
        convert_spec(CellValue::Bool(false)) == Ok::<Seq<char>, Seq<char>>("false"@),
        "true"@ != "false"@,
{
    reveal_strlit("true");
    reveal_strlit("false");
    assert("true"@.len() != "false"@.len());
}

} // verus!

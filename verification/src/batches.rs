//! Columns of Arrow record batches.
use crate::text::copied;
use datafusion::arrow::array::{Array, Int64Array, StringArray, StringViewArray};
use datafusion::arrow::record_batch::RecordBatch;
use vstd::prelude::*;
use vstd::string::StringExecFns;

verus! {

/// An Arrow record batch: named columns of equal length.
#[verifier::external_body]
pub struct Batch {
    pub batch: RecordBatch,
}

/// A column as far as its values are read.
pub enum Column {
    /// 64-bit integers.
    Ints(Seq<i64>),
    /// Strings of the plain layout.
    Utf8(Seq<Seq<char>>),
    /// Strings of the view layout.
    Utf8View(Seq<Seq<char>>),
    /// Anything else.
    Other,
}

/// The columns of a batch by name; of columns that share a name, the first. A null
/// slot has the value that the column's buffer holds for it.
pub uninterp spec fn columns(batch: Batch) -> Map<Seq<char>, Column>;

/// The number of rows of a batch.
pub uninterp spec fn row_count(batch: Batch) -> nat;

/// `RecordBatch::num_rows`: the number of rows.
#[verifier::external_body]
pub(crate) fn num_rows(batch: &Batch) -> (n: usize)
    ensures
        n == row_count(*batch),
{
    batch.batch.num_rows()
}

/// `RecordBatch::column_by_name`: whether the batch has a column of this name.
#[verifier::external_body]
fn has_column(batch: &Batch, name: &str) -> (r: bool)
    ensures
        r == columns(*batch).contains_key(name@),
{
    batch.batch.column_by_name(name).is_some()
}

/// `PrimitiveArray::values` of a column that is an `Int64Array`: its values, one for
/// each row of the batch. There are none if the column is missing or of another type.
#[verifier::external_body]
fn int_values(batch: &Batch, name: &str) -> (values: Option<Vec<i64>>)
    ensures
        match values {
            Some(v) => {
                &&& columns(*batch).contains_key(name@)
                &&& columns(*batch)[name@] == Column::Ints(v@)
                &&& v@.len() == row_count(*batch)
            },
            None => !(columns(*batch).contains_key(name@) && columns(*batch)[name@] is Ints),
        },
{
    let array = batch.batch.column_by_name(name)?.as_any().downcast_ref::<Int64Array>()?;
    Some(array.values().to_vec())
}

/// `GenericByteArray::value` of a column that is a `StringArray`: the string of a row.
/// There is none if the column is missing or of another type.
#[verifier::external_body]
fn utf8_value(batch: &Batch, name: &str, row: usize) -> (value: Option<String>)
    requires
        row < row_count(*batch),
    ensures
        match value {
            Some(v) => {
                &&& columns(*batch).contains_key(name@)
                &&& columns(*batch)[name@] is Utf8
                &&& v@ == columns(*batch)[name@]->Utf8_0[row as int]
            },
            None => !(columns(*batch).contains_key(name@) && columns(*batch)[name@] is Utf8),
        },
{
    let array = batch.batch.column_by_name(name)?.as_any().downcast_ref::<StringArray>()?;
    Some(array.value(row).to_owned())
}

/// `GenericByteViewArray::value` of a column that is a `StringViewArray`: the string of
/// a row. There is none if the column is missing or of another type.
#[verifier::external_body]
fn utf8_view_value(batch: &Batch, name: &str, row: usize) -> (value: Option<String>)
    requires
        row < row_count(*batch),
    ensures
        match value {
            Some(v) => {
                &&& columns(*batch).contains_key(name@)
                &&& columns(*batch)[name@] is Utf8View
                &&& v@ == columns(*batch)[name@]->Utf8View_0[row as int]
            },
            None => !(columns(*batch).contains_key(name@) && columns(*batch)[name@] is Utf8View),
        },
{
    let array = batch.batch.column_by_name(name)?.as_any().downcast_ref::<StringViewArray>()?;
    Some(array.value(row).to_owned())
}

/// What is wrong with a column.
#[derive(Debug, Clone, Copy, PartialEq, Eq, Structural)]
pub enum ColumnProblem {
    Missing,
    NotInt64,
    NotText,
}

/// A column that cannot be read.
#[derive(Debug)]
pub struct ColumnError {
    pub column: String,
    pub problem: ColumnProblem,
}

pub open spec fn column_error_text(column: Seq<char>, problem: ColumnProblem) -> Seq<char> {
    match problem {
        ColumnProblem::Missing => "missing column "@ + column,
        ColumnProblem::NotInt64 => "column "@ + column + " is not Int64"@,
        ColumnProblem::NotText => "column "@ + column + " is neither Utf8 nor Utf8View"@,
    }
}

impl ColumnError {
    pub fn message(&self) -> (text: String)
        ensures
            text@ == column_error_text(self.column@, self.problem),
    {
        match self.problem {
            ColumnProblem::Missing => {
                let mut text = copied("missing column ");
                text.append(self.column.as_str());
                text
            },
            ColumnProblem::NotInt64 => {
                let mut text = copied("column ");
                text.append(self.column.as_str());
                text.append(" is not Int64");
                text
            },
            ColumnProblem::NotText => {
                let mut text = copied("column ");
                text.append(self.column.as_str());
                text.append(" is neither Utf8 nor Utf8View");
                text
            },
        }
    }
}

/// What stops a column from being read as integers.
pub open spec fn int_problem(batch: Batch, name: Seq<char>) -> Option<ColumnProblem> {
    if !columns(batch).contains_key(name) {
        Some(ColumnProblem::Missing)
    } else if columns(batch)[name] is Ints {
        None
    } else {
        Some(ColumnProblem::NotInt64)
    }
}

/// What stops a column from being read as text.
pub open spec fn text_problem(batch: Batch, name: Seq<char>) -> Option<ColumnProblem> {
    if !columns(batch).contains_key(name) {
        Some(ColumnProblem::Missing)
    } else if columns(batch)[name] is Utf8 || columns(batch)[name] is Utf8View {
        None
    } else {
        Some(ColumnProblem::NotText)
    }
}

pub open spec fn int_at(batch: Batch, name: Seq<char>, row: int) -> i64 {
    columns(batch)[name]->Ints_0[row]
}

pub open spec fn text_at(batch: Batch, name: Seq<char>, row: int) -> Seq<char> {
    match columns(batch)[name] {
        Column::Utf8(values) => values[row],
        Column::Utf8View(values) => values[row],
        _ => Seq::empty(),
    }
}

/// The values of an integer column.
pub fn i64_col(batch: &Batch, name: &str) -> (values: Result<Vec<i64>, ColumnError>)
    ensures
        match values {
            Ok(v) => {
                &&& int_problem(*batch, name@) is None
                &&& v@.len() == row_count(*batch)
                &&& forall|row: int| 0 <= row < v@.len() ==> #[trigger] v@[row] == int_at(*batch, name@, row)
            },
            Err(e) => e.column@ == name@ && Some(e.problem) == int_problem(*batch, name@),
        },
{
    match int_values(batch, name) {
        Some(v) => Ok(v),
        None => {
            let problem = if has_column(batch, name) {
                ColumnProblem::NotInt64
            } else {
                ColumnProblem::Missing
            };
            Err(ColumnError { column: copied(name), problem })
        },
    }
}

/// The text of a row.
pub fn string_at(batch: &Batch, name: &str, row: usize) -> (value: Result<String, ColumnError>)
    requires
        row < row_count(*batch),
    ensures
        match value {
            Ok(v) => text_problem(*batch, name@) is None && v@ == text_at(*batch, name@, row as int),
            Err(e) => e.column@ == name@ && Some(e.problem) == text_problem(*batch, name@),
        },
{
    if !has_column(batch, name) {
        return Err(ColumnError { column: copied(name), problem: ColumnProblem::Missing });
    }
    if let Some(v) = utf8_value(batch, name, row) {
        return Ok(v);
    }
    if let Some(v) = utf8_view_value(batch, name, row) {
        return Ok(v);
    }
    Err(ColumnError { column: copied(name), problem: ColumnProblem::NotText })
}

} // verus!

//! Raw rows: cells by position, blank rows, and the readings shared by the
//! record builders.
//!
//! A row may be shorter than the layout expects; a cell that is not there
//! reads as the empty text.

use vstd::prelude::*;
use crate::decimal::Decimal;
use crate::money::{money_of_text, parse_money, ParsedValue};
use crate::text::{chars_of, is_missing, is_missing_text, string_of, trim_chars, trimmed};

verus! {

/// The text of each cell of a row.
pub open spec fn texts(row: Seq<String>) -> Seq<Seq<char>> {
    Seq::new(row.len(), |i: int| row[i]@)
}

/// The text of each cell of each row of a table.
pub open spec fn table_texts(rows: Seq<Vec<String>>) -> Seq<Seq<Seq<char>>> {
    Seq::new(rows.len(), |i: int| texts(rows[i]@))
}

/// The text of the cell at `index`; the empty text where the row is too
/// short.
pub open spec fn cell_text(row: Seq<Seq<char>>, index: int) -> Seq<char> {
    if 0 <= index < row.len() {
        row[index]
    } else {
        Seq::empty()
    }
}

/// Whether a row is blank: every cell of it is missing. A row without
/// cells is blank.
pub open spec fn is_blank_row(row: Seq<Seq<char>>) -> bool {
    forall|i: int| 0 <= i < row.len() ==> is_missing(#[trigger] row[i])
}

/// The number in the cell `s`, or zero where the cell is missing or
/// malformed.
pub open spec fn amount_or_zero(s: Seq<char>) -> Decimal {
    match money_of_text(s) {
        ParsedValue::Number(d) => d,
        _ => Decimal { units: 0 },
    }
}

/// The number in the cell `s` rounded down to a whole number, or zero
/// where the cell is missing or malformed.
pub open spec fn count_or_zero(s: Seq<char>) -> int {
    match money_of_text(s) {
        ParsedValue::Number(d) => d.spec_floor(),
        _ => 0,
    }
}

/// What becomes of one row, over the model of the record it would give.
pub enum RowOutcome<E> {
    /// The row gives this record.
    Keep(E),
    /// The row is left out: it is blank or a required field is missing
    /// or, where the layout asks for it, unreadable.
    Skip,
    /// The row stops the run: its date is there but cannot be read.
    Fail,
}

/// What becomes of one row.
#[derive(Debug)]
pub enum RowResult<R> {
    /// The row gives this record.
    Keep(R),
    /// The row is left out.
    Skip,
    /// The row stops the run, with the error that reading its date gave.
    Fail(chrono::ParseError),
}

impl<R: View> View for RowResult<R> {
    type V = RowOutcome<R::V>;

    open spec fn view(&self) -> RowOutcome<R::V> {
        match *self {
            RowResult::Keep(r) => RowOutcome::Keep(r@),
            RowResult::Skip => RowOutcome::Skip,
            RowResult::Fail(_) => RowOutcome::Fail,
        }
    }
}

/// Why a run stopped: the date of the row at `row`, counted from 0 over
/// the data rows, could not be read.
#[derive(Debug)]
pub struct CleanError {
    pub row: usize,
    pub cause: chrono::ParseError,
}

/// The records of the rows that are kept, in the order of the rows.
pub open spec fn kept<E>(outcomes: Seq<RowOutcome<E>>) -> Seq<E>
    decreases outcomes.len(),
{
    if outcomes.len() == 0 {
        Seq::empty()
    } else {
        match outcomes.last() {
            RowOutcome::Keep(e) => kept(outcomes.drop_last()).push(e),
            _ => kept(outcomes.drop_last()),
        }
    }
}

/// Whether no row stops the run.
pub open spec fn no_failure<E>(outcomes: Seq<RowOutcome<E>>) -> bool {
    forall|i: int| 0 <= i < outcomes.len() ==> !(#[trigger] outcomes[i] is Fail)
}

/// Whether the row at `index` is the first that stops the run.
pub open spec fn is_first_failure<E>(outcomes: Seq<RowOutcome<E>>, index: int) -> bool {
    &&& 0 <= index < outcomes.len()
    &&& outcomes[index] is Fail
    &&& no_failure(outcomes.take(index))
}

/// The model of each record.
pub open spec fn views<R: View>(records: Seq<R>) -> Seq<R::V> {
    Seq::new(records.len(), |i: int| records[i]@)
}

/// A row that is kept has its record in the result, at the place given by
/// the number of rows kept before it.
pub proof fn lemma_kept_position<E>(outcomes: Seq<RowOutcome<E>>, index: int)
    requires
        0 <= index < outcomes.len(),
        outcomes[index] is Keep,
    ensures
        kept(outcomes.take(index)).len() < kept(outcomes).len(),
        kept(outcomes)[kept(outcomes.take(index)).len() as int] == outcomes[index]->Keep_0,
    decreases outcomes.len(),
{
    let rest = outcomes.drop_last();
    if index == outcomes.len() - 1 {
        assert(outcomes.take(index) == rest);
    } else {
        assert(rest.take(index) == outcomes.take(index));
        lemma_kept_position(rest, index);
    }
}

/// Every record of the result is the record of a row that is kept, and
/// the result has no more records than the table has rows.
pub proof fn lemma_kept_members<E>(outcomes: Seq<RowOutcome<E>>, place: int)
    requires
        0 <= place < kept(outcomes).len(),
    ensures
        kept(outcomes).len() <= outcomes.len(),
        exists|index: int|
            0 <= index < outcomes.len() && #[trigger] outcomes[index] == RowOutcome::Keep(
                kept(outcomes)[place],
            ),
    decreases outcomes.len(),
{
    let rest = outcomes.drop_last();
    let last = outcomes.len() - 1;
    if outcomes.last() is Keep && place == kept(rest).len() {
        lemma_kept_len(rest);
        assert(outcomes[last] == RowOutcome::Keep(kept(outcomes)[place]));
    } else {
        lemma_kept_members(rest, place);
        let index = choose|index: int|
            0 <= index < rest.len() && #[trigger] rest[index] == RowOutcome::Keep(kept(rest)[place]);
        assert(outcomes[index] == rest[index]);
    }
}

/// The result has no more records than the table has rows.
pub proof fn lemma_kept_len<E>(outcomes: Seq<RowOutcome<E>>)
    ensures
        kept(outcomes).len() <= outcomes.len(),
    decreases outcomes.len(),
{
    if outcomes.len() > 0 {
        lemma_kept_len(outcomes.drop_last());
    }
}

/// The cell at `index`, or the empty text where the row is too short.
pub fn cell(row: &Vec<String>, index: usize) -> (s: &str)
    ensures
        s@ == cell_text(texts(row@), index as int),
{
    if index < row.len() {
        row[index].as_str()
    } else {
        proof {
            reveal_strlit("");
        }
        ""
    }
}

/// The cell at `index` without the white space around it.
pub fn trimmed_cell(row: &Vec<String>, index: usize) -> (s: String)
    ensures
        s@ == trimmed(cell_text(texts(row@), index as int)),
{
    string_of(&trim_chars(&chars_of(cell(row, index))))
}

/// Whether the row is blank.
pub fn is_blank(row: &Vec<String>) -> (b: bool)
    ensures
        b == is_blank_row(texts(row@)),
{
    let mut i: usize = 0;
    while i < row.len()
        invariant
            i <= row.len(),
            forall|k: int| 0 <= k < i ==> is_missing(#[trigger] texts(row@)[k]),
        decreases row.len() - i,
    {
        if !is_missing_text(row[i].as_str()) {
            assert(!is_missing(texts(row@)[i as int]));
            return false;
        }
        i += 1;
    }
    true
}

/// The amount in the cell at `index`, zero where it is missing or
/// malformed.
pub fn amount_at(row: &Vec<String>, index: usize) -> (d: Decimal)
    ensures
        d == amount_or_zero(cell_text(texts(row@), index as int)),
        d.wf(),
{
    match parse_money(cell(row, index)) {
        ParsedValue::Number(d) => d,
        _ => Decimal::zero(),
    }
}

/// The whole number in the cell at `index`, rounded down, zero where the
/// cell is missing or malformed.
pub fn count_at(row: &Vec<String>, index: usize) -> (n: i64)
    ensures
        n == count_or_zero(cell_text(texts(row@), index as int)),
{
    match parse_money(cell(row, index)) {
        ParsedValue::Number(d) => d.floor(),
        _ => 0,
    }
}

} // verus!

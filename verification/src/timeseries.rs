//! The time series table: lenient rows, kept in their order.
//!
//! Only the date is required. A number that is missing or cannot be read
//! counts as zero.

use vstd::prelude::*;
use crate::date::{date_of_text, parse_date, CalendarDate, DateReading, ParsedDate};
use crate::decimal::Decimal;
use crate::digits::{integer_chars, integer_text};
use crate::row::{
    amount_at, amount_or_zero, cell, cell_text, count_at, count_or_zero, is_blank, is_blank_row,
    is_first_failure, kept, no_failure, table_texts, texts, trimmed_cell, views, CleanError,
    RowOutcome, RowResult,
};
use crate::text::{string_of, trimmed};

verus! {

/// The column of the segment.
pub const SEGMENT: usize = 0;

/// The column of the country.
pub const COUNTRY: usize = 1;

/// The column of the product.
pub const PRODUCT: usize = 2;

/// The column of the discount band.
pub const DISCOUNT_BAND: usize = 3;

/// The column of the units sold.
pub const UNITS_SOLD: usize = 4;

/// The column of the manufacturing price.
pub const MANUFACTURING_PRICE: usize = 5;

/// The column of the sale price.
pub const SALE_PRICE: usize = 6;

/// The column of the budget.
pub const BUDGET: usize = 7;

/// The column of the discounts.
pub const DISCOUNTS: usize = 8;

/// The column of the sales.
pub const SALES: usize = 9;

/// The column of the cost of goods sold.
pub const COGS: usize = 10;

/// The column of the profit.
pub const PROFIT: usize = 11;

/// The column of the date.
pub const DATE: usize = 12;

/// One row of the time series table.
#[derive(Debug)]
pub struct TimeseriesRecord {
    pub segment: String,
    pub country: String,
    pub product: String,
    pub discount_band: String,
    pub units_sold: i64,
    pub manufacturing_price: Decimal,
    pub sale_price: Decimal,
    pub budget: Decimal,
    pub discounts: Decimal,
    pub sales: Decimal,
    pub cogs: Decimal,
    pub profit: Decimal,
    pub date: CalendarDate,
}

/// The model of a time series record.
pub struct TimeseriesEntry {
    pub segment: Seq<char>,
    pub country: Seq<char>,
    pub product: Seq<char>,
    pub discount_band: Seq<char>,
    pub units_sold: int,
    pub manufacturing_price: Decimal,
    pub sale_price: Decimal,
    pub budget: Decimal,
    pub discounts: Decimal,
    pub sales: Decimal,
    pub cogs: Decimal,
    pub profit: Decimal,
    pub date: CalendarDate,
}

impl TimeseriesEntry {
    /// Whether the amounts and the date are in range.
    pub open spec fn wf(self) -> bool {
        &&& self.manufacturing_price.wf()
        &&& self.sale_price.wf()
        &&& self.budget.wf()
        &&& self.discounts.wf()
        &&& self.sales.wf()
        &&& self.cogs.wf()
        &&& self.profit.wf()
        &&& self.date.wf()
    }
}

impl View for TimeseriesRecord {
    type V = TimeseriesEntry;

    open spec fn view(&self) -> TimeseriesEntry {
        TimeseriesEntry {
            segment: self.segment@,
            country: self.country@,
            product: self.product@,
            discount_band: self.discount_band@,
            units_sold: self.units_sold as int,
            manufacturing_price: self.manufacturing_price,
            sale_price: self.sale_price,
            budget: self.budget,
            discounts: self.discounts,
            sales: self.sales,
            cogs: self.cogs,
            profit: self.profit,
            date: self.date,
        }
    }
}

/// The record that a row gives on the day `date`: the four names trimmed,
/// the units sold rounded down, and each number zero where it is missing
/// or cannot be read.
pub open spec fn timeseries_entry(row: Seq<Seq<char>>, date: CalendarDate) -> TimeseriesEntry {
    TimeseriesEntry {
        segment: trimmed(cell_text(row, SEGMENT as int)),
        country: trimmed(cell_text(row, COUNTRY as int)),
        product: trimmed(cell_text(row, PRODUCT as int)),
        discount_band: trimmed(cell_text(row, DISCOUNT_BAND as int)),
        units_sold: count_or_zero(cell_text(row, UNITS_SOLD as int)),
        manufacturing_price: amount_or_zero(cell_text(row, MANUFACTURING_PRICE as int)),
        sale_price: amount_or_zero(cell_text(row, SALE_PRICE as int)),
        budget: amount_or_zero(cell_text(row, BUDGET as int)),
        discounts: amount_or_zero(cell_text(row, DISCOUNTS as int)),
        sales: amount_or_zero(cell_text(row, SALES as int)),
        cogs: amount_or_zero(cell_text(row, COGS as int)),
        profit: amount_or_zero(cell_text(row, PROFIT as int)),
        date,
    }
}

/// What becomes of a row, given what its date cell was read as: a blank
/// row and a row without a date are left out, a date that cannot be read
/// stops the run.
pub open spec fn timeseries_outcome(row: Seq<Seq<char>>, date: DateReading) -> RowOutcome<
    TimeseriesEntry,
> {
    if is_blank_row(row) {
        RowOutcome::Skip
    } else {
        match date {
            DateReading::Date(d) => RowOutcome::Keep(timeseries_entry(row, d)),
            DateReading::Absent => RowOutcome::Skip,
            DateReading::Malformed => RowOutcome::Fail,
        }
    }
}

/// What becomes of each row of a table.
pub open spec fn timeseries_outcomes(rows: Seq<Seq<Seq<char>>>) -> Seq<RowOutcome<TimeseriesEntry>> {
    Seq::new(
        rows.len(),
        |i: int| timeseries_outcome(rows[i], date_of_text(cell_text(rows[i], DATE as int), false)),
    )
}

/// The cells of a record in the cleaned table, in the order of the
/// columns of the input table, the date in ISO form.
pub open spec fn timeseries_cells(e: TimeseriesEntry) -> Seq<Seq<char>> {
    seq![
        e.segment,
        e.country,
        e.product,
        e.discount_band,
        integer_text(e.units_sold),
        e.manufacturing_price.text(),
        e.sale_price.text(),
        e.budget.text(),
        e.discounts.text(),
        e.sales.text(),
        e.cogs.text(),
        e.profit.text(),
        e.date.iso_text(),
    ]
}

impl TimeseriesRecord {
    /// The cells of the record in the cleaned table.
    pub fn to_row(&self) -> (row: Vec<String>)
        ensures
            texts(row@) == timeseries_cells(self@),
    {
        let mut row: Vec<String> = Vec::new();
        row.push(self.segment.clone());
        row.push(self.country.clone());
        row.push(self.product.clone());
        row.push(self.discount_band.clone());
        row.push(string_of(&integer_chars(self.units_sold as i128)));
        row.push(self.manufacturing_price.to_text());
        row.push(self.sale_price.to_text());
        row.push(self.budget.to_text());
        row.push(self.discounts.to_text());
        row.push(self.sales.to_text());
        row.push(self.cogs.to_text());
        row.push(self.profit.to_text());
        row.push(self.date.to_iso());
        assert(texts(row@) =~= timeseries_cells(self@));
        row
    }
}

/// The record of a row, given what its date cell was read as.
pub fn timeseries_row(row: &Vec<String>, date: ParsedDate) -> (r: RowResult<TimeseriesRecord>)
    requires
        date matches ParsedDate::Date(d) ==> d.wf(),
    ensures
        r@ == timeseries_outcome(texts(row@), date@),
        r matches RowResult::Keep(record) ==> record@.wf(),
{
    if is_blank(row) {
        return RowResult::Skip;
    }
    match date {
        ParsedDate::Date(d) => RowResult::Keep(
            TimeseriesRecord {
                segment: trimmed_cell(row, SEGMENT),
                country: trimmed_cell(row, COUNTRY),
                product: trimmed_cell(row, PRODUCT),
                discount_band: trimmed_cell(row, DISCOUNT_BAND),
                units_sold: count_at(row, UNITS_SOLD),
                manufacturing_price: amount_at(row, MANUFACTURING_PRICE),
                sale_price: amount_at(row, SALE_PRICE),
                budget: amount_at(row, BUDGET),
                discounts: amount_at(row, DISCOUNTS),
                sales: amount_at(row, SALES),
                cogs: amount_at(row, COGS),
                profit: amount_at(row, PROFIT),
                date: d,
            },
        ),
        ParsedDate::Absent => RowResult::Skip,
        ParsedDate::Malformed(cause) => RowResult::Fail(cause),
    }
}

/// Cleans the time series table: a record from every row that has a
/// date, in the order of the rows. The run stops at the first row whose
/// date is there but cannot be read.
pub fn clean_timeseries(rows: &Vec<Vec<String>>) -> (r: Result<Vec<TimeseriesRecord>, CleanError>)
    ensures
        match r {
            Ok(records) => no_failure(timeseries_outcomes(table_texts(rows@))) && views(records@)
                == kept(timeseries_outcomes(table_texts(rows@))) && forall|k: int|
                0 <= k < records.len() ==> (#[trigger] records@[k])@.wf(),
            Err(e) => is_first_failure(timeseries_outcomes(table_texts(rows@)), e.row as int),
        },
{
    let ghost outcomes = timeseries_outcomes(table_texts(rows@));
    let mut records: Vec<TimeseriesRecord> = Vec::new();
    let mut i: usize = 0;
    assert(outcomes.take(0) =~= Seq::<RowOutcome<TimeseriesEntry>>::empty());
    assert(views(records@) =~= Seq::<TimeseriesEntry>::empty());
    while i < rows.len()
        invariant
            i <= rows.len(),
            outcomes == timeseries_outcomes(table_texts(rows@)),
            no_failure(outcomes.take(i as int)),
            views(records@) == kept(outcomes.take(i as int)),
            forall|k: int| 0 <= k < records.len() ==> (#[trigger] records@[k])@.wf(),
        decreases rows.len() - i,
    {
        let ghost before = views(records@);
        let row = &rows[i];
        let result = if is_blank(row) {
            RowResult::Skip
        } else {
            timeseries_row(row, parse_date(cell(row, DATE), false))
        };
        assert(result@ == outcomes[i as int]);
        assert(outcomes.take(i + 1).drop_last() =~= outcomes.take(i as int));
        assert(outcomes.take(i + 1).last() == outcomes[i as int]);
        match result {
            RowResult::Keep(record) => {
                records.push(record);
                assert(views(records@) =~= before.push(record@));
            },
            RowResult::Skip => {},
            RowResult::Fail(cause) => {
                return Err(CleanError { row: i, cause });
            },
        }
        assert(no_failure(outcomes.take(i + 1))) by {
            assert forall|k: int| 0 <= k < i + 1 implies !(#[trigger] outcomes.take(i + 1)[k] is Fail) by {
                if k < i {
                    assert(outcomes.take(i + 1)[k] == outcomes.take(i as int)[k]);
                }
            }
        }
        i += 1;
    }
    assert(outcomes.take(rows.len() as int) =~= outcomes);
    Ok(records)
}

} // verus!

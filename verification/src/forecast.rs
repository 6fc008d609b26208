//! The forecast table: lenient rows, arranged by date, with a moving
//! average of the sales.
//!
//! Only the date is required. Every number is whole: it is rounded down,
//! and zero where it is missing or cannot be read. The records are
//! arranged by date, those of one day in the order of their rows, and the
//! moving average runs over that arrangement as a whole: it does not tell
//! segments, countries or products apart.

use vstd::prelude::*;
use crate::digits::{integer_chars, integer_text};
use crate::date::{
    date_of_text, lemma_ordinal_order, parse_date, CalendarDate, DateReading, ParsedDate,
};
use crate::order::{
    ascending_order, is_stable_order, key_before, lemma_ascending_order, stable_order,
};
use crate::row::{
    cell, cell_text, count_at, count_or_zero, is_blank, is_blank_row, is_first_failure, kept,
    no_failure, table_texts, texts, trimmed_cell, views, CleanError, RowOutcome, RowResult,
};
use crate::smoother::{as_ints, moving_average, moving_average_column, moving_averages, WindowMean};
use crate::text::{string_of, trimmed};

verus! {

/// The column of the segment.
pub const SEGMENT: usize = 0;

/// The column of the country.
pub const COUNTRY: usize = 1;

/// The column of the product.
pub const PRODUCT: usize = 2;

/// The column of the discount band.
pub const DISCOUNT_BAND: usize = 3;

/// The column of the units sold.
pub const UNITS_SOLD: usize = 4;

/// The column of the procurement.
pub const PROCUREMENT: usize = 5;

/// The column of the manufactured price.
pub const MANUFACTURED_PRICE: usize = 6;

/// The column of the sale price.
pub const SALE_PRICE: usize = 7;

/// The column of the budget.
pub const BUDGET: usize = 8;

/// The column of the discounts.
pub const DISCOUNTS: usize = 9;

/// The column of the sales.
pub const SALES: usize = 10;

/// The column of the cost of goods sold.
pub const COGS: usize = 11;

/// The column of the date.
pub const DATE: usize = 12;

/// One row of the forecast table.
#[derive(Debug)]
pub struct ForecastRecord {
    pub segment: String,
    pub country: String,
    pub product: String,
    pub discount_band: String,
    pub units_sold: i64,
    pub procurement: i64,
    pub manufactured_price: i64,
    pub sale_price: i64,
    pub budget: i64,
    pub discounts: i64,
    pub sales: i64,
    pub cogs: i64,
    pub date: CalendarDate,
    /// The moving average of the sales; none before smoothing, and none
    /// for the first two records of the arrangement.
    pub sales_moving_average: Option<WindowMean>,
}

/// The model of a forecast record.
pub struct ForecastEntry {
    pub segment: Seq<char>,
    pub country: Seq<char>,
    pub product: Seq<char>,
    pub discount_band: Seq<char>,
    pub units_sold: int,
    pub procurement: int,
    pub manufactured_price: int,
    pub sale_price: int,
    pub budget: int,
    pub discounts: int,
    pub sales: int,
    pub cogs: int,
    pub date: CalendarDate,
    pub sales_moving_average: Option<WindowMean>,
}

impl ForecastEntry {
    /// Whether the date is in range, and the moving average, where there
    /// is one, is the mean of at least one value.
    pub open spec fn wf(self) -> bool {
        &&& self.date.wf()
        &&& self.sales_moving_average matches Some(mean) ==> mean.wf()
    }
}

impl View for ForecastRecord {
    type V = ForecastEntry;

    open spec fn view(&self) -> ForecastEntry {
        ForecastEntry {
            segment: self.segment@,
            country: self.country@,
            product: self.product@,
            discount_band: self.discount_band@,
            units_sold: self.units_sold as int,
            procurement: self.procurement as int,
            manufactured_price: self.manufactured_price as int,
            sale_price: self.sale_price as int,
            budget: self.budget as int,
            discounts: self.discounts as int,
            sales: self.sales as int,
            cogs: self.cogs as int,
            date: self.date,
            sales_moving_average: self.sales_moving_average,
        }
    }
}

/// The record that a row gives on the day `date`, before smoothing.
pub open spec fn forecast_entry(row: Seq<Seq<char>>, date: CalendarDate) -> ForecastEntry {
    ForecastEntry {
        segment: trimmed(cell_text(row, SEGMENT as int)),
        country: trimmed(cell_text(row, COUNTRY as int)),
        product: trimmed(cell_text(row, PRODUCT as int)),
        discount_band: trimmed(cell_text(row, DISCOUNT_BAND as int)),
        units_sold: count_or_zero(cell_text(row, UNITS_SOLD as int)),
        procurement: count_or_zero(cell_text(row, PROCUREMENT as int)),
        manufactured_price: count_or_zero(cell_text(row, MANUFACTURED_PRICE as int)),
        sale_price: count_or_zero(cell_text(row, SALE_PRICE as int)),
        budget: count_or_zero(cell_text(row, BUDGET as int)),
        discounts: count_or_zero(cell_text(row, DISCOUNTS as int)),
        sales: count_or_zero(cell_text(row, SALES as int)),
        cogs: count_or_zero(cell_text(row, COGS as int)),
        date,
        sales_moving_average: None,
    }
}

/// What becomes of a row, given what its date cell was read as: a blank
/// row and a row without a date are left out, a date that cannot be read
/// stops the run.
pub open spec fn forecast_outcome(row: Seq<Seq<char>>, date: DateReading) -> RowOutcome<
    ForecastEntry,
> {
    if is_blank_row(row) {
        RowOutcome::Skip
    } else {
        match date {
            DateReading::Date(d) => RowOutcome::Keep(forecast_entry(row, d)),
            DateReading::Absent => RowOutcome::Skip,
            DateReading::Malformed => RowOutcome::Fail,
        }
    }
}

/// What becomes of each row of a table.
pub open spec fn forecast_outcomes(rows: Seq<Seq<Seq<char>>>) -> Seq<RowOutcome<ForecastEntry>> {
    Seq::new(
        rows.len(),
        |i: int| forecast_outcome(rows[i], date_of_text(cell_text(rows[i], DATE as int), false)),
    )
}

/// The ordinal of the date of each record.
pub open spec fn date_keys(entries: Seq<ForecastEntry>) -> Seq<i128> {
    Seq::new(entries.len(), |i: int| entries[i].date.spec_ordinal() as i128)
}

/// The records arranged by date, those of one day in their former order.
pub open spec fn chronological(entries: Seq<ForecastEntry>) -> Seq<ForecastEntry> {
    let order = ascending_order(date_keys(entries));
    Seq::new(entries.len(), |j: int| entries[order[j] as int])
}

/// The sales of each record.
pub open spec fn sales_of(entries: Seq<ForecastEntry>) -> Seq<int> {
    Seq::new(entries.len(), |i: int| entries[i].sales)
}

/// The records arranged by date, each with the moving average of the
/// sales at its place in the arrangement.
pub open spec fn smoothed(entries: Seq<ForecastEntry>) -> Seq<ForecastEntry> {
    let sorted = chronological(entries);
    Seq::new(
        sorted.len(),
        |j: int|
            ForecastEntry {
                sales_moving_average: moving_average(sales_of(sorted), j),
                ..sorted[j]
            },
    )
}

/// The arrangement by date holds every record once, no record stands
/// after one of a later day, and records of one day stay in the order
/// they had.
pub proof fn lemma_chronological(entries: Seq<ForecastEntry>)
    requires
        entries.len() <= usize::MAX,
        forall|k: int| 0 <= k < entries.len() ==> (#[trigger] entries[k]).date.wf(),
    ensures
        chronological(entries).len() == entries.len(),
        is_stable_order(date_keys(entries), ascending_order(date_keys(entries))),
        forall|a: int, b: int|
            0 <= a < b < entries.len() ==> !(#[trigger] chronological(entries)[b]).date.earlier_than(
                (#[trigger] chronological(entries)[a]).date,
            ),
{
    let keys = date_keys(entries);
    lemma_ascending_order(keys);
    let order = ascending_order(keys);
    assert forall|a: int, b: int| 0 <= a < b < entries.len() implies !(#[trigger] chronological(
        entries,
    )[b]).date.earlier_than((#[trigger] chronological(entries)[a]).date) by {
        assert(key_before(keys, order[a] as int, order[b] as int));
        assert(entries[order[a] as int].date.wf());
        assert(entries[order[b] as int].date.wf());
        lemma_ordinal_order(chronological(entries)[b].date, chronological(entries)[a].date);
    }
}

/// The record of a row, given what its date cell was read as.
pub fn forecast_row(row: &Vec<String>, date: ParsedDate) -> (r: RowResult<ForecastRecord>)
    requires
        date matches ParsedDate::Date(d) ==> d.wf(),
    ensures
        r@ == forecast_outcome(texts(row@), date@),
        r matches RowResult::Keep(record) ==> record@.wf(),
{
    if is_blank(row) {
        return RowResult::Skip;
    }
    match date {
        ParsedDate::Date(d) => RowResult::Keep(
            ForecastRecord {
                segment: trimmed_cell(row, SEGMENT),
                country: trimmed_cell(row, COUNTRY),
                product: trimmed_cell(row, PRODUCT),
                discount_band: trimmed_cell(row, DISCOUNT_BAND),
                units_sold: count_at(row, UNITS_SOLD),
                procurement: count_at(row, PROCUREMENT),
                manufactured_price: count_at(row, MANUFACTURED_PRICE),
                sale_price: count_at(row, SALE_PRICE),
                budget: count_at(row, BUDGET),
                discounts: count_at(row, DISCOUNTS),
                sales: count_at(row, SALES),
                cogs: count_at(row, COGS),
                date: d,
                sales_moving_average: None,
            },
        ),
        ParsedDate::Absent => RowResult::Skip,
        ParsedDate::Malformed(cause) => RowResult::Fail(cause),
    }
}

/// The cell of a moving average: the mean rounded to a whole number, or
/// the empty text where there is none.
pub open spec fn average_text(average: Option<WindowMean>) -> Seq<char> {
    match average {
        Some(mean) => integer_text(mean.spec_rounded()),
        None => Seq::empty(),
    }
}

/// The cells of a record in the cleaned table: the columns of the input table
/// up to the cost of goods sold, the moving average, and the date in ISO
/// form.
pub open spec fn forecast_cells(e: ForecastEntry) -> Seq<Seq<char>> {
    seq![
        e.segment,
        e.country,
        e.product,
        e.discount_band,
        integer_text(e.units_sold),
        integer_text(e.procurement),
        integer_text(e.manufactured_price),
        integer_text(e.sale_price),
        integer_text(e.budget),
        integer_text(e.discounts),
        integer_text(e.sales),
        integer_text(e.cogs),
        average_text(e.sales_moving_average),
        e.date.iso_text(),
    ]
}

impl ForecastRecord {
    /// The cells of the record in the cleaned table.
    pub fn to_row(&self) -> (row: Vec<String>)
        requires
            self.sales_moving_average matches Some(mean) ==> mean.wf(),
        ensures
            texts(row@) == forecast_cells(self@),
    {
        let mut row: Vec<String> = Vec::new();
        row.push(self.segment.clone());
        row.push(self.country.clone());
        row.push(self.product.clone());
        row.push(self.discount_band.clone());
        row.push(string_of(&integer_chars(self.units_sold as i128)));
        row.push(string_of(&integer_chars(self.procurement as i128)));
        row.push(string_of(&integer_chars(self.manufactured_price as i128)));
        row.push(string_of(&integer_chars(self.sale_price as i128)));
        row.push(string_of(&integer_chars(self.budget as i128)));
        row.push(string_of(&integer_chars(self.discounts as i128)));
        row.push(string_of(&integer_chars(self.sales as i128)));
        row.push(string_of(&integer_chars(self.cogs as i128)));
        let average = match self.sales_moving_average {
            Some(mean) => string_of(&integer_chars(mean.rounded())),
            None => String::new(),
        };
        row.push(average);
        row.push(self.date.to_iso());
        assert(texts(row@) =~= forecast_cells(self@));
        row
    }

    /// A copy of the record with the moving average `average`.
    pub fn with_average(&self, average: Option<WindowMean>) -> (r: ForecastRecord)
        ensures
            r@ == (ForecastEntry { sales_moving_average: average, ..self@ }),
    {
        ForecastRecord {
            segment: self.segment.clone(),
            country: self.country.clone(),
            product: self.product.clone(),
            discount_band: self.discount_band.clone(),
            units_sold: self.units_sold,
            procurement: self.procurement,
            manufactured_price: self.manufactured_price,
            sale_price: self.sale_price,
            budget: self.budget,
            discounts: self.discounts,
            sales: self.sales,
            cogs: self.cogs,
            date: self.date,
            sales_moving_average: average,
        }
    }
}

/// Arranges the records by date, those of one day in their former order,
/// and gives each the moving average of the sales at its place.
pub fn smooth(records: &Vec<ForecastRecord>) -> (out: Vec<ForecastRecord>)
    requires
        forall|k: int| 0 <= k < records.len() ==> (#[trigger] records@[k]).date.wf(),
    ensures
        views(out@) == smoothed(views(records@)),
        out.len() == records.len(),
        forall|a: int| 0 <= a < out.len() ==> (#[trigger] out@[a])@.wf(),
        forall|a: int, b: int|
            0 <= a < b < out.len() ==> !(#[trigger] out@[b]).date.earlier_than(
                (#[trigger] out@[a]).date,
            ),
{
    let ghost entries = views(records@);
    let n: usize = records.len();
    let mut keys: Vec<i128> = Vec::new();
    let mut i: usize = 0;
    while i < n
        invariant
            n == records.len(),
            i <= n,
            entries == views(records@),
            keys@ == date_keys(entries).take(i as int),
        decreases n - i,
    {
        keys.push(records[i].date.ordinal() as i128);
        i += 1;
        assert(keys@ =~= date_keys(entries).take(i as int));
    }
    assert(keys@ == date_keys(entries)) by {
        assert(date_keys(entries).take(n as int) =~= date_keys(entries));
    }
    let order = stable_order(&keys);
    let ghost sorted = chronological(entries);
    let mut sales: Vec<i64> = Vec::new();
    let mut j: usize = 0;
    while j < n
        invariant
            n == records.len(),
            j <= n,
            entries == views(records@),
            sorted == chronological(entries),
            order@ == ascending_order(date_keys(entries)),
            is_stable_order(date_keys(entries), order@),
            sales.len() == j,
            as_ints(sales@) == sales_of(sorted).take(j as int),
        decreases n - j,
    {
        assert(order@[j as int] < n);
        let ghost before = sales@;
        sales.push(records[order[j]].sales);
        proof {
            assert(sorted[j as int] == entries[order@[j as int] as int]);
            assert(entries[order@[j as int] as int] == records@[order@[j as int] as int]@);
            assert forall|x: int| 0 <= x < j + 1 implies as_ints(sales@)[x] == sales_of(sorted).take(
                j + 1,
            )[x] by {
                if x < j {
                    assert(as_ints(before)[x] == sales_of(sorted).take(j as int)[x]);
                    assert(sales@[x] == before[x]);
                } else {
                    assert(sales@[x] == records@[order@[j as int] as int].sales);
                    assert(sales_of(sorted)[x] == sorted[x].sales);
                }
            }
        }
        j += 1;
        assert(as_ints(sales@) =~= sales_of(sorted).take(j as int));
    }
    assert(as_ints(sales@) == sales_of(sorted)) by {
        assert(sales_of(sorted).take(n as int) =~= sales_of(sorted));
    }
    let averages = moving_averages(&sales);
    let mut out: Vec<ForecastRecord> = Vec::new();
    let mut k: usize = 0;
    while k < n
        invariant
            n == records.len(),
            k <= n,
            out.len() == k,
            entries == views(records@),
            sorted == chronological(entries),
            order@ == ascending_order(date_keys(entries)),
            is_stable_order(date_keys(entries), order@),
            averages@ == moving_average_column(sales_of(sorted)),
            views(out@) == smoothed(entries).take(k as int),
            forall|a: int| 0 <= a < k ==> (#[trigger] out@[a]).date == records@[order@[a] as int].date,
            averages.len() == n,
            forall|a: int|
                0 <= a < averages.len() ==> ((#[trigger] averages@[a]) matches Some(m) ==> m.wf()),
            forall|a: int| 0 <= a < k ==> (#[trigger] out@[a])@.wf(),
            forall|x: int| 0 <= x < records.len() ==> (#[trigger] records@[x]).date.wf(),
        decreases n - k,
    {
        assert(order@[k as int] < n);
        let ghost before = views(out@);
        let record = records[order[k]].with_average(averages[k]);
        out.push(record);
        proof {
            assert(sorted[k as int] == entries[order@[k as int] as int]);
            assert(entries[order@[k as int] as int] == records@[order@[k as int] as int]@);
            assert(record@ == smoothed(entries)[k as int]);
            assert forall|x: int| 0 <= x < k + 1 implies views(out@)[x] == smoothed(entries).take(
                k + 1,
            )[x] by {
                if x < k {
                    assert(before[x] == smoothed(entries).take(k as int)[x]);
                }
            }
        }
        k += 1;
        assert(views(out@) =~= smoothed(entries).take(k as int));
    }
    assert(smoothed(entries).take(n as int) =~= smoothed(entries));
    proof {
        assert forall|a: int, b: int| 0 <= a < b < out.len() implies !(#[trigger] out@[b]).date.earlier_than(
            (#[trigger] out@[a]).date,
        ) by {
            assert(key_before(date_keys(entries), order@[a] as int, order@[b] as int));
            assert(entries[order@[a] as int].date == records@[order@[a] as int].date);
            assert(entries[order@[b] as int].date == records@[order@[b] as int].date);
            lemma_ordinal_order(out@[b].date, out@[a].date);
        }
    }
    out
}

/// Cleans the forecast table: a record from every row that has a date,
/// arranged by date and smoothed. The run stops at the first row whose
/// date is there but cannot be read.
pub fn clean_forecast(rows: &Vec<Vec<String>>) -> (r: Result<Vec<ForecastRecord>, CleanError>)
    ensures
        match r {
            Ok(records) => no_failure(forecast_outcomes(table_texts(rows@))) && views(records@)
                == smoothed(kept(forecast_outcomes(table_texts(rows@)))) && forall|k: int|
                0 <= k < records.len() ==> (#[trigger] records@[k])@.wf(),
            Err(e) => is_first_failure(forecast_outcomes(table_texts(rows@)), e.row as int),
        },
{
    let ghost outcomes = forecast_outcomes(table_texts(rows@));
    let mut records: Vec<ForecastRecord> = Vec::new();
    let mut i: usize = 0;
    assert(outcomes.take(0) =~= Seq::<RowOutcome<ForecastEntry>>::empty());
    assert(views(records@) =~= Seq::<ForecastEntry>::empty());
    while i < rows.len()
        invariant
            i <= rows.len(),
            outcomes == forecast_outcomes(table_texts(rows@)),
            no_failure(outcomes.take(i as int)),
            views(records@) == kept(outcomes.take(i as int)),
            forall|k: int| 0 <= k < records.len() ==> (#[trigger] records@[k]).date.wf(),
        decreases rows.len() - i,
    {
        let ghost before = views(records@);
        let row = &rows[i];
        let result = if is_blank(row) {
            RowResult::Skip
        } else {
            forecast_row(row, parse_date(cell(row, DATE), false))
        };
        assert(result@ == outcomes[i as int]);
        assert(outcomes.take(i + 1).drop_last() =~= outcomes.take(i as int));
        assert(outcomes.take(i + 1).last() == outcomes[i as int]);
        match result {
            RowResult::Keep(record) => {
                records.push(record);
                assert(views(records@) =~= before.push(record@));
            },
            RowResult::Skip => {},
            RowResult::Fail(cause) => {
                return Err(CleanError { row: i, cause });
            },
        }
        assert(no_failure(outcomes.take(i + 1))) by {
            assert forall|k: int| 0 <= k < i + 1 implies !(#[trigger] outcomes.take(i + 1)[k] is Fail) by {
                if k < i {
                    assert(outcomes.take(i + 1)[k] == outcomes.take(i as int)[k]);
                }
            }
        }
        i += 1;
    }
    assert(outcomes.take(rows.len() as int) =~= outcomes);
    Ok(smooth(&records))
}

} // verus!

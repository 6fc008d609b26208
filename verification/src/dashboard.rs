//! The dashboard table: strict rows, and outliers by sale price removed.
//!
//! All six fields of a record are required. A row that lacks one, whose
//! number cannot be read, or whose units sold are below zero, is left
//! out; a row whose date is there but cannot be read stops the run.

use vstd::prelude::*;
use crate::date::{date_of_text, parse_date, CalendarDate, DateReading, ParsedDate};
use crate::decimal::{Decimal, UNIT};
use crate::digits::{integer_chars, integer_text};
use crate::money::{
    lemma_integer_round_trip, lemma_money_round_trip, money_of_text, parse_money, ParsedValue,
};
use crate::outlier::{all_wf, quartiles, quartiles_of, Quartiles};
use crate::row::{
    cell, cell_text, is_blank, is_blank_row, is_first_failure, kept, no_failure, table_texts,
    texts, trimmed_cell, views, CleanError, RowOutcome, RowResult,
};
use crate::text::{is_missing, is_missing_text, string_of, trimmed};

verus! {

/// The column of the country.
pub const COUNTRY: usize = 1;

/// The column of the product.
pub const PRODUCT: usize = 2;

/// The column of the units sold.
pub const UNITS_SOLD: usize = 4;

/// The column of the manufacturing price.
pub const MANUFACTURING_PRICE: usize = 5;

/// The column of the sale price.
pub const SALE_PRICE: usize = 6;

/// The column of the date.
pub const DATE: usize = 12;

/// One sale of the dashboard table.
#[derive(Debug)]
pub struct DashboardRecord {
    pub country: String,
    pub product: String,
    pub units_sold: i64,
    pub manufacturing_price: Decimal,
    pub sale_price: Decimal,
    pub date: CalendarDate,
}

/// The model of a dashboard record.
pub struct DashboardEntry {
    pub country: Seq<char>,
    pub product: Seq<char>,
    pub units_sold: int,
    pub manufacturing_price: Decimal,
    pub sale_price: Decimal,
    pub date: CalendarDate,
}

impl DashboardEntry {
    /// Whether the record is valid: the units sold are not negative, and
    /// the prices and the date are in range.
    pub open spec fn wf(self) -> bool {
        &&& self.units_sold >= 0
        &&& self.manufacturing_price.wf()
        &&& self.sale_price.wf()
        &&& self.date.wf()
    }
}

impl View for DashboardRecord {
    type V = DashboardEntry;

    open spec fn view(&self) -> DashboardEntry {
        DashboardEntry {
            country: self.country@,
            product: self.product@,
            units_sold: self.units_sold as int,
            manufacturing_price: self.manufacturing_price,
            sale_price: self.sale_price,
            date: self.date,
        }
    }
}

/// Whether a row has the five fields that stand before the date: country
/// and product are not missing, the three numbers can be read, and the
/// units sold, rounded down, are not negative.
pub open spec fn has_leading_fields(row: Seq<Seq<char>>) -> bool {
    &&& !is_missing(cell_text(row, COUNTRY as int))
    &&& !is_missing(cell_text(row, PRODUCT as int))
    &&& money_of_text(cell_text(row, UNITS_SOLD as int)) is Number
    &&& money_of_text(cell_text(row, UNITS_SOLD as int))->Number_0.spec_floor() >= 0
    &&& money_of_text(cell_text(row, MANUFACTURING_PRICE as int)) is Number
    &&& money_of_text(cell_text(row, SALE_PRICE as int)) is Number
}

/// Whether a row has all six fields of a record, given what its date cell
/// was read as.
pub open spec fn has_all_fields(row: Seq<Seq<char>>, date: DateReading) -> bool {
    has_leading_fields(row) && date is Date
}

/// The record that a row with all six fields gives. The units sold are the
/// number in their cell rounded down.
pub open spec fn dashboard_entry(row: Seq<Seq<char>>, date: DateReading) -> DashboardEntry {
    DashboardEntry {
        country: trimmed(cell_text(row, COUNTRY as int)),
        product: trimmed(cell_text(row, PRODUCT as int)),
        units_sold: money_of_text(cell_text(row, UNITS_SOLD as int))->Number_0.spec_floor(),
        manufacturing_price: money_of_text(cell_text(row, MANUFACTURING_PRICE as int))->Number_0,
        sale_price: money_of_text(cell_text(row, SALE_PRICE as int))->Number_0,
        date: date->Date_0,
    }
}

/// What becomes of a row, given what its date cell was read as. The
/// fields are looked at in the order of their columns and the first that
/// fails decides: a date that cannot be read stops the run only where the
/// five fields before it are there.
pub open spec fn dashboard_outcome(row: Seq<Seq<char>>, date: DateReading) -> RowOutcome<
    DashboardEntry,
> {
    if is_blank_row(row) || !has_leading_fields(row) {
        RowOutcome::Skip
    } else {
        match date {
            DateReading::Date(_) => RowOutcome::Keep(dashboard_entry(row, date)),
            DateReading::Absent => RowOutcome::Skip,
            DateReading::Malformed => RowOutcome::Fail,
        }
    }
}

/// What becomes of each row of a table.
pub open spec fn dashboard_outcomes(rows: Seq<Seq<Seq<char>>>) -> Seq<RowOutcome<DashboardEntry>> {
    Seq::new(
        rows.len(),
        |i: int| dashboard_outcome(rows[i], date_of_text(cell_text(rows[i], DATE as int), false)),
    )
}

/// The sale price of each record.
pub open spec fn sale_prices(entries: Seq<DashboardEntry>) -> Seq<Decimal> {
    Seq::new(entries.len(), |i: int| entries[i].sale_price)
}

/// The records whose sale price the quartiles admit, in their order.
pub open spec fn admitted(entries: Seq<DashboardEntry>, q: Quartiles) -> Seq<DashboardEntry>
    decreases entries.len(),
{
    if entries.len() == 0 {
        entries
    } else if q.admits(entries.last().sale_price) {
        admitted(entries.drop_last(), q).push(entries.last())
    } else {
        admitted(entries.drop_last(), q)
    }
}

/// The records that are no outliers by sale price, in their order. Of no
/// records none are left.
pub open spec fn without_outliers(entries: Seq<DashboardEntry>) -> Seq<DashboardEntry> {
    if entries.len() == 0 {
        entries
    } else {
        admitted(entries, quartiles_of(sale_prices(entries)))
    }
}

/// Every record that the filter leaves is one of the records it was
/// given, and its sale price is within the bounds.
pub proof fn lemma_admitted_members(entries: Seq<DashboardEntry>, q: Quartiles, place: int)
    requires
        0 <= place < admitted(entries, q).len(),
    ensures
        q.admits(admitted(entries, q)[place].sale_price),
        exists|index: int|
            0 <= index < entries.len() && #[trigger] entries[index] == admitted(entries, q)[place],
    decreases entries.len(),
{
    let rest = entries.drop_last();
    if q.admits(entries.last().sale_price) && place == admitted(rest, q).len() {
        assert(entries[entries.len() - 1] == admitted(entries, q)[place]);
    } else {
        lemma_admitted_members(rest, q, place);
        let index = choose|index: int|
            0 <= index < rest.len() && #[trigger] rest[index] == admitted(rest, q)[place];
        assert(entries[index] == rest[index]);
    }
}

/// A record whose sale price is within the bounds is left by the filter,
/// at the place given by the number of records left before it.
pub proof fn lemma_admitted_position(entries: Seq<DashboardEntry>, q: Quartiles, index: int)
    requires
        0 <= index < entries.len(),
        q.admits(entries[index].sale_price),
    ensures
        admitted(entries.take(index), q).len() < admitted(entries, q).len(),
        admitted(entries, q)[admitted(entries.take(index), q).len() as int] == entries[index],
    decreases entries.len(),
{
    let rest = entries.drop_last();
    if index == entries.len() - 1 {
        assert(entries.take(index) == rest);
    } else {
        assert(rest.take(index) == entries.take(index));
        lemma_admitted_position(rest, q, index);
    }
}

/// The number cells of a cleaned record read back as the numbers that the
/// record holds: cleaning them again changes nothing.
pub proof fn lemma_cells_read_back(e: DashboardEntry)
    requires
        e.wf(),
        e.units_sold < UNIT as int,
    ensures
        money_of_text(integer_text(e.units_sold)) matches ParsedValue::Number(d) && d.spec_floor()
            == e.units_sold,
        money_of_text(e.manufacturing_price.text()) == ParsedValue::Number(e.manufacturing_price),
        money_of_text(e.sale_price.text()) == ParsedValue::Number(e.sale_price),
        dashboard_cells(e)[2] == integer_text(e.units_sold),
        dashboard_cells(e)[3] == e.manufacturing_price.text(),
        dashboard_cells(e)[4] == e.sale_price.text(),
{
    lemma_integer_round_trip(e.units_sold);
    lemma_money_round_trip(e.manufacturing_price);
    lemma_money_round_trip(e.sale_price);
}

/// A blank row lacks a field.
pub proof fn lemma_blank_row_lacks_fields(row: Seq<Seq<char>>, date: DateReading)
    requires
        is_blank_row(row),
    ensures
        !has_leading_fields(row),
        dashboard_outcome(row, date) is Skip,
{
    if COUNTRY < row.len() {
        assert(is_missing(row[COUNTRY as int]));
    }
}

/// A row gives a record exactly where all six fields are there, and then
/// its units sold are the number in their cell rounded down, which is not
/// negative. A row that lacks a field gives none, and neither does a row
/// whose units sold are below zero.
pub proof fn lemma_row_kept_iff_complete(row: Seq<Seq<char>>, date: DateReading)
    ensures
        dashboard_outcome(row, date) is Keep <==> has_all_fields(row, date),
        dashboard_outcome(row, date) matches RowOutcome::Keep(e) ==> e.units_sold == money_of_text(
            cell_text(row, UNITS_SOLD as int),
        )->Number_0.spec_floor() && e.units_sold >= 0,
{
}

/// The five fields of a row that stand before the date.
#[derive(Debug)]
pub struct LeadingFields {
    pub country: String,
    pub product: String,
    pub units: Decimal,
    pub manufacturing_price: Decimal,
    pub sale_price: Decimal,
}

impl LeadingFields {
    /// Whether the fields are valid: the units are not negative, and the
    /// three numbers are in range.
    pub open spec fn wf(self) -> bool {
        &&& self.units.wf()
        &&& self.units.spec_floor() >= 0
        &&& self.manufacturing_price.wf()
        &&& self.sale_price.wf()
    }
}

/// Whether `fields` are the five leading fields of `row`.
pub open spec fn are_leading_fields(fields: LeadingFields, row: Seq<Seq<char>>) -> bool {
    &&& fields.country@ == trimmed(cell_text(row, COUNTRY as int))
    &&& fields.product@ == trimmed(cell_text(row, PRODUCT as int))
    &&& money_of_text(cell_text(row, UNITS_SOLD as int)) == ParsedValue::Number(fields.units)
    &&& money_of_text(cell_text(row, MANUFACTURING_PRICE as int)) == ParsedValue::Number(
        fields.manufacturing_price,
    )
    &&& money_of_text(cell_text(row, SALE_PRICE as int)) == ParsedValue::Number(fields.sale_price)
    &&& fields.wf()
}

/// The five leading fields of a row; `None` where the row is blank or
/// lacks one of them.
pub fn leading_fields(row: &Vec<String>) -> (r: Option<LeadingFields>)
    ensures
        r is Some <==> !is_blank_row(texts(row@)) && has_leading_fields(texts(row@)),
        r matches Some(fields) ==> are_leading_fields(fields, texts(row@)),
{
    if is_blank(row) {
        return None;
    }
    if is_missing_text(cell(row, COUNTRY)) || is_missing_text(cell(row, PRODUCT)) {
        return None;
    }
    let units = match parse_money(cell(row, UNITS_SOLD)) {
        ParsedValue::Number(d) => d,
        _ => { return None; },
    };
    if units.floor() < 0 {
        return None;
    }
    let manufacturing_price = match parse_money(cell(row, MANUFACTURING_PRICE)) {
        ParsedValue::Number(d) => d,
        _ => { return None; },
    };
    let sale_price = match parse_money(cell(row, SALE_PRICE)) {
        ParsedValue::Number(d) => d,
        _ => { return None; },
    };
    Some(
        LeadingFields {
            country: trimmed_cell(row, COUNTRY),
            product: trimmed_cell(row, PRODUCT),
            units,
            manufacturing_price,
            sale_price,
        },
    )
}

/// The record of a row that has its five leading fields, given what its
/// date cell was read as.
pub fn dated_row(fields: LeadingFields, date: ParsedDate) -> (r: RowResult<DashboardRecord>)
    requires
        fields.wf(),
    ensures
        match date {
            ParsedDate::Date(d) => r matches RowResult::Keep(record) && record@ == (DashboardEntry {
                country: fields.country@,
                product: fields.product@,
                units_sold: fields.units.spec_floor(),
                manufacturing_price: fields.manufacturing_price,
                sale_price: fields.sale_price,
                date: d,
            }),
            ParsedDate::Absent => r is Skip,
            ParsedDate::Malformed(cause) => r == RowResult::<DashboardRecord>::Fail(cause),
        },
{
    match date {
        ParsedDate::Date(d) => RowResult::Keep(
            DashboardRecord {
                country: fields.country,
                product: fields.product,
                units_sold: fields.units.floor(),
                manufacturing_price: fields.manufacturing_price,
                sale_price: fields.sale_price,
                date: d,
            },
        ),
        ParsedDate::Absent => RowResult::Skip,
        ParsedDate::Malformed(cause) => RowResult::Fail(cause),
    }
}

/// The record of a row, given what its date cell was read as.
pub fn dashboard_row(row: &Vec<String>, date: ParsedDate) -> (r: RowResult<DashboardRecord>)
    requires
        date matches ParsedDate::Date(d) ==> d.wf(),
    ensures
        r@ == dashboard_outcome(texts(row@), date@),
        r matches RowResult::Keep(record) ==> record@.wf(),
{
    match leading_fields(row) {
        Some(fields) => dated_row(fields, date),
        None => RowResult::Skip,
    }
}

/// The cells of a record in the cleaned table: country, product, units
/// sold, manufacturing price, sale price, and the date in ISO form.
pub open spec fn dashboard_cells(e: DashboardEntry) -> Seq<Seq<char>> {
    seq![
        e.country,
        e.product,
        integer_text(e.units_sold),
        e.manufacturing_price.text(),
        e.sale_price.text(),
        e.date.iso_text(),
    ]
}

impl DashboardRecord {
    /// The cells of the record in the cleaned table.
    pub fn to_row(&self) -> (row: Vec<String>)
        ensures
            texts(row@) == dashboard_cells(self@),
    {
        let mut row: Vec<String> = Vec::new();
        row.push(self.country.clone());
        row.push(self.product.clone());
        row.push(string_of(&integer_chars(self.units_sold as i128)));
        row.push(self.manufacturing_price.to_text());
        row.push(self.sale_price.to_text());
        row.push(self.date.to_iso());
        assert(texts(row@) =~= dashboard_cells(self@));
        row
    }

    /// A copy of the record.
    pub fn duplicate(&self) -> (r: DashboardRecord)
        ensures
            r == *self,
    {
        DashboardRecord {
            country: self.country.clone(),
            product: self.product.clone(),
            units_sold: self.units_sold,
            manufacturing_price: self.manufacturing_price,
            sale_price: self.sale_price,
            date: self.date,
        }
    }
}

/// Whether every record is in range.
pub open spec fn all_entries_wf(entries: Seq<DashboardEntry>) -> bool {
    forall|i: int| 0 <= i < entries.len() ==> (#[trigger] entries[i]).wf()
}

/// Removes the outliers by sale price, keeping the order of the rest.
pub fn remove_outliers(records: &Vec<DashboardRecord>) -> (out: Vec<DashboardRecord>)
    requires
        all_entries_wf(views(records@)),
    ensures
        views(out@) == without_outliers(views(records@)),
        all_entries_wf(views(out@)),
{
    let ghost entries = views(records@);
    let n: usize = records.len();
    let mut prices: Vec<Decimal> = Vec::new();
    let mut i: usize = 0;
    while i < n
        invariant
            n == records.len(),
            i <= n,
            entries == views(records@),
            all_entries_wf(entries),
            prices@ == sale_prices(entries).take(i as int),
        decreases n - i,
    {
        prices.push(records[i].sale_price);
        i += 1;
        assert(prices@ =~= sale_prices(entries).take(i as int));
    }
    assert(prices@ == sale_prices(entries)) by {
        assert(sale_prices(entries).take(n as int) =~= sale_prices(entries));
    }
    assert(all_wf(prices@)) by {
        assert forall|k: int| 0 <= k < prices@.len() implies (#[trigger] prices@[k]).wf() by {
            assert(entries[k].wf());
        }
    }
    let mut out: Vec<DashboardRecord> = Vec::new();
    let q = match quartiles(&prices) {
        Some(q) => q,
        None => {
            assert(views(out@) =~= entries);
            return out;
        },
    };
    let mut j: usize = 0;
    assert(entries.take(0) =~= Seq::<DashboardEntry>::empty());
    assert(views(out@) =~= Seq::<DashboardEntry>::empty());
    while j < n
        invariant
            n == records.len(),
            j <= n,
            entries == views(records@),
            all_entries_wf(entries),
            q.wf(),
            views(out@) == admitted(entries.take(j as int), q),
            all_entries_wf(views(out@)),
        decreases n - j,
    {
        let ghost before = views(out@);
        assert(entries.take(j + 1).drop_last() =~= entries.take(j as int));
        assert(entries.take(j + 1).last() == entries[j as int]);
        assert(entries[j as int].wf());
        if q.contains(&records[j].sale_price) {
            out.push(records[j].duplicate());
            assert(views(out@) =~= before.push(entries[j as int]));
        }
        j += 1;
    }
    assert(entries.take(n as int) =~= entries);
    out
}

/// The record of a row, its date read from the date cell where the five
/// fields before it are there.
fn read_row(row: &Vec<String>) -> (r: RowResult<DashboardRecord>)
    ensures
        r@ == dashboard_outcome(
            texts(row@),
            date_of_text(cell_text(texts(row@), DATE as int), false),
        ),
        r matches RowResult::Keep(record) ==> record@.wf(),
{
    match leading_fields(row) {
        Some(fields) => dated_row(fields, parse_date(cell(row, DATE), false)),
        None => RowResult::Skip,
    }
}

/// Cleans the dashboard table: builds a record from every row that has
/// all six fields, then removes the outliers by sale price. The run
/// stops at the first row whose date is there but cannot be read.
pub fn clean_dashboard(rows: &Vec<Vec<String>>) -> (r: Result<Vec<DashboardRecord>, CleanError>)
    ensures
        match r {
            Ok(records) => no_failure(dashboard_outcomes(table_texts(rows@))) && views(records@)
                == without_outliers(kept(dashboard_outcomes(table_texts(rows@))))
                && all_entries_wf(views(records@)),
            Err(e) => is_first_failure(dashboard_outcomes(table_texts(rows@)), e.row as int),
        },
{
    let ghost outcomes = dashboard_outcomes(table_texts(rows@));
    let mut candidates: Vec<DashboardRecord> = Vec::new();
    let mut i: usize = 0;
    assert(outcomes.take(0) =~= Seq::<RowOutcome<DashboardEntry>>::empty());
    assert(views(candidates@) =~= Seq::<DashboardEntry>::empty());
    while i < rows.len()
        invariant
            i <= rows.len(),
            outcomes == dashboard_outcomes(table_texts(rows@)),
            no_failure(outcomes.take(i as int)),
            views(candidates@) == kept(outcomes.take(i as int)),
            all_entries_wf(views(candidates@)),
        decreases rows.len() - i,
    {
        let ghost before = views(candidates@);
        let row = &rows[i];
        let result = read_row(row);
        assert(result@ == outcomes[i as int]);
        assert(outcomes.take(i + 1).drop_last() =~= outcomes.take(i as int));
        assert(outcomes.take(i + 1).last() == outcomes[i as int]);
        match result {
            RowResult::Keep(record) => {
                candidates.push(record);
                assert(views(candidates@) =~= before.push(record@));
            },
            RowResult::Skip => {},
            RowResult::Fail(cause) => {
                return Err(CleanError { row: i, cause });
            },
        }
        assert(no_failure(outcomes.take(i + 1))) by {
            assert forall|k: int| 0 <= k < i + 1 implies !(#[trigger] outcomes.take(i + 1)[k] is Fail) by {
                if k < i {
                    assert(outcomes.take(i + 1)[k] == outcomes.take(i as int)[k]);
                }
            }
        }
        i += 1;
    }
    assert(outcomes.take(rows.len() as int) =~= outcomes);
    Ok(remove_outliers(&candidates))
}

} // verus!

use sales_cleaning::dashboard::{
    clean_dashboard, dashboard_row, dated_row, leading_fields, remove_outliers, DashboardRecord,
};
use sales_cleaning::date::{parse_date, CalendarDate, ParsedDate};
use sales_cleaning::decimal::{Decimal, UNIT};
use sales_cleaning::forecast::{clean_forecast, forecast_row, smooth, ForecastRecord};
use sales_cleaning::row::{amount_at, cell, count_at, is_blank, trimmed_cell, RowResult};
use sales_cleaning::smoother::WindowMean;
use sales_cleaning::timeseries::{clean_timeseries, timeseries_row};

fn row(cells: &[&str]) -> Vec<String> {
    cells.iter().map(|c| c.to_string()).collect()
}

fn whole(n: i128) -> Decimal {
    Decimal { units: n * (UNIT as i128) }
}

fn day(year: i32, month: u32, day: u32) -> CalendarDate {
    CalendarDate { year, month, day }
}

/// A dashboard row with the given units, prices and date in their columns.
fn dashboard(country: &str, product: &str, units: &str, made: &str, sold: &str, date: &str) -> Vec<String> {
    row(&["Government", country, product, "None", units, made, sold, "", "", "", "", "", date])
}

fn sale(price: i128) -> DashboardRecord {
    DashboardRecord {
        country: format!("c{}", price),
        product: "p".to_string(),
        units_sold: 1,
        manufacturing_price: whole(1),
        sale_price: whole(price),
        date: day(2014, 1, 1),
    }
}

fn forecast(sales: i64, date: CalendarDate, product: &str) -> ForecastRecord {
    ForecastRecord {
        segment: "s".to_string(),
        country: "c".to_string(),
        product: product.to_string(),
        discount_band: "d".to_string(),
        units_sold: 0,
        procurement: 0,
        manufactured_price: 0,
        sale_price: 0,
        budget: 0,
        discounts: 0,
        sales,
        cogs: 0,
        date,
        sales_moving_average: None,
    }
}

#[test]
fn blank_rows() {
    assert!(is_blank(&row(&[])));
    assert!(is_blank(&row(&["", "  ", "null", " null "])));
    assert!(!is_blank(&row(&["", "x", ""])));
    assert!(!is_blank(&row(&["NULL"])));
}

#[test]
fn cells_of_short_rows() {
    let r = row(&[" a ", "$5.5"]);
    assert_eq!(cell(&r, 0), " a ");
    assert_eq!(cell(&r, 2), "");
    assert_eq!(trimmed_cell(&r, 0), "a");
    assert_eq!(trimmed_cell(&r, 9), "");
    assert_eq!(amount_at(&r, 1), Decimal { units: 5_500_000_000_000_000_000 });
    assert_eq!(amount_at(&r, 0), Decimal::zero());
    assert_eq!(amount_at(&r, 7), Decimal::zero());
    assert_eq!(count_at(&r, 1), 5);
    assert_eq!(count_at(&r, 0), 0);
    assert_eq!(count_at(&r, 7), 0);
}

#[test]
fn dashboard_row_with_all_fields() {
    let r = dashboard(" Canada ", "Carretera", "1618.5", "$3.00", "$20.00", "01/01/2014");
    match dashboard_row(&r, parse_date(cell(&r, 12), false)) {
        RowResult::Keep(record) => {
            assert_eq!(record.country, "Canada");
            assert_eq!(record.product, "Carretera");
            assert_eq!(record.units_sold, 1618);
            assert_eq!(record.manufacturing_price, whole(3));
            assert_eq!(record.sale_price, whole(20));
            assert_eq!(record.date, day(2014, 1, 1));
            assert_eq!(record.to_row(), row(&["Canada", "Carretera", "1618", "3", "20", "2014-01-01"]));
        }
        other => panic!("{:?}", other),
    }
}

#[test]
fn dashboard_row_missing_any_field_is_skipped() {
    let rows = [
        dashboard("", "p", "1", "2", "3", "01/01/2014"),
        dashboard("null", "p", "1", "2", "3", "01/01/2014"),
        dashboard("c", " ", "1", "2", "3", "01/01/2014"),
        dashboard("c", "p", "", "2", "3", "01/01/2014"),
        dashboard("c", "p", "null", "2", "3", "01/01/2014"),
        dashboard("c", "p", "many", "2", "3", "01/01/2014"),
        dashboard("c", "p", "1", "$", "3", "01/01/2014"),
        dashboard("c", "p", "1", "cheap", "3", "01/01/2014"),
        dashboard("c", "p", "1", "2", "null", "01/01/2014"),
        dashboard("c", "p", "1", "2", "3.4.5", "01/01/2014"),
        dashboard("c", "p", "1", "2", "3", ""),
        dashboard("c", "p", "1", "2", "3", " null "),
        row(&["", "c", "p", "", "1", "2", "3"]),
        row(&[]),
    ];
    for r in rows.iter() {
        let result = dashboard_row(r, parse_date(cell(r, 12), false));
        assert!(matches!(result, RowResult::Skip), "{:?}", r);
    }
}

#[test]
fn dashboard_units_below_zero_are_skipped() {
    for text in ["-0.1", "-4.5", "-1", "-0.000000000000000001"] {
        let r = dashboard("c", "p", text, "2", "3", "01/01/2014");
        assert!(leading_fields(&r).is_none(), "{:?}", text);
        assert!(matches!(dashboard_row(&r, ParsedDate::Date(day(2014, 1, 1))), RowResult::Skip));
        assert!(matches!(dashboard_row(&r, parse_date("never", false)), RowResult::Skip));
        assert_eq!(clean_dashboard(&vec![r]).unwrap().len(), 0);
    }
}

#[test]
fn dashboard_row_with_unreadable_date_fails_only_when_complete() {
    let complete = dashboard("c", "p", "1", "2", "3", "2014-01-01");
    assert!(matches!(dashboard_row(&complete, parse_date(cell(&complete, 12), false)), RowResult::Fail(_)));
    let lacking = dashboard("c", "p", "null", "2", "3", "2014-01-01");
    assert!(matches!(dashboard_row(&lacking, parse_date(cell(&lacking, 12), false)), RowResult::Skip));
}

#[test]
fn dashboard_units_are_rounded_down() {
    for (text, expected) in [("4.9", 4), ("5.0", 5), ("0.1", 0), ("4.5", 4), ("-0", 0), ("-0.0", 0)] {
        let r = dashboard("c", "p", text, "2", "3", "01/01/2014");
        match dashboard_row(&r, ParsedDate::Date(day(2014, 1, 1))) {
            RowResult::Keep(record) => assert_eq!(record.units_sold, expected),
            other => panic!("{:?}", other),
        }
    }
}

#[test]
fn outliers_of_the_example_are_removed() {
    let records: Vec<DashboardRecord> = [10, 12, 14, 15, 18, 100].iter().map(|p| sale(*p)).collect();
    let left = remove_outliers(&records);
    let prices: Vec<Decimal> = left.iter().map(|r| r.sale_price).collect();
    assert_eq!(prices, vec![whole(10), whole(12), whole(14), whole(15), whole(18)]);
    let countries: Vec<&str> = left.iter().map(|r| r.country.as_str()).collect();
    assert_eq!(countries, vec!["c10", "c12", "c14", "c15", "c18"]);
}

#[test]
fn outliers_keep_the_order_of_the_rest() {
    let records: Vec<DashboardRecord> = [18, 100, 10, 15, 100, 12, 14].iter().map(|p| sale(*p)).collect();
    // Q1 = 12, Q3 = 100: nothing lies outside -120 .. 232.
    assert_eq!(remove_outliers(&records).len(), 7);
    let records: Vec<DashboardRecord> = [18, -500, 10, 15, 12, 14, 16, 900].iter().map(|p| sale(*p)).collect();
    // Q1 = 12, Q3 = 16: the bounds are 6 and 22.
    let prices: Vec<Decimal> = remove_outliers(&records).iter().map(|r| r.sale_price).collect();
    assert_eq!(prices, vec![whole(18), whole(10), whole(15), whole(12), whole(14), whole(16)]);
}

#[test]
fn outliers_of_no_records() {
    assert_eq!(remove_outliers(&Vec::new()).len(), 0);
    assert_eq!(remove_outliers(&vec![sale(5)]).len(), 1);
}

#[test]
fn dashboard_end_to_end() {
    let rows = vec![
        dashboard("Canada", "Carretera", "1618.5", "$3.00", "$20.00", "01/01/2014"),
        dashboard("Germany", "Carretera", "null", "$3.00", "$20.00", "01/01/2014"),
    ];
    let records = clean_dashboard(&rows).unwrap();
    assert_eq!(records.len(), 1);
    assert_eq!(records[0].to_row(), row(&["Canada", "Carretera", "1618", "3", "20", "2014-01-01"]));
}

#[test]
fn dashboard_table_with_noise_and_an_outlier() {
    let mut rows = Vec::new();
    for (i, price) in ["$10", "£12", "14.00", "15", "1,8", "100"].iter().enumerate() {
        rows.push(row(&[]));
        rows.push(dashboard(&format!("c{}", i), "p", "3", "1", price, "02/01/2014"));
        rows.push(dashboard("x", "p", "3", "1", "n/a", "02/01/2014"));
    }
    let records = clean_dashboard(&rows).unwrap();
    let countries: Vec<&str> = records.iter().map(|r| r.country.as_str()).collect();
    assert_eq!(countries, vec!["c0", "c1", "c2", "c3", "c4"]);
    assert_eq!(records[4].sale_price, whole(18));
    assert_eq!(clean_dashboard(&Vec::new()).unwrap().len(), 0);
}

#[test]
fn dashboard_stops_at_the_first_unreadable_date() {
    let rows = vec![
        dashboard("c", "p", "1", "2", "3", "01/01/2014"),
        dashboard("c", "p", "", "2", "3", "never"),
        dashboard("c", "p", "1", "2", "3", "never"),
        dashboard("c", "p", "1", "2", "3", "too late"),
    ];
    let error = clean_dashboard(&rows).unwrap_err();
    assert_eq!(error.row, 2);
    assert_eq!(error.cause.kind(), chrono::format::ParseErrorKind::Invalid);
}

#[test]
fn timeseries_row_defaults_to_zero() {
    let r = row(&[" Midmarket ", "France", " Paseo", "Low ", "4.9", "$10.00", "abc", "", "null", "$1,234.50", "-3.5", "£7", "15/06/2014"]);
    match timeseries_row(&r, parse_date(cell(&r, 12), false)) {
        RowResult::Keep(record) => {
            assert_eq!(record.segment, "Midmarket");
            assert_eq!(record.discount_band, "Low");
            assert_eq!(record.units_sold, 4);
            assert_eq!(record.manufacturing_price, whole(10));
            assert_eq!(record.sale_price, Decimal::zero());
            assert_eq!(record.budget, Decimal::zero());
            assert_eq!(record.discounts, Decimal::zero());
            assert_eq!(record.sales, Decimal { units: 1_234_500_000_000_000_000_000 });
            assert_eq!(record.cogs, Decimal { units: -3_500_000_000_000_000_000 });
            assert_eq!(record.profit, whole(7));
            assert_eq!(record.date, day(2014, 6, 15));
            assert_eq!(
                record.to_row(),
                row(&["Midmarket", "France", "Paseo", "Low", "4", "10", "0", "0", "0", "1234.5", "-3.5", "7", "2014-06-15"])
            );
        }
        other => panic!("{:?}", other),
    }
}

#[test]
fn timeseries_keeps_the_order_of_the_rows() {
    let rows = vec![
        row(&["a", "", "", "", "", "", "", "", "", "", "", "", "03/01/2014"]),
        row(&["", "null", " "]),
        row(&["b", "", "", "", "", "", "", "", "", "", "", "", ""]),
        row(&["c", "", "", "", "x", "", "", "", "", "", "", "", "01/01/2014"]),
        row(&["d"]),
        row(&["e", "", "", "", "-0.1", "", "", "", "", "", "", "", "02/01/2014"]),
    ];
    let records = clean_timeseries(&rows).unwrap();
    let segments: Vec<&str> = records.iter().map(|r| r.segment.as_str()).collect();
    assert_eq!(segments, vec!["a", "c", "e"]);
    assert_eq!(records[1].units_sold, 0);
    assert_eq!(records[2].units_sold, -1);
}

#[test]
fn timeseries_stops_at_an_unreadable_date() {
    let rows = vec![
        row(&["a", "", "", "", "", "", "", "", "", "", "", "", "03/01/2014"]),
        row(&["b", "", "", "", "", "", "", "", "", "", "", "", "2014-01-03"]),
    ];
    assert_eq!(clean_timeseries(&rows).unwrap_err().row, 1);
}

#[test]
fn forecast_row_holds_whole_numbers() {
    let r = row(&["Gov", "Canada", "Paseo", "None", "4.9", "5.0", "-0.1", "$1,000.99", "", "null", "abc", "7", "01/02/2014"]);
    match forecast_row(&r, parse_date(cell(&r, 12), false)) {
        RowResult::Keep(record) => {
            assert_eq!(record.units_sold, 4);
            assert_eq!(record.procurement, 5);
            assert_eq!(record.manufactured_price, -1);
            assert_eq!(record.sale_price, 1000);
            assert_eq!(record.budget, 0);
            assert_eq!(record.discounts, 0);
            assert_eq!(record.sales, 0);
            assert_eq!(record.cogs, 7);
            assert_eq!(record.date, day(2014, 2, 1));
            assert_eq!(record.sales_moving_average, None);
        }
        other => panic!("{:?}", other),
    }
}

#[test]
fn smoothing_the_example() {
    let records: Vec<ForecastRecord> = [10, 20, 30, 40, 50]
        .iter()
        .enumerate()
        .map(|(i, s)| forecast(*s, day(2014, 1, 1 + i as u32), "p"))
        .collect();
    let out = smooth(&records);
    let averages: Vec<Option<i128>> = out.iter().map(|r| r.sales_moving_average.map(|m| m.rounded())).collect();
    assert_eq!(averages, vec![None, None, Some(20), Some(30), Some(40)]);
    assert_eq!(out[2].sales_moving_average, Some(WindowMean { total: 60, count: 3 }));
}

#[test]
fn smoothing_arranges_by_date_and_keeps_ties_in_order() {
    let records = vec![
        forecast(50, day(2014, 3, 1), "e"),
        forecast(10, day(2014, 1, 1), "a"),
        forecast(30, day(2014, 2, 1), "c"),
        forecast(20, day(2014, 1, 1), "b"),
        forecast(40, day(2014, 2, 1), "d"),
        forecast(5, day(2013, 12, 31), "z"),
    ];
    let out = smooth(&records);
    let products: Vec<&str> = out.iter().map(|r| r.product.as_str()).collect();
    assert_eq!(products, vec!["z", "a", "b", "c", "d", "e"]);
    let totals: Vec<Option<i128>> = out.iter().map(|r| r.sales_moving_average.map(|m| m.total)).collect();
    assert_eq!(totals, vec![None, None, Some(35), Some(60), Some(90), Some(120)]);
}

#[test]
fn smoothing_runs_across_products() {
    let rows = vec![
        row(&["s", "France", "Paseo", "", "", "", "", "", "", "", "30", "", "03/01/2014"]),
        row(&["s", "Canada", "Velo", "", "", "", "", "", "", "", "10.9", "", "01/01/2014"]),
        row(&["", "", "null"]),
        row(&["s", "Mexico", "Amarilla", "", "", "", "", "", "", "", "$21", "", "02/01/2014"]),
        row(&["s", "Mexico", "Amarilla", "", "", "", "", "", "", "", "99", "", "null"]),
    ];
    let records = clean_forecast(&rows).unwrap();
    assert_eq!(records.len(), 3);
    assert_eq!(
        records[2].to_row(),
        row(&["s", "France", "Paseo", "", "0", "0", "0", "0", "0", "0", "30", "0", "20", "2014-01-03"])
    );
    assert_eq!(
        records[0].to_row(),
        row(&["s", "Canada", "Velo", "", "0", "0", "0", "0", "0", "0", "10", "0", "", "2014-01-01"])
    );
    assert_eq!(records[2].sales_moving_average, Some(WindowMean { total: 61, count: 3 }));
}

#[test]
fn forecast_stops_at_an_unreadable_date() {
    let rows = vec![
        row(&[]),
        row(&["s", "", "", "", "", "", "", "", "", "", "", "", "31/02/2014"]),
    ];
    let error = clean_forecast(&rows).unwrap_err();
    assert_eq!(error.row, 1);
    assert_eq!(error.cause.kind(), chrono::format::ParseErrorKind::OutOfRange);
    assert_eq!(clean_forecast(&Vec::new()).unwrap().len(), 0);
}

#[test]
fn cleaned_columns_are_left_as_they_are() {
    let first = dashboard("Canada", "Carretera", "1618.5", "$3.50", "£1,020.25", "01/01/2014");
    let record = match dashboard_row(&first, parse_date(cell(&first, 12), false)) {
        RowResult::Keep(record) => record,
        other => panic!("{:?}", other),
    };
    let cells = record.to_row();
    let again = dashboard(&cells[0], &cells[1], &cells[2], &cells[3], &cells[4], "01/01/2014");
    match dashboard_row(&again, parse_date(cell(&again, 12), false)) {
        RowResult::Keep(second) => assert_eq!(second.to_row(), cells),
        other => panic!("{:?}", other),
    }
}

#[test]
fn dashboard_leading_fields() {
    let fields = leading_fields(&dashboard(" Canada ", " Velo", "7.9", "$1.50", "2", "whenever")).unwrap();
    assert_eq!(fields.country, "Canada");
    assert_eq!(fields.product, "Velo");
    assert_eq!(fields.units, Decimal { units: 7_900_000_000_000_000_000 });
    assert_eq!(fields.manufacturing_price, Decimal { units: 1_500_000_000_000_000_000 });
    assert_eq!(fields.sale_price, whole(2));
    assert!(leading_fields(&dashboard("Canada", "Velo", "7.9", "", "2", "01/01/2014")).is_none());
    assert!(leading_fields(&row(&[])).is_none());
}

#[test]
fn dashboard_dated_row() {
    let r = dashboard("Canada", "Velo", "7.5", "1", "2", "");
    let invalid = chrono::NaiveDate::parse_from_str("x", "%d").unwrap_err();
    match dated_row(leading_fields(&r).unwrap(), ParsedDate::Date(day(2014, 5, 6))) {
        RowResult::Keep(record) => {
            assert_eq!(record.to_row(), row(&["Canada", "Velo", "7", "1", "2", "2014-05-06"]))
        }
        other => panic!("{:?}", other),
    }
    assert!(matches!(dated_row(leading_fields(&r).unwrap(), ParsedDate::Absent), RowResult::Skip));
    assert!(matches!(
        dated_row(leading_fields(&r).unwrap(), ParsedDate::Malformed(invalid)),
        RowResult::Fail(e) if e == invalid
    ));
}

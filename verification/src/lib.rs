//! Normalisation and statistical cleaning of loosely formatted sales tables.
//!
//! A table comes in as rows of text cells. Three layouts are known:
//!
//! - [`dashboard`]: every field is required, and outliers by sale price are
//!   removed with the interquartile-range rule;
//! - [`timeseries`]: only the date is required, amounts default to zero;
//! - [`forecast`]: only the date is required, numbers are whole, and the
//!   records are arranged by date and given a moving average of the sales.
//!
//! The cell readers are in [`money`] and [`date`], the shared handling of
//! rows in [`row`], quartiles in [`outlier`], moving averages in
//! [`smoother`], and the ascending order that both rest on in [`order`].
//! Amounts are exact decimals ([`decimal`]), never binary fractions.

pub mod text;
pub mod digits;
pub mod decimal;
pub mod money;
pub mod date;
pub mod order;
pub mod row;
pub mod outlier;
pub mod dashboard;
pub mod timeseries;
pub mod smoother;
pub mod forecast;

//! Verified core of a small COVID-19 case dashboard.
//!
//! The library aggregates a list of case records along three dimensions
//! (date, age bracket, location) and turns an ordered sequence of counts
//! into SVG polyline paths, including 7-day simple and exponential moving
//! averages, using exact integer arithmetic in hundredths of a drawing unit.

pub mod aggregate;
pub mod chart;
pub mod order;
pub mod textfmt;

//! Summary statistics over a series of daily closing prices.
//!
//! Prices are fixed-point integers counted in ticks, where one tick is a
//! hundredth of a cent. Every reported value is rounded to a whole number of
//! hundredths (cents, or hundredths of a percent), half away from zero.
pub mod rounding;
pub mod series;
pub mod analysis;
pub mod period;

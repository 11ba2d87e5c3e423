//! Conversion of spreadsheet cell grids to delimiter-separated text.
//!
//! The heart of the crate is the per-cell conversion rule set
//! ([`values::CsvValue::from_cell`]), together with two grid-driving entry
//! points ([`from_excel::write_range`] and
//! [`from_excel::get_max_line_length_of_first_x_lines`]): one hands every
//! converted row, in grid order, to a row-consuming operator; the other
//! measures the widest row among a bounded prefix of the grid.

pub mod epoch_conversion;
pub mod from_excel;
pub mod render;
pub mod values;

//! Renders delimited tabular input as a column-aligned table for the
//! terminal, accounting for the display width of each character: tabs expand
//! to a fixed four-column stop and East-Asian fullwidth glyphs occupy two
//! columns. Column widths are estimated from a bounded lookahead window of
//! records, then every record is rendered at those frozen widths, so the
//! formatter runs in constant memory on unbounded input.

pub mod columns;
pub mod eaw;
pub mod formatter;
pub mod render;
pub mod width;

pub use width::is_fullwidth;
pub use width::terminal_length;

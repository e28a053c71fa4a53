//! Expose a numeric function as a one-window form.
//!
//! A schema declares typed inputs and an output. The library renders it into one self-contained
//! markup document, decodes the comma-separated submissions that the document sends back, shows
//! the function's result with the output's precision, and decides what each event of a session
//! leads to. Numbers are `Decimal`s throughout: exact, with one canonical text each.
pub mod text;
pub mod decimal;
pub mod numeral;
pub mod wire;
pub mod fixed;
pub mod schema;
pub mod markup;
pub mod marks;
pub mod host;

pub use decimal::Decimal;
pub use numeral::{read_number, NumberError};
pub use wire::{decode_submission, encode_result, encode_submission, show_result_command, DecodeError};
pub use fixed::to_fixed;
pub use schema::{ConfigurationError, Input, Output, Teaser};
pub use markup::{add_dropdown, add_number, add_slider, beginning, end, middle, render_parts};
pub use host::{Action, Event, Host, Phase};

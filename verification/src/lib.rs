//! Frequency-weighted lottery picks.
//!
//! [`history::parse_history`] reads past draws out of the lines of a text,
//! [`weights::WeightTable`] weighs each candidate by how often it was drawn,
//! and [`draw::generate`] picks distinct numbers by weighted sampling
//! without replacement. [`picker::pick`] does all three in one call.

pub mod error;
pub mod weights;
pub mod sampler;
pub mod draw;
pub mod history;
pub mod picker;

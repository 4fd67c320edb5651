//! Helpers for contract code: exact conversion between base-unit token
//! amounts and their decimal display form, and conversion of epoch
//! milliseconds into civil calendar fields.

mod amount;
mod decimal;
pub mod timestamp;

pub use crate::amount::{
    amount_value, as_scientific_notation, digit_count, display_text, display_truncated,
    fixed_point_text, lemma_display_round_trip, lemma_fixed_point_round_trip, near_to_yoctonear, valid_amount_text, yoctonear_to_near,
};
pub use crate::decimal::{decimal_text, digit_char, digits_value, pow10};
pub use crate::timestamp::{
    date_of_days, lemma_civil_fields_in_range, lemma_next_day, timestamp_millis_to_datetime,
    CivilDateTime,
};

use vstd::prelude::*;

verus! {

/// Checked for a successful promise in earlier releases; the host runtime
/// offers this itself now, and the function does nothing.
pub fn is_promise_success() {
}

/// A lightweight `expect` in earlier releases; unwrap with the host runtime's
/// panic instead. The function does nothing.
pub fn expect_lightweight<T>(_option: Option<T>, _message: &str) {
}

/// Asserted that the predecessor account is the current one in earlier
/// releases; the host runtime offers this itself now, and the function does
/// nothing.
pub fn assert_predecessor_is_current(_message: &str) {
}

} // verus!

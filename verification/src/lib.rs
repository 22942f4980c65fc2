//! A verified scanner, parser and evaluator for a small subset of the J language.
use vstd::prelude::*;

pub mod array;
pub mod word;
pub mod text;
pub mod primitives;
pub mod scan;
pub mod verbs;
pub mod eval;
pub mod cells;
pub mod laws;
pub mod padding;
pub mod elementwise;

pub use crate::array::{NdArray, NdView};
pub use crate::eval::eval;
pub use crate::scan::scan;
pub use crate::verbs::{v_dollar, v_minus, v_not_implemented, v_number, v_plus, v_times};
pub use crate::word::{
    AdverbImpl, ArrayV, FloatItem, FloatV, JArray, JError, Outcome, VerbImpl, VerbV, Word, WordV,
    char_array, char_vector, int_array,
};

verus! {

} // verus!

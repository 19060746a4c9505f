//! Suffix array construction.
use crate::text::{is_reference_text, is_suffix_array};
use vstd::prelude::*;

verus! {

/// Relies on bio::data_structures::suffix_array::suffix_array, which sorts
/// the suffixes of a text ended by a smallest sentinel by induced sorting.
/// It panics unless the last byte is no greater than every byte of the text.
#[verifier::external_body]
fn sais_suffix_array(text: &[u8]) -> (r: Vec<usize>)
    requires
        is_reference_text(text@),
    ensures
        is_suffix_array(text@, r@),
{
    bio::data_structures::suffix_array::suffix_array(text)
}

/// Builds the suffix array of a reference text.
pub fn build_suffix_array(text: &[u8]) -> (r: Vec<usize>)
    requires
        is_reference_text(text@),
    ensures
        is_suffix_array(text@, r@),
{
    sais_suffix_array(text)
}

} // verus!

//! The textual form of a bounding box, `min_x,min_y,max_x,max_y`: its four
//! fields, and the errors of reading it.

use crate::text::{chars_of, field_views, split, split_chars, string_of, trim, trim_chars};
use std::num::ParseFloatError;
use vstd::prelude::*;
use vstd::std_specs::convert::FromSpecImpl;
use vstd::string::to_string_from_display_ensures;

verus! {

/// `std::num::ParseFloatError`, the error that the standard library gives
/// for a text that is no number. Nothing is known of what it holds.
#[verifier::external_type_specification]
#[verifier::external_body]
pub struct ExParseFloatError(ParseFloatError);

/// The error for a text that is not a bounding box.
#[derive(Debug)]
pub enum BBoxParseError {
    /// One of the four fields is not a number.
    ParseFloatError(ParseFloatError),
    /// The text has not exactly four fields between commas.
    NumberOfElementsError,
}

impl From<ParseFloatError> for BBoxParseError {
    /// The error for a field that is not a number.
    fn from(value: ParseFloatError) -> (r: BBoxParseError) {
        BBoxParseError::ParseFloatError(value)
    }
}

impl FromSpecImpl<ParseFloatError> for BBoxParseError {
    open spec fn obeys_from_spec() -> bool {
        true
    }

    open spec fn from_spec(value: ParseFloatError) -> BBoxParseError {
        BBoxParseError::ParseFloatError(value)
    }
}

/// The four fields of a bounding box text, each without the white space
/// around it, if the text has exactly four fields between commas.
pub open spec fn bbox_fields_of_text(text: Seq<char>) -> Option<Seq<Seq<char>>> {
    let fields = split(text, ',');
    if fields.len() == 4 {
        Some(fields.map_values(|field: Seq<char>| trim(field)))
    } else {
        None
    }
}

impl BBoxParseError {
    /// The message of the error: for a field that is not a number, the
    /// message that the standard library gives for it.
    pub fn to_string(&self) -> (r: String)
        ensures
            match self {
                BBoxParseError::ParseFloatError(error) => to_string_from_display_ensures(error, r),
                BBoxParseError::NumberOfElementsError => r@
                    == "Expected exactly 4 comma-separated values"@,
            },
    {
        match self {
            BBoxParseError::ParseFloatError(error) => error.to_string(),
            BBoxParseError::NumberOfElementsError => {
                "Expected exactly 4 comma-separated values".to_owned()
            },
        }
    }
}

/// Splits the text of a bounding box into its four fields, in the order
/// `min_x`, `min_y`, `max_x`, `max_y`, and takes the white space off each.
/// A text with another number of fields is an error.
pub fn bbox_fields(text: &str) -> (r: Result<Vec<String>, BBoxParseError>)
    ensures
        match r {
            Ok(fields) => bbox_fields_of_text(text@) == Some(
                fields@.map_values(|field: String| field@),
            ),
            Err(error) => error is NumberOfElementsError && bbox_fields_of_text(text@) is None,
        },
{
    let chars = chars_of(text);
    let parts = split_chars(&chars, ',');
    if parts.len() != 4 {
        return Err(BBoxParseError::NumberOfElementsError);
    }
    let mut fields: Vec<String> = Vec::new();
    let mut i: usize = 0;
    while i < parts.len()
        invariant
            i <= parts.len(),
            fields@.len() == i,
            forall|k: int| 0 <= k < i ==> (#[trigger] fields@[k])@ == trim(parts@[k]@),
        decreases parts.len() - i,
    {
        let trimmed = trim_chars(&parts[i]);
        fields.push(string_of(&trimmed));
        i = i + 1;
    }
    proof {
        let expected = split(text@, ',').map_values(|field: Seq<char>| trim(field));
        let given = fields@.map_values(|field: String| field@);
        assert forall|k: int| 0 <= k < 4 implies given[k] == expected[k] by {
            assert(field_views(parts@)[k] == parts@[k]@);
        }
        assert(given =~= expected);
    }
    Ok(fields)
}

} // verus!

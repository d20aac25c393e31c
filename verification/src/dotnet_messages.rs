//! The messages .NET's own exceptions carry, where more than one place has to
//! reproduce one.

use vstd::prelude::*;
use crate::text::{push_str, to_string, push_all};

verus! {

/// `OverflowException` from `int.Parse` and from an `(int)` cast of a value
/// too large to hold.
pub fn int32_overflow() -> (res: &'static str)
    ensures
        res@ == "Value was either too large or too small for an Int32."@,
{
    "Value was either too large or too small for an Int32."
}

/// `OverflowException` from `Convert.ToDecimal` and from `decimal.Parse`.
pub fn decimal_overflow() -> (res: &'static str)
    ensures
        res@ == "Value was either too large or too small for a Decimal."@,
{
    "Value was either too large or too small for a Decimal."
}

/// `ArgumentOutOfRangeException` thrown with no parameter name.
pub fn out_of_range() -> (res: &'static str)
    ensures
        res@ == "Specified argument was out of the range of valid values."@,
{
    "Specified argument was out of the range of valid values."
}

/// `ArgumentOutOfRangeException` for an `index` argument.
pub fn out_of_range_index() -> (res: &'static str)
    ensures
        res@ == "Specified argument was out of the range of valid values. (Parameter 'index')"@,
{
    "Specified argument was out of the range of valid values. (Parameter 'index')"
}

/// The text of the `FormatException` from `int.Parse` and `decimal.Parse`,
/// which quotes the input as it was written.
pub open spec fn not_in_a_correct_format_spec(text: Seq<char>) -> Seq<char> {
    "The input string '"@ + text + "' was not in a correct format."@
}

/// [`not_in_a_correct_format_spec`] of `text`.
pub fn not_in_a_correct_format(text: &Vec<char>) -> (res: String)
    ensures
        res@ == not_in_a_correct_format_spec(text@),
{
    let mut out: Vec<char> = Vec::new();
    push_str(&mut out, "The input string '");
    push_all(&mut out, text);
    push_str(&mut out, "' was not in a correct format.");
    to_string(&out)
}

} // verus!

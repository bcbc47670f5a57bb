//! Searching in strings.
use crate::value::Value;
use vstd::prelude::*;
use vstd::string::StringExecFns;

verus! {

/// Matching by regular expression is not there yet: the answer is `nil`.
pub fn string_match(regexp: &str, string: &str, start: Option<i64>) -> (v: Value)
    ensures
        v == Value::nil_spec(),
{
    Value::nil()
}

/// Whether the two strings have the same text.
pub fn string_equal(s1: &str, s2: &str) -> (b: bool)
    ensures
        b == (s1@ == s2@),
{
    String::from_str(s1) == String::from_str(s2)
}

} // verus!

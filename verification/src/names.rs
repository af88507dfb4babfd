//! Interned names of tasks, branches, components and fields.

use ustr::Ustr;
use vstd::prelude::*;

verus! {

/// An interned string: copying and comparing it costs no more than a pointer.
#[verifier::external_type_specification]
#[verifier::external_body]
pub struct ExUstr(ustr::Ustr);

/// The characters that an interned string holds.
pub uninterp spec fn text_of(name: Ustr) -> Seq<char>;

/// `Ustr::from(&str)`: the interned string that holds the same characters.
#[verifier::external_body]
pub(crate) fn intern(text: &str) -> (name: Ustr)
    ensures
        text_of(name) == text@,
{
    Ustr::from(text)
}

/// `Ustr::as_str`: the characters that the interned string holds.
#[verifier::external_body]
pub(crate) fn name_text(name: Ustr) -> (text: &'static str)
    ensures
        text@ == text_of(name),
{
    name.as_str()
}

/// `Ustr`'s `==`: whether two interned strings hold the same characters.
#[verifier::external_body]
pub(crate) fn same_name(a: Ustr, b: Ustr) -> (same: bool)
    ensures
        same == (text_of(a) == text_of(b)),
{
    a == b
}

/// The interned string that holds `text`.
pub fn name(text: &str) -> (n: Ustr)
    ensures
        text_of(n) == text@,
{
    intern(text)
}

} // verus!

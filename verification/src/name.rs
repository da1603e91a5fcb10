//! Target names and the characters they are made of.

use vstd::prelude::*;

verus! {

/// Horizontal whitespace inside a line: a space or a tab.
pub open spec fn spec_is_makefile_whitespace(c: char) -> bool {
    c == ' ' || c == '\t'
}

/// The characters a target name is made of: anything but horizontal
/// whitespace, a line feed, a carriage return and a colon.
pub open spec fn is_name_char(c: char) -> bool {
    !spec_is_makefile_whitespace(c) && c != '\n' && c != '\r' && c != ':'
}

/// A non-empty run of name characters.
pub open spec fn is_target_name(s: Seq<char>) -> bool {
    s.len() > 0 && forall|i: int| 0 <= i < s.len() ==> is_name_char(#[trigger] s[i])
}

#[verifier::when_used_as_spec(spec_is_makefile_whitespace)]
pub fn is_makefile_whitespace(c: char) -> (r: bool)
    ensures
        r == spec_is_makefile_whitespace(c),
{
    c == ' ' || c == '\t'
}

pub fn is_allowed_target_name_first_char(c: char) -> (r: bool)
    ensures
        r == is_name_char(c),
{
    !is_makefile_whitespace(c) && c != '\n' && c != '\r' && c != ':'
}

pub fn is_allowed_target_name_tail_char(c: char) -> (r: bool)
    ensures
        r == is_name_char(c),
{
    !is_makefile_whitespace(c) && c != '\n' && c != '\r' && c != ':'
}

} // verus!

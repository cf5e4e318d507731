//! The separators of the token-level columns a part carries.

use vstd::prelude::*;
use crate::text::push_char;

verus! {

/// Separates the tokens of a column.
pub open spec fn token_separator_text() -> Seq<char> {
    seq!['\u{241E}']
}

/// Separates the members of a set-valued annotation.
pub open spec fn set_delimiter_text() -> Seq<char> {
    seq!['\u{241F}']
}

/// Stands for an annotation a token does not have.
pub open spec fn empty_set_text() -> Seq<char> {
    seq!['\u{2205}']
}

pub fn token_separator() -> (s: String)
    ensures
        s@ == token_separator_text(),
{
    let mut s = String::new();
    push_char(&mut s, '\u{241E}');
    s
}

pub fn set_delimiter() -> (s: String)
    ensures
        s@ == set_delimiter_text(),
{
    let mut s = String::new();
    push_char(&mut s, '\u{241F}');
    s
}

pub fn empty_set() -> (s: String)
    ensures
        s@ == empty_set_text(),
{
    let mut s = String::new();
    push_char(&mut s, '\u{2205}');
    s
}

} // verus!

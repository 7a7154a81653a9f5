//! The single error kind of the library: a syntax error carrying a
//! human-readable message that names the offending input.

use vstd::prelude::*;

verus! {

/// A parse failure. The message identifies the input and the nature of the
/// failure; it is set at construction and never changed.
#[derive(Debug, Clone)]
pub struct SyntaxError(pub String);

impl View for SyntaxError {
    type V = Seq<char>;

    open spec fn view(&self) -> Seq<char> {
        self.0@
    }
}

/// Message for an input with no `/` separator.
pub open spec fn missing_separator_msg(s: Seq<char>) -> Seq<char> {
    "cannot find address / subnetmask: "@ + s
}

/// Message for an input with more than one `/` separator.
pub open spec fn unknown_attribute_msg(s: Seq<char>) -> Seq<char> {
    "included unknown attribute: "@ + s
}

/// Message for a prefix-length part that is not a number in `[8, 32]`.
pub open spec fn invalid_subnetmask_msg(t: Seq<char>) -> Seq<char> {
    "invalid subnetmask range: "@ + t
}

/// Message for an address part that is not a dotted quad of octets.
pub open spec fn unsupported_format_msg(s: Seq<char>) -> Seq<char> {
    "unsupported format: "@ + s
}

impl SyntaxError {
    /// Error for an input with no `/` separator.
    pub fn missing_separator(s: &str) -> (e: Self)
        ensures
            e@ == missing_separator_msg(s@),
    {
        let mut m = String::from_str("cannot find address / subnetmask: ");
        m.append(s);
        SyntaxError(m)
    }

    /// Error for an input with more than one `/` separator.
    pub fn unknown_attribute(s: &str) -> (e: Self)
        ensures
            e@ == unknown_attribute_msg(s@),
    {
        let mut m = String::from_str("included unknown attribute: ");
        m.append(s);
        SyntaxError(m)
    }

    /// Error for a prefix-length part that is not a number in `[8, 32]`.
    pub fn invalid_subnetmask(t: &str) -> (e: Self)
        ensures
            e@ == invalid_subnetmask_msg(t@),
    {
        let mut m = String::from_str("invalid subnetmask range: ");
        m.append(t);
        SyntaxError(m)
    }

    /// Error for an address part that is not a dotted quad of octets.
    pub fn unsupported_format(s: &str) -> (e: Self)
        ensures
            e@ == unsupported_format_msg(s@),
    {
        let mut m = String::from_str("unsupported format: ");
        m.append(s);
        SyntaxError(m)
    }

    /// The full display form of the error, as a caller would report it.
    pub fn to_text(&self) -> (r: String)
        ensures
            r@ == "invalid address notation: "@ + self@,
    {
        let mut m = String::from_str("invalid address notation: ");
        m.append(self.0.as_str());
        m
    }
}

} // verus!

//! The zone of a source line: code, preprocessor or comments.
use vstd::prelude::*;

use crate::text;
use crate::text::{normalize_label, str_eq};

verus! {

/// What kind of text a line holds.
#[derive(Clone, Copy, Debug, PartialEq, Eq, Structural, PartialOrd, Ord, Hash)]
pub enum PolicyZone {
    Code,
    Preprocessor,
    Comments,
}

impl PolicyZone {
    /// The label of a zone.
    pub open spec fn label(self) -> Seq<char> {
        match self {
            PolicyZone::Code => "code"@,
            PolicyZone::Preprocessor => "preprocessor"@,
            PolicyZone::Comments => "comments"@,
        }
    }

    /// The zone that a label names, if any.
    pub open spec fn of_label(label: Seq<char>) -> Option<PolicyZone> {
        if label == "code"@ {
            Some(PolicyZone::Code)
        } else if label == "preprocessor"@ {
            Some(PolicyZone::Preprocessor)
        } else if label == "comments"@ {
            Some(PolicyZone::Comments)
        } else {
            None
        }
    }

    pub fn as_str(&self) -> (r: &'static str)
        ensures
            r@ == self.label(),
    {
        match self {
            PolicyZone::Code => "code",
            PolicyZone::Preprocessor => "preprocessor",
            PolicyZone::Comments => "comments",
        }
    }

    /// Reads a serialized zone: surrounding white space and ASCII case are
    /// ignored.
    pub fn from_serialized(value: &str) -> (r: Option<PolicyZone>)
        ensures
            r == PolicyZone::of_label(text::lower_chars(text::trimmed(value@))),
    {
        let label = normalize_label(value);
        let label = label.as_str();
        if str_eq(label, "code") {
            Some(PolicyZone::Code)
        } else if str_eq(label, "preprocessor") {
            Some(PolicyZone::Preprocessor)
        } else if str_eq(label, "comments") {
            Some(PolicyZone::Comments)
        } else {
            None
        }
    }

    /// Reading back what `as_str` wrote gives the zone again.
    pub proof fn lemma_label_round_trip(zone: PolicyZone)
        ensures
            PolicyZone::of_label(text::lower_chars(text::trimmed(zone.label()))) == Some(zone),
    {
        reveal_strlit("code");
        reveal_strlit("preprocessor");
        reveal_strlit("comments");
        text::lemma_plain_label(zone.label());
    }
}

impl Default for PolicyZone {
    fn default() -> (r: PolicyZone)
        ensures
            r == PolicyZone::Code,
    {
        PolicyZone::Code
    }
}

} // verus!

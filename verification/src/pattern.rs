//! The regular expressions of the lint, matched by the `regex` crate.
use vstd::prelude::*;

verus! {

/// The shape of a valid skill `name`.
pub const NAME_PATTERN: &'static str = r"^[a-z0-9](?:[a-z0-9-]{0,62}[a-z0-9])?$";

/// A Markdown link; its group is the link's target.
pub const LINK_PATTERN: &'static str = r"\[[^\]]*]\(([^)]+)\)";

/// A reference in angle brackets to a file with an extension; its group is the file.
pub const ANGLE_PATTERN: &'static str = r"<([A-Za-z0-9_./-]+\.[A-Za-z0-9][A-Za-z0-9_-]*)>";

/// The patterns of this crate, which all compile.
pub open spec fn known_pattern(p: Seq<char>) -> bool {
    p == NAME_PATTERN@ || p == LINK_PATTERN@ || p == ANGLE_PATTERN@
}

/// A character that a skill name may hold: a lowercase ASCII letter, a digit or a hyphen.
pub open spec fn name_char(c: char) -> bool {
    ('a' <= c && c <= 'z') || ('0' <= c && c <= '9') || c == '-'
}

/// What `NAME_PATTERN` accepts: 1 to 64 characters, each a `name_char`, neither
/// the first nor the last a hyphen.
pub open spec fn name_shape(s: Seq<char>) -> bool {
    &&& 1 <= s.len() <= 64
    &&& forall|i: int| 0 <= i < s.len() ==> name_char(#[trigger] s[i])
    &&& s[0] != '-'
    &&& s.last() != '-'
}

/// Whether `regex::Regex::is_match` finds `pattern` in `text`.
pub uninterp spec fn regex_matches(pattern: Seq<char>, text: Seq<char>) -> bool;

/// The text of group 1 of each match that `regex::Regex::captures_iter` finds of
/// `pattern` in `text`, in order (the empty text where the group took no part).
pub uninterp spec fn regex_first_groups(pattern: Seq<char>, text: Seq<char>) -> Seq<Seq<char>>;

/// Calls `regex::Regex::new(pattern)` and `Regex::is_match(text)`. Its contract
/// claims that the result is `regex_matches(pattern, text)`, and, for
/// `NAME_PATTERN`, what the regex syntax makes of that pattern (`^` and `$`
/// anchor at the ends of the text, a class range such as `a-z` holds only the
/// characters between its ends): `name_shape(text)`. `requires` admits only this
/// crate's patterns, for which `Regex::new` succeeds.
#[verifier::external_body]
pub(crate) fn is_match(pattern: &str, text: &str) -> (b: bool)
    requires
        known_pattern(pattern@),
    ensures
        b == regex_matches(pattern@, text@),
        pattern@ == NAME_PATTERN@ ==> (b <==> name_shape(text@)),
{
    regex::Regex::new(pattern).unwrap().is_match(text)
}

/// Calls `regex::Regex::new(pattern)` and `Regex::captures_iter(text)`, and takes
/// group 1 of each match. Its contract claims only that the texts are
/// `regex_first_groups(pattern, text)`. `requires` admits only this crate's
/// patterns, for which `Regex::new` succeeds.
#[verifier::external_body]
pub(crate) fn first_groups(pattern: &str, text: &str) -> (v: Vec<String>)
    requires
        known_pattern(pattern@),
    ensures
        crate::text::texts(v@) == regex_first_groups(pattern@, text@),
{
    let regex = regex::Regex::new(pattern).unwrap();
    regex.captures_iter(text).map(|c| c.get(1).map_or(String::new(), |m| m.as_str().to_owned())).collect()
}

} // verus!

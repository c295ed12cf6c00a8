use std::collections::BTreeMap;
use vstd::prelude::*;

verus! {

/// Result type used throughout the library: errors are human-readable messages.
pub type ScanRustResult<T> = Result<T, String>;

/// Type of distributional change targeted by the refinement step.
#[derive(Clone, Copy, Debug, PartialEq, Eq, Structural)]
pub enum ChangeType {
    Mean,
    Var,
    Distribution,
}

/// One merged segment of nearby candidate change-points and their votes.
#[derive(Debug)]
pub struct SegmentInfo {
    /// The candidate change points of the segment, in increasing order.
    pub change_points: Vec<usize>,
    /// Number of window sizes that detected each change point of the segment.
    pub votes: BTreeMap<usize, usize>,
    /// Sum of the votes of the segment.
    pub segment_vote: usize,
}

/// ASCII lower-casing of one character: `'A'..='Z'` map to `'a'..='z'`,
/// every other character is unchanged.
pub open spec fn ascii_lower_char(c: char) -> char {
    if 'A' <= c && c <= 'Z' {
        ((c as u32) + 32) as char
    } else {
        c
    }
}

/// ASCII lower-casing of a whole text, character by character.
pub open spec fn ascii_lower(s: Seq<char>) -> Seq<char> {
    s.map_values(|c: char| ascii_lower_char(c))
}

/// The change type named by `value`, compared without regard to ASCII case.
pub open spec fn spec_change_type(value: Seq<char>) -> Option<ChangeType> {
    let lowered = ascii_lower(value);
    if lowered == "mean"@ {
        Some(ChangeType::Mean)
    } else if lowered == "var"@ {
        Some(ChangeType::Var)
    } else if lowered == "distribution"@ {
        Some(ChangeType::Distribution)
    } else {
        None
    }
}

/// What `{:?}` prints for a string slice: the text between double quotes,
/// with the escapes of `str::escape_debug`.
pub uninterp spec fn debug_text(s: Seq<char>) -> Seq<char>;

/// The message given when a change type is not recognised.
pub open spec fn change_type_error_text(lowered: Seq<char>) -> Seq<char> {
    "change_type must be one of {'mean', 'var', 'distribution'}, got "@ + debug_text(lowered)
}

/// Calls `str::to_ascii_lowercase`, which maps `'A'..='Z'` to `'a'..='z'` and
/// leaves every other character unchanged (as its documentation says).
#[verifier::external_body]
pub(crate) fn to_ascii_lowercase(s: &str) -> (r: String)
    ensures
        r@ == ascii_lower(s@),
{
    s.to_ascii_lowercase()
}

/// Formats `s` with `{:?}` (`<str as Debug>::fmt`); the contract names the
/// quoted, escaped text `debug_text` of its characters.
#[verifier::external_body]
fn debug_str(s: &str) -> (r: String)
    ensures
        r@ == debug_text(s@),
{
    format!("{s:?}")
}

/// The message for a change type that is not recognised.
fn unknown_change_type_message(other: &str) -> (r: String)
    ensures
        r@ == change_type_error_text(other@),
{
    let mut text = "change_type must be one of {'mean', 'var', 'distribution'}, got ".to_string();
    let quoted = debug_str(other);
    text.append(quoted.as_str());
    text
}

impl ChangeType {
    /// Parse a change type name, ignoring ASCII case.
    pub fn parse(value: &str) -> (r: ScanRustResult<ChangeType>)
        ensures
            spec_change_type(value@) matches Some(t) ==> r == Ok::<ChangeType, String>(t),
            spec_change_type(value@) is None ==> (r matches Err(e) && e@ == change_type_error_text(
                ascii_lower(value@),
            )),
    {
        let lowered = to_ascii_lowercase(value);
        if lowered == "mean".to_string() {
            Ok(ChangeType::Mean)
        } else if lowered == "var".to_string() {
            Ok(ChangeType::Var)
        } else if lowered == "distribution".to_string() {
            Ok(ChangeType::Distribution)
        } else {
            Err(unknown_change_type_message(lowered.as_str()))
        }
    }
}

} // verus!

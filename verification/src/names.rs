//! Domain names parsed by hickory, handed over as their labels.
use hickory_server::proto::rr::Name;
use hickory_server::proto::ProtoError;
use vstd::prelude::*;

verus! {

#[verifier::external_type_specification]
#[verifier::external_body]
pub struct ExProtoError(ProtoError);

/// The labels, in the order `Name::iter` yields them, of the name that
/// `<Name as FromStr>::from_str` (hickory-proto) parses from `text`; `None`
/// when it refuses the text.
pub uninterp spec fn name_from_str_labels(text: Seq<char>) -> Option<Seq<Seq<char>>>;

/// The labels, in the order `Name::iter` yields them, of the name that
/// `Name::from_utf8` (hickory-proto) parses from `text`; `None` when it
/// refuses the text.
pub uninterp spec fn name_from_utf8_labels(text: Seq<char>) -> Option<Seq<Seq<char>>>;

/// Parses `text` with `<Name as FromStr>::from_str` (hickory-proto, which tries
/// `Name::from_utf8` and then `Name::from_ascii`) and returns the labels of the
/// name. What it returns is named, not stated: `Ok` exactly when the name
/// above is `Some`, with those labels. Hickory's labels are ASCII, so the
/// lossy UTF-8 conversion of each label changes nothing.
#[verifier::external_body]
pub(crate) fn parse_name_from_str(text: &[char]) -> (r: Result<Vec<String>, ProtoError>)
    ensures
        r is Ok == name_from_str_labels(text@) is Some,
        r matches Ok(labels) ==> name_from_str_labels(text@) == Some(labels.deep_view()),
{
    let text: String = text.iter().collect();
    text.parse::<Name>().map(
        |name| name.iter().map(|label| String::from_utf8_lossy(label).into_owned()).collect(),
    )
}

/// Parses `text` with `Name::from_utf8` (hickory-proto) and returns the labels
/// of the name. What it returns is named, not stated: `Ok` exactly when the
/// name above is `Some`, with those labels.
#[verifier::external_body]
pub(crate) fn parse_name_from_utf8(text: &str) -> (r: Result<Vec<String>, ProtoError>)
    ensures
        r is Ok == name_from_utf8_labels(text@) is Some,
        r matches Ok(labels) ==> name_from_utf8_labels(text@) == Some(labels.deep_view()),
{
    Name::from_utf8(text).map(
        |name| name.iter().map(|label| String::from_utf8_lossy(label).into_owned()).collect(),
    )
}

} // verus!

//! The snapshot format: all records as one JSON object of strings.

use vstd::prelude::*;
use vstd::string::*;

verus! {

/// The error type of `serde_json`.
#[verifier::external_type_specification]
#[verifier::external_body]
pub struct ExJsonError(serde_json::Error);

/// Why a snapshot was not written or not read.
#[derive(Debug, PartialEq)]
pub enum SnapshotError {
    /// The records could not be written as JSON; the cause is carried.
    Encode(String),
    /// The text is not a JSON object of strings; the cause is carried.
    Decode(String),
    /// The records of the snapshot are larger than this machine can count.
    TooLarge,
}

/// The message of a snapshot error.
pub open spec fn snapshot_message(error: SnapshotError) -> Seq<char> {
    match error {
        SnapshotError::Encode(cause) => "cannot encode snapshot: "@ + cause@,
        SnapshotError::Decode(cause) => "cannot decode snapshot: "@ + cause@,
        SnapshotError::TooLarge => "snapshot too large"@,
    }
}

impl SnapshotError {
    /// The message of this error.
    pub fn to_string(&self) -> (r: String)
        ensures
            r@ == snapshot_message(*self),
    {
        match self {
            SnapshotError::Encode(cause) => {
                let mut r = "cannot encode snapshot: ".to_owned();
                r.append(cause.as_str());
                r
            },
            SnapshotError::Decode(cause) => {
                let mut r = "cannot decode snapshot: ".to_owned();
                r.append(cause.as_str());
                r
            },
            SnapshotError::TooLarge => "snapshot too large".to_owned(),
        }
    }
}

/// The keys and values of `pairs` as texts.
pub open spec fn pairs_view(pairs: Seq<(String, String)>) -> Seq<(Seq<char>, Seq<char>)> {
    Seq::new(pairs.len(), |i: int| (pairs[i].0@, pairs[i].1@))
}

/// No two pairs of `pairs` have the same key.
pub open spec fn no_key_twice(pairs: Seq<(Seq<char>, Seq<char>)>) -> bool {
    forall|i: int, j: int|
        0 <= i < j < pairs.len() ==> (#[trigger] pairs[i]).0 != (#[trigger] pairs[j]).0
}

/// The records that `pairs` stand for: each pair is written in turn, so a
/// later pair wins over an earlier one with the same key.
pub open spec fn records_of(pairs: Seq<(Seq<char>, Seq<char>)>) -> Map<Seq<char>, Seq<char>>
    decreases pairs.len(),
{
    if pairs.len() == 0 {
        Map::empty()
    } else {
        records_of(pairs.drop_last()).insert(pairs.last().0, pairs.last().1)
    }
}

/// The JSON text that `serde_json::to_string` gives for the object whose
/// members are `pairs`, or `None` where it fails.
pub uninterp spec fn json_of_pairs(pairs: Seq<(Seq<char>, Seq<char>)>) -> Option<Seq<char>>;

/// The members of the JSON object of strings that `serde_json::from_str`
/// reads from `text`, in the order of their keys, or `None` where it fails.
pub uninterp spec fn pairs_of_json(text: Seq<char>) -> Option<Seq<(Seq<char>, Seq<char>)>>;

/// Writes `pairs` as a JSON object with `serde_json::to_string`, called on
/// a map ordered by key: the result depends on the pairs alone, and is
/// named `json_of_pairs`.
#[verifier::external_body]
pub(crate) fn pairs_to_json(pairs: &Vec<(String, String)>) -> (r: Result<
    String,
    serde_json::Error,
>)
    requires
        no_key_twice(pairs_view(pairs@)),
    ensures
        match r {
            Ok(text) => json_of_pairs(pairs_view(pairs@)) == Some(text@),
            Err(_) => json_of_pairs(pairs_view(pairs@)) is None,
        },
{
    let map: std::collections::BTreeMap<&str, &str> = pairs.iter().map(
        |p| (p.0.as_str(), p.1.as_str()),
    ).collect();
    serde_json::to_string(&map)
}

/// Reads a JSON object of strings with `serde_json::from_str`, into a map
/// ordered by key, and hands out its members in that order: the result
/// depends on the text alone, and is named `pairs_of_json`.
#[verifier::external_body]
pub(crate) fn pairs_from_json(text: &str) -> (r: Result<Vec<(String, String)>, serde_json::Error>)
    ensures
        match r {
            Ok(pairs) => pairs_of_json(text@) == Some(pairs_view(pairs@)),
            Err(_) => pairs_of_json(text@) is None,
        },
{
    match serde_json::from_str::<std::collections::BTreeMap<String, String>>(text) {
        Ok(map) => Ok(map.into_iter().collect()),
        Err(e) => Err(e),
    }
}

/// The message of a `serde_json::Error`, as its `Display` gives it. Nothing
/// is claimed of the text.
#[verifier::external_body]
pub(crate) fn json_error_text(error: &serde_json::Error) -> String {
    error.to_string()
}

} // verus!

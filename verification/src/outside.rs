//! The calls this library makes into std and outside crates, each with the
//! contract that the verified code relies on.  Nothing here is proved: each
//! contract states what the called function's documentation or source shows.
use vstd::prelude::*;
use vstd::utf8::{decode_utf8, is_ascii_chars, valid_utf8};
use crate::decompose::{JsonOutline, JsonShape};

verus! {

/// Pipelines are identified by `uuid::Uuid`; the library only carries it.
#[verifier::external_type_specification]
#[verifier::external_body]
pub struct ExUuid(uuid::Uuid);

/// `Clone::clone` of `uuid::Uuid`, which derives `Clone` and `Copy`: the
/// clone is the same identifier.
pub assume_specification [<uuid::Uuid as std::clone::Clone>::clone](u: &uuid::Uuid) -> (r: uuid::Uuid)
    ensures
        r == *u,
;

/// A point in time (`std::time::Instant`), used to time stages.
#[verifier::external_type_specification]
#[verifier::external_body]
pub struct ExInstant(std::time::Instant);

/// The characters that `String::from_utf8_lossy` makes of `bytes`.
pub uninterp spec fn utf8_lossy(bytes: Seq<u8>) -> Seq<char>;

/// Calls `String::from_utf8_lossy` and returns the characters of the text.
/// The contract names the result, and states what the documentation
/// promises of valid input: it is decoded as it stands.  What replaces an
/// invalid sequence is left unsaid.
#[verifier::external_body]
pub(crate) fn decode_lossy(bytes: &[u8]) -> (r: Vec<char>)
    ensures
        r@ == utf8_lossy(bytes@),
        valid_utf8(bytes@) ==> r@ == decode_utf8(bytes@),
{
    String::from_utf8_lossy(bytes).chars().collect()
}

/// The characters that `str::to_lowercase` makes of `s`.
pub uninterp spec fn unicode_lowercase(s: Seq<char>) -> Seq<char>;

/// ASCII upper-case letters mapped to lower case, other characters kept.
pub open spec fn ascii_lowercase(s: Seq<char>) -> Seq<char> {
    s.map_values(|c: char| if 'A' <= c && c <= 'Z' { ((c as u32) + 32) as char } else { c })
}

/// Calls `str::to_lowercase` on the text of `s`.  The contract names the
/// result and states the Unicode lower-case mapping on ASCII text (letters
/// `A`-`Z` become `a`-`z`, all else is kept); the mapping of other
/// characters is left unsaid.
#[verifier::external_body]
pub(crate) fn lowercase(s: &Vec<char>) -> (r: Vec<char>)
    ensures
        r@ == unicode_lowercase(s@),
        is_ascii_chars(s@) ==> r@ == ascii_lowercase(s@),
{
    s.iter().collect::<String>().to_lowercase().chars().collect()
}

/// Calls `String::from_iter` on the characters of `v`: a `String` holding them.
#[verifier::external_body]
pub(crate) fn string_of(v: &Vec<char>) -> (r: String)
    ensures
        r@ == v@,
{
    v.iter().collect::<String>()
}

/// Calls `Instant::now`.  Nothing is promised of the time it returns.
#[verifier::external_body]
pub(crate) fn clock_now() -> std::time::Instant {
    std::time::Instant::now()
}

/// Calls `Instant::elapsed`.  Nothing is promised of the duration.
#[verifier::external_body]
pub(crate) fn elapsed_since(start: &std::time::Instant) -> std::time::Duration {
    start.elapsed()
}

/// Calls `Duration::as_millis` and keeps the low 64 bits of the result.
/// Nothing is promised of the count (it depends on the clock).
#[verifier::external_body]
pub(crate) fn whole_millis(d: &std::time::Duration) -> u64 {
    d.as_millis() as u64
}

/// Whether `serde_json::from_slice::<serde_json::Value>` accepts `bytes`.
pub uninterp spec fn json_accepts(bytes: Seq<u8>) -> bool;

/// What `serde_json::from_slice::<serde_json::Value>` makes of `bytes`, read
/// as plain text: the elements of an array, the members of an object (in the
/// map's key order), or any other value, each value as its compact JSON text.
pub uninterp spec fn json_outline(bytes: Seq<u8>) -> JsonShape;

/// Calls `serde_json::from_slice` for a `serde_json::Value` and hands the
/// document out as plain text: arrays and objects by their elements and
/// members, each value rendered by `Display` (compact JSON).  The contract
/// says that it succeeds exactly on the input serde_json accepts and names
/// the outline; on failure it returns serde_json's message, of which nothing
/// is promised.
#[verifier::external_body]
pub(crate) fn json_outline_of(bytes: &[u8]) -> (r: Result<JsonOutline, String>)
    ensures
        r is Ok <==> json_accepts(bytes@),
        r matches Ok(o) ==> o@ == json_outline(bytes@),
{
    let text = |v: &serde_json::Value| v.to_string().chars().collect::<Vec<char>>();
    match serde_json::from_slice::<serde_json::Value>(bytes) {
        Ok(serde_json::Value::Array(a)) => Ok(JsonOutline::Items(a.iter().map(text).collect())),
        Ok(serde_json::Value::Object(m)) => {
            Ok(JsonOutline::Members(m.iter().map(|(k, v)| (k.chars().collect(), text(v))).collect()))
        },
        Ok(v) => Ok(JsonOutline::Root(text(&v))),
        Err(e) => Err(e.to_string()),
    }
}

} // verus!

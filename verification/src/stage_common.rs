//! Pieces shared by the built-in stages: finishing a stage's output, and the
//! separator characters.
use vstd::prelude::*;
use vstd::utf8::{decode_utf8, encode_utf8, valid_utf8};
use crate::outside::{decode_lossy, elapsed_since, utf8_lossy, whole_millis};
use crate::text_ops::{chars_of, encode_text};
use crate::types::{byte_ratio, Ratio, StageOutput};

verus! {

/// The text that a stage reads from its input bytes: their UTF-8 decoding
/// when they are valid UTF-8, and what `String::from_utf8_lossy` makes of
/// them otherwise.
pub open spec fn text_of(input: Seq<u8>) -> Seq<char> {
    if valid_utf8(input) {
        decode_utf8(input)
    } else {
        utf8_lossy(input)
    }
}

/// The text of `input` (see `text_of`).
pub fn decode_input(input: &[u8]) -> (r: Vec<char>)
    ensures
        r@ == text_of(input@),
{
    decode_lossy(input)
}

/// The separator that text decomposition puts between tiles.
pub open spec fn tile_separator() -> Seq<char> {
    seq!['\n', '-', '-', '-', 'T', 'I', 'L', 'E', '-', '-', '-', '\n']
}

/// The tile separator as characters.
pub fn tile_separator_text() -> (r: Vec<char>)
    ensures
        r@ == tile_separator(),
{
    let r = chars_of("\n---TILE---\n");
    proof {
        reveal_strlit("\n---TILE---\n");
    }
    assert(r@ =~= tile_separator());
    r
}

/// A one-character text.
pub fn single(c: char) -> (r: Vec<char>)
    ensures
        r@ == seq![c],
{
    let mut r: Vec<char> = Vec::new();
    r.push(c);
    assert(r@ =~= seq![c]);
    r
}

/// The output of a stage that produced the text `chars` with `tiles` tiles
/// from `input`, timed from `start`.
pub fn finish(input: &[u8], chars: &Vec<char>, tiles: usize, start: &std::time::Instant) -> (out:
    StageOutput)
    ensures
        out.data@ == encode_utf8(chars@),
        out.tiles_count == tiles,
        out.cr == byte_ratio(out.data@.len(), input@.len()),
{
    let data = encode_text(chars);
    let cr = Ratio::of_bytes(data.len(), input.len());
    let elapsed = elapsed_since(start);
    let duration_ms = whole_millis(&elapsed);
    StageOutput { data, tiles_count: tiles, cr, duration_ms }
}

} // verus!

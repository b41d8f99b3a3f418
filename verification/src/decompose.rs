//! Decomposition stages: text into fixed-size tiles, CSV rows into
//! `column:value` tiles, and JSON documents into one tile per member.
use vstd::prelude::*;
use vstd::utf8::encode_utf8;
use crate::outside::{clock_now, json_accepts, json_outline, json_outline_of};
use crate::params::StringMap;
use crate::stage_common::{decode_input, text_of, finish, single, tile_separator, tile_separator_text};
use crate::text::{chunks, decimal, join, lines, parse_usize, split, trim};
use crate::text_ops::{
    append_text, chars_of, chunk_text, copy_text, join_texts, lemma_texts_push, parse_usize_text,
    push_decimal, split_lines, split_on, texts, trim_text,
};
use crate::types::{PipelineError, PipelineStage, StageOutput, StageType};

verus! {

broadcast use vstd::seq::group_seq_axioms;

// ---------------------------------------------------------------------------
// Text decomposition
// ---------------------------------------------------------------------------

/// The tile size that the `chunk_size` parameter asks for: its value when it
/// parses as a `usize`, else 64.
pub open spec fn chunk_size_param(params: Map<Seq<char>, Seq<char>>) -> nat {
    if params.contains_key("chunk_size"@) {
        match parse_usize(params["chunk_size"@]) {
            Some(n) => n as nat,
            None => 64,
        }
    } else {
        64
    }
}

/// The decomposition of `text` into tiles of `n` characters: the tiles, and
/// the text that joins them with the tile separator.
pub open spec fn text_tiles(text: Seq<char>, n: nat) -> Seq<Seq<char>> {
    chunks(text, n)
}

/// The tile size for `params`.
pub fn chunk_size_of(params: &StringMap) -> (r: usize)
    ensures
        r == chunk_size_param(params@),
{
    match params.get("chunk_size") {
        Some(v) => {
            let cs = chars_of(v.as_str());
            match parse_usize_text(&cs) {
                Some(n) => n,
                None => 64,
            }
        },
        None => 64,
    }
}

/// `text` cut into tiles of `chunk_size` characters (the last one possibly
/// shorter), joined with the tile separator; and the number of tiles.
pub fn decompose_text(text: &Vec<char>, chunk_size: usize) -> (r: (Vec<char>, usize))
    requires
        chunk_size > 0,
    ensures
        r.0@ == join(text_tiles(text@, chunk_size as nat), tile_separator()),
        r.1 == text_tiles(text@, chunk_size as nat).len(),
{
    let parts = chunk_text(text, chunk_size);
    let sep = tile_separator_text();
    let joined = join_texts(&parts, &sep);
    (joined, parts.len())
}

/// Splits text into tiles of `chunk_size` characters (parameter
/// `chunk_size`, 64 by default).
pub struct TextDecomposeStage;

impl PipelineStage for TextDecomposeStage {
    open spec fn names(&self, name: Seq<char>) -> bool {
        name == "text_decompose"@
    }

    open spec fn kinds(&self, t: StageType) -> bool {
        t == StageType::Decompose
    }

    /// A tile size of zero is refused.
    open spec fn refuses(&self, input: Seq<u8>, params: Map<Seq<char>, Seq<char>>) -> bool {
        chunk_size_param(params) == 0
    }

    open spec fn fails_with(&self, input: Seq<u8>, params: Map<Seq<char>, Seq<char>>, e: PipelineError) -> bool {
        e matches PipelineError::StageExecution(m) && m@ == "chunk_size must be positive"@
    }

    open spec fn yields(
        &self,
        input: Seq<u8>,
        params: Map<Seq<char>, Seq<char>>,
        data: Seq<u8>,
        tiles: nat,
    ) -> bool {
        let tiles_of = text_tiles(text_of(input), chunk_size_param(params));
        &&& data == encode_utf8(join(tiles_of, tile_separator()))
        &&& tiles == tiles_of.len()
    }

    fn name(&self) -> (r: &str) {
        "text_decompose"
    }

    fn stage_type(&self) -> (r: StageType) {
        StageType::Decompose
    }

    fn execute(&self, input: &[u8], params: &StringMap) -> (r: Result<StageOutput, PipelineError>) {
        let start = clock_now();
        let n = chunk_size_of(params);
        if n == 0 {
            return Err(PipelineError::StageExecution(String::from_str("chunk_size must be positive")));
        }
        let text = decode_input(input);
        let (chars, tiles) = decompose_text(&text, n);
        Ok(finish(input, &chars, tiles, &start))
    }
}

// ---------------------------------------------------------------------------
// CSV decomposition
// ---------------------------------------------------------------------------

/// The delimiter that the `delimiter` parameter asks for: its first
/// character, `,` when it is empty or absent.
pub open spec fn delimiter_param(params: Map<Seq<char>, Seq<char>>) -> char {
    if params.contains_key("delimiter"@) && params["delimiter"@].len() > 0 {
        params["delimiter"@][0]
    } else {
        ','
    }
}

/// The lines of `ls` that are not blank (white space only), in order.
pub open spec fn nonblank(ls: Seq<Seq<char>>) -> Seq<Seq<char>>
    decreases ls.len(),
{
    if ls.len() == 0 {
        seq![]
    } else if trim(ls.last()).len() > 0 {
        nonblank(ls.drop_last()).push(ls.last())
    } else {
        nonblank(ls.drop_last())
    }
}

/// The first line, or the empty text when there is none.
pub open spec fn first_line(ls: Seq<Seq<char>>) -> Seq<char> {
    if ls.len() > 0 {
        ls[0]
    } else {
        seq![]
    }
}

/// The lines after the first.
pub open spec fn later_lines(ls: Seq<Seq<char>>) -> Seq<Seq<char>> {
    if ls.len() > 0 {
        ls.drop_first()
    } else {
        seq![]
    }
}

/// The `column:value` text of column `i`: both sides trimmed, and a missing
/// value taken as empty.
pub open spec fn csv_field(column: Seq<char>, values: Seq<Seq<char>>, i: int) -> Seq<char> {
    trim(column) + seq![':'] + trim(
        if i < values.len() {
            values[i]
        } else {
            seq![]
        },
    )
}

/// The fields of one CSV row under `columns`.
pub open spec fn csv_fields(columns: Seq<Seq<char>>, line: Seq<char>, d: char) -> Seq<Seq<char>> {
    Seq::new(columns.len(), |i: int| csv_field(columns[i], split(line, d), i))
}

/// The tile of one CSV row: its fields joined with `|`.
pub open spec fn csv_tile(columns: Seq<Seq<char>>, line: Seq<char>, d: char) -> Seq<char> {
    join(csv_fields(columns, line, d), seq!['|'])
}

/// The tiles of a CSV text: the first line names the columns, and each later
/// line that is not blank becomes one tile.
pub open spec fn csv_tiles(text: Seq<char>, d: char) -> Seq<Seq<char>> {
    let ls = lines(text);
    let columns = split(first_line(ls), d);
    nonblank(later_lines(ls)).map_values(|l: Seq<char>| csv_tile(columns, l, d))
}

/// The delimiter for `params`.
pub fn delimiter_of(params: &StringMap) -> (r: char)
    ensures
        r == delimiter_param(params@),
{
    match params.get("delimiter") {
        Some(v) => {
            let cs = chars_of(v.as_str());
            if cs.len() > 0 {
                cs[0]
            } else {
                ','
            }
        },
        None => ',',
    }
}

/// The tile of one CSV row.
pub fn csv_row_tile(columns: &Vec<Vec<char>>, line: &Vec<char>, d: char) -> (r: Vec<char>)
    ensures
        r@ == csv_tile(texts(columns@), line@, d),
{
    let values = split_on(line, d);
    let mut fields: Vec<Vec<char>> = Vec::new();
    let mut j: usize = 0;
    while j < columns.len()
        invariant
            j <= columns.len(),
            texts(values@) == split(line@, d),
            fields@.len() == j,
            forall|k: int|
                0 <= k < j ==> (#[trigger] fields@[k])@ == csv_field(
                    columns@[k]@,
                    split(line@, d),
                    k,
                ),
        decreases columns.len() - j,
    {
        let mut field = trim_text(&columns[j]);
        field.push(':');
        let value = if j < values.len() {
            trim_text(&values[j])
        } else {
            Vec::new()
        };
        let ghost head = field@;
        append_text(&mut field, &value);
        proof {
            let vs = split(line@, d);
            if j < vs.len() {
                assert(vs[j as int] == values@[j as int]@);
            } else {
                assert(trim(Seq::<char>::empty()) =~= Seq::<char>::empty()) by {
                    reveal_with_fuel(crate::text::trim_front, 1);
                    reveal_with_fuel(crate::text::trim_back, 1);
                }
            }
        }
        fields.push(field);
        j = j + 1;
    }
    assert(texts(fields@) =~= csv_fields(texts(columns@), line@, d));
    join_texts(&fields, &single('|'))
}

/// `text` read as CSV with delimiter `d`: the tiles joined with line feeds,
/// and the number of tiles.
pub fn decompose_csv(text: &Vec<char>, d: char) -> (r: (Vec<char>, usize))
    ensures
        r.0@ == join(csv_tiles(text@, d), seq!['\n']),
        r.1 == csv_tiles(text@, d).len(),
{
    let ls = split_lines(text);
    let header = if ls.len() > 0 {
        copy_text(&ls[0])
    } else {
        Vec::new()
    };
    assert(header@ =~= first_line(lines(text@)));
    let columns = split_on(&header, d);
    let ghost cols = texts(columns@);
    let ghost later = later_lines(lines(text@));
    let mut tiles: Vec<Vec<char>> = Vec::new();
    let mut i: usize = 1;
    proof {
        if ls@.len() > 0 {
            assert(later.take(0) =~= Seq::<Seq<char>>::empty());
        }
    }
    while i < ls.len()
        invariant
            1 <= i,
            ls@.len() > 0 ==> i <= ls@.len(),
            ls@.len() == 0 ==> i == 1,
            texts(ls@) == lines(text@),
            cols == split(first_line(lines(text@)), d),
            cols == texts(columns@),
            later == later_lines(lines(text@)),
            texts(tiles@) == nonblank(later.take(i - 1)).map_values(
                |l: Seq<char>| csv_tile(cols, l, d),
            ),
        decreases ls.len() - i,
    {
        let ghost before = tiles@;
        let ghost prefix = later.take(i - 1);
        let ghost next = later.take(i as int);
        assert(next.drop_last() =~= prefix);
        assert(next.last() == ls@[i as int]@);
        let t = trim_text(&ls[i]);
        if t.len() > 0 {
            let tile = csv_row_tile(&columns, &ls[i], d);
            tiles.push(tile);
            proof {
                lemma_texts_push(before, tile);
                assert(nonblank(next) == nonblank(prefix).push(next.last()));
                assert(texts(tiles@) =~= nonblank(next).map_values(|l: Seq<char>| csv_tile(cols, l, d)));
            }
        } else {
            assert(nonblank(next) == nonblank(prefix));
        }
        i = i + 1;
    }
    assert(texts(ls@).len() == ls@.len());
    assert(later.len() == i - 1) by {
        if ls@.len() == 0 {
            assert(i == 1);
        }
    }
    assert(later.take(i - 1) =~= later);
    assert(texts(tiles@) =~= nonblank(later).map_values(|l: Seq<char>| csv_tile(cols, l, d)));
    assert(later == later_lines(lines(text@)));
    assert(csv_tiles(text@, d) =~= texts(tiles@));
    let joined = join_texts(&tiles, &single('\n'));
    (joined, tiles.len())
}

/// Splits CSV text into one tile per data row, each `column:value` pairs
/// joined with `|` (parameter `delimiter`, `,` by default).
pub struct CsvDecomposeStage;

impl PipelineStage for CsvDecomposeStage {
    open spec fn names(&self, name: Seq<char>) -> bool {
        name == "csv_decompose"@
    }

    open spec fn kinds(&self, t: StageType) -> bool {
        t == StageType::Decompose
    }

    open spec fn refuses(&self, input: Seq<u8>, params: Map<Seq<char>, Seq<char>>) -> bool {
        false
    }

    open spec fn yields(
        &self,
        input: Seq<u8>,
        params: Map<Seq<char>, Seq<char>>,
        data: Seq<u8>,
        tiles: nat,
    ) -> bool {
        let tiles_of = csv_tiles(text_of(input), delimiter_param(params));
        &&& data == encode_utf8(join(tiles_of, seq!['\n']))
        &&& tiles == tiles_of.len()
    }

    fn name(&self) -> (r: &str) {
        "csv_decompose"
    }

    fn stage_type(&self) -> (r: StageType) {
        StageType::Decompose
    }

    fn execute(&self, input: &[u8], params: &StringMap) -> (r: Result<StageOutput, PipelineError>) {
        let start = clock_now();
        let text = decode_input(input);
        let d = delimiter_of(params);
        let (chars, tiles) = decompose_csv(&text, d);
        Ok(finish(input, &chars, tiles, &start))
    }
}


// ---------------------------------------------------------------------------
// JSON decomposition
// ---------------------------------------------------------------------------

/// What decomposition reads of a parsed JSON document, each value already
/// rendered as compact JSON text: the elements of an array, the members of
/// an object (key and value), or a single other value.
pub enum JsonOutline {
    Items(Vec<Vec<char>>),
    Members(Vec<(Vec<char>, Vec<char>)>),
    Root(Vec<char>),
}

/// The contents of a `JsonOutline`.
pub enum JsonShape {
    Items(Seq<Seq<char>>),
    Members(Seq<(Seq<char>, Seq<char>)>),
    Root(Seq<char>),
}

impl View for JsonOutline {
    type V = JsonShape;

    open spec fn view(&self) -> JsonShape {
        match self {
            JsonOutline::Items(xs) => JsonShape::Items(texts(xs@)),
            JsonOutline::Members(ms) => JsonShape::Members(
                ms@.map_values(|m: (Vec<char>, Vec<char>)| (m.0@, m.1@)),
            ),
            JsonOutline::Root(v) => JsonShape::Root(v@),
        }
    }
}

/// The tiles of a JSON document: `tile_<i>:<element>` for the elements of an
/// array, `<key>:<value>` for the members of an object, `root:<value>` for
/// any other value.
pub open spec fn json_tiles(shape: JsonShape) -> Seq<Seq<char>> {
    match shape {
        JsonShape::Items(xs) => Seq::new(
            xs.len(),
            |i: int| "tile_"@ + decimal(i as nat) + seq![':'] + xs[i],
        ),
        JsonShape::Members(ms) => Seq::new(ms.len(), |i: int| ms[i].0 + seq![':'] + ms[i].1),
        JsonShape::Root(v) => seq!["root:"@ + v],
    }
}

/// The tiles of `outline` joined with line feeds, and their number.
pub fn frame_json(outline: &JsonOutline) -> (r: (Vec<char>, usize))
    ensures
        r.0@ == join(json_tiles(outline@), seq!['\n']),
        r.1 == json_tiles(outline@).len(),
{
    let mut tiles: Vec<Vec<char>> = Vec::new();
    match outline {
        JsonOutline::Items(xs) => {
            let prefix = chars_of("tile_");
            let mut i: usize = 0;
            while i < xs.len()
                invariant
                    i <= xs.len(),
                    outline@ == JsonShape::Items(texts(xs@)),
                    prefix@ == "tile_"@,
                    tiles@.len() == i,
                    forall|k: int|
                        0 <= k < i ==> (#[trigger] tiles@[k])@ == json_tiles(outline@)[k],
                decreases xs.len() - i,
            {
                let mut t = copy_text(&prefix);
                push_decimal(&mut t, i);
                t.push(':');
                append_text(&mut t, &xs[i]);
                assert(t@ =~= json_tiles(outline@)[i as int]);
                tiles.push(t);
                i = i + 1;
            }
        },
        JsonOutline::Members(ms) => {
            let mut i: usize = 0;
            while i < ms.len()
                invariant
                    i <= ms.len(),
                    outline@ == JsonShape::Members(
                        ms@.map_values(|m: (Vec<char>, Vec<char>)| (m.0@, m.1@)),
                    ),
                    tiles@.len() == i,
                    forall|k: int|
                        0 <= k < i ==> (#[trigger] tiles@[k])@ == json_tiles(outline@)[k],
                decreases ms.len() - i,
            {
                let mut t = copy_text(&ms[i].0);
                t.push(':');
                append_text(&mut t, &ms[i].1);
                assert(t@ =~= json_tiles(outline@)[i as int]);
                tiles.push(t);
                i = i + 1;
            }
        },
        JsonOutline::Root(v) => {
            let mut t = chars_of("root:");
            append_text(&mut t, v);
            tiles.push(t);
        },
    }
    assert(texts(tiles@) =~= json_tiles(outline@));
    let joined = join_texts(&tiles, &single('\n'));
    (joined, tiles.len())
}

/// Splits a JSON document into one tile per array element or object member
/// (or a single `root` tile), each value rendered as compact JSON.
pub struct JsonDecomposeStage;

impl PipelineStage for JsonDecomposeStage {
    open spec fn names(&self, name: Seq<char>) -> bool {
        name == "json_decompose"@
    }

    open spec fn kinds(&self, t: StageType) -> bool {
        t == StageType::Decompose
    }

    /// Input that is not a JSON document is refused.
    open spec fn refuses(&self, input: Seq<u8>, params: Map<Seq<char>, Seq<char>>) -> bool {
        !json_accepts(input)
    }

    /// The error carries serde_json's message, which is not stated.
    open spec fn fails_with(&self, input: Seq<u8>, params: Map<Seq<char>, Seq<char>>, e: PipelineError) -> bool {
        e is StageExecution
    }

    /// The output is the tiles of the document's outline joined with line
    /// feeds, one tile per element or member (or a single `root` tile).
    open spec fn yields(
        &self,
        input: Seq<u8>,
        params: Map<Seq<char>, Seq<char>>,
        data: Seq<u8>,
        tiles: nat,
    ) -> bool {
        &&& json_accepts(input)
        &&& data == encode_utf8(join(json_tiles(json_outline(input)), seq!['\n']))
        &&& tiles == json_tiles(json_outline(input)).len()
    }

    fn name(&self) -> (r: &str) {
        "json_decompose"
    }

    fn stage_type(&self) -> (r: StageType) {
        StageType::Decompose
    }

    fn execute(&self, input: &[u8], params: &StringMap) -> (r: Result<StageOutput, PipelineError>) {
        let start = clock_now();
        let outline = match json_outline_of(input) {
            Ok(o) => o,
            Err(message) => {
                return Err(PipelineError::StageExecution(message));
            },
        };
        let (chars, tiles) = frame_json(&outline);
        let out = finish(input, &chars, tiles, &start);
        Ok(out)
    }
}

} // verus!

//! Assembly stages: tiles back into text, CSV rows under a header line, and
//! the `key:value` records that JSON assembly is built from.
use vstd::prelude::*;
use vstd::utf8::encode_utf8;
use crate::decompose::nonblank;
use crate::outside::{clock_now};
use crate::params::StringMap;
use crate::stage_common::{decode_input, text_of, finish, single, tile_separator, tile_separator_text};
use crate::text::{index_of, join, lines, replace_all, split, trim, trim_char};
use crate::text_ops::{
    chars_of, copy_range, copy_text, find_char, join_texts, lemma_texts_push, replace_text,
    split_lines, split_on, texts, trim_char_text, trim_text,
};
use crate::types::{PipelineError, PipelineStage, StageOutput, StageType};

verus! {

broadcast use vstd::seq::group_seq_axioms;

// ---------------------------------------------------------------------------
// Text assembly
// ---------------------------------------------------------------------------

/// `text` with every tile separator replaced by a single line feed.
pub fn assemble_text(text: &Vec<char>) -> (r: Vec<char>)
    ensures
        r@ == replace_all(text@, tile_separator(), seq!['\n']),
{
    let sep = tile_separator_text();
    replace_text(text, &sep, &single('\n'))
}

/// Rejoins text tiles: each tile separator becomes a line feed.  The result
/// counts as one tile.
pub struct TextAssembleStage;

impl PipelineStage for TextAssembleStage {
    open spec fn names(&self, name: Seq<char>) -> bool {
        name == "text_assemble"@
    }

    open spec fn kinds(&self, t: StageType) -> bool {
        t == StageType::Assemble
    }

    open spec fn refuses(&self, input: Seq<u8>, params: Map<Seq<char>, Seq<char>>) -> bool {
        false
    }

    open spec fn yields(
        &self,
        input: Seq<u8>,
        params: Map<Seq<char>, Seq<char>>,
        data: Seq<u8>,
        tiles: nat,
    ) -> bool {
        &&& data == encode_utf8(replace_all(text_of(input), tile_separator(), seq!['\n']))
        &&& tiles == 1
    }

    fn name(&self) -> (r: &str) {
        "text_assemble"
    }

    fn stage_type(&self) -> (r: StageType) {
        StageType::Assemble
    }

    fn execute(&self, input: &[u8], params: &StringMap) -> (r: Result<StageOutput, PipelineError>) {
        let start = clock_now();
        let text = decode_input(input);
        let assembled = assemble_text(&text);
        Ok(finish(input, &assembled, 1, &start))
    }
}

// ---------------------------------------------------------------------------
// CSV assembly
// ---------------------------------------------------------------------------

/// The value of a `column:value` field: the text between its first and
/// second `:`, empty when it has no `:`.
pub open spec fn field_value(field: Seq<char>) -> Seq<char> {
    let parts = split(field, ':');
    if parts.len() > 1 {
        parts[1]
    } else {
        seq![]
    }
}

/// The CSV row of a tile: the values of its `|`-separated fields, joined
/// with commas.
pub open spec fn csv_row(tile: Seq<char>) -> Seq<char> {
    join(split(tile, '|').map_values(|f: Seq<char>| field_value(f)), seq![','])
}

/// The rows of the assembled CSV: the header line, then one row for each
/// line of `text` that is not blank.
pub open spec fn csv_rows(headers: Seq<char>, text: Seq<char>) -> Seq<Seq<char>> {
    seq![headers] + nonblank(lines(text)).map_values(|l: Seq<char>| csv_row(l))
}

/// The CSV row of one tile.
pub fn csv_row_of(tile: &Vec<char>) -> (r: Vec<char>)
    ensures
        r@ == csv_row(tile@),
{
    let fields = split_on(tile, '|');
    let mut values: Vec<Vec<char>> = Vec::new();
    let mut j: usize = 0;
    while j < fields.len()
        invariant
            j <= fields.len(),
            values@.len() == j,
            forall|k: int| 0 <= k < j ==> (#[trigger] values@[k])@ == field_value(fields@[k]@),
        decreases fields.len() - j,
    {
        let parts = split_on(&fields[j], ':');
        let v = if parts.len() > 1 {
            copy_text(&parts[1])
        } else {
            Vec::new()
        };
        values.push(v);
        j = j + 1;
    }
    assert(texts(values@) =~= texts(fields@).map_values(|f: Seq<char>| field_value(f)));
    join_texts(&values, &single(','))
}

/// The header line followed by the CSV rows of the tiles in `text`, joined
/// with line feeds.
pub fn assemble_csv(headers: &Vec<char>, text: &Vec<char>) -> (r: Vec<char>)
    ensures
        r@ == join(csv_rows(headers@, text@), seq!['\n']),
{
    let ls = split_lines(text);
    let ghost all = lines(text@);
    let mut rows: Vec<Vec<char>> = Vec::new();
    rows.push(copy_text(headers));
    let mut i: usize = 0;
    assert(all.take(0) =~= Seq::<Seq<char>>::empty());
    assert(texts(rows@) =~= seq![headers@] + nonblank(all.take(0)).map_values(|l: Seq<char>| csv_row(l)));
    while i < ls.len()
        invariant
            i <= ls.len(),
            texts(ls@) == all,
            texts(rows@) == seq![headers@] + nonblank(all.take(i as int)).map_values(
                |l: Seq<char>| csv_row(l),
            ),
        decreases ls.len() - i,
    {
        let ghost before = rows@;
        let ghost prefix = all.take(i as int);
        let ghost next = all.take(i + 1);
        assert(next.drop_last() =~= prefix);
        assert(next.last() == ls@[i as int]@);
        let t = trim_text(&ls[i]);
        if t.len() > 0 {
            let row = csv_row_of(&ls[i]);
            rows.push(row);
            proof {
                lemma_texts_push(before, row);
                assert(nonblank(next) == nonblank(prefix).push(next.last()));
                assert(texts(rows@) =~= seq![headers@] + nonblank(next).map_values(
                    |l: Seq<char>| csv_row(l),
                ));
            }
        } else {
            assert(nonblank(next) == nonblank(prefix));
        }
        i = i + 1;
    }
    assert(all.take(i as int) =~= all);
    assert(texts(rows@) =~= csv_rows(headers@, text@));
    join_texts(&rows, &single('\n'))
}

/// Rebuilds CSV from `column:value` tiles under a given header line.  The
/// result counts as one tile.
pub struct CsvAssembleStage {
    headers: String,
}

impl CsvAssembleStage {
    /// The header line put first.
    pub closed spec fn spec_headers(&self) -> Seq<char> {
        self.headers@
    }

    /// An assembler that puts `headers` first.
    pub fn new(headers: &str) -> (r: CsvAssembleStage)
        ensures
            r.spec_headers() == headers@,
    {
        CsvAssembleStage { headers: headers.to_owned() }
    }
}

impl PipelineStage for CsvAssembleStage {
    open spec fn names(&self, name: Seq<char>) -> bool {
        name == "csv_assemble"@
    }

    open spec fn kinds(&self, t: StageType) -> bool {
        t == StageType::Assemble
    }

    open spec fn refuses(&self, input: Seq<u8>, params: Map<Seq<char>, Seq<char>>) -> bool {
        false
    }

    open spec fn yields(
        &self,
        input: Seq<u8>,
        params: Map<Seq<char>, Seq<char>>,
        data: Seq<u8>,
        tiles: nat,
    ) -> bool {
        &&& data == encode_utf8(
            join(csv_rows(self.spec_headers(), text_of(input)), seq!['\n']),
        )
        &&& tiles == 1
    }

    fn name(&self) -> (r: &str) {
        "csv_assemble"
    }

    fn stage_type(&self) -> (r: StageType) {
        StageType::Assemble
    }

    fn execute(&self, input: &[u8], params: &StringMap) -> (r: Result<StageOutput, PipelineError>) {
        let start = clock_now();
        let text = decode_input(input);
        let headers = chars_of(self.headers.as_str());
        let assembled = assemble_csv(&headers, &text);
        Ok(finish(input, &assembled, 1, &start))
    }
}

// ---------------------------------------------------------------------------
// JSON records
// ---------------------------------------------------------------------------

/// The key and value of a `key:value` field: the text before the first `:`
/// trimmed, and the text after it trimmed and stripped of surrounding double
/// quotes.  A field without `:` has none.
pub open spec fn json_pair(field: Seq<char>) -> Option<(Seq<char>, Seq<char>)> {
    let i = index_of(field, ':');
    if i < 0 {
        None
    } else {
        Some((trim(field.take(i)), trim_char(trim(field.skip(i + 1)), '"')))
    }
}

/// The key-value pairs of the fields that have one, in order.
pub open spec fn json_pairs(fields: Seq<Seq<char>>) -> Seq<(Seq<char>, Seq<char>)>
    decreases fields.len(),
{
    if fields.len() == 0 {
        seq![]
    } else {
        match json_pair(fields.last()) {
            Some(p) => json_pairs(fields.drop_last()).push(p),
            None => json_pairs(fields.drop_last()),
        }
    }
}

/// The records of a tile text: one for each line that is not blank, holding
/// the pairs of its `|`-separated fields.
pub open spec fn json_records(text: Seq<char>) -> Seq<Seq<(Seq<char>, Seq<char>)>> {
    nonblank(lines(text)).map_values(|l: Seq<char>| json_pairs(split(l, '|')))
}

/// The contents of a list of pairs of character vectors.
pub open spec fn pair_texts(v: Seq<(Vec<char>, Vec<char>)>) -> Seq<(Seq<char>, Seq<char>)> {
    v.map_values(|p: (Vec<char>, Vec<char>)| (p.0@, p.1@))
}

/// The key-value pairs of one tile line.
pub fn json_pairs_of(line: &Vec<char>) -> (r: Vec<(Vec<char>, Vec<char>)>)
    ensures
        pair_texts(r@) == json_pairs(split(line@, '|')),
{
    let fields = split_on(line, '|');
    let ghost fs = texts(fields@);
    let mut pairs: Vec<(Vec<char>, Vec<char>)> = Vec::new();
    let mut j: usize = 0;
    assert(fs.take(0) =~= Seq::<Seq<char>>::empty());
    assert(pair_texts(pairs@) =~= json_pairs(fs.take(0)));
    while j < fields.len()
        invariant
            j <= fields.len(),
            fs == texts(fields@),
            pair_texts(pairs@) == json_pairs(fs.take(j as int)),
        decreases fields.len() - j,
    {
        let ghost before = pairs@;
        let ghost next = fs.take(j + 1);
        assert(next.drop_last() =~= fs.take(j as int));
        assert(next.last() == fields@[j as int]@);
        let f = &fields[j];
        match find_char(f, ':', 0) {
            Some(i) => {
                assert(f@.skip(0) =~= f@);
                let k = trim_text(&copy_range(f, 0, i));
                let v0 = trim_text(&copy_range(f, i + 1, f.len()));
                let v = trim_char_text(&v0, '"');
                assert(f@.take(i as int) =~= f@.subrange(0, i as int));
                assert(f@.skip(i + 1) =~= f@.subrange(i + 1, f@.len() as int));
                pairs.push((k, v));
                assert(pair_texts(pairs@) =~= pair_texts(before).push((k@, v@)));
            },
            None => {
                assert(f@.skip(0) =~= f@);
            },
        }
        j = j + 1;
    }
    assert(fs.take(j as int) =~= fs);
    pairs
}

/// The records of a tile text (see `json_records`).
pub fn json_records_of(text: &Vec<char>) -> (r: Vec<Vec<(Vec<char>, Vec<char>)>>)
    ensures
        r@.map_values(|rec: Vec<(Vec<char>, Vec<char>)>| pair_texts(rec@)) == json_records(text@),
{
    let ls = split_lines(text);
    let ghost all = lines(text@);
    let mut records: Vec<Vec<(Vec<char>, Vec<char>)>> = Vec::new();
    let mut i: usize = 0;
    assert(all.take(0) =~= Seq::<Seq<char>>::empty());
    assert(records@.map_values(|rec: Vec<(Vec<char>, Vec<char>)>| pair_texts(rec@)) =~= nonblank(
        all.take(0),
    ).map_values(|l: Seq<char>| json_pairs(split(l, '|'))));
    while i < ls.len()
        invariant
            i <= ls.len(),
            texts(ls@) == all,
            records@.map_values(|rec: Vec<(Vec<char>, Vec<char>)>| pair_texts(rec@)) == nonblank(
                all.take(i as int),
            ).map_values(|l: Seq<char>| json_pairs(split(l, '|'))),
        decreases ls.len() - i,
    {
        let ghost before = records@;
        let ghost prefix = all.take(i as int);
        let ghost next = all.take(i + 1);
        assert(next.drop_last() =~= prefix);
        assert(next.last() == ls@[i as int]@);
        let t = trim_text(&ls[i]);
        if t.len() > 0 {
            let rec = json_pairs_of(&ls[i]);
            records.push(rec);
            proof {
                assert(nonblank(next) == nonblank(prefix).push(next.last()));
                assert(records@.map_values(|rec: Vec<(Vec<char>, Vec<char>)>| pair_texts(rec@))
                    =~= before.map_values(|rec: Vec<(Vec<char>, Vec<char>)>| pair_texts(rec@)).push(pair_texts(rec@)));
                assert(nonblank(next).map_values(|l: Seq<char>| json_pairs(split(l, '|')))
                    =~= nonblank(prefix).map_values(|l: Seq<char>| json_pairs(split(l, '|'))).push(json_pairs(split(next.last(), '|'))));
                assert(records@.map_values(|rec: Vec<(Vec<char>, Vec<char>)>| pair_texts(rec@))
                    =~= nonblank(next).map_values(|l: Seq<char>| json_pairs(split(l, '|'))));
            }
        } else {
            assert(nonblank(next) == nonblank(prefix));
        }
        i = i + 1;
    }
    assert(all.take(i as int) =~= all);
    assert(records@.map_values(|rec: Vec<(Vec<char>, Vec<char>)>| pair_texts(rec@)) =~= json_records(text@));
    records
}

} // verus!

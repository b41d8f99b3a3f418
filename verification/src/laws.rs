//! What holds of the stages and the pipeline across calls: round trips,
//! partitions, and the consistency of reports.
use vstd::prelude::*;
use vstd::utf8::{
    decode_utf8, decode_utf8_encode_utf8, encode_utf8, encode_utf8_decode_utf8, encode_utf8_valid_utf8,
    valid_utf8,
};
use crate::assemble::{csv_row, csv_rows, field_value, CsvAssembleStage};
use crate::assemble::TextAssembleStage;
use crate::decompose::{
    chunk_size_param, text_tiles, TextDecomposeStage,
    csv_field, csv_fields, csv_tile, csv_tiles, delimiter_param, first_line, later_lines, nonblank,
    CsvDecomposeStage,
};
use crate::stage_common::{text_of, tile_separator};
use crate::transform::{
    arranged, goes_before, is_sort_order, is_stable_sort, key_before, kept_lines, passes, sort_key,
    SortStage,
};
use crate::text::{
    all_digits, contains, decimal, digit_char, digits_value, drop_cr, flatten, is_white, join, lex_less,
    lines, occurs_at, parse_usize, replace_all, split, trim, unsigned_body,
};
use crate::text_laws::{
    ends_cr, lacks, lemma_concat_lacks, lemma_index_of_absent, lemma_join_lacks, lemma_join_last,
    lemma_join_len, lemma_join_front, lemma_join_split, lemma_lines_join, lemma_lines_join_head,
    lemma_split_absent, lemma_split_concat, lemma_split_drop_last, lemma_split_join,
    lemma_split_lacks, lemma_split_nonempty, lemma_trim_lacks, lemma_trim_nonempty,
    lemma_trimmed_last,
};
use crate::outside::unicode_lowercase;
use crate::params::StringMap;
use crate::pipeline::{
    estimates_step, first_repeat, first_unconfigured, has_config, is_estimate_report, repeats_earlier,
    reports_run, reports_step, validation_problem, estimate_tiles_spec, Pipeline,
};
use crate::types::{PipelineReport, PipelineStage, StageConfig, StageType};

verus! {

broadcast use vstd::seq::group_seq_axioms;

// ---------------------------------------------------------------------------
// CSV round trip
// ---------------------------------------------------------------------------

/// Whether `s` holds none of the characters that the tile format gives a
/// meaning: line feed, `:` and `|`.
pub open spec fn plain_text(s: Seq<char>) -> bool {
    &&& lacks(s, '\n')
    &&& lacks(s, ':')
    &&& lacks(s, '|')
}

/// Whether no comma-separated field of `line` has white space around it.
pub open spec fn trimmed_fields(line: Seq<char>) -> bool {
    forall|i: int| 0 <= i < split(line, ',').len() ==> trim(#[trigger] split(line, ',')[i]) == split(line, ',')[i]
}

/// Whether `header` and `rows` make a CSV table that survives decomposition
/// and assembly: a header line and data lines in plain text, data fields
/// without white space around them, no blank data line, and as many fields
/// in each data line as columns in the header.
pub open spec fn csv_table(header: Seq<char>, rows: Seq<Seq<char>>) -> bool {
    &&& plain_text(header)
    &&& forall|r: int|
        0 <= r < rows.len() ==> {
            &&& plain_text(#[trigger] rows[r])
            &&& trimmed_fields(rows[r])
            &&& trim(rows[r]).len() > 0
            &&& split(rows[r], ',').len() == split(header, ',').len()
        }
}

/// The CSV text of a table: the header line and the rows, joined with line
/// feeds.
pub open spec fn csv_text(header: Seq<char>, rows: Seq<Seq<char>>) -> Seq<char> {
    join(seq![header] + rows, seq!['\n'])
}

/// Lines that are all not blank are kept by `nonblank`.
proof fn lemma_nonblank_all(ls: Seq<Seq<char>>)
    requires
        forall|i: int| 0 <= i < ls.len() ==> trim(#[trigger] ls[i]).len() > 0,
    ensures
        nonblank(ls) == ls,
    decreases ls.len(),
{
    if ls.len() > 0 {
        let init = ls.drop_last();
        assert forall|i: int| 0 <= i < init.len() implies trim(#[trigger] init[i]).len() > 0 by {
            assert(init[i] == ls[i]);
        }
        lemma_nonblank_all(init);
        assert(init.push(ls.last()) =~= ls);
    }
}

/// Dropping the last character keeps a text free of a character.
proof fn lemma_drop_last_lacks(s: Seq<char>, c: char)
    requires
        lacks(s, c),
    ensures
        lacks(drop_cr(s), c),
{
    if s.len() > 0 && s.last() == '\r' {
        assert forall|k: int| 0 <= k < s.drop_last().len() implies s.drop_last()[k] != c by {
            assert(s.drop_last()[k] == s[k]);
        }
    }
}

/// A data line with trimmed fields that is not blank is not empty and does
/// not end with a carriage return.
proof fn lemma_row_end(row: Seq<char>)
    requires
        trimmed_fields(row),
        trim(row).len() > 0,
    ensures
        row.len() > 0,
        !ends_cr(row),
{
    if row.len() == 0 {
        assert(trim(row) =~= Seq::<char>::empty()) by {
            reveal_with_fuel(crate::text::trim_front, 1);
            reveal_with_fuel(crate::text::trim_back, 1);
        }
    }
    let ps = split(row, ',');
    lemma_split_nonempty(row, ',');
    lemma_join_split(row, ',');
    let n = ps.len();
    let last = ps[n - 1];
    assert(trim(last) == last);
    if last.len() > 0 {
        lemma_trimmed_last(last);
        lemma_join_last(ps, seq![','], last.len() - 1);
        assert(row.last() == last.last());
    } else if n == 1 {
        assert(join(ps, seq![',']) == ps[0]);
    } else {
        assert(join(ps, seq![',']) == join(ps.drop_last(), seq![',']) + seq![','] + ps.last());
        assert(row.last() == ',');
    }
}

/// The lines of a table's text: the first is the header (without a carriage
/// return at its end when rows follow), plain text with as many columns as
/// the header; the others are the rows.
proof fn lemma_table_lines(header: Seq<char>, rows: Seq<Seq<char>>)
    requires
        csv_table(header, rows),
    ensures
        plain_text(first_line(lines(csv_text(header, rows)))),
        rows.len() > 0 ==> split(first_line(lines(csv_text(header, rows))), ',').len() == split(
            header,
            ',',
        ).len(),
        later_lines(lines(csv_text(header, rows))) == rows,
{
    let parts = seq![header] + rows;
    let text = csv_text(header, rows);
    if rows.len() == 0 {
        assert(parts =~= seq![header]);
        assert(text == header);
        if header.len() == 0 {
            assert(lines(header) =~= Seq::<Seq<char>>::empty());
        } else {
            lemma_index_of_absent(header, '\n');
            assert(lines(header) == seq![header]);
        }
        assert(rows =~= Seq::<Seq<char>>::empty());
    } else {
        assert forall|i: int| 0 <= i < rows.len() implies lacks(#[trigger] rows[i], '\n') && !ends_cr(
            rows[i],
        ) by {
            lemma_row_end(rows[i]);
        }
        lemma_row_end(rows[rows.len() - 1]);
        lemma_lines_join_head(header, rows);
        let ls = lines(text);
        assert(ls == seq![drop_cr(header)] + rows);
        assert(first_line(ls) == drop_cr(header));
        assert(ls.drop_first() =~= rows);
        lemma_drop_last_lacks(header, '\n');
        lemma_drop_last_lacks(header, ':');
        lemma_drop_last_lacks(header, '|');
        if header.len() > 0 && header.last() == '\r' {
            lemma_split_drop_last(header, ',');
        }
    }
}

/// A field `column:value` of plain texts has the value `value`.
proof fn lemma_field_value(column: Seq<char>, value: Seq<char>)
    requires
        lacks(column, ':'),
        lacks(value, ':'),
    ensures
        field_value(column + seq![':'] + value) == value,
{
    lemma_split_concat(column, ':', value);
    lemma_split_absent(column, ':');
    lemma_split_absent(value, ':');
}

/// Whether a tile holds no line break, does not end with a carriage return,
/// and holds a `:` (so it is neither blank nor empty).
pub open spec fn plain_text_tile(tile: Seq<char>) -> bool {
    &&& lacks(tile, '\n')
    &&& !ends_cr(tile)
    &&& exists|k: int| 0 <= k < tile.len() && #[trigger] tile[k] == ':'
}

/// A row of a table becomes a tile whose CSV row is the row again.
proof fn lemma_row_round_trip(header: Seq<char>, row: Seq<char>)
    requires
        plain_text(header),
        plain_text(row),
        trimmed_fields(row),
        split(row, ',').len() == split(header, ',').len(),
    ensures
        csv_row(csv_tile(split(header, ','), row, ',')) == row,
        plain_text_tile(csv_tile(split(header, ','), row, ',')),
{
    let cols = split(header, ',');
    let values = split(row, ',');
    let fields = csv_fields(cols, row, ',');
    lemma_split_lacks(header, ',', '\n');
    lemma_split_lacks(header, ',', ':');
    lemma_split_lacks(header, ',', '|');
    lemma_split_lacks(row, ',', '\n');
    lemma_split_lacks(row, ',', ':');
    lemma_split_lacks(row, ',', '|');
    lemma_split_nonempty(header, ',');
    assert forall|i: int| 0 <= i < fields.len() implies #[trigger] fields[i] == trim(cols[i]) + seq![':']
        + values[i] && lacks(trim(cols[i]), ':') by {
        assert(trim(values[i]) == values[i]);
        lemma_trim_lacks(cols[i], ':');
    }
    assert forall|i: int| 0 <= i < fields.len() implies lacks(#[trigger] fields[i], '|') && lacks(
        fields[i],
        '\n',
    ) by {
        let c = trim(cols[i]);
        assert(fields[i] == c + seq![':'] + values[i]);
        lemma_trim_lacks(cols[i], '|');
        lemma_trim_lacks(cols[i], '\n');
        lemma_concat_lacks(c, seq![':'], '|');
        lemma_concat_lacks(c + seq![':'], values[i], '|');
        lemma_concat_lacks(c, seq![':'], '\n');
        lemma_concat_lacks(c + seq![':'], values[i], '\n');
    }
    lemma_split_join(fields, '|');
    let tile = join(fields, seq!['|']);
    assert(split(tile, '|') == fields);
    assert(split(tile, '|').map_values(|f: Seq<char>| field_value(f)) =~= values) by {
        assert forall|i: int| 0 <= i < values.len() implies field_value(fields[i]) == values[i] by {
            lemma_field_value(trim(cols[i]), values[i]);
        }
    }
    lemma_join_split(row, ',');
    lemma_join_lacks(fields, seq!['|'], '\n');
    let n = fields.len();
    let last = fields.last();
    let c_last = trim(cols[n - 1]);
    let v_last = values[n - 1];
    assert(last == c_last + seq![':'] + v_last);
    assert(last[c_last.len() as int] == ':');
    lemma_join_len(fields, seq!['|']);
    lemma_join_last(fields, seq!['|'], c_last.len() as int);
    lemma_join_last(fields, seq!['|'], last.len() - 1);
    assert(tile.last() == last.last());
    if v_last.len() > 0 {
        assert(trim(v_last) == v_last);
        lemma_trimmed_last(v_last);
        assert(last.last() == v_last.last());
    } else {
        assert(last.last() == ':');
    }
}

/// CSV round trip: decomposing a table's text with delimiter `,` and
/// assembling the tiles under the same header line gives the text back.
pub proof fn law_csv_round_trip(header: Seq<char>, rows: Seq<Seq<char>>)
    requires
        csv_table(header, rows),
    ensures
        join(
            csv_rows(header, join(csv_tiles(csv_text(header, rows), ','), seq!['\n'])),
            seq!['\n'],
        ) == csv_text(header, rows),
{
    let text = csv_text(header, rows);
    lemma_table_lines(header, rows);
    let fl = first_line(lines(text));
    let cols = split(fl, ',');
    lemma_nonblank_all(rows);
    let tiles = csv_tiles(text, ',');
    assert(tiles =~= rows.map_values(|l: Seq<char>| csv_tile(cols, l, ',')));
    assert forall|r: int| 0 <= r < rows.len() implies csv_row(#[trigger] tiles[r]) == rows[r]
        && plain_text_tile(tiles[r]) by {
        lemma_row_round_trip(fl, rows[r]);
    }
    assert forall|i: int| 0 <= i < tiles.len() implies lacks(#[trigger] tiles[i], '\n') && !ends_cr(
        tiles[i],
    ) by {
        assert(plain_text_tile(tiles[i]));
    }
    if tiles.len() > 0 {
        let t = tiles.last();
        assert(plain_text_tile(tiles[tiles.len() - 1]));
        assert(t.len() > 0);
    }
    lemma_lines_join(tiles);
    let joined = join(tiles, seq!['\n']);
    assert(lines(joined) == tiles);
    assert forall|i: int| 0 <= i < tiles.len() implies trim(#[trigger] tiles[i]).len() > 0 by {
        assert(plain_text_tile(tiles[i]));
        let k = choose|k: int| 0 <= k < tiles[i].len() && #[trigger] tiles[i][k] == ':';
        lemma_trim_nonempty(tiles[i], k);
    }
    lemma_nonblank_all(tiles);
    assert(csv_rows(header, joined) =~= seq![header] + rows);
}

/// CSV round trip through the stages: when the CSV decomposition stage
/// (delimiter `,`) runs on the UTF-8 text of a table and the CSV assembly
/// stage with the table's header line runs on its output, the result is the
/// input again.
pub proof fn law_csv_stages_round_trip(
    decompose: CsvDecomposeStage,
    assemble: CsvAssembleStage,
    header: Seq<char>,
    rows: Seq<Seq<char>>,
    params1: Map<Seq<char>, Seq<char>>,
    params2: Map<Seq<char>, Seq<char>>,
    middle: Seq<u8>,
    tiles1: nat,
    output: Seq<u8>,
    tiles2: nat,
)
    requires
        csv_table(header, rows),
        assemble.spec_headers() == header,
        delimiter_param(params1) == ',',
        decompose.yields(encode_utf8(csv_text(header, rows)), params1, middle, tiles1),
        assemble.yields(middle, params2, output, tiles2),
    ensures
        output == encode_utf8(csv_text(header, rows)),
        tiles1 == rows.len(),
{
    let text = csv_text(header, rows);
    lemma_lossy_of_encoded(text);
    let tiles = csv_tiles(text, ',');
    let joined = join(tiles, seq!['\n']);
    lemma_lossy_of_encoded(joined);
    law_csv_round_trip(header, rows);
    lemma_table_lines(header, rows);
    lemma_nonblank_all(rows);
}

/// CSV round trip through the stages, on bytes: when the input is UTF-8
/// text whose lines, joined with line feeds, are the text again (no carriage
/// return before a line feed, no final line feed), and its first line and
/// the lines after it make a CSV table, then CSV decomposition (delimiter
/// `,`) followed by CSV assembly under that first line gives the input back.
pub proof fn law_csv_bytes_round_trip(
    decompose: CsvDecomposeStage,
    assemble: CsvAssembleStage,
    input: Seq<u8>,
    params1: Map<Seq<char>, Seq<char>>,
    params2: Map<Seq<char>, Seq<char>>,
    middle: Seq<u8>,
    tiles1: nat,
    output: Seq<u8>,
    tiles2: nat,
)
    requires
        valid_utf8(input),
        lines(decode_utf8(input)).len() > 0,
        join(lines(decode_utf8(input)), seq!['\n']) == decode_utf8(input),
        csv_table(lines(decode_utf8(input))[0], lines(decode_utf8(input)).drop_first()),
        assemble.spec_headers() == lines(decode_utf8(input))[0],
        delimiter_param(params1) == ',',
        decompose.yields(input, params1, middle, tiles1),
        assemble.yields(middle, params2, output, tiles2),
    ensures
        output == input,
        tiles1 == lines(decode_utf8(input)).len() - 1,
{
    let t = decode_utf8(input);
    let ls = lines(t);
    let header = ls[0];
    let rows = ls.drop_first();
    assert(seq![header] + rows =~= ls);
    assert(csv_text(header, rows) == t);
    decode_utf8_encode_utf8(input);
    law_csv_stages_round_trip(
        decompose,
        assemble,
        header,
        rows,
        params1,
        params2,
        middle,
        tiles1,
        output,
        tiles2,
    );
}

/// A stage reads the UTF-8 encoding of a text as that text.
pub proof fn lemma_lossy_of_encoded(text: Seq<char>)
    ensures
        text_of(encode_utf8(text)) == text,
{
    encode_utf8_valid_utf8(text);
    encode_utf8_decode_utf8(text);
}


// ---------------------------------------------------------------------------
// Text tiles
// ---------------------------------------------------------------------------

/// The tiles of a text, put back together, are the text; each tile is
/// non-empty and at most `n` characters, all but the last exactly `n`.
pub proof fn law_text_tiles_cover(text: Seq<char>, n: nat)
    requires
        n > 0,
    ensures
        flatten(text_tiles(text, n)) == text,
        forall|i: int|
            0 <= i < text_tiles(text, n).len() ==> 0 < (#[trigger] text_tiles(text, n)[i]).len()
                <= n,
        forall|i: int|
            0 <= i < text_tiles(text, n).len() - 1 ==> (#[trigger] text_tiles(text, n)[i]).len()
                == n,
        text_tiles(text, n).len() == (text.len() + n - 1) / n as int,
    decreases text.len(),
{
    if text.len() == 0 {
        assert(flatten(Seq::<Seq<char>>::empty()) =~= text);
        assert((text.len() + n - 1) / n as int == 0) by (nonlinear_arith)
            requires
                text.len() == 0,
                n > 0,
        ;
    } else if text.len() <= n {
        assert(text_tiles(text, n) == seq![text]);
        assert(seq![text].drop_last() =~= Seq::<Seq<char>>::empty());
        assert(flatten(seq![text]) =~= flatten(Seq::<Seq<char>>::empty()) + text);
        assert(flatten(Seq::<Seq<char>>::empty()) =~= Seq::<char>::empty());
        assert((text.len() + n - 1) / n as int == 1) by (nonlinear_arith)
            requires
                0 < text.len() <= n,
        ;
    } else {
        let rest = text.skip(n as int);
        law_text_tiles_cover(rest, n);
        let tl = text_tiles(text, n);
        assert(tl == seq![text.take(n as int)] + text_tiles(rest, n));
        lemma_flatten_front(tl);
        assert(tl.drop_first() =~= text_tiles(rest, n));
        assert(text.take(n as int) + rest =~= text);
        assert((text.len() + n - 1) / n as int == (rest.len() + n - 1) / n as int + 1) by (nonlinear_arith)
            requires
                rest.len() == text.len() - n,
                n > 0,
        ;
    }
}

/// Flattening with a first part split off.
pub proof fn lemma_flatten_front(parts: Seq<Seq<char>>)
    requires
        parts.len() > 0,
    ensures
        flatten(parts) == parts[0] + flatten(parts.drop_first()),
    decreases parts.len(),
{
    if parts.len() == 1 {
        assert(parts.drop_first() =~= Seq::<Seq<char>>::empty());
        assert(flatten(parts.drop_last()) =~= Seq::<char>::empty());
        assert(flatten(parts) =~= parts[0] + flatten(parts.drop_first()));
    } else {
        lemma_flatten_front(parts.drop_last());
        assert(parts.drop_last().drop_first() =~= parts.drop_first().drop_last());
        assert(flatten(parts) =~= parts[0] + flatten(parts.drop_first()));
    }
}

/// Tiles of a text lack what the text lacks.
proof fn lemma_tiles_lack(text: Seq<char>, n: nat, c: char)
    requires
        n > 0,
        lacks(text, c),
    ensures
        forall|i: int| 0 <= i < text_tiles(text, n).len() ==> lacks(#[trigger] text_tiles(text, n)[i], c),
    decreases text.len(),
{
    if text.len() > n {
        let rest = text.skip(n as int);
        assert(lacks(rest, c)) by {
            assert forall|k: int| 0 <= k < rest.len() implies rest[k] != c by {
                assert(rest[k] == text[k + n]);
            }
        }
        assert(lacks(text.take(n as int), c)) by {
            assert forall|k: int| 0 <= k < text.take(n as int).len() implies text.take(n as int)[k] != c by {
                assert(text.take(n as int)[k] == text[k]);
            }
        }
        lemma_tiles_lack(rest, n, c);
        let tl = text_tiles(text, n);
        assert forall|i: int| 0 <= i < tl.len() implies lacks(#[trigger] tl[i], c) by {
            if i > 0 {
                assert(tl[i] == text_tiles(rest, n)[i - 1]);
            }
        }
    }
}

/// Text that lacks the first character of the pattern passes through a
/// replacement unchanged.
proof fn lemma_replace_passes(a: Seq<char>, x: Seq<char>, pat: Seq<char>, rep: Seq<char>)
    requires
        pat.len() > 0,
        lacks(a, pat[0]),
    ensures
        replace_all(a + x, pat, rep) == a + replace_all(x, pat, rep),
    decreases a.len(),
{
    if a.len() > 0 {
        let s = a + x;
        assert(s[0] == a[0]);
        assert(!occurs_at(s, pat, 0)) by {
            if occurs_at(s, pat, 0) {
                assert(s.subrange(0, pat.len() as int)[0] == pat[0]);
            }
        }
        assert(s.drop_first() =~= a.drop_first() + x);
        assert(lacks(a.drop_first(), pat[0])) by {
            assert forall|k: int| 0 <= k < a.drop_first().len() implies a.drop_first()[k] != pat[0] by {
                assert(a.drop_first()[k] == a[k + 1]);
            }
        }
        lemma_replace_passes(a.drop_first(), x, pat, rep);
        assert(seq![a[0]] + (a.drop_first() + replace_all(x, pat, rep)) =~= a + replace_all(x, pat, rep));
    } else {
        assert(a + x =~= x);
        assert(a + replace_all(x, pat, rep) =~= replace_all(x, pat, rep));
    }
}

/// A leading occurrence of the pattern is replaced.
proof fn lemma_replace_leading(x: Seq<char>, pat: Seq<char>, rep: Seq<char>)
    requires
        pat.len() > 0,
    ensures
        replace_all(pat + x, pat, rep) == rep + replace_all(x, pat, rep),
{
    let s = pat + x;
    assert(s.subrange(0, pat.len() as int) =~= pat);
    assert(s.skip(pat.len() as int) =~= x);
}

/// Replacing the tile separator in tiles joined with it joins the tiles
/// with line feeds, when no tile holds a line feed.
#[verifier::spinoff_prover]
proof fn lemma_replace_separators(parts: Seq<Seq<char>>)
    requires
        forall|i: int| 0 <= i < parts.len() ==> lacks(#[trigger] parts[i], '\n'),
    ensures
        replace_all(join(parts, tile_separator()), tile_separator(), seq!['\n']) == join(
            parts,
            seq!['\n'],
        ),
    decreases parts.len(),
{
    let sep = tile_separator();
    if parts.len() == 0 {
    } else if parts.len() == 1 {
        assert(lacks(parts[0], '\n'));
        lemma_replace_passes(parts[0], Seq::<char>::empty(), sep, seq!['\n']);
        assert(parts[0] + Seq::<char>::empty() =~= parts[0]);
    } else {
        let rest = parts.drop_first();
        assert forall|i: int| 0 <= i < rest.len() implies lacks(#[trigger] rest[i], '\n') by {
            assert(rest[i] == parts[i + 1]);
        }
        lemma_replace_separators(rest);
        lemma_join_front(parts, sep);
        lemma_join_front(parts, seq!['\n']);
        assert(lacks(parts[0], '\n'));
        assert(parts[0] + sep + join(rest, sep) =~= parts[0] + (sep + join(rest, sep)));
        lemma_replace_passes(parts[0], sep + join(rest, sep), sep, seq!['\n']);
        lemma_replace_leading(join(rest, sep), sep, seq!['\n']);
        assert(parts[0] + (seq!['\n'] + join(rest, seq!['\n'])) =~= parts[0] + seq!['\n'] + join(
            rest,
            seq!['\n'],
        ));
    }
}

/// A text without the pattern passes through a replacement unchanged, and
/// one with it comes out shorter, when the replacement is shorter than the
/// pattern.
proof fn lemma_replace_absent(s: Seq<char>, pat: Seq<char>, rep: Seq<char>)
    requires
        pat.len() > 0,
        rep.len() < pat.len(),
    ensures
        replace_all(s, pat, rep).len() <= s.len(),
        !contains(s, pat) ==> replace_all(s, pat, rep) == s,
        contains(s, pat) ==> replace_all(s, pat, rep).len() < s.len(),
    decreases s.len(),
{
    if s.len() == 0 {
        assert(!contains(s, pat));
    } else if occurs_at(s, pat, 0) {
        let rest = s.skip(pat.len() as int);
        lemma_replace_absent(rest, pat, rep);
        assert(contains(s, pat));
    } else {
        let t = s.drop_first();
        lemma_replace_absent(t, pat, rep);
        if contains(t, pat) {
            let j = choose|j: int| occurs_at(t, pat, j);
            assert(s.subrange(j + 1, j + 1 + pat.len()) =~= t.subrange(j, j + pat.len()));
            assert(occurs_at(s, pat, j + 1));
        }
        if contains(s, pat) {
            let i = choose|i: int| occurs_at(s, pat, i);
            assert(i != 0);
            assert(t.subrange(i - 1, i - 1 + pat.len()) =~= s.subrange(i, i + pat.len()));
            assert(occurs_at(t, pat, i - 1));
        } else {
            assert(seq![s[0]] + t =~= s);
        }
    }
}

/// Text decomposition followed by text assembly: for text without line
/// feeds, the result is the tiles joined with line feeds; and a text that
/// fits in one tile comes back exactly when it does not hold the tile
/// separator.
pub proof fn law_text_round_trip(text: Seq<char>, n: nat)
    requires
        n > 0,
    ensures
        lacks(text, '\n') ==> replace_all(
            join(text_tiles(text, n), tile_separator()),
            tile_separator(),
            seq!['\n'],
        ) == join(text_tiles(text, n), seq!['\n']),
        text.len() <= n ==> (replace_all(
            join(text_tiles(text, n), tile_separator()),
            tile_separator(),
            seq!['\n'],
        ) == text <==> !contains(text, tile_separator())),
{
    if lacks(text, '\n') {
        lemma_tiles_lack(text, n, '\n');
        lemma_replace_separators(text_tiles(text, n));
    }
    if text.len() <= n {
        if text.len() > 0 {
            assert(text_tiles(text, n) == seq![text]);
        } else {
            assert(join(text_tiles(text, n), tile_separator()) =~= text);
        }
        lemma_replace_absent(text, tile_separator(), seq!['\n']);
    }
}

/// Text decomposition followed by text assembly, through the stages: the
/// result is the tiles with each separator replaced by a line feed; for a
/// text without line feeds that is the tiles joined with line feeds; and a
/// text that fits in one tile comes back exactly when it does not hold the
/// tile separator.
pub proof fn law_text_stages_round_trip(
    decompose: TextDecomposeStage,
    assemble: TextAssembleStage,
    text: Seq<char>,
    params1: Map<Seq<char>, Seq<char>>,
    params2: Map<Seq<char>, Seq<char>>,
    middle: Seq<u8>,
    tiles1: nat,
    output: Seq<u8>,
    tiles2: nat,
)
    requires
        !decompose.refuses(encode_utf8(text), params1),
        decompose.yields(encode_utf8(text), params1, middle, tiles1),
        assemble.yields(middle, params2, output, tiles2),
    ensures
        output == encode_utf8(
            replace_all(
                join(text_tiles(text, chunk_size_param(params1)), tile_separator()),
                tile_separator(),
                seq!['\n'],
            ),
        ),
        lacks(text, '\n') ==> output == encode_utf8(
            join(text_tiles(text, chunk_size_param(params1)), seq!['\n']),
        ),
        text.len() <= chunk_size_param(params1) ==> (output == encode_utf8(text) <==> !contains(
            text,
            tile_separator(),
        )),
{
    let n = chunk_size_param(params1);
    let back = replace_all(join(text_tiles(text, n), tile_separator()), tile_separator(), seq!['\n']);
    lemma_lossy_of_encoded(text);
    lemma_lossy_of_encoded(join(text_tiles(text, n), tile_separator()));
    law_text_round_trip(text, n);
    encode_utf8_decode_utf8(back);
    encode_utf8_decode_utf8(text);
}

// ---------------------------------------------------------------------------
// Filtering
// ---------------------------------------------------------------------------

/// The five condition names are distinct.
proof fn lemma_conditions_distinct()
    ensures
        "not_contains"@ != "contains"@,
        "not_contains"@ != "equals"@,
        "not_contains"@ != "starts_with"@,
        "not_contains"@ != "ends_with"@,
{
    reveal_strlit("not_contains");
    reveal_strlit("contains");
    reveal_strlit("equals");
    reveal_strlit("starts_with");
    reveal_strlit("ends_with");
    assert("not_contains"@.len() == 12);
    assert("contains"@.len() == 8);
    assert("equals"@.len() == 6);
    assert("starts_with"@.len() == 11);
    assert("ends_with"@.len() == 9);
}

/// Filtering with `contains` and with `not_contains` on the same value
/// splits the lines between them: every line is kept by exactly one, so the
/// two tile counts add up to the number of lines.
pub proof fn law_filter_partition(ls: Seq<Seq<char>>, value: Seq<char>)
    ensures
        kept_lines(ls, "contains"@, value).len() + kept_lines(ls, "not_contains"@, value).len()
            == ls.len(),
    decreases ls.len(),
{
    lemma_conditions_distinct();
    if ls.len() > 0 {
        law_filter_partition(ls.drop_last(), value);
    }
}

/// A condition that is none of the five keeps every line.
pub proof fn law_filter_unknown_keeps_all(ls: Seq<Seq<char>>, op: Seq<char>, value: Seq<char>)
    requires
        op != "contains"@,
        op != "equals"@,
        op != "starts_with"@,
        op != "ends_with"@,
        op != "not_contains"@,
    ensures
        kept_lines(ls, op, value) == ls,
    decreases ls.len(),
{
    if ls.len() > 0 {
        law_filter_unknown_keeps_all(ls.drop_last(), op, value);
        assert(ls.drop_last().push(ls.last()) =~= ls);
    }
}


// ---------------------------------------------------------------------------
// Sorting
// ---------------------------------------------------------------------------

/// A sort order lists every position.
proof fn lemma_order_covers(ls: Seq<Seq<char>>, order: Seq<usize>, desc: bool, j: int)
    requires
        is_sort_order(ls, order, desc),
        0 <= j < ls.len(),
    ensures
        exists|k: int| 0 <= k < order.len() && #[trigger] order[k] == j,
{
    let s = order.map_values(|u: usize| u as int);
    assert(s.no_duplicates()) by {
        assert forall|a: int, b: int| 0 <= a < s.len() && 0 <= b < s.len() && a != b implies s[a] != s[b] by {
            if a < b {
                assert(goes_before(ls, order[a] as int, order[b] as int, desc));
            } else {
                assert(goes_before(ls, order[b] as int, order[a] as int, desc));
            }
        }
    }
    s.unique_seq_to_set();
    let range = vstd::set_lib::set_int_range(0, ls.len() as int);
    vstd::set_lib::lemma_int_range(0, ls.len() as int);
    assert(s.to_set().subset_of(range)) by {
        assert forall|x: int| s.to_set().contains(x) implies range.contains(x) by {
            let k = choose|k: int| 0 <= k < s.len() && s[k] == x;
            assert(order[k] < ls.len());
        }
    }
    vstd::seq_lib::seq_to_set_is_finite(s);
    vstd::set_lib::lemma_subset_equality(s.to_set(), range);
    assert(range.contains(j));
    assert(s.to_set().contains(j));
    let k = choose|k: int| 0 <= k < s.len() && s[k] == j;
    assert(order[k] == j);
}

/// Two sort orders of the same lines agree up to position `k`.
proof fn lemma_orders_agree(
    ls: Seq<Seq<char>>,
    o1: Seq<usize>,
    o2: Seq<usize>,
    desc: bool,
    k: int,
)
    requires
        is_sort_order(ls, o1, desc),
        is_sort_order(ls, o2, desc),
        0 <= k < ls.len(),
    ensures
        forall|m: int| 0 <= m <= k ==> #[trigger] o1[m] == o2[m],
    decreases k,
{
    if k > 0 {
        lemma_orders_agree(ls, o1, o2, desc, k - 1);
    }
    let x = o1[k] as int;
    let y = o2[k] as int;
    if x != y {
        crate::transform::lemma_goes_before_total(ls, x, y, desc);
        if goes_before(ls, x, y, desc) {
            lemma_order_covers(ls, o2, desc, x);
            let q = choose|q: int| 0 <= q < o2.len() && #[trigger] o2[q] == x;
            if q > k {
                assert(goes_before(ls, o2[k] as int, o2[q] as int, desc));
                crate::transform::lemma_goes_before_total(ls, x, y, desc);
            }
            assert(q < k);
            assert(o1[q] == o2[q]);
            assert(goes_before(ls, o1[q] as int, o1[k] as int, desc));
            crate::transform::lemma_lex_less_asymmetric(
                crate::transform::sort_key(ls[x]),
                crate::transform::sort_key(ls[x]),
            );
        } else {
            lemma_order_covers(ls, o1, desc, y);
            let q = choose|q: int| 0 <= q < o1.len() && #[trigger] o1[q] == y;
            if q > k {
                assert(goes_before(ls, o1[k] as int, o1[q] as int, desc));
            }
            assert(q < k);
            assert(o2[q] == o1[q]);
            assert(goes_before(ls, o2[q] as int, o2[k] as int, desc));
            crate::transform::lemma_lex_less_asymmetric(
                crate::transform::sort_key(ls[y]),
                crate::transform::sort_key(ls[y]),
            );
        }
    }
}

/// The sort is a function of its input: two stable sorts of the same lines
/// (in the same direction) are equal.
pub proof fn law_sort_unique(ls: Seq<Seq<char>>, out1: Seq<Seq<char>>, out2: Seq<Seq<char>>, desc: bool)
    requires
        is_stable_sort(ls, out1, desc),
        is_stable_sort(ls, out2, desc),
    ensures
        out1 == out2,
{
    let o1 = choose|o: Seq<usize>| #[trigger] is_sort_order(ls, o, desc) && out1 == arranged(ls, o);
    let o2 = choose|o: Seq<usize>| #[trigger] is_sort_order(ls, o, desc) && out2 == arranged(ls, o);
    if ls.len() > 0 {
        lemma_orders_agree(ls, o1, o2, desc, ls.len() - 1);
    }
    assert(out1 =~= out2);
}

/// Whether position `j` occurs in `o`.
spec fn lists(o: Seq<usize>, j: int) -> bool {
    exists|k: int| 0 <= k < o.len() && #[trigger] o[k] == j
}

/// Lines taken in an order that lists each position exactly once are the
/// same lines, as a multiset.
proof fn lemma_arranged_multiset(ls: Seq<Seq<char>>, o: Seq<usize>)
    requires
        o.len() == ls.len(),
        forall|k: int| 0 <= k < o.len() ==> #[trigger] o[k] < ls.len(),
        forall|k1: int, k2: int| 0 <= k1 < k2 < o.len() ==> #[trigger] o[k1] != #[trigger] o[k2],
        forall|j: int| 0 <= j < ls.len() ==> #[trigger] lists(o, j),
    ensures
        arranged(ls, o).to_multiset() == ls.to_multiset(),
    decreases ls.len(),
{
    broadcast use vstd::multiset::group_multiset_axioms;

    if ls.len() == 0 {
        assert(arranged(ls, o) =~= ls);
    } else {
        let n = ls.len() - 1;
        assert(lists(o, n));
        let k = choose|k: int| 0 <= k < o.len() && #[trigger] o[k] == n;
        let o2 = o.remove(k);
        let ls2 = ls.drop_last();
        assert forall|m: int| 0 <= m < o2.len() implies #[trigger] o2[m] < ls2.len() by {
            if m < k {
                assert(o2[m] == o[m] && o[m] != o[k]);
            } else {
                assert(o2[m] == o[m + 1] && o[k] != o[m + 1]);
            }
        }
        assert forall|k1: int, k2: int| 0 <= k1 < k2 < o2.len() implies #[trigger] o2[k1]
            != #[trigger] o2[k2] by {
            let a = if k1 < k { k1 } else { k1 + 1 };
            let b = if k2 < k { k2 } else { k2 + 1 };
            assert(o2[k1] == o[a] && o2[k2] == o[b] && a < b);
        }
        assert forall|j: int| 0 <= j < ls2.len() implies #[trigger] lists(o2, j) by {
            assert(lists(o, j));
            let kk = choose|kk: int| 0 <= kk < o.len() && #[trigger] o[kk] == j;
            assert(kk != k);
            if kk < k {
                assert(o2[kk] == j);
            } else {
                assert(o2[kk - 1] == j);
            }
        }
        lemma_arranged_multiset(ls2, o2);
        let out = arranged(ls, o);
        assert(arranged(ls2, o2) =~= out.remove(k)) by {
            assert forall|m: int| 0 <= m < o2.len() implies arranged(ls2, o2)[m] == out.remove(k)[m] by {
                if m < k {
                    assert(o2[m] == o[m]);
                } else {
                    assert(o2[m] == o[m + 1]);
                }
            }
        }
        vstd::seq_lib::to_multiset_remove(out, k);
        vstd::seq_lib::to_multiset_build(ls2, ls.last());
        assert(ls2.push(ls.last()) =~= ls);
        assert(out[k] == ls.last());
        vstd::seq_lib::to_multiset_contains(out, ls.last());
        assert(out.contains(ls.last()));
        assert(out.to_multiset() =~= out.to_multiset().remove(ls.last()).insert(ls.last()));
    }
}

/// A stable sort is a rearrangement of the lines (the same lines, each as
/// often), with the keys in order.
pub proof fn law_sort_sorted(ls: Seq<Seq<char>>, out: Seq<Seq<char>>, desc: bool)
    requires
        is_stable_sort(ls, out, desc),
    ensures
        out.to_multiset() == ls.to_multiset(),
        forall|i: int, j: int|
            0 <= i < j < out.len() ==> !key_before(
                sort_key(#[trigger] out[j]),
                sort_key(#[trigger] out[i]),
                desc,
            ),
{
    let o = choose|o: Seq<usize>| #[trigger] is_sort_order(ls, o, desc) && out == arranged(ls, o);
    assert forall|i: int, j: int| 0 <= i < j < out.len() implies !key_before(
        sort_key(#[trigger] out[j]),
        sort_key(#[trigger] out[i]),
        desc,
    ) by {
        assert(goes_before(ls, o[i] as int, o[j] as int, desc));
        let a = sort_key(ls[o[i] as int]);
        let b = sort_key(ls[o[j] as int]);
        crate::transform::lemma_lex_less_asymmetric(a, b);
    }
    assert forall|k1: int, k2: int| 0 <= k1 < k2 < o.len() implies #[trigger] o[k1] != #[trigger] o[k2] by {
        assert(goes_before(ls, o[k1] as int, o[k2] as int, desc));
    }
    assert forall|j: int| 0 <= j < ls.len() implies #[trigger] lists(o, j) by {
        lemma_order_covers(ls, o, desc, j);
    }
    lemma_arranged_multiset(ls, o);
}

/// Sorting a stable sort again changes nothing: list order of the sorted
/// lines is already a stable sort of them.
pub proof fn law_sort_idempotent(
    ls: Seq<Seq<char>>,
    out: Seq<Seq<char>>,
    again: Seq<Seq<char>>,
    desc: bool,
)
    requires
        is_stable_sort(ls, out, desc),
        is_stable_sort(out, again, desc),
    ensures
        again == out,
{
    let o = choose|o: Seq<usize>| #[trigger] is_sort_order(ls, o, desc) && out == arranged(ls, o);
    law_sort_sorted(ls, out, desc);
    let n = out.len();
    if n > 0 {
        lemma_order_covers(ls, o, desc, n - 1);
    }
    let id = Seq::new(n, |i: int| i as usize);
    assert forall|k: int| 0 <= k < id.len() implies #[trigger] id[k] < out.len() by {}
    assert forall|k1: int, k2: int| 0 <= k1 < k2 < id.len() implies goes_before(
        out,
        #[trigger] id[k1] as int,
        #[trigger] id[k2] as int,
        desc,
    ) by {
        let a = sort_key(out[k1]);
        let b = sort_key(out[k2]);
        assert(id[k1] as int == k1 && id[k2] as int == k2);
        if a != b {
            assert(!key_before(b, a, desc));
            crate::transform::lemma_lex_less_total(a, b);
        }
    }
    assert(is_sort_order(out, id, desc));
    assert(arranged(out, id) =~= out);
    assert(is_stable_sort(out, out, desc));
    law_sort_unique(out, out, again, desc);
}

/// Lines never hold a line feed.
proof fn lemma_lines_lack_feed(s: Seq<char>)
    ensures
        forall|i: int| 0 <= i < lines(s).len() ==> lacks(#[trigger] lines(s)[i], '\n'),
    decreases s.len(),
{
    if s.len() > 0 {
        let i = crate::text::index_of(s, '\n');
        crate::text::lemma_index_of(s, '\n');
        if i >= 0 {
            lemma_lines_lack_feed(s.skip(i + 1));
            let head = drop_cr(s.take(i));
            assert(lacks(head, '\n')) by {
                assert forall|k: int| 0 <= k < head.len() implies head[k] != '\n' by {
                    assert(head[k] == s[k]);
                }
            }
            let ls = lines(s);
            assert forall|m: int| 0 <= m < ls.len() implies lacks(#[trigger] ls[m], '\n') by {
                if m > 0 {
                    assert(ls[m] == lines(s.skip(i + 1))[m - 1]);
                }
            }
        }
    }
}

/// Sorting through the stage twice gives the same output as once, when no
/// line of the input is empty or ends with a carriage return.
pub proof fn law_sort_stage_idempotent(
    sort: SortStage,
    input: Seq<u8>,
    params1: Map<Seq<char>, Seq<char>>,
    params2: Map<Seq<char>, Seq<char>>,
    once: Seq<u8>,
    tiles1: nat,
    twice: Seq<u8>,
    tiles2: nat,
)
    requires
        forall|i: int|
            0 <= i < lines(text_of(input)).len() ==> (#[trigger] lines(text_of(input))[i]).len() > 0
                && !ends_cr(lines(text_of(input))[i]),
        sort.yields(input, params1, once, tiles1),
        sort.yields(once, params2, twice, tiles2),
    ensures
        twice == once,
        tiles2 == tiles1,
{
    let ls = lines(text_of(input));
    let desc = sort.spec_descending();
    let out = choose|out: Seq<Seq<char>>|
        #[trigger] is_stable_sort(ls, out, desc) && once == encode_utf8(join(out, seq!['\n']))
            && tiles1 == out.len();
    law_sort_sorted(ls, out, desc);
    lemma_lines_lack_feed(text_of(input));
    assert forall|k: int| 0 <= k < out.len() implies lacks(#[trigger] out[k], '\n') && !ends_cr(out[k])
        && out[k].len() > 0 by {
        vstd::seq_lib::to_multiset_contains(out, out[k]);
        vstd::seq_lib::to_multiset_contains(ls, out[k]);
        assert(out.contains(out[k]));
        let j = choose|j: int| 0 <= j < ls.len() && ls[j] == out[k];
        assert(ls[j] == out[k]);
    }
    if out.len() > 0 {
        assert(out.last().len() > 0);
    }
    lemma_lines_join(out);
    lemma_lossy_of_encoded(join(out, seq!['\n']));
    assert(lines(text_of(once)) == out);
    let again = choose|a: Seq<Seq<char>>|
        #[trigger] is_stable_sort(lines(text_of(once)), a, desc) && twice == encode_utf8(join(a, seq!['\n']))
            && tiles2 == a.len();
    law_sort_idempotent(ls, out, again, desc);
}

// ---------------------------------------------------------------------------
// Parameters
// ---------------------------------------------------------------------------

/// Parameters read back what was set: after `insert(key, value)`, `get(key)`
/// finds `value`, and every other key keeps what it had (a value, or none).
pub proof fn law_params_read_back(
    before: StringMap,
    after: StringMap,
    key: Seq<char>,
    value: Seq<char>,
)
    requires
        after@ == before@.insert(key, value),
    ensures
        after@.contains_key(key),
        after@[key] == value,
        forall|k: Seq<char>|
            k != key ==> (#[trigger] after@.contains_key(k) == before@.contains_key(k) && (
            before@.contains_key(k) ==> after@[k] == before@[k])),
{
}

// ---------------------------------------------------------------------------
// Pipelines
// ---------------------------------------------------------------------------

/// Adding a stage appends it: the pipeline has one stage more, and the
/// earlier stages keep their places.
pub proof fn law_add_stage_appends(before: Pipeline, after: Pipeline, stage: Box<dyn PipelineStage>)
    requires
        after.spec_stages() == before.spec_stages().push(stage),
    ensures
        after.spec_stages().len() == before.spec_stages().len() + 1,
        forall|i: int|
            0 <= i < before.spec_stages().len() ==> #[trigger] after.spec_stages()[i]
                == before.spec_stages()[i],
{
    let s = before.spec_stages();
    vstd::seq::axiom_seq_push_len(s, stage);
    assert forall|i: int| 0 <= i < s.len() implies #[trigger] after.spec_stages()[i] == s[i] by {
        vstd::seq::axiom_seq_push_index_different(s, stage, i);
    }
}

/// A repeated name has a first repeated name at or before it.
proof fn lemma_first_repeat_exists(names: Seq<Seq<char>>, j: int)
    requires
        0 <= j < names.len(),
        repeats_earlier(names, j),
    ensures
        exists|m: int| #[trigger] first_repeat(names, m),
    decreases j,
{
    if forall|m: int| 0 <= m < j ==> !repeats_earlier(names, m) {
        assert(first_repeat(names, j));
    } else {
        let m = choose|m: int| 0 <= m < j && repeats_earlier(names, m);
        lemma_first_repeat_exists(names, m);
    }
}

/// An unconfigured name has a first unconfigured name at or before it.
proof fn lemma_first_unconfigured_exists(names: Seq<Seq<char>>, configs: Seq<StageConfig>, k: int)
    requires
        0 <= k < names.len(),
        !has_config(configs, names[k]),
    ensures
        exists|m: int| #[trigger] first_unconfigured(names, configs, m),
    decreases k,
{
    if forall|m: int| 0 <= m < k ==> has_config(configs, names[m]) {
        assert(first_unconfigured(names, configs, k));
    } else {
        let m = choose|m: int| 0 <= m < k && !has_config(configs, names[m]);
        lemma_first_unconfigured_exists(names, configs, m);
    }
}

/// Validation passes exactly when there are stages, no two stages share a
/// name, and every stage's name has a configuration.
pub proof fn law_validation_passes(names: Seq<Seq<char>>, configs: Seq<StageConfig>)
    ensures
        validation_problem(names, configs) is None <==> {
            &&& names.len() > 0
            &&& forall|i: int, j: int| 0 <= i < j < names.len() ==> #[trigger] names[i] != #[trigger] names[j]
            &&& forall|i: int| 0 <= i < names.len() ==> has_config(configs, #[trigger] names[i])
        },
{
    if validation_problem(names, configs) is None {
        assert forall|i: int, j: int| 0 <= i < j < names.len() implies #[trigger] names[i]
            != #[trigger] names[j] by {
            if names[i] == names[j] {
                assert(repeats_earlier(names, j));
                lemma_first_repeat_exists(names, j);
            }
        }
        assert forall|i: int| 0 <= i < names.len() implies has_config(configs, #[trigger] names[i]) by {
            if !has_config(configs, names[i]) {
                lemma_first_unconfigured_exists(names, configs, i);
            }
        }
    }
    if names.len() > 0 && (forall|i: int, j: int| 0 <= i < j < names.len() ==> #[trigger] names[i]
        != #[trigger] names[j]) && (forall|i: int|
        0 <= i < names.len() ==> has_config(configs, #[trigger] names[i])) {
        assert forall|m: int| !#[trigger] first_repeat(names, m) by {
            if 0 <= m < names.len() && repeats_earlier(names, m) {
                let i = choose|i: int| 0 <= i < m && names[i] == names[m];
                assert(names[i] != names[m]);
            }
        }
        assert forall|m: int| !#[trigger] first_unconfigured(names, configs, m) by {
            if 0 <= m < names.len() {
                assert(has_config(configs, names[m]));
            }
        }
    }
}

/// In the report of a run, each stage's input size is the output size of
/// the stage before; the run's input size is the first stage's, and its
/// output size the last stage's.
pub proof fn law_report_chain(
    report: PipelineReport,
    id: uuid::Uuid,
    stages: Seq<Box<dyn PipelineStage>>,
    names: Seq<Seq<char>>,
    trace: Seq<Seq<u8>>,
    tiles: Seq<nat>,
)
    requires
        reports_run(report, id, stages, names, trace, tiles),
        trace.len() == stages.len() + 1,
    ensures
        forall|i: int|
            0 <= i < stages.len() - 1 ==> (#[trigger] report.stages@[i + 1]).input_bytes
                == report.stages@[i].output_bytes,
        stages.len() > 0 ==> report.input_bytes == report.stages@[0].input_bytes,
        stages.len() > 0 ==> report.output_bytes == report.stages@[stages.len() - 1].output_bytes,
{
    assert forall|i: int| 0 <= i < stages.len() - 1 implies (#[trigger] report.stages@[i + 1]).input_bytes
        == report.stages@[i].output_bytes by {
        assert(reports_step(report.stages@[i], stages, i, names[i], trace[i], trace[i + 1], tiles[i]));
        assert(reports_step(report.stages@[i + 1], stages, i + 1, names[i + 1], trace[i + 1], trace[i + 2], tiles[i + 1]));
    }
    if stages.len() > 0 {
        assert(reports_step(report.stages@[0], stages, 0, names[0], trace[0], trace[1], tiles[0]));
        let n = stages.len() - 1;
        assert(reports_step(report.stages@[n], stages, n, names[n], trace[n], trace[n + 1], tiles[n]));
    }
}


/// In the report of an estimated run, each stage's input size is the
/// estimated output size of the stage before, and the run's output size is
/// the last stage's.
pub proof fn law_estimate_chain(
    report: PipelineReport,
    id: uuid::Uuid,
    stages: Seq<Box<dyn PipelineStage>>,
    input_len: usize,
    kinds: Seq<StageType>,
    estimates: Seq<usize>,
)
    requires
        is_estimate_report(report, id, stages, input_len, kinds, estimates),
        estimates.len() == stages.len(),
    ensures
        forall|i: int|
            0 <= i < stages.len() - 1 ==> (#[trigger] report.stages@[i + 1]).input_bytes
                == report.stages@[i].output_bytes,
        stages.len() > 0 ==> report.input_bytes == report.stages@[0].input_bytes,
        stages.len() > 0 ==> report.output_bytes == report.stages@[stages.len() - 1].output_bytes,
{
    assert forall|i: int| 0 <= i < stages.len() - 1 implies (#[trigger] report.stages@[i + 1]).input_bytes
        == report.stages@[i].output_bytes by {
        assert(estimates_step(report.stages@[i], stages, i, input_len, kinds, estimates));
        assert(estimates_step(report.stages@[i + 1], stages, i + 1, input_len, kinds, estimates));
    }
    if stages.len() > 0 {
        assert(estimates_step(report.stages@[0], stages, 0, input_len, kinds, estimates));
        let n = stages.len() - 1;
        assert(estimates_step(report.stages@[n], stages, n, input_len, kinds, estimates));
    }
}

/// An estimate depends on the input only through its length: two estimate
/// reports of the same stages, for the same input length, kinds and
/// estimated sizes, agree in everything but the stage names (each a name
/// its stage may report).
pub proof fn law_estimate_determined(
    r1: PipelineReport,
    r2: PipelineReport,
    id: uuid::Uuid,
    stages: Seq<Box<dyn PipelineStage>>,
    input_len: usize,
    kinds: Seq<StageType>,
    estimates: Seq<usize>,
)
    requires
        is_estimate_report(r1, id, stages, input_len, kinds, estimates),
        is_estimate_report(r2, id, stages, input_len, kinds, estimates),
    ensures
        r1.pipeline_id == r2.pipeline_id,
        r1.total_duration_ms == r2.total_duration_ms,
        r1.input_bytes == r2.input_bytes,
        r1.output_bytes == r2.output_bytes,
        r1.overall_cr == r2.overall_cr,
        r1.stages@.len() == r2.stages@.len(),
        forall|i: int|
            0 <= i < r1.stages@.len() ==> {
                &&& (#[trigger] r1.stages@[i]).stage_type == r2.stages@[i].stage_type
                &&& r1.stages@[i].duration_ms == r2.stages@[i].duration_ms
                &&& r1.stages@[i].input_bytes == r2.stages@[i].input_bytes
                &&& r1.stages@[i].output_bytes == r2.stages@[i].output_bytes
                &&& r1.stages@[i].tiles_count == r2.stages@[i].tiles_count
                &&& r1.stages@[i].cr == r2.stages@[i].cr
            },
{
    assert forall|i: int| 0 <= i < r1.stages@.len() implies {
        &&& (#[trigger] r1.stages@[i]).stage_type == r2.stages@[i].stage_type
        &&& r1.stages@[i].duration_ms == r2.stages@[i].duration_ms
        &&& r1.stages@[i].input_bytes == r2.stages@[i].input_bytes
        &&& r1.stages@[i].output_bytes == r2.stages@[i].output_bytes
        &&& r1.stages@[i].tiles_count == r2.stages@[i].tiles_count
        &&& r1.stages@[i].cr == r2.stages@[i].cr
    } by {
        assert(estimates_step(r1.stages@[i], stages, i, input_len, kinds, estimates));
        assert(estimates_step(r2.stages@[i], stages, i, input_len, kinds, estimates));
    }
}

// ---------------------------------------------------------------------------
// Numbers, key order, conditions and estimates
// ---------------------------------------------------------------------------

/// The decimal rendering of a number is its digits: nothing but ASCII
/// digits, at least one, no leading zero, the last digit is `n % 10`, the
/// others render `n / 10`, and read back they give `n`.
pub proof fn law_decimal_digits(n: nat)
    ensures
        decimal(n).len() >= 1,
        all_digits(decimal(n)),
        digits_value(decimal(n)) == n,
        (decimal(n).len() == 1) <==> n < 10,
        n >= 10 ==> decimal(n)[0] != '0',
        decimal(n).last() as u32 == 48 + n % 10,
        n >= 10 ==> digits_value(decimal(n).drop_last()) == n / 10,
    decreases n,
{
    if n >= 10 {
        law_decimal_digits(n / 10);
        let d = decimal(n);
        assert(d == decimal(n / 10).push(digit_char(n % 10)));
        assert(d.drop_last() =~= decimal(n / 10));
        assert(d[0] == decimal(n / 10)[0]);
        assert(all_digits(d)) by {
            assert forall|i: int| 0 <= i < d.len() implies '0' <= #[trigger] d[i] && d[i] <= '9' by {
                if i < d.len() - 1 {
                    assert(d[i] == decimal(n / 10)[i]);
                }
            }
        }
        if n / 10 >= 10 {
        } else {
            assert(decimal(n / 10) == seq![digit_char(n / 10)]);
            assert(n / 10 >= 1);
        }
        assert(d.last() as u32 == 48 + n % 10);
        assert(digits_value(d) == digits_value(d.drop_last()) * 10 + ((d.last() as u32) - 48) as nat);
        assert(n == (n / 10) * 10 + n % 10);
    } else {
        let d = decimal(n);
        assert(d == seq![digit_char(n)]);
        assert(d.drop_last() =~= Seq::<char>::empty());
        assert(d.last() as u32 == 48 + n);
        assert(digits_value(d) == digits_value(d.drop_last()) * 10 + ((d.last() as u32) - 48) as nat);
    }
}

/// Parsing a number's decimal rendering gives the number back.
pub proof fn law_parse_decimal(n: usize)
    ensures
        parse_usize(decimal(n as nat)) == Some(n),
{
    law_decimal_digits(n as nat);
    let d = decimal(n as nat);
    assert(d[0] != '+');
    assert(unsigned_body(d) == d);
}

/// Parsing reads decimal digits one after another: appending a digit `c` to
/// digits that parse as `m` parses as `m * 10 + c` when that fits in a
/// `usize`, and fails when it does not; a text holding a character other
/// than a digit (after one leading `+`) does not parse; one leading `+` is
/// skipped.
pub proof fn law_parse_digits(s: Seq<char>, c: char, m: usize)
    ensures
        all_digits(s) && s.len() > 0 && parse_usize(s) == Some(m) && '0' <= c <= '9' ==> parse_usize(
            s.push(c),
        ) == (if m * 10 + (c as u32 - 48) <= usize::MAX {
            Some((m * 10 + (c as u32 - 48)) as usize)
        } else {
            None::<usize>
        }),
        (exists|i: int| 0 <= i < unsigned_body(s).len() && !('0' <= #[trigger] unsigned_body(s)[i] <= '9'))
            ==> parse_usize(s) is None,
        s.len() > 0 && s[0] != '+' ==> parse_usize(seq!['+'] + s) == parse_usize(s),
{
    if all_digits(s) && s.len() > 0 && parse_usize(s) == Some(m) && '0' <= c <= '9' {
        let t = s.push(c);
        assert(s[0] != '+');
        assert(unsigned_body(s) == s);
        assert(t[0] == s[0]);
        assert(unsigned_body(t) == t);
        assert(t.drop_last() =~= s);
        assert(all_digits(t)) by {
            assert forall|i: int| 0 <= i < t.len() implies '0' <= #[trigger] t[i] && t[i] <= '9' by {
                if i < s.len() {
                    assert(t[i] == s[i]);
                }
            }
        }
        assert(digits_value(t) == digits_value(s) * 10 + (c as u32 - 48));
    }
    if s.len() > 0 && s[0] != '+' {
        assert((seq!['+'] + s).drop_first() =~= s);
        assert(unsigned_body(seq!['+'] + s) == s);
        assert(unsigned_body(s) == s);
    }
}

/// Where two texts first differ: they agree before `i`, and at `i` either
/// the first has ended while the second goes on, or both go on and the
/// first has the smaller code point.
pub open spec fn first_difference(a: Seq<char>, b: Seq<char>, i: int) -> bool {
    &&& 0 <= i <= a.len()
    &&& i <= b.len()
    &&& a.take(i) == b.take(i)
    &&& ((i == a.len() && i < b.len()) || (i < a.len() && i < b.len() && (a[i] as u32) < (b[i] as u32)))
}

/// The key order is `str::cmp` order: `a` comes before `b` exactly when, at
/// the first place they differ, `a` has ended or has the smaller character;
/// so a proper prefix comes before every longer text that starts with it.
pub proof fn law_lex_order(a: Seq<char>, b: Seq<char>)
    ensures
        lex_less(a, b) <==> exists|i: int| #[trigger] first_difference(a, b, i),
        a.len() < b.len() && b.take(a.len() as int) == a ==> lex_less(a, b),
    decreases a.len(),
{
    if a.len() == 0 {
        if b.len() > 0 {
            assert(a.take(0) =~= b.take(0));
            assert(first_difference(a, b, 0));
        }
    } else if b.len() == 0 {
    } else if a[0] != b[0] {
        if (a[0] as u32) < (b[0] as u32) {
            assert(a.take(0) =~= b.take(0));
            assert(first_difference(a, b, 0));
        }
        assert forall|i: int| !#[trigger] first_difference(a, b, i) || (a[0] as u32) < (b[0] as u32) by {
            if first_difference(a, b, i) && i > 0 {
                assert(a.take(i)[0] == b.take(i)[0]);
            }
        }
        if a.len() < b.len() && b.take(a.len() as int) == a {
            assert(b.take(a.len() as int)[0] == b[0]);
        }
        vstd::utf8::char_u32_cast(a[0], a[0] as u32);
        vstd::utf8::char_u32_cast(b[0], b[0] as u32);
    } else {
        let a1 = a.drop_first();
        let b1 = b.drop_first();
        law_lex_order(a1, b1);
        if lex_less(a, b) {
            let j = choose|j: int| #[trigger] first_difference(a1, b1, j);
            assert(a.take(j + 1) =~= seq![a[0]] + a1.take(j));
            assert(b.take(j + 1) =~= seq![b[0]] + b1.take(j));
            assert(first_difference(a, b, j + 1));
        }
        assert forall|i: int| #[trigger] first_difference(a, b, i) implies lex_less(a, b) by {
            assert(i != 0);
            assert(a1.take(i - 1) =~= a.take(i).drop_first());
            assert(b1.take(i - 1) =~= b.take(i).drop_first());
            assert(first_difference(a1, b1, i - 1));
        }
        if a.len() < b.len() && b.take(a.len() as int) == a {
            assert(b1.take(a1.len() as int) =~= b.take(a.len() as int).drop_first());
        }
    }
}

/// The five condition names are pairwise distinct (they differ in length).
proof fn lemma_condition_names()
    ensures
        "contains"@.len() == 8,
        "equals"@.len() == 6,
        "starts_with"@.len() == 11,
        "ends_with"@.len() == 9,
        "not_contains"@.len() == 12,
{
    reveal_strlit("contains");
    reveal_strlit("equals");
    reveal_strlit("starts_with");
    reveal_strlit("ends_with");
    reveal_strlit("not_contains");
}

/// What each filter condition keeps, on lower-cased text: `contains` a line
/// holding the value somewhere, `equals` a line that is the value,
/// `starts_with` a line whose first characters are the value (a value found
/// only later does not count), `ends_with` a line whose last characters are
/// the value, `not_contains` a line not holding it anywhere.
pub proof fn law_filter_conditions(line: Seq<char>, value: Seq<char>)
    ensures
        passes("contains"@, line, value) <==> exists|i: int|
            0 <= i && i + value.len() <= line.len() && #[trigger] line.subrange(i, i + value.len())
                == value,
        passes("equals"@, line, value) <==> line == value,
        passes("starts_with"@, line, value) <==> value.len() <= line.len() && line.take(
            value.len() as int,
        ) == value,
        passes("ends_with"@, line, value) <==> value.len() <= line.len() && line.skip(
            line.len() - value.len(),
        ) == value,
        passes("not_contains"@, line, value) <==> !exists|i: int|
            0 <= i && i + value.len() <= line.len() && #[trigger] line.subrange(i, i + value.len())
                == value,
{
    lemma_condition_names();
    if value.len() <= line.len() {
        assert(line.take(value.len() as int) =~= line.subrange(0, value.len() as int));
        assert(line.skip(line.len() - value.len()) =~= line.subrange(
            line.len() - value.len(),
            line.len() as int,
        ));
    }
    if contains(line, value) {
        let i = choose|i: int| occurs_at(line, value, i);
        assert(line.subrange(i, i + value.len()) == value);
    }
    assert forall|i: int|
        0 <= i && i + value.len() <= line.len() && #[trigger] line.subrange(i, i + value.len())
            == value implies contains(line, value) by {
        assert(occurs_at(line, value, i));
    }
}

/// Filtering keeps, in order, exactly the lines whose lower-cased text
/// passes the condition against the lower-cased value.
pub proof fn law_filter_keeps(ls: Seq<Seq<char>>, op: Seq<char>, value: Seq<char>)
    ensures
        kept_lines(ls, op, value) == ls.filter(
            |l: Seq<char>| passes(op, unicode_lowercase(l), unicode_lowercase(value)),
        ),
    decreases ls.len(),
{
    reveal_with_fuel(Seq::filter, 1);
    if ls.len() > 0 {
        law_filter_keeps(ls.drop_last(), op, value);
    }
}

/// The estimated tile count of a stage kind: one per 64 input bytes for
/// decomposition and one per 128 bytes for every other kind but assembly
/// (at least one in both cases), and one for assembly; all kinds other
/// than decomposition and assembly estimate alike.
pub proof fn law_estimate_tiles(t: StageType, n: nat)
    ensures
        estimate_tiles_spec(t, n) >= 1,
        t == StageType::Assemble ==> estimate_tiles_spec(t, n) == 1,
        t == StageType::Decompose ==> (n < 128 && estimate_tiles_spec(t, n) == 1) || (n >= 128
            && estimate_tiles_spec(t, n) * 64 <= n < (estimate_tiles_spec(t, n) + 1) * 64),
        t != StageType::Decompose && t != StageType::Assemble ==> (n < 256 && estimate_tiles_spec(t, n)
            == 1) || (n >= 256 && estimate_tiles_spec(t, n) * 128 <= n < (estimate_tiles_spec(t, n) + 1)
            * 128),
        t != StageType::Decompose && t != StageType::Assemble ==> estimate_tiles_spec(t, n)
            == estimate_tiles_spec(StageType::Transform, n) && estimate_tiles_spec(t, n)
            == estimate_tiles_spec(StageType::Filter, n),
{
}

} // verus!

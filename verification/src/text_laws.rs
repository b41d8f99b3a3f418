//! Properties of the text operations that the stage laws are built on:
//! splitting undoes joining, joining undoes splitting, and the lines of
//! joined lines are those lines.
use vstd::prelude::*;
use crate::text::{
    drop_cr, index_of, is_white, join, lemma_index_of, lines, split, trim, trim_back, trim_front,
};

verus! {

broadcast use vstd::seq::group_seq_axioms;

/// Whether `c` does not occur in `s`.
pub open spec fn lacks(s: Seq<char>, c: char) -> bool {
    forall|i: int| 0 <= i < s.len() ==> s[i] != c
}

/// The first occurrence of `c` in `a + [c] + b`, when `a` lacks `c`, ends `a`.
pub proof fn lemma_index_of_after(a: Seq<char>, c: char, b: Seq<char>)
    requires
        lacks(a, c),
    ensures
        index_of(a + seq![c] + b, c) == a.len(),
{
    let s = a + seq![c] + b;
    lemma_index_of(s, c);
    assert(s[a.len() as int] == c);
    let j = index_of(s, c);
    if j != a.len() {
        if j < a.len() {
            assert(s[j] == a[j]);
        }
    }
}

/// `index_of` is -1 on text that lacks the character.
pub proof fn lemma_index_of_absent(a: Seq<char>, c: char)
    requires
        lacks(a, c),
    ensures
        index_of(a, c) == -1,
{
    lemma_index_of(a, c);
}

/// Joining with a first part split off.
pub proof fn lemma_join_front(parts: Seq<Seq<char>>, sep: Seq<char>)
    requires
        parts.len() >= 2,
    ensures
        join(parts, sep) == parts[0] + sep + join(parts.drop_first(), sep),
    decreases parts.len(),
{
    if parts.len() == 2 {
        assert(parts.drop_last() =~= seq![parts[0]]);
        assert(parts.drop_first() =~= seq![parts[1]]);
        assert(join(parts.drop_last(), sep) == parts[0]);
        assert(join(parts.drop_first(), sep) == parts[1]);
    } else {
        lemma_join_front(parts.drop_last(), sep);
        assert(parts.drop_last().drop_first() =~= parts.drop_first().drop_last());
        assert(parts.drop_first().last() == parts.last());
        assert(join(parts, sep) =~= parts[0] + sep + join(parts.drop_first(), sep));
    }
}

/// Splitting distributes over a delimiter.
pub proof fn lemma_split_concat(x: Seq<char>, d: char, y: Seq<char>)
    ensures
        split(x + seq![d] + y, d) == split(x, d) + split(y, d),
    decreases x.len(),
{
    let s = x + seq![d] + y;
    lemma_index_of(x, d);
    if index_of(x, d) == -1 {
        lemma_index_of_after(x, d, y);
        assert(s.take(x.len() as int) =~= x);
        assert(s.skip(x.len() as int + 1) =~= y);
    } else {
        let i = index_of(x, d);
        lemma_index_of(s, d);
        assert(s[i] == d);
        let j = index_of(s, d);
        if j != i {
            if j < i {
                assert(s[j] == x[j]);
            } else {
                assert(s[i] == d);
            }
        }
        assert(s.take(i) =~= x.take(i));
        assert(s.skip(i + 1) =~= x.skip(i + 1) + seq![d] + y);
        lemma_split_concat(x.skip(i + 1), d, y);
    }
}

/// Splitting text that lacks the delimiter gives the text.
pub proof fn lemma_split_absent(x: Seq<char>, d: char)
    requires
        lacks(x, d),
    ensures
        split(x, d) == seq![x],
{
    lemma_index_of_absent(x, d);
}

/// Splitting undoes joining, when no part holds the delimiter.
pub proof fn lemma_split_join(parts: Seq<Seq<char>>, d: char)
    requires
        parts.len() >= 1,
        forall|i: int| 0 <= i < parts.len() ==> lacks(#[trigger] parts[i], d),
    ensures
        split(join(parts, seq![d]), d) == parts,
    decreases parts.len(),
{
    if parts.len() == 1 {
        lemma_split_absent(parts[0], d);
        assert(seq![parts[0]] =~= parts);
    } else {
        let init = parts.drop_last();
        assert forall|i: int| 0 <= i < init.len() implies lacks(#[trigger] init[i], d) by {
            assert(init[i] == parts[i]);
        }
        lemma_split_join(init, d);
        lemma_split_concat(join(init, seq![d]), d, parts.last());
        lemma_split_absent(parts.last(), d);
        assert(init + seq![parts.last()] =~= parts);
    }
}

/// Joining undoes splitting.
pub proof fn lemma_join_split(s: Seq<char>, d: char)
    ensures
        join(split(s, d), seq![d]) == s,
    decreases s.len(),
{
    let i = index_of(s, d);
    lemma_index_of(s, d);
    if i < 0 {
    } else {
        let rest = split(s.skip(i + 1), d);
        lemma_join_split(s.skip(i + 1), d);
        let all = seq![s.take(i)] + rest;
        assert(rest.len() >= 1) by {
            lemma_split_nonempty(s.skip(i + 1), d);
        }
        lemma_join_front(all, seq![d]);
        assert(all.drop_first() =~= rest);
        assert(s.take(i) + seq![d] + s.skip(i + 1) =~= s);
    }
}

/// Splitting always gives at least one piece.
pub proof fn lemma_split_nonempty(s: Seq<char>, d: char)
    ensures
        split(s, d).len() >= 1,
    decreases s.len(),
{
    lemma_index_of(s, d);
    if index_of(s, d) >= 0 {
        lemma_split_nonempty(s.skip(index_of(s, d) + 1), d);
    }
}

/// Whether `s` ends with a carriage return.
pub open spec fn ends_cr(s: Seq<char>) -> bool {
    s.len() > 0 && s.last() == '\r'
}

/// The lines of lines joined with line feeds are those lines, when none
/// holds a line feed or ends with a carriage return, and the last is not
/// empty.
pub proof fn lemma_lines_join(parts: Seq<Seq<char>>)
    requires
        forall|i: int|
            0 <= i < parts.len() ==> lacks(#[trigger] parts[i], '\n') && !ends_cr(parts[i]),
        parts.len() > 0 ==> parts.last().len() > 0,
    ensures
        lines(join(parts, seq!['\n'])) == parts,
    decreases parts.len(), 0int,
{
    if parts.len() == 0 {
        assert(lines(Seq::<char>::empty()) =~= parts);
    } else if parts.len() == 1 {
        let p = parts[0];
        lemma_index_of_absent(p, '\n');
        assert(seq![p] =~= parts);
    } else {
        let rest = parts.drop_first();
        assert forall|i: int| 0 <= i < rest.len() implies lacks(#[trigger] rest[i], '\n') && !ends_cr(
            rest[i],
        ) by {
            assert(rest[i] == parts[i + 1]);
        }
        lemma_lines_join_head(parts[0], rest);
        assert(!ends_cr(parts[0]));
        assert(seq![parts[0]] + rest =~= parts);
    }
}

/// The lines of a first line and further lines, joined with line feeds: the
/// first loses a carriage return at its end, the others are kept, when none
/// holds a line feed, the others do not end with a carriage return, and the
/// last is not empty.
pub proof fn lemma_lines_join_head(head: Seq<char>, rest: Seq<Seq<char>>)
    requires
        lacks(head, '\n'),
        rest.len() > 0,
        rest.last().len() > 0,
        forall|i: int|
            0 <= i < rest.len() ==> lacks(#[trigger] rest[i], '\n') && !ends_cr(rest[i]),
    ensures
        lines(join(seq![head] + rest, seq!['\n'])) == seq![drop_cr(head)] + rest,
    decreases rest.len(), 1int,
{
    let parts = seq![head] + rest;
    assert(parts.drop_first() =~= rest);
    lemma_join_front(parts, seq!['\n']);
    lemma_lines_join(rest);
    let s = head + seq!['\n'] + join(rest, seq!['\n']);
    lemma_index_of_after(head, '\n', join(rest, seq!['\n']));
    assert(s.take(head.len() as int) =~= head);
    assert(s.skip(head.len() as int + 1) =~= join(rest, seq!['\n']));
}

/// Trimming keeps a text free of a character.
pub proof fn lemma_trim_lacks(s: Seq<char>, c: char)
    requires
        lacks(s, c),
    ensures
        lacks(trim(s), c),
{
    lemma_trim_front_lacks(s, c);
    lemma_trim_back_lacks(trim_front(s, true, ' '), c);
}

/// Trimming the front keeps a text free of a character.
proof fn lemma_trim_front_lacks(s: Seq<char>, c: char)
    requires
        lacks(s, c),
    ensures
        lacks(trim_front(s, true, ' '), c),
    decreases s.len(),
{
    if s.len() > 0 && is_white(s[0]) {
        assert(lacks(s.drop_first(), c)) by {
            assert forall|k: int| 0 <= k < s.drop_first().len() implies s.drop_first()[k] != c by {
                assert(s.drop_first()[k] == s[k + 1]);
            }
        }
        lemma_trim_front_lacks(s.drop_first(), c);
    }
}

/// Trimming the back keeps a text free of a character.
proof fn lemma_trim_back_lacks(s: Seq<char>, c: char)
    requires
        lacks(s, c),
    ensures
        lacks(trim_back(s, true, ' '), c),
    decreases s.len(),
{
    if s.len() > 0 && is_white(s.last()) {
        assert(lacks(s.drop_last(), c)) by {
            assert forall|k: int| 0 <= k < s.drop_last().len() implies s.drop_last()[k] != c by {
                assert(s.drop_last()[k] == s[k]);
            }
        }
        lemma_trim_back_lacks(s.drop_last(), c);
    }
}

/// Trimming the front gives the text or a shorter one.
proof fn lemma_trim_front_shorter(s: Seq<char>)
    ensures
        trim_front(s, true, ' ') == s || trim_front(s, true, ' ').len() < s.len(),
    decreases s.len(),
{
    if s.len() > 0 && is_white(s[0]) {
        lemma_trim_front_shorter(s.drop_first());
    }
}

/// Trimming the back gives a text no longer than the text.
proof fn lemma_trim_back_shorter(s: Seq<char>)
    ensures
        trim_back(s, true, ' ').len() <= s.len(),
    decreases s.len(),
{
    if s.len() > 0 && is_white(s.last()) {
        lemma_trim_back_shorter(s.drop_last());
    }
}

/// A text that trimming leaves as it is does not end with white space.
pub proof fn lemma_trimmed_last(s: Seq<char>)
    requires
        trim(s) == s,
        s.len() > 0,
    ensures
        !is_white(s.last()),
{
    let f = trim_front(s, true, ' ');
    lemma_trim_front_shorter(s);
    lemma_trim_back_shorter(f);
    assert(f == s);
    if is_white(s.last()) {
        lemma_trim_back_shorter(s.drop_last());
    }
}

/// Dropping a last character that is not the delimiter keeps the number of
/// pieces of a split.
pub proof fn lemma_split_drop_last(s: Seq<char>, d: char)
    requires
        s.len() > 0,
        s.last() != d,
    ensures
        split(s.drop_last(), d).len() == split(s, d).len(),
    decreases s.len(),
{
    let t = s.drop_last();
    lemma_index_of(s, d);
    lemma_index_of(t, d);
    let i = index_of(s, d);
    if i < 0 {
        assert(lacks(s, d));
        assert(lacks(t, d)) by {
            assert forall|k: int| 0 <= k < t.len() implies t[k] != d by {
                assert(t[k] == s[k]);
            }
        }
        lemma_split_absent(s, d);
        lemma_split_absent(t, d);
    } else {
        assert(i < s.len() - 1);
        assert(t[i] == d);
        let j = index_of(t, d);
        if j != i {
            if 0 <= j < i {
                assert(t[j] == s[j]);
            }
        }
        assert(j == i);
        let r = s.skip(i + 1);
        assert(t.skip(i + 1) =~= r.drop_last());
        assert(r.last() == s.last());
        lemma_split_drop_last(r, d);
    }
}

/// Trimming keeps text that has a character other than white space.
pub proof fn lemma_trim_nonempty(s: Seq<char>, k: int)
    requires
        0 <= k < s.len(),
        !is_white(s[k]),
    ensures
        trim(s).len() > 0,
{
    lemma_trim_front_keeps(s, k);
    let f = trim_front(s, true, ' ');
    let m = choose|m: int| 0 <= m < f.len() && !is_white(f[m]);
    lemma_trim_back_keeps(f, m);
}

/// Trimming white space from the front keeps a character that is not white
/// space.
pub proof fn lemma_trim_front_keeps(s: Seq<char>, k: int)
    requires
        0 <= k < s.len(),
        !is_white(s[k]),
    ensures
        exists|m: int| 0 <= m < trim_front(s, true, ' ').len() && !is_white(
            #[trigger] trim_front(s, true, ' ')[m],
        ),
    decreases s.len(),
{
    if s.len() > 0 && is_white(s[0]) {
        assert(k > 0);
        assert(s.drop_first()[k - 1] == s[k]);
        lemma_trim_front_keeps(s.drop_first(), k - 1);
        assert(trim_front(s, true, ' ') == trim_front(s.drop_first(), true, ' '));
    } else {
        assert(!is_white(trim_front(s, true, ' ')[k]));
    }
}

/// Trimming white space from the back keeps a character that is not white
/// space.
pub proof fn lemma_trim_back_keeps(s: Seq<char>, k: int)
    requires
        0 <= k < s.len(),
        !is_white(s[k]),
    ensures
        trim_back(s, true, ' ').len() > 0,
    decreases s.len(),
{
    if s.len() > 0 && is_white(s.last()) {
        assert(k < s.len() - 1);
        assert(s.drop_last()[k] == s[k]);
        lemma_trim_back_keeps(s.drop_last(), k);
    }
}


/// A concatenation lacks what both parts lack.
pub proof fn lemma_concat_lacks(a: Seq<char>, b: Seq<char>, c: char)
    requires
        lacks(a, c),
        lacks(b, c),
    ensures
        lacks(a + b, c),
{
    assert forall|i: int| 0 <= i < (a + b).len() implies (a + b)[i] != c by {
        if i < a.len() {
            assert((a + b)[i] == a[i]);
        } else {
            assert((a + b)[i] == b[i - a.len()]);
        }
    }
}

/// Joined parts lack what the parts and the separator lack.
pub proof fn lemma_join_lacks(parts: Seq<Seq<char>>, sep: Seq<char>, c: char)
    requires
        lacks(sep, c),
        forall|i: int| 0 <= i < parts.len() ==> lacks(#[trigger] parts[i], c),
    ensures
        lacks(join(parts, sep), c),
    decreases parts.len(),
{
    if parts.len() == 0 {
    } else if parts.len() == 1 {
        assert(lacks(parts[0], c));
    } else {
        let init = parts.drop_last();
        assert forall|i: int| 0 <= i < init.len() implies lacks(#[trigger] init[i], c) by {
            assert(init[i] == parts[i]);
        }
        lemma_join_lacks(init, sep, c);
        assert(lacks(parts.last(), c));
        lemma_concat_lacks(join(init, sep), sep, c);
        lemma_concat_lacks(join(init, sep) + sep, parts.last(), c);
    }
}

/// The pieces of a split lack what the text lacks.
pub proof fn lemma_split_lacks(s: Seq<char>, d: char, c: char)
    requires
        lacks(s, c),
    ensures
        forall|i: int| 0 <= i < split(s, d).len() ==> lacks(#[trigger] split(s, d)[i], c),
    decreases s.len(),
{
    lemma_index_of(s, d);
    let i = index_of(s, d);
    if i >= 0 {
        assert(lacks(s.take(i), c)) by {
            assert forall|k: int| 0 <= k < s.take(i).len() implies s.take(i)[k] != c by {
                assert(s.take(i)[k] == s[k]);
            }
        }
        let rest = s.skip(i + 1);
        assert(lacks(rest, c)) by {
            assert forall|k: int| 0 <= k < rest.len() implies rest[k] != c by {
                assert(rest[k] == s[k + i + 1]);
            }
        }
        lemma_split_lacks(s.skip(i + 1), d, c);
        let pieces = split(s, d);
        assert forall|k: int| 0 <= k < pieces.len() implies lacks(#[trigger] pieces[k], c) by {
            if k > 0 {
                assert(pieces[k] == split(s.skip(i + 1), d)[k - 1]);
            }
        }
    }
}

/// Joined parts are at least as long as the last part.
pub proof fn lemma_join_len(parts: Seq<Seq<char>>, sep: Seq<char>)
    requires
        parts.len() > 0,
    ensures
        join(parts, sep).len() >= parts.last().len(),
{
}

/// Joined parts hold the characters of the last part at its end.
pub proof fn lemma_join_last(parts: Seq<Seq<char>>, sep: Seq<char>, k: int)
    requires
        parts.len() > 0,
        0 <= k < parts.last().len(),
    ensures
        join(parts, sep)[join(parts, sep).len() - parts.last().len() + k] == parts.last()[k],
{
    if parts.len() > 1 {
        let a = join(parts.drop_last(), sep) + sep;
        assert(join(parts, sep) == a + parts.last());
    }
}

} // verus!

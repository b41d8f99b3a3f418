//! Executable text operations on character vectors, each proved to compute
//! the corresponding specification of `text`.
use vstd::prelude::*;
use vstd::utf8::{char_is_scalar, encode_scalar, encode_utf8};
use crate::text::{
    all_digits, chunks, contains, decimal, digit_char, digits_value, lex_less, parse_i64, parse_usize,
    signed_body, unsigned_body,
    replace_all, drop_cr, ends_with, index_of, is_white, join, lemma_index_of, lines, occurs_at, split,
    starts_with, trim, trim_back, trim_char, trim_front,
};

verus! {

broadcast use vstd::seq::group_seq_axioms;

/// The contents of each character vector in `v`.
pub open spec fn texts(v: Seq<Vec<char>>) -> Seq<Seq<char>> {
    v.map_values(|t: Vec<char>| t@)
}

/// Position of the first `c` at or after `start`.
pub fn find_char(v: &Vec<char>, c: char, start: usize) -> (r: Option<usize>)
    requires
        start <= v.len(),
    ensures
        r is None ==> index_of(v@.skip(start as int), c) == -1,
        r matches Some(i) ==> start <= i < v.len() && index_of(v@.skip(start as int), c) == i
            - start,
{
    let mut i = start;
    while i < v.len()
        invariant
            start <= i <= v.len(),
            forall|k: int| start <= k < i ==> v@[k] != c,
        decreases v.len() - i,
    {
        if v[i] == c {
            proof {
                let s = v@.skip(start as int);
                lemma_index_of(s, c);
                let j = index_of(s, c);
                if j == -1 {
                    assert(s[i - start] == c);
                } else if j < i - start {
                    assert(s[j] == v@[start + j]);
                } else if j > i - start {
                    assert(s[i - start] == c);
                }
            }
            return Some(i);
        }
        i = i + 1;
    }
    proof {
        let s = v@.skip(start as int);
        lemma_index_of(s, c);
        let j = index_of(s, c);
        if j != -1 {
            assert(s[j] == v@[start + j]);
        }
    }
    None
}

/// A copy of `v[a..b]`.
pub fn copy_range(v: &Vec<char>, a: usize, b: usize) -> (r: Vec<char>)
    requires
        a <= b <= v.len(),
    ensures
        r@ == v@.subrange(a as int, b as int),
{
    let mut r: Vec<char> = Vec::new();
    let mut i = a;
    while i < b
        invariant
            a <= i <= b <= v.len(),
            r@ == v@.subrange(a as int, i as int),
        decreases b - i,
    {
        r.push(v[i]);
        i = i + 1;
    }
    r
}

/// Appending a vector appends its contents.
pub proof fn lemma_texts_push(v: Seq<Vec<char>>, t: Vec<char>)
    ensures
        texts(v.push(t)) == texts(v).push(t@),
{
    assert(texts(v.push(t)) =~= texts(v).push(t@));
}

/// The lines of `v`, as `str::lines` yields them.
pub fn split_lines(v: &Vec<char>) -> (r: Vec<Vec<char>>)
    ensures
        texts(r@) == lines(v@),
{
    let mut out: Vec<Vec<char>> = Vec::new();
    let mut start: usize = 0;
    assert(v@.skip(0) =~= v@);
    assert(texts(out@) + lines(v@) =~= lines(v@));
    while start < v.len()
        invariant
            start <= v.len(),
            lines(v@) == texts(out@) + lines(v@.skip(start as int)),
        decreases v.len() - start,
    {
        let ghost rest = v@.skip(start as int);
        let ghost before = out@;
        match find_char(v, '\n', start) {
            None => {
                let piece = copy_range(v, start, v.len());
                assert(piece@ =~= rest);
                assert(lines(rest) == seq![rest]);
                out.push(piece);
                proof { lemma_texts_push(before, piece); }
                start = v.len();
                assert(v@.skip(start as int) =~= Seq::<char>::empty());
                assert(texts(out@) + lines(v@.skip(start as int)) =~= texts(before) + lines(rest));
            },
            Some(i) => {
                let mut piece = copy_range(v, start, i);
                assert(piece@ =~= rest.take(i - start));
                if piece.len() > 0 && piece[piece.len() - 1] == '\r' {
                    piece.pop();
                }
                assert(piece@ =~= drop_cr(rest.take(i - start)));
                assert(rest.skip(i - start + 1) =~= v@.skip(i + 1));
                assert(lines(rest) == seq![drop_cr(rest.take(i - start))] + lines(v@.skip(i + 1)));
                out.push(piece);
                proof { lemma_texts_push(before, piece); }
                start = i + 1;
                assert(texts(out@) + lines(v@.skip(start as int)) =~= texts(before) + lines(rest));
            },
        }
    }
    assert(v@.skip(start as int) =~= Seq::<char>::empty());
    assert(texts(out@) + lines(Seq::<char>::empty()) =~= texts(out@));
    out
}


/// A copy of `v`.
pub fn copy_text(v: &Vec<char>) -> (r: Vec<char>)
    ensures
        r@ == v@,
{
    let r = copy_range(v, 0, v.len());
    assert(r@ =~= v@);
    r
}

/// Appends the characters of `src` to `dst`.
pub fn append_text(dst: &mut Vec<char>, src: &Vec<char>)
    ensures
        final(dst)@ == old(dst)@ + src@,
{
    let ghost d0 = dst@;
    let mut i: usize = 0;
    while i < src.len()
        invariant
            i <= src.len(),
            dst@ == d0 + src@.take(i as int),
        decreases src.len() - i,
    {
        dst.push(src[i]);
        i = i + 1;
        assert(dst@ =~= d0 + src@.take(i as int));
    }
    assert(src@.take(i as int) =~= src@);
}

/// `parts` joined with `sep` between consecutive parts.
pub fn join_texts(parts: &Vec<Vec<char>>, sep: &Vec<char>) -> (r: Vec<char>)
    ensures
        r@ == join(texts(parts@), sep@),
{
    let mut r: Vec<char> = Vec::new();
    let mut i: usize = 0;
    assert(texts(parts@).take(0) =~= Seq::<Seq<char>>::empty());
    while i < parts.len()
        invariant
            i <= parts.len(),
            r@ == join(texts(parts@).take(i as int), sep@),
        decreases parts.len() - i,
    {
        let ghost prev = texts(parts@).take(i as int);
        if i > 0 {
            append_text(&mut r, sep);
        }
        append_text(&mut r, &parts[i]);
        i = i + 1;
        let ghost cur = texts(parts@).take(i as int);
        assert(cur.drop_last() =~= prev);
        if i == 1 {
            assert(join(cur, sep@) == cur[0]);
            assert(r@ =~= cur[0]);
        } else {
            assert(join(cur, sep@) == join(prev, sep@) + sep@ + cur.last());
        }
    }
    assert(texts(parts@).take(i as int) =~= texts(parts@));
    r
}

/// The pieces of `v` between occurrences of `d`, as `str::split` yields them.
pub fn split_on(v: &Vec<char>, d: char) -> (r: Vec<Vec<char>>)
    ensures
        texts(r@) == split(v@, d),
{
    let mut out: Vec<Vec<char>> = Vec::new();
    let mut start: usize = 0;
    assert(v@.skip(0) =~= v@);
    assert(texts(out@) + split(v@, d) =~= split(v@, d));
    loop
        invariant_except_break
            start <= v.len(),
            split(v@, d) == texts(out@) + split(v@.skip(start as int), d),
        ensures
            split(v@, d) == texts(out@),
        decreases v.len() - start,
    {
        let ghost rest = v@.skip(start as int);
        let ghost before = out@;
        match find_char(v, d, start) {
            None => {
                let piece = copy_range(v, start, v.len());
                assert(piece@ =~= rest);
                out.push(piece);
                proof { lemma_texts_push(before, piece); }
                assert(texts(out@) =~= texts(before) + split(rest, d));
                break;
            },
            Some(i) => {
                let piece = copy_range(v, start, i);
                assert(piece@ =~= rest.take(i - start));
                assert(rest.skip(i - start + 1) =~= v@.skip(i + 1));
                out.push(piece);
                proof { lemma_texts_push(before, piece); }
                start = i + 1;
                assert(texts(out@) + split(v@.skip(start as int), d) =~= texts(before) + split(rest, d));
            },
        }
    }
    out
}

/// `char::is_whitespace`.
pub fn is_white_char(c: char) -> (r: bool)
    ensures
        r == is_white(c),
{
    ('\u{9}' <= c && c <= '\u{d}') || c == ' ' || c == '\u{85}' || c == '\u{a0}' || c == '\u{1680}'
        || ('\u{2000}' <= c && c <= '\u{200a}') || c == '\u{2028}' || c == '\u{2029}' || c
        == '\u{202f}' || c == '\u{205f}' || c == '\u{3000}'
}

/// Whether `c` is stripped: white space when `white`, else equal to `t`.
fn strips(c: char, white: bool, t: char) -> (r: bool)
    ensures
        r == (if white { is_white(c) } else { c == t }),
{
    if white {
        is_white_char(c)
    } else {
        c == t
    }
}

/// `v` with the stripped characters removed from both ends.
fn strip_ends(v: &Vec<char>, white: bool, t: char) -> (r: Vec<char>)
    ensures
        r@ == trim_back(trim_front(v@, white, t), white, t),
{
    let mut lo: usize = 0;
    assert(v@.skip(0) =~= v@);
    while lo < v.len() && strips(v[lo], white, t)
        invariant
            lo <= v.len(),
            trim_front(v@, white, t) == trim_front(v@.skip(lo as int), white, t),
        decreases v.len() - lo,
    {
        assert(v@.skip(lo as int).drop_first() =~= v@.skip(lo + 1));
        lo = lo + 1;
    }
    let ghost front = v@.skip(lo as int);
    assert(trim_front(front, white, t) == front);
    let mut hi: usize = v.len();
    assert(front =~= v@.subrange(lo as int, hi as int));
    while hi > lo && strips(v[hi - 1], white, t)
        invariant
            lo <= hi <= v.len(),
            trim_back(front, white, t) == trim_back(v@.subrange(lo as int, hi as int), white, t),
        decreases hi - lo,
    {
        assert(v@.subrange(lo as int, hi as int).drop_last() =~= v@.subrange(lo as int, hi - 1));
        hi = hi - 1;
    }
    copy_range(v, lo, hi)
}

/// `str::trim`.
pub fn trim_text(v: &Vec<char>) -> (r: Vec<char>)
    ensures
        r@ == trim(v@),
{
    strip_ends(v, true, ' ')
}

/// `str::trim_matches(c)` for a single character.
pub fn trim_char_text(v: &Vec<char>, c: char) -> (r: Vec<char>)
    ensures
        r@ == trim_char(v@, c),
{
    strip_ends(v, false, c)
}

/// Whether `p` occurs in `s` at position `i`.
pub fn occurs_at_exec(s: &Vec<char>, p: &Vec<char>, i: usize) -> (r: bool)
    ensures
        r == occurs_at(s@, p@, i as int),
{
    if i > s.len() || p.len() > s.len() - i {
        return false;
    }
    let mut k: usize = 0;
    while k < p.len()
        invariant
            i + p.len() <= s.len(),
            k <= p.len(),
            forall|j: int| 0 <= j < k ==> s@[i + j] == p@[j],
        decreases p.len() - k,
    {
        if s[i + k] != p[k] {
            assert(s@.subrange(i as int, i + p.len())[k as int] != p@[k as int]);
            return false;
        }
        k = k + 1;
    }
    assert(s@.subrange(i as int, i + p.len()) =~= p@);
    true
}

/// `str::contains`.
pub fn contains_text(s: &Vec<char>, p: &Vec<char>) -> (r: bool)
    ensures
        r == contains(s@, p@),
{
    if p.len() > s.len() {
        assert forall|i: int| !occurs_at(s@, p@, i) by {}
        return false;
    }
    let mut i: usize = 0;
    loop
        invariant
            p.len() <= s.len(),
            i <= s.len() - p.len(),
            forall|j: int| 0 <= j < i ==> !occurs_at(s@, p@, j),
        ensures
            forall|j: int| 0 <= j <= s.len() - p.len() ==> !occurs_at(s@, p@, j),
        decreases s.len() - p.len() - i,
    {
        if occurs_at_exec(s, p, i) {
            return true;
        }
        if i == s.len() - p.len() {
            break;
        }
        i = i + 1;
    }
    assert forall|j: int| !occurs_at(s@, p@, j) by {}
    false
}

/// `str::starts_with`.
pub fn starts_with_text(s: &Vec<char>, p: &Vec<char>) -> (r: bool)
    ensures
        r == starts_with(s@, p@),
{
    occurs_at_exec(s, p, 0)
}

/// `str::ends_with`.
pub fn ends_with_text(s: &Vec<char>, p: &Vec<char>) -> (r: bool)
    ensures
        r == ends_with(s@, p@),
{
    if p.len() > s.len() {
        false
    } else {
        occurs_at_exec(s, p, s.len() - p.len())
    }
}

/// Equality of character vectors.
pub fn text_eq(a: &Vec<char>, b: &Vec<char>) -> (r: bool)
    ensures
        r == (a@ == b@),
{
    if a.len() != b.len() {
        return false;
    }
    let r = occurs_at_exec(a, b, 0);
    assert(a@.subrange(0, a@.len() as int) =~= a@);
    r
}


/// `str::replace` with a non-empty pattern.
pub fn replace_text(s: &Vec<char>, pat: &Vec<char>, rep: &Vec<char>) -> (r: Vec<char>)
    requires
        pat@.len() > 0,
    ensures
        r@ == replace_all(s@, pat@, rep@),
{
    let mut out: Vec<char> = Vec::new();
    let mut pos: usize = 0;
    assert(s@.skip(0) =~= s@);
    assert(out@ + replace_all(s@, pat@, rep@) =~= replace_all(s@, pat@, rep@));
    while pos < s.len()
        invariant
            pos <= s.len(),
            pat@.len() > 0,
            replace_all(s@, pat@, rep@) == out@ + replace_all(s@.skip(pos as int), pat@, rep@),
        decreases s.len() - pos,
    {
        let ghost rest = s@.skip(pos as int);
        let ghost before = out@;
        let hit = occurs_at_exec(s, pat, pos);
        proof {
            if pos + pat@.len() <= s@.len() {
                assert(rest.subrange(0, pat@.len() as int) =~= s@.subrange(pos as int, pos + pat@.len()));
            }
        }
        assert(hit == occurs_at(rest, pat@, 0));
        if hit {
            append_text(&mut out, rep);
            assert(rest.skip(pat@.len() as int) =~= s@.skip(pos + pat@.len()));
            pos = pos + pat.len();
        } else {
            out.push(s[pos]);
            assert(rest.drop_first() =~= s@.skip(pos + 1));
            pos = pos + 1;
        }
        assert(out@ + replace_all(s@.skip(pos as int), pat@, rep@) =~= before + replace_all(rest, pat@, rep@));
    }
    assert(s@.skip(pos as int) =~= Seq::<char>::empty());
    assert(out@ + replace_all(Seq::<char>::empty(), pat@, rep@) =~= out@);
    out
}

/// `[char]::chunks(n)` with a positive `n`.
pub fn chunk_text(s: &Vec<char>, n: usize) -> (r: Vec<Vec<char>>)
    requires
        n > 0,
    ensures
        texts(r@) == chunks(s@, n as nat),
{
    let mut out: Vec<Vec<char>> = Vec::new();
    let mut pos: usize = 0;
    assert(s@.skip(0) =~= s@);
    assert(texts(out@) + chunks(s@, n as nat) =~= chunks(s@, n as nat));
    while pos < s.len()
        invariant
            pos <= s.len(),
            n > 0,
            chunks(s@, n as nat) == texts(out@) + chunks(s@.skip(pos as int), n as nat),
        decreases s.len() - pos,
    {
        let ghost rest = s@.skip(pos as int);
        let ghost before = out@;
        if s.len() - pos <= n {
            let piece = copy_range(s, pos, s.len());
            assert(piece@ =~= rest);
            out.push(piece);
            proof { lemma_texts_push(before, piece); }
            pos = s.len();
        } else {
            let piece = copy_range(s, pos, pos + n);
            assert(piece@ =~= rest.take(n as int));
            assert(rest.skip(n as int) =~= s@.skip(pos + n));
            out.push(piece);
            proof { lemma_texts_push(before, piece); }
            pos = pos + n;
        }
        assert(texts(out@) + chunks(s@.skip(pos as int), n as nat) =~= texts(before) + chunks(rest, n as nat));
    }
    assert(s@.skip(pos as int) =~= Seq::<char>::empty());
    assert(texts(out@) + chunks(Seq::<char>::empty(), n as nat) =~= texts(out@));
    out
}

/// The character of a decimal digit.
fn digit_of(d: usize) -> (c: char)
    requires
        d < 10,
    ensures
        c == digit_char(d as nat),
{
    ((d as u8) + 48) as char
}

/// Appends the decimal rendering of `n` to `out`.
pub fn push_decimal(out: &mut Vec<char>, n: usize)
    ensures
        final(out)@ == old(out)@ + decimal(n as nat),
    decreases n,
{
    if n < 10 {
        out.push(digit_of(n));
    } else {
        push_decimal(out, n / 10);
        out.push(digit_of(n % 10));
        assert(decimal(n as nat) == decimal((n / 10) as nat).push(digit_char((n % 10) as nat)));
    }
}

/// `digits_value` never decreases as digits are added.
pub proof fn lemma_digits_value_prefix(s: Seq<char>, k: int)
    requires
        0 <= k <= s.len(),
    ensures
        digits_value(s.take(k)) <= digits_value(s),
    decreases s.len(),
{
    if k < s.len() {
        assert(s.drop_last().take(k) =~= s.take(k));
        lemma_digits_value_prefix(s.drop_last(), k);
    } else {
        assert(s.take(k) =~= s);
    }
}

/// `str::parse::<usize>`.
pub fn parse_usize_text(s: &Vec<char>) -> (r: Option<usize>)
    ensures
        r == parse_usize(s@),
{
    let start: usize = if s.len() > 0 && s[0] == '+' {
        1
    } else {
        0
    };
    let ghost body = unsigned_body(s@);
    assert(body =~= s@.skip(start as int));
    if start == s.len() {
        return None;
    }
    let mut v: usize = 0;
    let mut i: usize = start;
    assert(body.take(0) =~= Seq::<char>::empty());
    while i < s.len()
        invariant
            start <= i <= s.len(),
            body == s@.skip(start as int),
            body == unsigned_body(s@),
            body.len() > 0,
            all_digits(body.take(i - start)),
            v as nat == digits_value(body.take(i - start)),
        decreases s.len() - i,
    {
        let c = s[i];
        assert(body[i - start] == c);
        if !('0' <= c && c <= '9') {
            assert(!all_digits(body));

            return None;
        }
        let ghost next = body.take(i - start + 1);
        assert(next.drop_last() =~= body.take(i - start));
        assert(next.last() == c);
        let d: usize = ((c as u32) - 48) as usize;
        assert(all_digits(next));
        assert(digits_value(next) == v * 10 + d);
        proof {
            lemma_digits_value_prefix(body, i - start + 1);
        }
        match v.checked_mul(10) {
            None => {
                return None;
            },
            Some(w) => {
                match w.checked_add(d) {
                    None => {
                        return None;
                    },
                    Some(x) => {
                        v = x;
                    },
                }
            },
        }
        i = i + 1;
    }
    assert(body.take(i - start) =~= body);
    Some(v)
}

/// `str::parse::<i64>`.
pub fn parse_i64_text(s: &Vec<char>) -> (r: Option<i64>)
    ensures
        r == parse_i64(s@),
{
    let negative = s.len() > 0 && s[0] == '-';
    let start: usize = if s.len() > 0 && (s[0] == '+' || s[0] == '-') {
        1
    } else {
        0
    };
    let ghost body = signed_body(s@);
    assert(body =~= s@.skip(start as int));
    if start == s.len() {
        return None;
    }
    let mut v: u64 = 0;
    let mut i: usize = start;
    assert(body.take(0) =~= Seq::<char>::empty());
    while i < s.len()
        invariant
            start <= i <= s.len(),
            body == s@.skip(start as int),
            body == signed_body(s@),
            body.len() > 0,
            all_digits(body.take(i - start)),
            v as nat == digits_value(body.take(i - start)),
        decreases s.len() - i,
    {
        let c = s[i];
        assert(body[i - start] == c);
        if !('0' <= c && c <= '9') {
            assert(!all_digits(body));
            return None;
        }
        let ghost next = body.take(i - start + 1);
        assert(next.drop_last() =~= body.take(i - start));
        assert(next.last() == c);
        let d: u64 = ((c as u32) - 48) as u64;
        assert(all_digits(next));
        assert(digits_value(next) == v * 10 + d);
        proof {
            lemma_digits_value_prefix(body, i - start + 1);
        }
        match v.checked_mul(10) {
            None => {
                return None;
            },
            Some(w) => {
                match w.checked_add(d) {
                    None => {
                        return None;
                    },
                    Some(x) => {
                        v = x;
                    },
                }
            },
        }
        i = i + 1;
    }
    assert(body.take(i - start) =~= body);
    assert(negative == (s@.len() > 0 && s@[0] == '-'));
    if negative {
        if v <= 0x8000_0000_0000_0000u64 {
            if v == 0x8000_0000_0000_0000u64 {
                Some(i64::MIN)
            } else {
                let m: i64 = v as i64;
                Some(-m)
            }
        } else {
            None
        }
    } else if v <= 0x7fff_ffff_ffff_ffffu64 {
        Some(v as i64)
    } else {
        None
    }
}

/// Code-point lexicographic order (the order of `str::cmp`).
pub fn lex_less_text(a: &Vec<char>, b: &Vec<char>) -> (r: bool)
    ensures
        r == lex_less(a@, b@),
{
    let mut i: usize = 0;
    assert(a@.skip(0) =~= a@);
    assert(b@.skip(0) =~= b@);
    while i < a.len() && i < b.len()
        invariant
            i <= a.len(),
            i <= b.len(),
            lex_less(a@, b@) == lex_less(a@.skip(i as int), b@.skip(i as int)),
        decreases a.len() - i,
    {
        if a[i] != b[i] {
            return (a[i] as u32) < (b[i] as u32);
        }
        assert(a@.skip(i as int).drop_first() =~= a@.skip(i + 1));
        assert(b@.skip(i as int).drop_first() =~= b@.skip(i + 1));
        i = i + 1;
    }
    i == a.len() && i < b.len()
}


/// UTF-8 encoding distributes over concatenation.
pub proof fn lemma_encode_utf8_concat(a: Seq<char>, b: Seq<char>)
    ensures
        encode_utf8(a + b) == encode_utf8(a) + encode_utf8(b),
    decreases a.len(),
{
    if a.len() == 0 {
        assert(a + b =~= b);
        assert(encode_utf8(a) =~= Seq::<u8>::empty());
        assert(encode_utf8(a) + encode_utf8(b) =~= encode_utf8(b));
    } else {
        assert((a + b).drop_first() =~= a.drop_first() + b);
        lemma_encode_utf8_concat(a.drop_first(), b);
        assert(encode_utf8(a + b) =~= encode_utf8(a) + encode_utf8(b));
    }
}

/// The UTF-8 encoding of `v` (the bytes of the `String` that holds `v`).
pub fn encode_text(v: &Vec<char>) -> (r: Vec<u8>)
    ensures
        r@ == encode_utf8(v@),
{
    let mut out: Vec<u8> = Vec::new();
    let mut i: usize = 0;
    assert(v@.take(0) =~= Seq::<char>::empty());
    while i < v.len()
        invariant
            i <= v.len(),
            out@ == encode_utf8(v@.take(i as int)),
        decreases v.len() - i,
    {
        let c = v[i];
        let u = c as u32;
        proof {
            char_is_scalar(c);
            lemma_encode_utf8_concat(v@.take(i as int), seq![c]);
            assert(v@.take(i + 1) =~= v@.take(i as int) + seq![c]);
            let one = seq![c];
            assert(one.drop_first() =~= Seq::<char>::empty());
            assert(one[0] == c);
            assert(encode_utf8(one.drop_first()) =~= Seq::<u8>::empty());
            assert(encode_utf8(one) == encode_scalar(u) + encode_utf8(one.drop_first()));
            assert(encode_utf8(one) =~= encode_scalar(u));
        }
        if u <= 0x7f {
            out.push((u & 0x7f) as u8);
        } else if u <= 0x7ff {
            out.push(0xc0 | ((u >> 6) & 0x1f) as u8);
            out.push(0x80 | (u & 0x3f) as u8);
        } else if u <= 0xffff {
            out.push(0xe0 | ((u >> 12) & 0x0f) as u8);
            out.push(0x80 | ((u >> 6) & 0x3f) as u8);
            out.push(0x80 | (u & 0x3f) as u8);
        } else {
            out.push(0xf0 | ((u >> 18) & 0x7) as u8);
            out.push(0x80 | ((u >> 12) & 0x3f) as u8);
            out.push(0x80 | ((u >> 6) & 0x3f) as u8);
            out.push(0x80 | (u & 0x3f) as u8);
        }
        i = i + 1;
        assert(out@ =~= encode_utf8(v@.take(i as int)));
    }
    assert(v@.take(i as int) =~= v@);
    out
}

} // verus!

verus! {

/// The characters of `s`.
pub fn chars_of(s: &str) -> (r: Vec<char>)
    ensures
        r@ == s@,
{
    broadcast use vstd::string::axiom_spec_iter;
    let mut r: Vec<char> = Vec::new();
    for c in it: s.chars()
        invariant
            r@ == it.seq().take(it.index() as int),
    {
        r.push(c);
    }
    r
}

} // verus!

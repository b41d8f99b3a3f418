//! Line-wise stages: filtering lines by a condition, sorting lines by a
//! field, and mapping each line through a function.
use vstd::prelude::*;
use vstd::utf8::encode_utf8;
use crate::outside::{clock_now, lowercase, string_of, unicode_lowercase};
use crate::params::StringMap;
use crate::stage_common::{decode_input, text_of, finish, single};
use crate::text::{contains, ends_with, join, lex_less, lines, split, starts_with};
use crate::text_ops::{
    chars_of, contains_text, copy_text, ends_with_text, join_texts, lemma_texts_push,
    lex_less_text, split_lines, split_on, starts_with_text, text_eq, texts,
};
use crate::types::{PipelineError, PipelineStage, StageOutput, StageType};

verus! {

broadcast use vstd::seq::group_seq_axioms;

// ---------------------------------------------------------------------------
// Filtering
// ---------------------------------------------------------------------------

/// Whether a line (lower-cased) passes the condition `op` against `value`
/// (lower-cased).  An unknown condition keeps every line.
pub open spec fn passes(op: Seq<char>, line: Seq<char>, value: Seq<char>) -> bool {
    if op == "contains"@ {
        contains(line, value)
    } else if op == "equals"@ {
        line == value
    } else if op == "starts_with"@ {
        starts_with(line, value)
    } else if op == "ends_with"@ {
        ends_with(line, value)
    } else if op == "not_contains"@ {
        !contains(line, value)
    } else {
        true
    }
}

/// The lines of `ls` that pass `op` against `value`, compared without regard
/// to case (both sides lower-cased), in order.
pub open spec fn kept_lines(ls: Seq<Seq<char>>, op: Seq<char>, value: Seq<char>) -> Seq<Seq<char>>
    decreases ls.len(),
{
    if ls.len() == 0 {
        seq![]
    } else if passes(op, unicode_lowercase(ls.last()), unicode_lowercase(value)) {
        kept_lines(ls.drop_last(), op, value).push(ls.last())
    } else {
        kept_lines(ls.drop_last(), op, value)
    }
}

/// Whether `line` (already lower-cased) passes `op` against `value`.
fn passes_exec(op: &Vec<char>, line: &Vec<char>, value: &Vec<char>) -> (r: bool)
    ensures
        r == passes(op@, line@, value@),
{
    if text_eq(op, &chars_of("contains")) {
        contains_text(line, value)
    } else if text_eq(op, &chars_of("equals")) {
        text_eq(line, value)
    } else if text_eq(op, &chars_of("starts_with")) {
        starts_with_text(line, value)
    } else if text_eq(op, &chars_of("ends_with")) {
        ends_with_text(line, value)
    } else if text_eq(op, &chars_of("not_contains")) {
        !contains_text(line, value)
    } else {
        true
    }
}

/// The lines of `text` that pass `op` against `value`, joined with line
/// feeds, and their number.
pub fn filter_text(text: &Vec<char>, op: &Vec<char>, value: &Vec<char>) -> (r: (Vec<char>, usize))
    ensures
        r.0@ == join(kept_lines(lines(text@), op@, value@), seq!['\n']),
        r.1 == kept_lines(lines(text@), op@, value@).len(),
{
    let ls = split_lines(text);
    let lower_value = lowercase(value);
    let ghost all = lines(text@);
    let mut kept: Vec<Vec<char>> = Vec::new();
    let mut i: usize = 0;
    assert(all.take(0) =~= Seq::<Seq<char>>::empty());
    while i < ls.len()
        invariant
            i <= ls.len(),
            texts(ls@) == all,
            lower_value@ == unicode_lowercase(value@),
            texts(kept@) == kept_lines(all.take(i as int), op@, value@),
        decreases ls.len() - i,
    {
        let ghost before = kept@;
        let ghost next = all.take(i + 1);
        assert(next.drop_last() =~= all.take(i as int));
        assert(next.last() == ls@[i as int]@);
        let lower_line = lowercase(&ls[i]);
        if passes_exec(op, &lower_line, &lower_value) {
            let line = copy_text(&ls[i]);
            kept.push(line);
            proof {
                lemma_texts_push(before, line);
            }
        }
        i = i + 1;
    }
    assert(all.take(i as int) =~= all);
    let joined = join_texts(&kept, &single('\n'));
    (joined, kept.len())
}

/// Keeps the lines that pass a condition (`contains`, `equals`,
/// `starts_with`, `ends_with` or `not_contains`) against a value, without
/// regard to case.
#[allow(dead_code)]
pub struct FilterStage {
    field: String,
    op: String,
    value: String,
}

impl FilterStage {
    /// The field the filter was made for (not consulted).
    pub closed spec fn spec_field(&self) -> Seq<char> {
        self.field@
    }

    /// The condition's name.
    pub closed spec fn spec_op(&self) -> Seq<char> {
        self.op@
    }

    /// The value the condition compares with.
    pub closed spec fn spec_value(&self) -> Seq<char> {
        self.value@
    }

    /// A filter on condition `op` against `value`.
    pub fn new(field: &str, op: &str, value: &str) -> (r: FilterStage)
        ensures
            r.spec_field() == field@,
            r.spec_op() == op@,
            r.spec_value() == value@,
    {
        FilterStage { field: field.to_owned(), op: op.to_owned(), value: value.to_owned() }
    }
}

impl PipelineStage for FilterStage {
    open spec fn names(&self, name: Seq<char>) -> bool {
        name == "filter"@
    }

    open spec fn kinds(&self, t: StageType) -> bool {
        t == StageType::Filter
    }

    open spec fn refuses(&self, input: Seq<u8>, params: Map<Seq<char>, Seq<char>>) -> bool {
        false
    }

    open spec fn yields(
        &self,
        input: Seq<u8>,
        params: Map<Seq<char>, Seq<char>>,
        data: Seq<u8>,
        tiles: nat,
    ) -> bool {
        let kept = kept_lines(lines(text_of(input)), self.spec_op(), self.spec_value());
        &&& data == encode_utf8(join(kept, seq!['\n']))
        &&& tiles == kept.len()
    }

    fn name(&self) -> (r: &str) {
        "filter"
    }

    fn stage_type(&self) -> (r: StageType) {
        StageType::Filter
    }

    fn execute(&self, input: &[u8], params: &StringMap) -> (r: Result<StageOutput, PipelineError>) {
        let start = clock_now();
        let text = decode_input(input);
        let op = chars_of(self.op.as_str());
        let value = chars_of(self.value.as_str());
        let (chars, tiles) = filter_text(&text, &op, &value);
        Ok(finish(input, &chars, tiles, &start))
    }
}


// ---------------------------------------------------------------------------
// Sorting
// ---------------------------------------------------------------------------

/// `lex_less` is irreflexive and asymmetric.
pub proof fn lemma_lex_less_asymmetric(a: Seq<char>, b: Seq<char>)
    ensures
        !(lex_less(a, b) && lex_less(b, a)),
        !lex_less(a, a),
    decreases a.len(),
{
    if a.len() > 0 && b.len() > 0 && a[0] == b[0] {
        lemma_lex_less_asymmetric(a.drop_first(), b.drop_first());
    }
    if a.len() > 0 {
        lemma_lex_less_asymmetric(a.drop_first(), a.drop_first());
    }
}

/// `lex_less` is total on distinct sequences.
pub proof fn lemma_lex_less_total(a: Seq<char>, b: Seq<char>)
    requires
        a != b,
    ensures
        lex_less(a, b) || lex_less(b, a),
    decreases a.len(),
{
    if a.len() == 0 {
        assert(b.len() > 0) by {
            if b.len() == 0 {
                assert(a =~= b);
            }
        }
    } else if b.len() > 0 && a[0] == b[0] {
        if a.drop_first() == b.drop_first() {
            assert(a =~= seq![a[0]] + a.drop_first());
            assert(b =~= seq![b[0]] + b.drop_first());
        }
        lemma_lex_less_total(a.drop_first(), b.drop_first());
    } else if b.len() > 0 {
        let x = a[0] as u32;
        let y = b[0] as u32;
        assert(x != y) by {
            vstd::utf8::char_u32_cast(a[0], x);
            vstd::utf8::char_u32_cast(b[0], y);
        }
    }
}

/// `lex_less` is transitive.
pub proof fn lemma_lex_less_transitive(a: Seq<char>, b: Seq<char>, c: Seq<char>)
    requires
        lex_less(a, b),
        lex_less(b, c),
    ensures
        lex_less(a, c),
    decreases a.len(),
{
    if a.len() > 0 && b.len() > 0 && c.len() > 0 && a[0] == b[0] && b[0] == c[0] {
        lemma_lex_less_transitive(a.drop_first(), b.drop_first(), c.drop_first());
    }
}

/// The key a line is sorted by: its second `:`-separated field, or the whole
/// line when it has no `:`.
pub open spec fn sort_key(l: Seq<char>) -> Seq<char> {
    let parts = split(l, ':');
    if parts.len() > 1 {
        parts[1]
    } else {
        l
    }
}

/// Whether key `a` comes before key `b` (ascending, or descending when
/// `desc`).
pub open spec fn key_before(a: Seq<char>, b: Seq<char>, desc: bool) -> bool {
    if desc {
        lex_less(b, a)
    } else {
        lex_less(a, b)
    }
}

/// Whether line `i` of `ls` comes before line `j` in the sorted output: its
/// key comes first, or the keys are equal and it came first (the sort is
/// stable).
pub open spec fn goes_before(ls: Seq<Seq<char>>, i: int, j: int, desc: bool) -> bool {
    let a = sort_key(ls[i]);
    let b = sort_key(ls[j]);
    if a == b {
        i < j
    } else {
        key_before(a, b, desc)
    }
}

/// Whether `order` lists the positions of `ls` in sorted order.
pub open spec fn is_sort_order(ls: Seq<Seq<char>>, order: Seq<usize>, desc: bool) -> bool {
    &&& order.len() == ls.len()
    &&& forall|k: int| 0 <= k < order.len() ==> #[trigger] order[k] < ls.len()
    &&& forall|k1: int, k2: int|
        0 <= k1 < k2 < order.len() ==> goes_before(
            ls,
            #[trigger] order[k1] as int,
            #[trigger] order[k2] as int,
            desc,
        )
}

/// The lines of `ls` in the order `order`.
pub open spec fn arranged(ls: Seq<Seq<char>>, order: Seq<usize>) -> Seq<Seq<char>> {
    order.map_values(|i: usize| ls[i as int])
}

/// Whether `out` is `ls` stably sorted by key (ascending, or descending when
/// `desc`).
pub open spec fn is_stable_sort(ls: Seq<Seq<char>>, out: Seq<Seq<char>>, desc: bool) -> bool {
    exists|order: Seq<usize>| #[trigger] is_sort_order(ls, order, desc) && out == arranged(ls, order)
}

/// Of two distinct lines, exactly one goes before the other.
pub proof fn lemma_goes_before_total(ls: Seq<Seq<char>>, i: int, j: int, desc: bool)
    requires
        i != j,
    ensures
        goes_before(ls, i, j, desc) != goes_before(ls, j, i, desc),
{
    let a = sort_key(ls[i]);
    let b = sort_key(ls[j]);
    lemma_lex_less_asymmetric(a, b);
    if a != b {
        lemma_lex_less_total(a, b);
    }
}

/// `goes_before` is transitive.
pub proof fn lemma_goes_before_transitive(ls: Seq<Seq<char>>, i: int, j: int, k: int, desc: bool)
    requires
        goes_before(ls, i, j, desc),
        goes_before(ls, j, k, desc),
    ensures
        goes_before(ls, i, k, desc),
{
    let a = sort_key(ls[i]);
    let b = sort_key(ls[j]);
    let c = sort_key(ls[k]);
    if a != b && b != c {
        if desc {
            lemma_lex_less_transitive(c, b, a);
        } else {
            lemma_lex_less_transitive(a, b, c);
        }
        if a == c {
            lemma_lex_less_asymmetric(a, b);
        }
    }
}

/// The sort key of a line.
pub fn sort_key_of(l: &Vec<char>) -> (r: Vec<char>)
    ensures
        r@ == sort_key(l@),
{
    let parts = split_on(l, ':');
    if parts.len() > 1 {
        copy_text(&parts[1])
    } else {
        copy_text(l)
    }
}

/// Whether the line with key `a` at position `i` goes before the line with
/// key `b` at position `j`.
fn goes_before_exec(a: &Vec<char>, i: usize, b: &Vec<char>, j: usize, desc: bool) -> (r: bool)
    ensures
        r == (if a@ == b@ {
            i < j
        } else {
            key_before(a@, b@, desc)
        }),
{
    if text_eq(a, b) {
        i < j
    } else if desc {
        lex_less_text(b, a)
    } else {
        lex_less_text(a, b)
    }
}

/// The positions of `ls` in stably sorted order (insertion sort).
pub fn sort_order(ls: &Vec<Vec<char>>, desc: bool) -> (order: Vec<usize>)
    ensures
        is_sort_order(texts(ls@), order@, desc),
{
    let ghost all = texts(ls@);
    let mut keys: Vec<Vec<char>> = Vec::new();
    let mut m: usize = 0;
    while m < ls.len()
        invariant
            m <= ls.len(),
            all == texts(ls@),
            keys@.len() == m,
            forall|k: int| 0 <= k < m ==> (#[trigger] keys@[k])@ == sort_key(all[k]),
        decreases ls.len() - m,
    {
        keys.push(sort_key_of(&ls[m]));
        m = m + 1;
    }
    let mut order: Vec<usize> = Vec::new();
    let mut i: usize = 0;
    while i < ls.len()
        invariant
            i <= ls.len(),
            all == texts(ls@),
            keys@.len() == ls@.len(),
            forall|k: int| 0 <= k < ls@.len() ==> (#[trigger] keys@[k])@ == sort_key(all[k]),
            order@.len() == i,
            forall|k: int| 0 <= k < order@.len() ==> #[trigger] order@[k] < i,
            forall|k1: int, k2: int|
                0 <= k1 < k2 < order@.len() ==> goes_before(
                    all,
                    #[trigger] order@[k1] as int,
                    #[trigger] order@[k2] as int,
                    desc,
                ),
        decreases ls.len() - i,
    {
        let mut p = order.len();
        while p > 0 && goes_before_exec(&keys[i], i, &keys[order[p - 1]], order[p - 1], desc)
            invariant
                p <= order@.len(),
                i < ls@.len(),
                keys@.len() == ls@.len(),
                forall|k: int| 0 <= k < ls@.len() ==> (#[trigger] keys@[k])@ == sort_key(all[k]),
                forall|k: int| 0 <= k < order@.len() ==> #[trigger] order@[k] < i,
                forall|k: int| p <= k < order@.len() ==> goes_before(all, i as int, #[trigger] order@[k] as int, desc),
            decreases p,
        {
            p = p - 1;
        }
        let ghost before = order@;
        proof {
            if p > 0 {
                let e = before[p - 1] as int;
                lemma_goes_before_total(all, i as int, e, desc);
                assert forall|k: int| 0 <= k < p implies goes_before(all, #[trigger] before[k] as int, i as int, desc) by {
                    if k < p - 1 {
                        lemma_goes_before_transitive(all, before[k] as int, e, i as int, desc);
                    }
                }
            }
        }
        order.insert(p, i);
        assert forall|k1: int, k2: int|
            0 <= k1 < k2 < order@.len() implies goes_before(
                all,
                #[trigger] order@[k1] as int,
                #[trigger] order@[k2] as int,
                desc,
            ) by {
            if k2 < p {
                assert(order@[k1] == before[k1] && order@[k2] == before[k2]);
            } else if k2 == p {
                assert(order@[k1] == before[k1]);
            } else if k1 < p {
                assert(order@[k1] == before[k1] && order@[k2] == before[k2 - 1]);
                lemma_goes_before_transitive(all, before[k1] as int, i as int, before[k2 - 1] as int, desc);
            } else if k1 == p {
                assert(order@[k2] == before[k2 - 1]);
            } else {
                assert(order@[k1] == before[k1 - 1] && order@[k2] == before[k2 - 1]);
            }
        }
        assert forall|k: int| 0 <= k < order@.len() implies #[trigger] order@[k] < i + 1 by {
            if k < p {
                assert(order@[k] == before[k]);
            } else if k > p {
                assert(order@[k] == before[k - 1]);
            }
        }
        i = i + 1;
    }
    order
}

/// The lines of `text` stably sorted by key (descending when `desc`), joined
/// with line feeds; and the number of lines.
pub fn sort_text(text: &Vec<char>, desc: bool) -> (r: (Vec<char>, usize))
    ensures
        exists|out: Seq<Seq<char>>|
            is_stable_sort(lines(text@), out, desc) && r.0@ == join(out, seq!['\n']) && r.1
                == out.len(),
{
    let ls = split_lines(text);
    let order = sort_order(&ls, desc);
    let mut sorted: Vec<Vec<char>> = Vec::new();
    let mut k: usize = 0;
    while k < order.len()
        invariant
            k <= order@.len(),
            is_sort_order(texts(ls@), order@, desc),
            sorted@.len() == k,
            forall|m: int| 0 <= m < k ==> (#[trigger] sorted@[m])@ == texts(ls@)[order@[m] as int],
        decreases order.len() - k,
    {
        assert(order@[k as int] < ls@.len());
        sorted.push(copy_text(&ls[order[k]]));
        k = k + 1;
    }
    let ghost out = texts(sorted@);
    assert(out =~= arranged(lines(text@), order@));
    assert(is_stable_sort(lines(text@), out, desc));
    let joined = join_texts(&sorted, &single('\n'));
    (joined, sorted.len())
}

/// Sorts lines by their second `:`-separated field (or the whole line),
/// ascending or descending, keeping lines with equal keys in their order.
pub struct SortStage {
    #[allow(dead_code)]
    field: String,
    descending: bool,
}

impl SortStage {
    /// The field the sort was made for (not consulted).
    pub closed spec fn spec_field(&self) -> Seq<char> {
        self.field@
    }

    /// Whether the sort is descending.
    pub closed spec fn spec_descending(&self) -> bool {
        self.descending
    }

    /// A sort, descending when `descending`.
    pub fn new(field: &str, descending: bool) -> (r: SortStage)
        ensures
            r.spec_field() == field@,
            r.spec_descending() == descending,
    {
        SortStage { field: field.to_owned(), descending }
    }
}

impl PipelineStage for SortStage {
    open spec fn names(&self, name: Seq<char>) -> bool {
        name == "sort"@
    }

    open spec fn kinds(&self, t: StageType) -> bool {
        t == StageType::Transform
    }

    open spec fn refuses(&self, input: Seq<u8>, params: Map<Seq<char>, Seq<char>>) -> bool {
        false
    }

    open spec fn yields(
        &self,
        input: Seq<u8>,
        params: Map<Seq<char>, Seq<char>>,
        data: Seq<u8>,
        tiles: nat,
    ) -> bool {
        exists|out: Seq<Seq<char>>|
            {
                &&& #[trigger] is_stable_sort(lines(text_of(input)), out, self.spec_descending())
                &&& data == encode_utf8(join(out, seq!['\n']))
                &&& tiles == out.len()
            }
    }

    fn name(&self) -> (r: &str) {
        "sort"
    }

    fn stage_type(&self) -> (r: StageType) {
        StageType::Transform
    }

    fn execute(&self, input: &[u8], params: &StringMap) -> (r: Result<StageOutput, PipelineError>) {
        let start = clock_now();
        let text = decode_input(input);
        let (chars, tiles) = sort_text(&text, self.descending);
        let out = finish(input, &chars, tiles, &start);
        proof {
            let ls = lines(text@);
            let sorted = choose|o: Seq<Seq<char>>|
                is_stable_sort(ls, o, self.descending) && chars@ == join(o, seq!['\n']) && tiles
                    == o.len();
            assert(is_stable_sort(lines(text_of(input@)), sorted, self.spec_descending()));
        }
        Ok(out)
    }
}


// ---------------------------------------------------------------------------
// Mapping
// ---------------------------------------------------------------------------

/// Applies a function to each line.
pub struct MapStage<F: Fn(&str) -> String> {
    transform_fn: F,
    label: String,
}

impl<F: Fn(&str) -> String> MapStage<F> {
    /// The function may be called on any text.
    #[verifier::type_invariant]
    closed spec fn callable(&self) -> bool {
        forall|s: &str| call_requires(self.transform_fn, (s,))
    }

    /// The function applied to each line.
    pub closed spec fn spec_transform(&self) -> F {
        self.transform_fn
    }

    /// The stage's name.
    pub closed spec fn spec_label(&self) -> Seq<char> {
        self.label@
    }

    /// Whether `out` is a text that the function may return for `line`.
    pub open spec fn maps_to(&self, line: Seq<char>, out: Seq<char>) -> bool {
        exists|s: &str, r: String| s@ == line && r@ == out && call_ensures(self.spec_transform(), (s,), r)
    }

    /// A stage named `label` that applies `transform_fn` to each line.
    pub fn new(label: &str, transform_fn: F) -> (r: MapStage<F>)
        requires
            forall|s: &str| call_requires(transform_fn, (s,)),
        ensures
            r.spec_transform() == transform_fn,
            r.spec_label() == label@,
    {
        MapStage { transform_fn, label: label.to_owned() }
    }

    /// The function applied to one line.
    fn apply(&self, line: &Vec<char>) -> (r: Vec<char>)
        ensures
            self.maps_to(line@, r@),
    {
        proof {
            use_type_invariant(self);
        }
        let s = string_of(line);
        let line_str = s.as_str();
        let out = (self.transform_fn)(line_str);
        let r = chars_of(out.as_str());
        assert(call_ensures(self.spec_transform(), (line_str,), out));
        r
    }
}

impl<F: Fn(&str) -> String + Send + Sync> PipelineStage for MapStage<F> {
    open spec fn names(&self, name: Seq<char>) -> bool {
        name == self.spec_label()
    }

    open spec fn kinds(&self, t: StageType) -> bool {
        t == StageType::Transform
    }

    open spec fn refuses(&self, input: Seq<u8>, params: Map<Seq<char>, Seq<char>>) -> bool {
        false
    }

    /// Each line is replaced by what the function returns for it.
    open spec fn yields(
        &self,
        input: Seq<u8>,
        params: Map<Seq<char>, Seq<char>>,
        data: Seq<u8>,
        tiles: nat,
    ) -> bool {
        let ls = lines(text_of(input));
        exists|outs: Seq<Seq<char>>|
            {
                &&& #[trigger] outs.len() == ls.len()
                &&& forall|i: int| 0 <= i < ls.len() ==> self.maps_to(ls[i], #[trigger] outs[i])
                &&& data == encode_utf8(join(outs, seq!['\n']))
                &&& tiles == outs.len()
            }
    }

    fn name(&self) -> (r: &str) {
        self.label.as_str()
    }

    fn stage_type(&self) -> (r: StageType) {
        StageType::Transform
    }

    fn execute(&self, input: &[u8], params: &StringMap) -> (r: Result<StageOutput, PipelineError>) {
        let start = clock_now();
        let text = decode_input(input);
        let ls = split_lines(&text);
        let mut mapped: Vec<Vec<char>> = Vec::new();
        let mut i: usize = 0;
        while i < ls.len()
            invariant
                i <= ls.len(),
                mapped@.len() == i,
                forall|k: int| 0 <= k < i ==> self.maps_to(ls@[k]@, (#[trigger] mapped@[k])@),
            decreases ls.len() - i,
        {
            mapped.push(self.apply(&ls[i]));
            i = i + 1;
        }
        let joined = join_texts(&mapped, &single('\n'));
        let out = finish(input, &joined, mapped.len(), &start);
        proof {
            let outs = texts(mapped@);
            assert(texts(ls@) == lines(text_of(input@)));
            assert forall|k: int| 0 <= k < texts(ls@).len() implies self.maps_to(texts(ls@)[k], #[trigger] outs[k]) by {
                assert(texts(ls@)[k] == ls@[k]@);
            }
            assert(outs.len() == texts(ls@).len());
        }
        Ok(out)
    }
}

} // verus!

use crate::gtsp::{is_instance, tour_weight, valid_tour, vecs_view, GtspProblem, InstanceError, Solution};
use vstd::prelude::*;

verus! {

/// Whether byte `c` is ASCII white space.
pub open spec fn is_space(c: u8) -> bool {
    c == 32 || (9 <= c <= 13)
}

pub open spec fn is_digit(c: u8) -> bool {
    48 <= c <= 57
}

/// The lines of `b`, as they are read one by one: a line ends at a `\n`, which is dropped
/// together with a `\r` just before it; what follows the last `\n` is a line if it is not
/// empty. `cur` is the part of a line read already.
pub open spec fn lines_from(b: Seq<u8>, cur: Seq<u8>) -> Seq<Seq<u8>>
    decreases b.len(),
{
    if b.len() == 0 {
        if cur.len() > 0 {
            seq![cur]
        } else {
            seq![]
        }
    } else if b[0] == 10 {
        seq![strip_cr(cur)] + lines_from(b.drop_first(), seq![])
    } else {
        lines_from(b.drop_first(), cur.push(b[0]))
    }
}

pub open spec fn strip_cr(l: Seq<u8>) -> Seq<u8> {
    if l.len() > 0 && l.last() == 13 {
        l.drop_last()
    } else {
        l
    }
}

/// The lines of the text `b`.
pub open spec fn lines(b: Seq<u8>) -> Seq<Seq<u8>> {
    lines_from(b, seq![])
}

/// The tokens of `l`: its maximal runs of bytes that are not white space. `cur` is the part of
/// a token read already.
pub open spec fn tokens_from(l: Seq<u8>, cur: Seq<u8>) -> Seq<Seq<u8>>
    decreases l.len(),
{
    if l.len() == 0 {
        if cur.len() > 0 {
            seq![cur]
        } else {
            seq![]
        }
    } else if is_space(l[0]) {
        (if cur.len() > 0 {
            seq![cur]
        } else {
            seq![]
        }) + tokens_from(l.drop_first(), seq![])
    } else {
        tokens_from(l.drop_first(), cur.push(l[0]))
    }
}

pub open spec fn tokens(l: Seq<u8>) -> Seq<Seq<u8>> {
    tokens_from(l, seq![])
}

/// The number that the decimal digits `t` write.
pub open spec fn digits_value(t: Seq<u8>) -> int
    decreases t.len(),
{
    if t.len() == 0 {
        0
    } else {
        digits_value(t.drop_last()) * 10 + (t.last() - 48)
    }
}

pub open spec fn all_digits(t: Seq<u8>) -> bool {
    t.len() >= 1 && forall|i: int| 0 <= i < t.len() ==> is_digit(#[trigger] t[i])
}

/// The digits of `t` after an optional sign byte (`+`, or `-` where `signed`).
pub open spec fn magnitude(t: Seq<u8>, signed: bool) -> Seq<u8> {
    if t.len() > 0 && (t[0] == 43 || (signed && t[0] == 45)) {
        t.drop_first()
    } else {
        t
    }
}

/// Whether `t` writes an unsigned integer that fits a `usize`.
pub open spec fn is_usize_text(t: Seq<u8>) -> bool {
    all_digits(magnitude(t, false)) && digits_value(magnitude(t, false)) <= usize::MAX
}

pub open spec fn usize_value(t: Seq<u8>) -> int {
    digits_value(magnitude(t, false))
}

pub open spec fn i64_value(t: Seq<u8>) -> int {
    if t.len() > 0 && t[0] == 45 {
        -digits_value(magnitude(t, true))
    } else {
        digits_value(magnitude(t, true))
    }
}

/// Whether `t` writes an integer, with an optional sign, that fits an `i64`.
pub open spec fn is_i64_text(t: Seq<u8>) -> bool {
    all_digits(magnitude(t, true)) && i64::MIN <= i64_value(t) <= i64::MAX
}

proof fn lemma_lines_step(b: Seq<u8>, i: int, cur: Seq<u8>)
    requires
        0 <= i < b.len(),
    ensures
        lines_from(b.skip(i), cur) == if b[i] == 10 {
            seq![strip_cr(cur)] + lines_from(b.skip(i + 1), seq![])
        } else {
            lines_from(b.skip(i + 1), cur.push(b[i]))
        },
{
    assert(b.skip(i).drop_first() =~= b.skip(i + 1));
}

/// The byte ranges `spans` of `b`, each as the bytes it covers.
pub open spec fn spans_of(b: Seq<u8>, spans: Seq<(usize, usize)>) -> Seq<Seq<u8>> {
    spans.map_values(|s: (usize, usize)| b.subrange(s.0 as int, s.1 as int))
}

/// The lines of `b`, each as the range of its bytes.
pub fn line_spans(b: &[u8]) -> (r: Vec<(usize, usize)>)
    ensures
        spans_of(b@, r@) == lines(b@),
        forall|k: int| 0 <= k < r.len() ==> #[trigger] r[k].0 <= r[k].1 <= b@.len(),
{
    let mut spans: Vec<(usize, usize)> = Vec::new();
    let mut start: usize = 0;
    let mut i: usize = 0;
    proof {
        assert(b@.skip(0) =~= b@);
        assert(b@.subrange(0, 0) =~= seq![]);
        assert(spans_of(b@, spans@) =~= seq![]);
    }
    while i < b.len()
        invariant
            start <= i <= b@.len(),
            forall|k: int| 0 <= k < spans.len() ==> #[trigger] spans[k].0 <= spans[k].1 <= b@.len(),
            lines(b@) == spans_of(b@, spans@) + lines_from(b@.skip(i as int), b@.subrange(start as int, i as int)),
        decreases b@.len() - i,
    {
        let ghost cur = b@.subrange(start as int, i as int);
        let ghost before = spans_of(b@, spans@);
        proof {
            lemma_lines_step(b@, i as int, cur);
        }
        if b[i] == 10 {
            let end = if i > start && b[i - 1] == 13 { i - 1 } else { i };
            let ghost old_spans = spans@;
            spans.push((start, end));
            proof {
                assert forall|k: int| 0 <= k < spans.len() implies #[trigger] spans[k].0 <= spans[k].1 <= b@.len() by {
                    if k < old_spans.len() {
                        assert(spans[k] == old_spans[k]);
                    }
                }
                assert(b@.subrange(start as int, end as int) =~= strip_cr(cur));
                assert(spans_of(b@, spans@) =~= before.push(strip_cr(cur)));
                assert(b@.subrange((i + 1) as int, (i + 1) as int) =~= seq![]);
                assert(before + (seq![strip_cr(cur)] + lines_from(b@.skip(i + 1), seq![])) =~= before.push(strip_cr(cur)) + lines_from(b@.skip(i + 1), seq![]));
            }
            start = i + 1;
        } else {
            proof {
                assert(cur.push(b@[i as int]) =~= b@.subrange(start as int, i + 1));
            }
        }
        i = i + 1;
    }
    proof {
        assert(b@.skip(i as int) =~= seq![]);
    }
    let ghost before = spans_of(b@, spans@);
    if i > start {
        let ghost old_spans = spans@;
        spans.push((start, i));
        proof {
            assert forall|k: int| 0 <= k < spans.len() implies #[trigger] spans[k].0 <= spans[k].1 <= b@.len() by {
                if k < old_spans.len() {
                    assert(spans[k] == old_spans[k]);
                }
            }
            assert(spans_of(b@, spans@) =~= before.push(b@.subrange(start as int, i as int)));
        }
    }
    proof {
        assert(lines(b@) =~= spans_of(b@, spans@));
    }
    spans
}

proof fn lemma_tokens_step(l: Seq<u8>, i: int, cur: Seq<u8>)
    requires
        0 <= i < l.len(),
    ensures
        tokens_from(l.skip(i), cur) == if is_space(l[i]) {
            (if cur.len() > 0 {
                seq![cur]
            } else {
                seq![]
            }) + tokens_from(l.skip(i + 1), seq![])
        } else {
            tokens_from(l.skip(i + 1), cur.push(l[i]))
        },
{
    assert(l.skip(i).drop_first() =~= l.skip(i + 1));
}

/// The tokens of the bytes `start .. end` of `b`, each as the range of its bytes.
pub fn token_spans(b: &[u8], start: usize, end: usize) -> (r: Vec<(usize, usize)>)
    requires
        start <= end <= b@.len(),
    ensures
        spans_of(b@, r@) == tokens(b@.subrange(start as int, end as int)),
        forall|k: int| 0 <= k < r.len() ==> start <= #[trigger] r[k].0 < r[k].1 <= end,
{
    let ghost l = b@.subrange(start as int, end as int);
    let mut spans: Vec<(usize, usize)> = Vec::new();
    let mut tok: usize = start;
    let mut i: usize = start;
    proof {
        assert(l.skip(0) =~= l);
        assert(b@.subrange(start as int, start as int) =~= seq![]);
        assert(spans_of(b@, spans@) =~= seq![]);
    }
    while i < end
        invariant
            start <= tok <= i <= end <= b@.len(),
            l == b@.subrange(start as int, end as int),
            forall|k: int| 0 <= k < spans.len() ==> start <= #[trigger] spans[k].0 < spans[k].1 <= tok,
            tokens(l) == spans_of(b@, spans@) + tokens_from(l.skip(i - start), b@.subrange(tok as int, i as int)),
        decreases end - i,
    {
        let ghost cur = b@.subrange(tok as int, i as int);
        let ghost before = spans_of(b@, spans@);
        proof {
            lemma_tokens_step(l, i - start, cur);
            assert(l[i - start] == b@[i as int]);
            assert(l.skip(i - start + 1) =~= l.skip(i + 1 - start));
        }
        let c = b[i];
        if c == 32 || (9 <= c && c <= 13) {
            if i > tok {
                let ghost old_spans = spans@;
                spans.push((tok, i));
                proof {
                    assert forall|k: int| 0 <= k < spans.len() implies start <= #[trigger] spans[k].0 < spans[k].1 <= i + 1 by {
                        if k < old_spans.len() {
                            assert(spans[k] == old_spans[k]);
                        }
                    }
                    assert(spans_of(b@, spans@) =~= before.push(cur));
                    assert(before + (seq![cur] + tokens_from(l.skip(i + 1 - start), seq![])) =~= before.push(cur) + tokens_from(l.skip(i + 1 - start), seq![]));
                }
            } else {
                proof {
                    assert(seq![] + tokens_from(l.skip(i + 1 - start), seq![]) =~= tokens_from(l.skip(i + 1 - start), seq![]));
                }
            }
            tok = i + 1;
            proof {
                assert(b@.subrange(tok as int, tok as int) =~= seq![]);
            }
        } else {
            proof {
                assert(cur.push(b@[i as int]) =~= b@.subrange(tok as int, i + 1));
            }
        }
        i = i + 1;
    }
    proof {
        assert(l.skip(i - start) =~= seq![]);
    }
    let ghost before = spans_of(b@, spans@);
    if i > tok {
        let ghost old_spans = spans@;
        spans.push((tok, i));
        proof {
            assert forall|k: int| 0 <= k < spans.len() implies start <= #[trigger] spans[k].0 < spans[k].1 <= end by {
                if k < old_spans.len() {
                    assert(spans[k] == old_spans[k]);
                }
            }
            assert(spans_of(b@, spans@) =~= before.push(b@.subrange(tok as int, i as int)));
        }
    }
    proof {
        assert(tokens(l) =~= spans_of(b@, spans@));
    }
    spans
}

/// The value of the decimal digits at `start .. end` of `b`, if they are all digits, there is
/// at least one, and the value is at most `cap`.
fn digits_at(b: &[u8], start: usize, end: usize, cap: u64) -> (r: Option<u64>)
    requires
        start <= end <= b@.len(),
    ensures
        r is Some <==> all_digits(b@.subrange(start as int, end as int)) && digits_value(
            b@.subrange(start as int, end as int),
        ) <= cap,
        r matches Some(v) ==> v == digits_value(b@.subrange(start as int, end as int)),
{
    if start == end {
        return None;
    }
    let ghost t = b@.subrange(start as int, end as int);
    let mut acc: u128 = 0;
    let mut i: usize = start;
    while i < end
        invariant
            start <= i <= end <= b@.len(),
            t == b@.subrange(start as int, end as int),
            forall|j: int| start <= j < i ==> is_digit(#[trigger] b@[j]),
            acc == digits_value(t.take(i - start)),
            acc <= cap,
        decreases end - i,
    {
        let c = b[i];
        if c < 48 || c > 57 {
            proof {
                assert(!is_digit(t[i - start]));
            }
            return None;
        }
        proof {
            assert(t.take(i + 1 - start).drop_last() =~= t.take(i - start));
        }
        acc = acc * 10 + (c - 48) as u128;
        if acc > cap as u128 {
            proof {
                if all_digits(t) {
                    lemma_digits_value_grows(t, i + 1 - start);
                }
            }
            return None;
        }
        i = i + 1;
    }
    proof {
        assert(t.take(i - start) =~= t);
    }
    Some(acc as u64)
}

/// Reading more digits never lowers the value.
proof fn lemma_digits_value_grows(t: Seq<u8>, k: int)
    requires
        0 <= k <= t.len(),
        forall|j: int| 0 <= j < t.len() ==> is_digit(#[trigger] t[j]),
    ensures
        digits_value(t.take(k)) <= digits_value(t),
    decreases t.len() - k,
{
    if k < t.len() {
        lemma_digits_value_grows(t, k + 1);
        assert(t.take(k + 1).drop_last() =~= t.take(k));
        lemma_digits_value_nonneg(t.take(k));
    } else {
        assert(t.take(k) =~= t);
    }
}

proof fn lemma_digits_value_nonneg(t: Seq<u8>)
    requires
        forall|j: int| 0 <= j < t.len() ==> is_digit(#[trigger] t[j]),
    ensures
        digits_value(t) >= 0,
    decreases t.len(),
{
    if t.len() > 0 {
        lemma_digits_value_nonneg(t.drop_last());
        assert(is_digit(t[t.len() - 1]));
    }
}

/// The `usize` that the bytes `start .. end` of `b` write, if they write one.
pub fn parse_usize(b: &[u8], start: usize, end: usize) -> (r: Option<usize>)
    requires
        start <= end <= b@.len(),
    ensures
        r is Some <==> is_usize_text(b@.subrange(start as int, end as int)),
        r matches Some(v) ==> v == usize_value(b@.subrange(start as int, end as int)),
{
    let ghost t = b@.subrange(start as int, end as int);
    let from = if start < end && b[start] == 43 { start + 1 } else { start };
    proof {
        assert(magnitude(t, false) =~= b@.subrange(from as int, end as int));
    }
    match digits_at(b, from, end, usize::MAX as u64) {
        Some(v) => Some(v as usize),
        None => None,
    }
}

/// The `i64` that the bytes `start .. end` of `b` write, if they write one.
pub fn parse_i64(b: &[u8], start: usize, end: usize) -> (r: Option<i64>)
    requires
        start <= end <= b@.len(),
    ensures
        r is Some <==> is_i64_text(b@.subrange(start as int, end as int)),
        r matches Some(v) ==> v == i64_value(b@.subrange(start as int, end as int)),
{
    let ghost t = b@.subrange(start as int, end as int);
    let negative = start < end && b[start] == 45;
    let from = if start < end && (b[start] == 43 || b[start] == 45) { start + 1 } else { start };
    proof {
        assert(magnitude(t, true) =~= b@.subrange(from as int, end as int));
    }
    if negative {
        match digits_at(b, from, end, 9_223_372_036_854_775_808u64) {
            Some(v) => {
                if v == 9_223_372_036_854_775_808u64 {
                    Some(i64::MIN)
                } else {
                    Some(-(v as i64))
                }
            },
            None => None,
        }
    } else {
        match digits_at(b, from, end, i64::MAX as u64) {
            Some(v) => Some(v as i64),
            None => None,
        }
    }
}

/// What follows `prefix` in `l`, if `l` starts with it.
pub open spec fn after_prefix(l: Seq<u8>, prefix: Seq<u8>) -> Option<Seq<u8>> {
    if prefix.len() <= l.len() && l.take(prefix.len() as int) == prefix {
        Some(l.skip(prefix.len() as int))
    } else {
        None
    }
}

/// Whether `l` is `prefix` followed by a `usize`.
pub open spec fn is_number_line(l: Seq<u8>, prefix: Seq<u8>) -> bool {
    after_prefix(l, prefix) is Some && is_usize_text(after_prefix(l, prefix)->0)
}

pub open spec fn number_line_value(l: Seq<u8>, prefix: Seq<u8>) -> int {
    usize_value(after_prefix(l, prefix)->0)
}

pub open spec fn true_text() -> Seq<u8> {
    seq![116u8, 114, 117, 101]
}

pub open spec fn false_text() -> Seq<u8> {
    seq![102u8, 97, 108, 115, 101]
}

/// Whether `l` is `prefix` followed by `true` or `false`.
pub open spec fn is_flag_line(l: Seq<u8>, prefix: Seq<u8>) -> bool {
    after_prefix(l, prefix) is Some && (after_prefix(l, prefix)->0 == true_text() || after_prefix(
        l,
        prefix,
    )->0 == false_text())
}

pub open spec fn flag_line_value(l: Seq<u8>, prefix: Seq<u8>) -> bool {
    after_prefix(l, prefix)->0 == true_text()
}

/// Whether `l` lists a cluster: a count `k`, then `k` vertices numbered from 1 (more tokens may
/// follow and are ignored).
pub open spec fn is_cluster_line(l: Seq<u8>) -> bool {
    let t = tokens(l);
    &&& t.len() >= 1
    &&& is_usize_text(t[0])
    &&& t.len() >= 1 + usize_value(t[0])
    &&& forall|j: int|
        0 <= j < usize_value(t[0]) ==> is_usize_text(#[trigger] t[1 + j]) && usize_value(t[1 + j]) >= 1
}

/// The vertices, numbered from 0, of the cluster that `l` lists.
pub open spec fn cluster_line_value(l: Seq<u8>) -> Seq<usize> {
    let t = tokens(l);
    Seq::new(usize_value(t[0]) as nat, |j: int| (usize_value(t[1 + j]) - 1) as usize)
}

/// Whether `l` starts with `n` integers that fit an `i64` (more tokens may follow and are
/// ignored).
pub open spec fn is_row_line(l: Seq<u8>, n: int) -> bool {
    let t = tokens(l);
    t.len() >= n && forall|v: int| 0 <= v < n ==> is_i64_text(#[trigger] t[v])
}

pub open spec fn row_line_value(l: Seq<u8>, n: int) -> Seq<i64> {
    Seq::new(n as nat, |v: int| i64_value(tokens(l)[v]) as i64)
}

pub open spec fn n_prefix() -> Seq<u8> {
    seq![78u8, 58, 32]
}

pub open spec fn m_prefix() -> Seq<u8> {
    seq![77u8, 58, 32]
}

pub open spec fn symmetric_prefix() -> Seq<u8> {
    seq![83u8, 121, 109, 109, 101, 116, 114, 105, 99, 58, 32]
}

pub open spec fn triangle_prefix() -> Seq<u8> {
    seq![84u8, 114, 105, 97, 110, 103, 108, 101, 58, 32]
}

pub open spec fn text_vertices(b: Seq<u8>) -> int {
    number_line_value(lines(b)[0], n_prefix())
}

pub open spec fn text_clusters_count(b: Seq<u8>) -> int {
    number_line_value(lines(b)[1], m_prefix())
}

/// Whether `b` is the text of an instance: the lines `N: n`, `M: m`, `Symmetric: ` and
/// `Triangle: ` with a flag each, then `m` cluster lines, then `n` rows of the cost matrix.
pub open spec fn is_instance_text(b: Seq<u8>) -> bool {
    let ls = lines(b);
    let n = text_vertices(b);
    let m = text_clusters_count(b);
    &&& ls.len() >= 4
    &&& is_number_line(ls[0], n_prefix())
    &&& is_number_line(ls[1], m_prefix())
    &&& is_flag_line(ls[2], symmetric_prefix())
    &&& is_flag_line(ls[3], triangle_prefix())
    &&& ls.len() >= 4 + m + n
    &&& forall|c: int| 0 <= c < m ==> is_cluster_line(#[trigger] ls[4 + c])
    &&& forall|u: int| 0 <= u < n ==> is_row_line(#[trigger] ls[4 + m + u], n)
}

pub open spec fn text_clusters(b: Seq<u8>) -> Seq<Seq<usize>> {
    Seq::new(text_clusters_count(b) as nat, |c: int| cluster_line_value(lines(b)[4 + c]))
}

pub open spec fn text_dist(b: Seq<u8>) -> Seq<Seq<i64>> {
    let m = text_clusters_count(b);
    let n = text_vertices(b);
    Seq::new(n as nat, |u: int| row_line_value(lines(b)[4 + m + u], n))
}

pub open spec fn text_symmetric(b: Seq<u8>) -> bool {
    flag_line_value(lines(b)[2], symmetric_prefix())
}

pub open spec fn text_triangle(b: Seq<u8>) -> bool {
    flag_line_value(lines(b)[3], triangle_prefix())
}

/// Why a text does not give an instance.
#[derive(Debug, Clone, Copy, PartialEq, Eq, Structural)]
pub enum ReadError {
    /// The text does not follow the format.
    Malformed,
    /// The text follows the format, but what it lists is no instance.
    Invalid(InstanceError),
}

/// Where `prefix` ends in the bytes `start .. end` of `b`, if they start with it.
fn skip_prefix(b: &[u8], start: usize, end: usize, prefix: &Vec<u8>) -> (r: Option<usize>)
    requires
        start <= end <= b@.len(),
    ensures
        r is Some <==> after_prefix(b@.subrange(start as int, end as int), prefix@) is Some,
        r matches Some(q) ==> start <= q <= end && b@.subrange(q as int, end as int) == after_prefix(
            b@.subrange(start as int, end as int),
            prefix@,
        )->0,
{
    let ghost l = b@.subrange(start as int, end as int);
    if end - start < prefix.len() {
        return None;
    }
    let mut k: usize = 0;
    while k < prefix.len()
        invariant
            start <= end <= b@.len(),
            l == b@.subrange(start as int, end as int),
            prefix.len() <= end - start,
            k <= prefix.len(),
            forall|j: int| 0 <= j < k ==> b@[start + j] == prefix@[j],
        decreases prefix.len() - k,
    {
        if b[start + k] != prefix[k] {
            proof {
                assert(l.take(prefix.len() as int)[k as int] != prefix@[k as int]);
            }
            return None;
        }
        k = k + 1;
    }
    proof {
        assert(l.take(prefix.len() as int) =~= prefix@);
        assert(b@.subrange((start + prefix.len()) as int, end as int) =~= l.skip(prefix.len() as int));
    }
    Some(start + prefix.len())
}

/// Whether the bytes `start .. end` of `b` are `word`.
fn bytes_equal(b: &[u8], start: usize, end: usize, word: &Vec<u8>) -> (r: bool)
    requires
        start <= end <= b@.len(),
    ensures
        r == (b@.subrange(start as int, end as int) == word@),
{
    if end - start != word.len() {
        return false;
    }
    let mut k: usize = 0;
    while k < word.len()
        invariant
            start <= end <= b@.len(),
            end - start == word.len(),
            k <= word.len(),
            forall|j: int| 0 <= j < k ==> b@[start + j] == word@[j],
        decreases word.len() - k,
    {
        if b[start + k] != word[k] {
            proof {
                assert(b@.subrange(start as int, end as int)[k as int] != word@[k as int]);
            }
            return false;
        }
        k = k + 1;
    }
    proof {
        assert(b@.subrange(start as int, end as int) =~= word@);
    }
    true
}

/// The `usize` that follows `prefix` on the line `start .. end` of `b`.
fn number_line(b: &[u8], start: usize, end: usize, prefix: &Vec<u8>) -> (r: Option<usize>)
    requires
        start <= end <= b@.len(),
    ensures
        r is Some <==> is_number_line(b@.subrange(start as int, end as int), prefix@),
        r matches Some(v) ==> v == number_line_value(b@.subrange(start as int, end as int), prefix@),
{
    match skip_prefix(b, start, end, prefix) {
        Some(q) => parse_usize(b, q, end),
        None => None,
    }
}

/// The flag that follows `prefix` on the line `start .. end` of `b`.
fn flag_line(b: &[u8], start: usize, end: usize, prefix: &Vec<u8>) -> (r: Option<bool>)
    requires
        start <= end <= b@.len(),
    ensures
        r is Some <==> is_flag_line(b@.subrange(start as int, end as int), prefix@),
        r matches Some(v) ==> v == flag_line_value(b@.subrange(start as int, end as int), prefix@),
{
    match skip_prefix(b, start, end, prefix) {
        Some(q) => {
            let yes = vec![116u8, 114, 117, 101];
            let no = vec![102u8, 97, 108, 115, 101];
            proof {
                assert(yes@ =~= true_text());
                assert(no@ =~= false_text());
            }
            if bytes_equal(b, q, end, &yes) {
                Some(true)
            } else if bytes_equal(b, q, end, &no) {
                Some(false)
            } else {
                None
            }
        },
        None => None,
    }
}

/// The cluster that the line `start .. end` of `b` lists.
fn cluster_line(b: &[u8], start: usize, end: usize) -> (r: Option<Vec<usize>>)
    requires
        start <= end <= b@.len(),
    ensures
        r is Some <==> is_cluster_line(b@.subrange(start as int, end as int)),
        r matches Some(c) ==> c@ == cluster_line_value(b@.subrange(start as int, end as int)),
{
    let ghost l = b@.subrange(start as int, end as int);
    let ghost t = tokens(l);
    let toks = token_spans(b, start, end);
    proof {
        assert(toks@.len() == t.len());
        assert forall|j: int| 0 <= j < toks.len() implies b@.subrange(#[trigger] toks[j].0 as int, toks[j].1 as int) == t[j] by {
            assert(spans_of(b@, toks@)[j] == t[j]);
        }
    }
    if toks.len() == 0 {
        return None;
    }
    let size = match parse_usize(b, toks[0].0, toks[0].1) {
        Some(k) => k,
        None => {
            return None;
        },
    };
    if toks.len() - 1 < size {
        return None;
    }
    let mut cluster: Vec<usize> = Vec::new();
    let mut j: usize = 0;
    while j < size
        invariant
            start <= end <= b@.len(),
            l == b@.subrange(start as int, end as int),
            t == tokens(l),
            toks.len() == t.len(),
            forall|x: int| 0 <= x < toks.len() ==> start <= #[trigger] toks[x].0 < toks[x].1 <= end,
            forall|x: int| 0 <= x < toks.len() ==> b@.subrange(#[trigger] toks[x].0 as int, toks[x].1 as int) == t[x],
            toks.len() >= 1 + size,
            is_usize_text(t[0]),
            size == usize_value(t[0]),
            j <= size,
            cluster.len() == j,
            forall|x: int| 0 <= x < j ==> is_usize_text(#[trigger] t[1 + x]) && usize_value(t[1 + x]) >= 1,
            forall|x: int| 0 <= x < j ==> #[trigger] cluster@[x] == (usize_value(t[1 + x]) - 1) as usize,
        decreases size - j,
    {
        match parse_usize(b, toks[1 + j].0, toks[1 + j].1) {
            Some(v) => {
                if v == 0 {
                    return None;
                }
                cluster.push(v - 1);
            },
            None => {
                return None;
            },
        }
        j = j + 1;
    }
    proof {
        assert(cluster@ =~= cluster_line_value(l));
    }
    Some(cluster)
}

/// The first `n` costs on the line `start .. end` of `b`.
fn row_line(b: &[u8], start: usize, end: usize, n: usize) -> (r: Option<Vec<i64>>)
    requires
        start <= end <= b@.len(),
    ensures
        r is Some <==> is_row_line(b@.subrange(start as int, end as int), n as int),
        r matches Some(row) ==> row@ == row_line_value(b@.subrange(start as int, end as int), n as int),
{
    let ghost l = b@.subrange(start as int, end as int);
    let ghost t = tokens(l);
    let toks = token_spans(b, start, end);
    proof {
        assert forall|j: int| 0 <= j < toks.len() implies b@.subrange(#[trigger] toks[j].0 as int, toks[j].1 as int) == t[j] by {
            assert(spans_of(b@, toks@)[j] == t[j]);
        }
    }
    if toks.len() < n {
        return None;
    }
    let mut row: Vec<i64> = Vec::new();
    let mut v: usize = 0;
    while v < n
        invariant
            start <= end <= b@.len(),
            l == b@.subrange(start as int, end as int),
            t == tokens(l),
            toks.len() == t.len(),
            toks.len() >= n,
            forall|x: int| 0 <= x < toks.len() ==> start <= #[trigger] toks[x].0 < toks[x].1 <= end,
            forall|x: int| 0 <= x < toks.len() ==> b@.subrange(#[trigger] toks[x].0 as int, toks[x].1 as int) == t[x],
            v <= n,
            row.len() == v,
            forall|x: int| 0 <= x < v ==> is_i64_text(#[trigger] t[x]),
            forall|x: int| 0 <= x < v ==> #[trigger] row@[x] == i64_value(t[x]) as i64,
        decreases n - v,
    {
        match parse_i64(b, toks[v].0, toks[v].1) {
            Some(d) => {
                row.push(d);
            },
            None => {
                return None;
            },
        }
        v = v + 1;
    }
    proof {
        assert(row@ =~= row_line_value(l, n as int));
    }
    Some(row)
}

impl GtspProblem {
    /// Reads an instance from its text: the lines `N: n`, `M: m`, `Symmetric: ` and
    /// `Triangle: ` each followed by `true` or `false`, then `m` lines that each give a
    /// cluster's size and its vertices numbered from 1, then the `n` rows of the cost matrix.
    pub fn read_from_text(text: &[u8]) -> (r: Result<GtspProblem, ReadError>)
        ensures
            r == Err::<GtspProblem, ReadError>(ReadError::Malformed) <==> !is_instance_text(text@),
            is_instance_text(text@) ==> (r is Ok <==> is_instance(
                text_vertices(text@) as nat,
                text_clusters(text@),
                text_dist(text@),
            )),
            r matches Ok(p) ==> {
                &&& p.wf()
                &&& p.vertex_count() == text_vertices(text@)
                &&& p.cluster_seq() == text_clusters(text@)
                &&& p.cost_matrix() == text_dist(text@)
                &&& p.symmetric_flag() == text_symmetric(text@)
                &&& p.triangle_flag() == text_triangle(text@)
            },
    {
        let ghost b = text@;
        let ghost ls = lines(b);
        let spans = line_spans(text);
        proof {
            assert forall|k: int| 0 <= k < spans.len() implies b.subrange(#[trigger] spans[k].0 as int, spans[k].1 as int) == ls[k] by {
                assert(spans_of(b, spans@)[k] == ls[k]);
            }
        }
        if spans.len() < 4 {
            return Err(ReadError::Malformed);
        }
        let n_text = vec![78u8, 58, 32];
        let m_text = vec![77u8, 58, 32];
        let sym_text = vec![83u8, 121, 109, 109, 101, 116, 114, 105, 99, 58, 32];
        let tri_text = vec![84u8, 114, 105, 97, 110, 103, 108, 101, 58, 32];
        proof {
            assert(n_text@ =~= n_prefix());
            assert(m_text@ =~= m_prefix());
            assert(sym_text@ =~= symmetric_prefix());
            assert(tri_text@ =~= triangle_prefix());
            assert(b.subrange(spans[0].0 as int, spans[0].1 as int) == ls[0]);
            assert(b.subrange(spans[1].0 as int, spans[1].1 as int) == ls[1]);
            assert(b.subrange(spans[2].0 as int, spans[2].1 as int) == ls[2]);
            assert(b.subrange(spans[3].0 as int, spans[3].1 as int) == ls[3]);
        }
        let n = match number_line(text, spans[0].0, spans[0].1, &n_text) {
            Some(n) => n,
            None => {
                return Err(ReadError::Malformed);
            },
        };
        let m = match number_line(text, spans[1].0, spans[1].1, &m_text) {
            Some(m) => m,
            None => {
                return Err(ReadError::Malformed);
            },
        };
        let is_symmetric = match flag_line(text, spans[2].0, spans[2].1, &sym_text) {
            Some(f) => f,
            None => {
                return Err(ReadError::Malformed);
            },
        };
        let is_triangle = match flag_line(text, spans[3].0, spans[3].1, &tri_text) {
            Some(f) => f,
            None => {
                return Err(ReadError::Malformed);
            },
        };
        if spans.len() - 4 < m || spans.len() - 4 - m < n {
            return Err(ReadError::Malformed);
        }
        let mut clusters: Vec<Vec<usize>> = Vec::new();
        let mut c: usize = 0;
        while c < m
            invariant
                b == text@,
                ls == lines(b),
                spans.len() == ls.len(),
                forall|k: int| 0 <= k < spans.len() ==> #[trigger] spans[k].0 <= spans[k].1 <= b.len(),
                forall|k: int| 0 <= k < spans.len() ==> b.subrange(#[trigger] spans[k].0 as int, spans[k].1 as int) == ls[k],
                spans.len() >= 4 + m + n,
                m == text_clusters_count(b),
                n == text_vertices(b),
                c <= m,
                clusters.len() == c,
                forall|x: int| 0 <= x < c ==> is_cluster_line(#[trigger] ls[4 + x]),
                forall|x: int| 0 <= x < c ==> #[trigger] clusters@[x]@ == cluster_line_value(ls[4 + x]),
            decreases m - c,
        {
            match cluster_line(text, spans[4 + c].0, spans[4 + c].1) {
                Some(cluster) => {
                    clusters.push(cluster);
                },
                None => {
                    proof {
                        assert(b.subrange(spans[4 + c as int].0 as int, spans[4 + c as int].1 as int) == ls[4 + c as int]);
                        assert(!is_cluster_line(ls[4 + c as int]));
                    }
                    return Err(ReadError::Malformed);
                },
            }
            c = c + 1;
        }
        let mut dist: Vec<Vec<i64>> = Vec::new();
        let mut u: usize = 0;
        while u < n
            invariant
                b == text@,
                ls == lines(b),
                spans.len() == ls.len(),
                forall|k: int| 0 <= k < spans.len() ==> #[trigger] spans[k].0 <= spans[k].1 <= b.len(),
                forall|k: int| 0 <= k < spans.len() ==> b.subrange(#[trigger] spans[k].0 as int, spans[k].1 as int) == ls[k],
                spans.len() >= 4 + m + n,
                m == text_clusters_count(b),
                n == text_vertices(b),
                u <= n,
                dist.len() == u,
                forall|x: int| 0 <= x < u ==> is_row_line(#[trigger] ls[4 + m + x], n as int),
                forall|x: int| 0 <= x < u ==> #[trigger] dist@[x]@ == row_line_value(ls[4 + m + x], n as int),
            decreases n - u,
        {
            match row_line(text, spans[4 + m + u].0, spans[4 + m + u].1, n) {
                Some(row) => {
                    dist.push(row);
                },
                None => {
                    proof {
                        assert(b.subrange(spans[4 + m + u as int].0 as int, spans[4 + m + u as int].1 as int) == ls[4 + m + u as int]);
                        assert(!is_row_line(ls[4 + m + u as int], n as int));
                    }
                    return Err(ReadError::Malformed);
                },
            }
            u = u + 1;
        }
        proof {
            assert(is_instance_text(b));
            assert(vecs_view(clusters@) =~= text_clusters(b));
            assert(vecs_view(dist@) =~= text_dist(b));
        }
        match GtspProblem::new(n, clusters, is_symmetric, is_triangle, dist) {
            Ok(p) => Ok(p),
            Err(e) => Err(ReadError::Invalid(e)),
        }
    }
}

/// Whether `b` is the text of a solution: a line with the tour's length `k`, a line with its
/// weight, then `k` lines with a vertex each, numbered from 1.
pub open spec fn is_solution_text(b: Seq<u8>) -> bool {
    let ls = lines(b);
    &&& ls.len() >= 2
    &&& is_usize_text(ls[0])
    &&& is_i64_text(ls[1])
    &&& ls.len() >= 2 + usize_value(ls[0])
    &&& forall|j: int|
        0 <= j < usize_value(ls[0]) ==> is_usize_text(#[trigger] ls[2 + j]) && usize_value(ls[2 + j]) >= 1
}

/// The tour that the text of a solution lists, its vertices numbered from 0.
pub open spec fn text_tour(b: Seq<u8>) -> Seq<usize> {
    let ls = lines(b);
    Seq::new(usize_value(ls[0]) as nat, |j: int| (usize_value(ls[2 + j]) - 1) as usize)
}

pub open spec fn text_weight(b: Seq<u8>) -> int {
    i64_value(lines(b)[1])
}

/// Why a text does not give a solution of an instance.
#[derive(Debug, Clone, Copy, PartialEq, Eq, Structural)]
pub enum SolutionReadError {
    /// The text does not follow the format.
    Malformed,
    /// The tour does not visit exactly one vertex of each cluster.
    InvalidTour,
    /// The stated weight is not the weight of the tour.
    WrongWeight,
}

impl Solution {
    /// Reads a solution of `problem` from its text, and checks that its tour visits one
    /// vertex per cluster and that the stated weight is the tour's weight.
    pub fn read_from_text(problem: &GtspProblem, text: &[u8]) -> (r: Result<Solution, SolutionReadError>)
        requires
            problem.wf(),
        ensures
            r == Err::<Solution, SolutionReadError>(SolutionReadError::Malformed) <==> !is_solution_text(text@),
            is_solution_text(text@) ==> (r == Err::<Solution, SolutionReadError>(SolutionReadError::InvalidTour)
                <==> !valid_tour(problem, text_tour(text@))),
            is_solution_text(text@) && valid_tour(problem, text_tour(text@)) ==> (r
                == Err::<Solution, SolutionReadError>(SolutionReadError::WrongWeight) <==> text_weight(text@)
                != tour_weight(problem, text_tour(text@))),
            r matches Ok(s) ==> s.valid(problem) && s.tour_seq() == text_tour(text@) && s.weight_value()
                == text_weight(text@),
    {
        let ghost b = text@;
        let ghost ls = lines(b);
        let spans = line_spans(text);
        proof {
            assert forall|k: int| 0 <= k < spans.len() implies b.subrange(#[trigger] spans[k].0 as int, spans[k].1 as int) == ls[k] by {
                assert(spans_of(b, spans@)[k] == ls[k]);
            }
        }
        if spans.len() < 2 {
            return Err(SolutionReadError::Malformed);
        }
        proof {
            assert(b.subrange(spans[0].0 as int, spans[0].1 as int) == ls[0]);
            assert(b.subrange(spans[1].0 as int, spans[1].1 as int) == ls[1]);
        }
        let k = match parse_usize(text, spans[0].0, spans[0].1) {
            Some(k) => k,
            None => {
                return Err(SolutionReadError::Malformed);
            },
        };
        let weight = match parse_i64(text, spans[1].0, spans[1].1) {
            Some(w) => w,
            None => {
                return Err(SolutionReadError::Malformed);
            },
        };
        if spans.len() - 2 < k {
            return Err(SolutionReadError::Malformed);
        }
        let mut tour: Vec<usize> = Vec::new();
        let mut j: usize = 0;
        while j < k
            invariant
                b == text@,
                ls == lines(b),
                spans.len() == ls.len(),
                forall|x: int| 0 <= x < spans.len() ==> #[trigger] spans[x].0 <= spans[x].1 <= b.len(),
                forall|x: int| 0 <= x < spans.len() ==> b.subrange(#[trigger] spans[x].0 as int, spans[x].1 as int) == ls[x],
                spans.len() >= 2 + k,
                k == usize_value(ls[0]),
                j <= k,
                tour.len() == j,
                forall|x: int| 0 <= x < j ==> is_usize_text(#[trigger] ls[2 + x]) && usize_value(ls[2 + x]) >= 1,
                forall|x: int| 0 <= x < j ==> #[trigger] tour@[x] == (usize_value(ls[2 + x]) - 1) as usize,
            decreases k - j,
        {
            proof {
                assert(b.subrange(spans[2 + j as int].0 as int, spans[2 + j as int].1 as int) == ls[2 + j as int]);
            }
            match parse_usize(text, spans[2 + j].0, spans[2 + j].1) {
                Some(v) => {
                    if v == 0 {
                        return Err(SolutionReadError::Malformed);
                    }
                    tour.push(v - 1);
                },
                None => {
                    return Err(SolutionReadError::Malformed);
                },
            }
            j = j + 1;
        }
        proof {
            assert(is_solution_text(b));
            assert(tour@ =~= text_tour(b));
        }
        if !problem.is_tour(tour.as_slice()) {
            return Err(SolutionReadError::InvalidTour);
        }
        let s = Solution::new(problem, tour);
        if s.weight() != weight {
            return Err(SolutionReadError::WrongWeight);
        }
        Ok(s)
    }
}

} // verus!

//! The King latency matrix: one line per node, each line the measured
//! latencies in milliseconds from that node to the others, separated by
//! spaces. A node's landmarks are 32 columns of its line drawn at random,
//! of which those with a measurement that is not negative are kept.

use vstd::prelude::*;
use std::collections::HashMap;
use crate::random::uniform_index;
use crate::network::{is_unplaced_origin_node, Node};

verus! {

broadcast use vstd::std_specs::hash::group_hash_axioms;

/// The byte that ends a line.
pub const NEWLINE: u8 = 10;
/// The byte that separates two measurements.
pub const SPACE: u8 = 32;
/// `-`
pub const MINUS: u8 = 45;
/// `+`
pub const PLUS: u8 = 43;
/// `0`
pub const DIGIT_ZERO: u8 = 48;
/// `9`
pub const DIGIT_NINE: u8 = 57;
/// How many columns are drawn for the landmarks of one node.
pub const LANDMARK_SAMPLES: usize = 32;

/// The pieces of `s` between the occurrences of `sep`, as `str::split`
/// yields them: an empty input gives one empty piece, and a separator at
/// either end gives an empty piece there.
pub open spec fn split_on(s: Seq<u8>, sep: u8) -> Seq<Seq<u8>>
    decreases s.len(),
{
    if s.len() == 0 {
        seq![Seq::<u8>::empty()]
    } else {
        let prev = split_on(s.drop_last(), sep);
        if s.last() == sep {
            prev.push(Seq::<u8>::empty())
        } else {
            prev.update(prev.len() - 1, prev.last().push(s.last()))
        }
    }
}

/// `split_on` yields at least one piece.
pub proof fn lemma_split_nonempty(s: Seq<u8>, sep: u8)
    ensures
        split_on(s, sep).len() >= 1,
    decreases s.len(),
{
    if s.len() > 0 {
        lemma_split_nonempty(s.drop_last(), sep);
    }
}

/// `c` is an ASCII decimal digit.
pub open spec fn is_digit(c: u8) -> bool {
    DIGIT_ZERO <= c <= DIGIT_NINE
}

/// Every byte of `s` is a decimal digit.
pub open spec fn all_digits(s: Seq<u8>) -> bool {
    forall|i: int| 0 <= i < s.len() ==> is_digit(#[trigger] s[i])
}

/// The number that the decimal digits `s` write.
pub open spec fn digits_value(s: Seq<u8>) -> int
    decreases s.len(),
{
    if s.len() == 0 {
        0
    } else {
        digits_value(s.drop_last()) * 10 + (s.last() - DIGIT_ZERO)
    }
}

/// What `str::parse::<i32>` gives for the token `tok`: an optional `+` or
/// `-`, then at least one decimal digit and nothing else, and a value
/// that fits in an `i32`.
pub open spec fn parse_i32(tok: Seq<u8>) -> Option<i32> {
    let signed = tok.len() > 0 && (tok[0] == MINUS || tok[0] == PLUS);
    let negative = tok.len() > 0 && tok[0] == MINUS;
    let body = if signed { tok.skip(1) } else { tok };
    if body.len() == 0 || !all_digits(body) {
        None
    } else {
        let v = if negative { -digits_value(body) } else { digits_value(body) };
        if i32::MIN <= v <= i32::MAX {
            Some(v as i32)
        } else {
            None
        }
    }
}

/// The measurements that the space-separated tokens `toks` give: empty
/// tokens are skipped, and one token that does not parse spoils the line.
pub open spec fn parse_tokens(toks: Seq<Seq<u8>>) -> Option<Seq<i32>>
    decreases toks.len(),
{
    if toks.len() == 0 {
        Some(Seq::<i32>::empty())
    } else {
        match parse_tokens(toks.drop_last()) {
            None => None,
            Some(prev) => if toks.last().len() == 0 {
                Some(prev)
            } else {
                match parse_i32(toks.last()) {
                    None => None,
                    Some(v) => Some(prev.push(v)),
                }
            },
        }
    }
}

/// The measurements of one line of the matrix.
pub open spec fn parse_row(line: Seq<u8>) -> Option<Seq<i32>> {
    parse_tokens(split_on(line, SPACE))
}

/// The rows of the lines `lines`; one line that does not parse spoils all.
pub open spec fn parse_lines(lines: Seq<Seq<u8>>) -> Option<Seq<Seq<i32>>>
    decreases lines.len(),
{
    if lines.len() == 0 {
        Some(Seq::<Seq<i32>>::empty())
    } else {
        match parse_lines(lines.drop_last()) {
            None => None,
            Some(prev) => match parse_row(lines.last()) {
                None => None,
                Some(r) => Some(prev.push(r)),
            },
        }
    }
}

/// The rows of the whole matrix text `contents`, one per line.
pub open spec fn parse_matrix(contents: Seq<u8>) -> Option<Seq<Seq<i32>>> {
    parse_lines(split_on(contents, NEWLINE))
}

/// The contents of a list of rows.
pub open spec fn row_views(rows: Seq<Vec<i32>>) -> Seq<Seq<i32>> {
    rows.map_values(|r: Vec<i32>| r@)
}

/// Splits `s` at every `sep`, as `str::split` does.
pub fn split_bytes(s: &[u8], sep: u8) -> (pieces: Vec<Vec<u8>>)
    ensures
        pieces.len() == split_on(s@, sep).len(),
        forall|k: int| 0 <= k < pieces.len() ==> #[trigger] pieces@[k]@ == split_on(s@, sep)[k],
{
    let mut pieces: Vec<Vec<u8>> = Vec::new();
    let mut cur: Vec<u8> = Vec::new();
    let mut i: usize = 0;
    while i < s.len()
        invariant
            i <= s.len(),
            pieces.len() + 1 == split_on(s@.take(i as int), sep).len(),
            forall|k: int|
                0 <= k < pieces.len() ==> #[trigger] pieces@[k]@ == split_on(s@.take(i as int), sep)[k],
            cur@ == split_on(s@.take(i as int), sep).last(),
        decreases s.len() - i,
    {
        proof {
            assert(s@.take(i + 1).drop_last() =~= s@.take(i as int));
            lemma_split_nonempty(s@.take(i as int), sep);
        }
        let c = s[i];
        if c == sep {
            pieces.push(cur);
            cur = Vec::new();
        } else {
            cur.push(c);
        }
        i = i + 1;
    }
    assert(s@.take(s.len() as int) =~= s@);
    pieces.push(cur);
    pieces
}

proof fn lemma_digits_nonneg(s: Seq<u8>)
    requires
        all_digits(s),
    ensures
        digits_value(s) >= 0,
    decreases s.len(),
{
    if s.len() > 0 {
        lemma_digits_nonneg(s.drop_last());
        assert(is_digit(s[s.len() - 1]));
    }
}

proof fn lemma_digits_prefix(s: Seq<u8>, j: int)
    requires
        all_digits(s),
        0 <= j <= s.len(),
    ensures
        digits_value(s.take(j)) <= digits_value(s),
    decreases s.len(),
{
    if j < s.len() {
        assert(s.drop_last().take(j) =~= s.take(j));
        lemma_digits_prefix(s.drop_last(), j);
        lemma_digits_nonneg(s.drop_last());
        assert(is_digit(s[s.len() - 1]));
    } else {
        assert(s.take(j) =~= s);
    }
}

/// Parses one token as `str::parse::<i32>` does.
pub fn parse_i32_token(tok: &[u8]) -> (r: Option<i32>)
    ensures
        r == parse_i32(tok@),
{
    let len = tok.len();
    let mut start: usize = 0;
    let mut negative = false;
    if len > 0 && (tok[0] == MINUS || tok[0] == PLUS) {
        start = 1;
        negative = tok[0] == MINUS;
    }
    let ghost body = tok@.skip(start as int);
    proof {
        if start == 0 {
            assert(body =~= tok@);
        }
    }
    if start == len {
        return None;
    }
    let mut acc: i64 = 0;
    let mut j: usize = start;
    while j < len
        invariant
            start <= j <= len,
            len == tok@.len(),
            start <= 1,
            body == tok@.skip(start as int),
            body.len() > 0,
            start == 0 ==> body == tok@,
            (start == 1) == (tok@.len() > 0 && (tok@[0] == MINUS || tok@[0] == PLUS)),
            negative == (tok@.len() > 0 && tok@[0] == MINUS),
            all_digits(body.take(j - start)),
            acc == digits_value(body.take(j - start)),
            0 <= acc <= 2147483648,
        decreases len - j,
    {
        let c = tok[j];
        proof {
            assert(body[j - start] == c);
        }
        if c < DIGIT_ZERO || c > DIGIT_NINE {
            proof {
                assert(!is_digit(body[j - start]));
            }
            return None;
        }
        proof {
            assert(body.take(j - start + 1).drop_last() =~= body.take(j - start));
            assert(all_digits(body.take(j - start + 1)));
            assert(body.take(j - start + 1).last() == c);
        }
        acc = acc * 10 + (c - DIGIT_ZERO) as i64;
        if acc > 2147483648 {
            proof {
                assert(acc == digits_value(body.take(j - start + 1)));
                if all_digits(body) {
                    lemma_digits_prefix(body, j - start + 1);
                    assert(digits_value(body) > 2147483648);
                }
            }
            return None;
        }
        j = j + 1;
    }
    proof {
        assert(body.take(len - start) =~= body);
    }
    let v: i64 = if negative { -acc } else { acc };
    if v < -2147483648 || v > 2147483647 {
        None
    } else {
        Some(v as i32)
    }
}

/// Parses one line of the matrix into its measurements.
pub fn parse_king_row(line: &[u8]) -> (r: Option<Vec<i32>>)
    ensures
        match r {
            Some(v) => parse_row(line@) == Some(v@),
            None => parse_row(line@) is None,
        },
{
    let toks = split_bytes(line, SPACE);
    let ghost t = split_on(line@, SPACE);
    let mut row: Vec<i32> = Vec::new();
    let mut ok = true;
    let mut k: usize = 0;
    while k < toks.len()
        invariant
            k <= toks.len(),
            toks.len() == t.len(),
            t == split_on(line@, SPACE),
            forall|i: int| 0 <= i < toks.len() ==> #[trigger] toks@[i]@ == t[i],
            ok ==> parse_tokens(t.take(k as int)) == Some(row@),
            !ok ==> parse_tokens(t.take(k as int)) is None,
        decreases toks.len() - k,
    {
        proof {
            assert(t.take(k + 1).drop_last() =~= t.take(k as int));
            assert(t.take(k + 1).last() == t[k as int]);
        }
        let tok = toks[k].as_slice();
        if tok.len() > 0 {
            match parse_i32_token(tok) {
                Some(v) => {
                    if ok {
                        row.push(v);
                    }
                },
                None => {
                    ok = false;
                },
            }
        }
        k = k + 1;
    }
    proof {
        assert(t.take(t.len() as int) =~= t);
    }
    if ok {
        Some(row)
    } else {
        None
    }
}

/// Parses the whole matrix text, one row per line.
pub fn parse_king_matrix(contents: &[u8]) -> (r: Option<Vec<Vec<i32>>>)
    ensures
        match r {
            Some(rows) => parse_matrix(contents@) == Some(row_views(rows@)),
            None => parse_matrix(contents@) is None,
        },
{
    let lines = split_bytes(contents, NEWLINE);
    let ghost ls = split_on(contents@, NEWLINE);
    let mut rows: Vec<Vec<i32>> = Vec::new();
    let mut ok = true;
    let mut k: usize = 0;
    while k < lines.len()
        invariant
            k <= lines.len(),
            lines.len() == ls.len(),
            ls == split_on(contents@, NEWLINE),
            forall|i: int| 0 <= i < lines.len() ==> #[trigger] lines@[i]@ == ls[i],
            ok ==> parse_lines(ls.take(k as int)) == Some(row_views(rows@)),
            !ok ==> parse_lines(ls.take(k as int)) is None,
        decreases lines.len() - k,
    {
        proof {
            assert(ls.take(k + 1).drop_last() =~= ls.take(k as int));
            assert(ls.take(k + 1).last() == ls[k as int]);
        }
        match parse_king_row(lines[k].as_slice()) {
            Some(row) => {
                if ok {
                    let ghost before = row_views(rows@);
                    rows.push(row);
                    proof {
                        assert(row_views(rows@) =~= before.push(rows@.last()@));
                    }
                }
            },
            None => {
                ok = false;
            },
        }
        k = k + 1;
    }
    proof {
        assert(ls.take(ls.len() as int) =~= ls);
    }
    if !ok {
        return None;
    }
    Some(rows)
}

/// The number of lines of the matrix text, which is the number of nodes
/// that the network loaded from it holds (an empty last line counts too).
pub fn king_node_count(contents: &[u8]) -> (n: usize)
    requires
        contents.len() < usize::MAX,
    ensures
        n == split_on(contents@, NEWLINE).len(),
{
    let mut n: usize = 1;
    let mut i: usize = 0;
    while i < contents.len()
        invariant
            i <= contents.len() < usize::MAX,
            1 <= n <= i + 1,
            n == split_on(contents@.take(i as int), NEWLINE).len(),
        decreases contents.len() - i,
    {
        proof {
            assert(contents@.take(i + 1).drop_last() =~= contents@.take(i as int));
            lemma_split_nonempty(contents@.take(i as int), NEWLINE);
        }
        if contents[i] == NEWLINE {
            n = n + 1;
        }
        i = i + 1;
    }
    proof {
        assert(contents@.take(contents.len() as int) =~= contents@);
    }
    n
}

/// The nodes of the network read from the matrix text: one per line, each
/// at the origin, not yet placed in a graph, with fresh coordinates.
pub fn load_king_nodes(contents: &[u8]) -> (nodes: Vec<Node>)
    requires
        contents.len() < usize::MAX,
    ensures
        nodes.len() == split_on(contents@, NEWLINE).len(),
        forall|k: int| 0 <= k < nodes.len() ==> is_unplaced_origin_node(#[trigger] nodes@[k]),
{
    let count = king_node_count(contents);
    let mut nodes: Vec<Node> = Vec::new();
    let mut k: usize = 0;
    while k < count
        invariant
            k <= count,
            nodes.len() == k,
            forall|i: int| 0 <= i < k ==> is_unplaced_origin_node(#[trigger] nodes@[i]),
        decreases count - k,
    {
        nodes.push(Node::at_origin());
        k = k + 1;
    }
    nodes
}

/// The landmarks that the drawn columns `picks` of `row` give: each drawn
/// column whose measurement is not negative, with that measurement, in
/// the order of drawing (a column drawn twice is kept twice).
pub open spec fn select_landmarks_spec(row: Seq<i32>, picks: Seq<usize>) -> Seq<(usize, i32)>
    decreases picks.len(),
{
    if picks.len() == 0 {
        Seq::<(usize, i32)>::empty()
    } else {
        let prev = select_landmarks_spec(row, picks.drop_last());
        let n = picks.last();
        if row[n as int] >= 0 {
            prev.push((n, row[n as int]))
        } else {
            prev
        }
    }
}

/// `picks` is one draw of landmark columns for a row of `n` measurements.
pub open spec fn is_landmark_draw(picks: Seq<usize>, n: nat) -> bool {
    &&& picks.len() == LANDMARK_SAMPLES
    &&& forall|k: int| 0 <= k < picks.len() ==> #[trigger] picks[k] < n
}

/// `sample` is what some draw of landmark columns gives for `row`.
pub open spec fn is_landmark_sample(row: Seq<i32>, sample: Seq<(usize, i32)>) -> bool {
    exists|picks: Seq<usize>|
        #[trigger] is_landmark_draw(picks, row.len()) && sample == select_landmarks_spec(row, picks)
}

/// Keeps the drawn columns `picks` of `row` whose measurement is not
/// negative, each with its measurement.
pub fn select_landmarks(row: &Vec<i32>, picks: &Vec<usize>) -> (r: Vec<(usize, i32)>)
    requires
        forall|k: int| 0 <= k < picks.len() ==> #[trigger] picks@[k] < row.len(),
    ensures
        r@ == select_landmarks_spec(row@, picks@),
{
    let mut r: Vec<(usize, i32)> = Vec::new();
    let mut k: usize = 0;
    while k < picks.len()
        invariant
            k <= picks.len(),
            forall|i: int| 0 <= i < picks.len() ==> #[trigger] picks@[i] < row.len(),
            r@ == select_landmarks_spec(row@, picks@.take(k as int)),
        decreases picks.len() - k,
    {
        proof {
            assert(picks@.take(k + 1).drop_last() =~= picks@.take(k as int));
            assert(picks@.take(k + 1).last() == picks@[k as int]);
        }
        let n = picks[k];
        if row[n] >= 0 {
            r.push((n, row[n]));
        }
        k = k + 1;
    }
    proof {
        assert(picks@.take(picks.len() as int) =~= picks@);
    }
    r
}

/// Draws the landmarks of one row: 32 columns drawn uniformly, of which
/// those with a measurement that is not negative are kept.
pub fn sample_landmarks(row: &Vec<i32>) -> (r: Vec<(usize, i32)>)
    requires
        row.len() > 0,
    ensures
        is_landmark_sample(row@, r@),
{
    let mut picks: Vec<usize> = Vec::new();
    let mut k: usize = 0;
    while k < LANDMARK_SAMPLES
        invariant
            k <= LANDMARK_SAMPLES,
            picks.len() == k,
            row.len() > 0,
            forall|i: int| 0 <= i < picks.len() ==> #[trigger] picks@[i] < row.len(),
        decreases LANDMARK_SAMPLES - k,
    {
        let n = uniform_index(row.len());
        picks.push(n);
        k = k + 1;
    }
    let r = select_landmarks(row, &picks);
    assert(is_landmark_draw(picks@, row@.len()));
    r
}

/// The rows of `rows` that hold at least one measurement, in order.
pub open spec fn nonempty_rows(rows: Seq<Seq<i32>>) -> Seq<Seq<i32>>
    decreases rows.len(),
{
    if rows.len() == 0 {
        Seq::<Seq<i32>>::empty()
    } else {
        let prev = nonempty_rows(rows.drop_last());
        if rows.last().len() > 0 {
            prev.push(rows.last())
        } else {
            prev
        }
    }
}

/// `m` gives the `k`-th row of `rows` that holds a measurement, for each
/// `k`, a landmark sample of that row, and has no other key.
pub open spec fn is_landmark_map(rows: Seq<Seq<i32>>, m: Map<usize, Vec<(usize, i32)>>) -> bool {
    &&& forall|k: usize| #[trigger] m.contains_key(k) <==> k < nonempty_rows(rows).len()
    &&& forall|k: usize|
        #[trigger] m.contains_key(k) ==> is_landmark_sample(nonempty_rows(rows)[k as int], m[k]@)
}

/// Draws the landmarks of every row that holds a measurement; the `k`-th
/// such row is the node with index `k`.
pub fn king_landmarks(rows: &Vec<Vec<i32>>) -> (m: HashMap<usize, Vec<(usize, i32)>>)
    ensures
        is_landmark_map(row_views(rows@), m@),
{
    let ghost rv = row_views(rows@);
    let mut m: HashMap<usize, Vec<(usize, i32)>> = HashMap::new();
    let mut k: usize = 0;
    let mut i: usize = 0;
    while i < rows.len()
        invariant
            i <= rows.len(),
            rv == row_views(rows@),
            k <= i,
            k == nonempty_rows(rv.take(i as int)).len(),
            is_landmark_map(rv.take(i as int), m@),
        decreases rows.len() - i,
    {
        proof {
            assert(rv.take(i + 1).drop_last() =~= rv.take(i as int));
            assert(rv.take(i + 1).last() == rows@[i as int]@);
        }
        if rows[i].len() > 0 {
            let sample = sample_landmarks(&rows[i]);
            m.insert(k, sample);
            k = k + 1;
        }
        i = i + 1;
    }
    proof {
        assert(rv.take(rows.len() as int) =~= rv);
    }
    m
}

/// The landmark measurements of the King matrix text `contents`, keyed by
/// node index: `None` exactly when a token of the text is not an `i32`.
pub fn load_king_measurements(contents: &[u8]) -> (r: Option<HashMap<usize, Vec<(usize, i32)>>>)
    ensures
        match r {
            Some(m) => parse_matrix(contents@) is Some && is_landmark_map(parse_matrix(contents@).unwrap(), m@),
            None => parse_matrix(contents@) is None,
        },
{
    match parse_king_matrix(contents) {
        Some(rows) => Some(king_landmarks(&rows)),
        None => None,
    }
}

proof fn lemma_parse_lines_len(lines: Seq<Seq<u8>>)
    requires
        parse_lines(lines) is Some,
    ensures
        parse_lines(lines).unwrap().len() == lines.len(),
    decreases lines.len(),
{
    if lines.len() > 0 {
        lemma_parse_lines_len(lines.drop_last());
    }
}

proof fn lemma_nonempty_rows_len(rows: Seq<Seq<i32>>)
    ensures
        nonempty_rows(rows).len() <= rows.len(),
    decreases rows.len(),
{
    if rows.len() > 0 {
        lemma_nonempty_rows_len(rows.drop_last());
    }
}

/// Every node that the landmark measurements of a matrix are keyed by is a
/// node of the network loaded from the same matrix: there are no more rows
/// with measurements than lines.
pub proof fn lemma_measured_nodes_exist(contents: Seq<u8>)
    requires
        parse_matrix(contents) is Some,
    ensures
        nonempty_rows(parse_matrix(contents).unwrap()).len() <= split_on(contents, NEWLINE).len(),
{
    lemma_parse_lines_len(split_on(contents, NEWLINE));
    lemma_nonempty_rows_len(parse_matrix(contents).unwrap());
}

/// Every landmark that a draw keeps names a column of its row and carries
/// that column's measurement, which is not negative; a draw keeps at most
/// as many landmarks as columns were drawn.
pub proof fn lemma_selected_landmarks_valid(row: Seq<i32>, picks: Seq<usize>)
    requires
        forall|k: int| 0 <= k < picks.len() ==> #[trigger] picks[k] < row.len(),
    ensures
        select_landmarks_spec(row, picks).len() <= picks.len(),
        forall|k: int| 0 <= k < select_landmarks_spec(row, picks).len() ==> {
            let (n, m) = #[trigger] select_landmarks_spec(row, picks)[k];
            &&& n < row.len()
            &&& row[n as int] == m
            &&& m >= 0
        },
    decreases picks.len(),
{
    if picks.len() > 0 {
        lemma_selected_landmarks_valid(row, picks.drop_last());
        assert(picks.last() == picks[picks.len() - 1]);
    }
}

/// The matrix has one row per line, so one row per node of the network
/// loaded from the same text.
pub proof fn lemma_one_row_per_line(contents: Seq<u8>)
    requires
        parse_matrix(contents) is Some,
    ensures
        parse_matrix(contents).unwrap().len() == split_on(contents, NEWLINE).len(),
{
    lemma_parse_lines_len(split_on(contents, NEWLINE));
}

/// Every byte from `'0'` (48) to `'9'` (57), alone, parses as its digit value.
pub proof fn lemma_parse_single_digit(c: u8)
    requires
        48 <= c <= 57,
    ensures
        parse_i32(seq![c]) == Some((c - 48) as i32),
{
    let s = seq![c];
    assert(s.drop_last() =~= Seq::<u8>::empty());
    assert(s[0] == c);
    assert(s.last() == c);
    assert(digits_value(s.drop_last()) == 0);
    assert(all_digits(s));
    assert(digits_value(s) == c - 48);
}

/// Appending a digit `'0'..='9'` to an unsigned numeral that parses as `v`
/// gives `10 * v` plus the digit, while that fits in an `i32`.
pub proof fn lemma_parse_append_digit(s: Seq<u8>, c: u8, v: i32)
    requires
        48 <= c <= 57,
        s.len() > 0,
        48 <= s[0] <= 57,
        parse_i32(s) == Some(v),
        10 * v + (c - 48) <= i32::MAX,
    ensures
        parse_i32(s.push(c)) == Some((10 * v + (c - 48)) as i32),
{
    let t = s.push(c);
    assert(t.drop_last() =~= s);
    assert(t[0] == s[0]);
    assert(all_digits(s));
    lemma_digits_nonneg(s);
    assert(digits_value(s) == v);
    assert(t.last() == c);
    assert(digits_value(t) == digits_value(s) * 10 + (c - 48));
    assert forall|i: int| 0 <= i < t.len() implies is_digit(#[trigger] t[i]) by {
        if i < s.len() {
            assert(t[i] == s[i]);
        }
    }
}

/// A leading `-` before an unsigned numeral that parses as `v` gives `-v`.
pub proof fn lemma_parse_negated(s: Seq<u8>, v: i32)
    requires
        s.len() > 0,
        48 <= s[0] <= 57,
        parse_i32(s) == Some(v),
    ensures
        parse_i32(seq![45u8] + s) == Some((-v) as i32),
{
    let t = seq![45u8] + s;
    assert(t.skip(1) =~= s);
    lemma_digits_nonneg(s);
}

/// A token with a byte other than `'0'..='9'` after its first byte does not parse.
pub proof fn lemma_parse_rejects_non_digit(tok: Seq<u8>, i: int)
    requires
        1 <= i < tok.len(),
        !(48 <= tok[i] <= 57),
    ensures
        parse_i32(tok) is None,
{
    if tok[0] == MINUS || tok[0] == PLUS {
        assert(tok.skip(1)[i - 1] == tok[i]);
    }
}

} // verus!

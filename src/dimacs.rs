use vstd::prelude::*;
use crate::color::{InstanceError, VertexId};

verus! {

/// an ASCII digit
pub open spec fn is_digit(b: u8) -> bool {
    48 <= b <= 57
}

/// a blank inside a line: space, tab or carriage return
pub open spec fn is_blank(b: u8) -> bool {
    b == 32 || b == 9 || b == 13
}

/// the value of a run of decimal digits
pub open spec fn digits_value(s: Seq<u8>) -> nat
    decreases s.len(),
{
    if s.len() == 0 {
        0
    } else {
        digits_value(s.drop_last()) * 10 + (s.last() - 48) as nat
    }
}

/// the first non-blank byte of b[start..end], if any
pub open spec fn first_word_byte(b: Seq<u8>, start: int, end: int) -> Option<u8>
    decreases end - start,
{
    if start >= end {
        None
    } else if is_blank(b[start]) {
        first_word_byte(b, start + 1, end)
    } else {
        Some(b[start])
    }
}

/// the first position from i on (below e) that is not a blank
pub open spec fn skip_spec(b: Seq<u8>, i: int, e: int) -> int
    decreases e - i,
{
    if i < e && is_blank(b[i]) {
        skip_spec(b, i + 1, e)
    } else {
        i
    }
}

/// the first position from i on (below e) that is not a digit
pub open spec fn digits_end(b: Seq<u8>, i: int, e: int) -> int
    decreases e - i,
{
    if i < e && is_digit(b[i]) {
        digits_end(b, i + 1, e)
    } else {
        i
    }
}

/// the number written from i on, with the position after it; None without a
/// digit or when it does not fit in usize
pub open spec fn number_at(b: Seq<u8>, i: int, e: int) -> Option<(usize, usize)> {
    let j = digits_end(b, i, e);
    if j == i || digits_value(b.subrange(i, j)) > usize::MAX {
        None
    } else {
        Some((digits_value(b.subrange(i, j)) as usize, j as usize))
    }
}

/// two numbers separated by blanks, then only blanks up to e
pub open spec fn two_numbers_spec(b: Seq<u8>, k: int, e: int) -> Option<(usize, usize)> {
    match number_at(b, skip_spec(b, k, e), e) {
        None => None,
        Some((x, j1)) => {
            let i2 = skip_spec(b, j1 as int, e);
            if i2 == j1 {
                None
            } else {
                match number_at(b, i2, e) {
                    None => None,
                    Some((y, j2)) => if skip_spec(b, j2 as int, e) == e {
                        Some((x, y))
                    } else {
                        None
                    },
                }
            }
        },
    }
}

/// the word w stands at i, followed by a blank or by e
pub open spec fn word_spec(b: Seq<u8>, i: int, e: int, w: Seq<u8>) -> bool {
    i + w.len() <= e && b.subrange(i, i + w.len()) == w && (i + w.len() == e || is_blank(b[i + w.len()]))
}

/// the keyword `edge`
pub open spec fn word_edge() -> Seq<u8> {
    seq![101u8, 100, 103, 101]
}

/// the keyword `col`
pub open spec fn word_col() -> Seq<u8> {
    seq![99u8, 111, 108]
}

/// what the line b[start..end] holds
pub open spec fn line_spec(b: Seq<u8>, start: int, end: int) -> DimacsLine {
    let i = skip_spec(b, start, end);
    if i == end {
        DimacsLine::Blank
    } else if b[i] == 99 {
        DimacsLine::Comment
    } else if b[i] == 112 {
        let j = skip_spec(b, i + 1, end);
        if j == i + 1 {
            DimacsLine::Malformed
        } else {
            let k = if word_spec(b, j, end, word_edge()) {
                j + 4
            } else if word_spec(b, j, end, word_col()) {
                j + 3
            } else {
                -1
            };
            if k < 0 {
                DimacsLine::Malformed
            } else {
                match two_numbers_spec(b, k, end) {
                    Some((n, m)) => DimacsLine::Header(n, m),
                    None => DimacsLine::Malformed,
                }
            }
        }
    } else if b[i] == 101 {
        match two_numbers_spec(b, i + 1, end) {
            Some((x, y)) => DimacsLine::Edge(x, y),
            None => DimacsLine::Malformed,
        }
    } else {
        DimacsLine::Malformed
    }
}

/// the end of the line that starts at i: the next newline, or the end of the text
pub open spec fn line_end(b: Seq<u8>, i: int) -> int
    decreases b.len() - i,
{
    if i >= b.len() || b[i] == 10 {
        i
    } else {
        line_end(b, i + 1)
    }
}

/// the result once every line is read
pub open spec fn dimacs_finish(header: Option<(usize, usize)>, edges: Seq<(usize, usize)>) -> Result<
    (usize, usize, Seq<(usize, usize)>),
    InstanceError,
> {
    match header {
        None => Err(InstanceError::MissingHeader),
        Some((n, m)) => if edges.len() == m || (m <= usize::MAX / 2 && edges.len() == 2 * m) {
            Ok((n, m, edges))
        } else {
            Err(InstanceError::EdgeCountMismatch(edges.len() as usize, m))
        },
    }
}

/// the result of reading the lines from position start on, with the header and
/// edges read so far and the number of the last line read
pub open spec fn dimacs_from(
    b: Seq<u8>,
    start: int,
    header: Option<(usize, usize)>,
    edges: Seq<(usize, usize)>,
    line_no: usize,
) -> Result<(usize, usize, Seq<(usize, usize)>), InstanceError>
    decreases b.len() - start,
{
    if start < 0 || start >= b.len() {
        dimacs_finish(header, edges)
    } else {
        let end = line_end(b, start);
        let ln: usize = if line_no < usize::MAX {
            (line_no + 1) as usize
        } else {
            line_no
        };
        let next = if end < b.len() {
            end + 1
        } else {
            end
        };
        if next <= start || next > b.len() {
            dimacs_finish(header, edges)
        } else {
            match line_spec(b, start, end) {
                DimacsLine::Blank => dimacs_from(b, next, header, edges, ln),
                DimacsLine::Comment => dimacs_from(b, next, header, edges, ln),
                DimacsLine::Header(n, m) => if header is Some {
                    Err(InstanceError::MalformedLine(ln))
                } else {
                    dimacs_from(b, next, Some((n, m)), edges, ln)
                },
                DimacsLine::Edge(x, y) => match header {
                    None => Err(InstanceError::MissingHeader),
                    Some((n, _)) => if x == 0 || y == 0 || x > n || y > n {
                        Err(InstanceError::EndpointOutOfRange(x, y))
                    } else {
                        dimacs_from(b, next, header, edges.push(((x - 1) as usize, (y - 1) as usize)), ln)
                    },
                },
                DimacsLine::Malformed => Err(InstanceError::MalformedLine(ln)),
            }
        }
    }
}

/// reading the text b gives r
pub open spec fn reads_as(b: Seq<u8>, r: Result<(usize, usize, Seq<(usize, usize)>), InstanceError>) -> bool {
    dimacs_model(b) == r
}

/// what reading a DIMACS text gives
pub open spec fn dimacs_model(b: Seq<u8>) -> Result<(usize, usize, Seq<(usize, usize)>), InstanceError> {
    dimacs_from(b, 0, None, Seq::empty(), 0)
}

proof fn lemma_line_end(b: Seq<u8>, i: int, j: int)
    requires
        0 <= i <= j <= b.len(),
        forall|k: int| i <= k < j ==> b[k] != 10,
    ensures
        line_end(b, i) == line_end(b, j),
        i <= line_end(b, i) <= b.len(),
    decreases j - i,
{
    if i < j {
        lemma_line_end(b, i + 1, j);
    } else {
        lemma_line_end_range(b, i);
    }
}

proof fn lemma_line_end_range(b: Seq<u8>, i: int)
    requires
        0 <= i <= b.len(),
    ensures
        i <= line_end(b, i) <= b.len(),
        line_end(b, i) < b.len() ==> b[line_end(b, i)] == 10,
    decreases b.len() - i,
{
    if i < b.len() && b[i] != 10 {
        lemma_line_end_range(b, i + 1);
    }
}

proof fn lemma_digits_end(b: Seq<u8>, i: int, j: int, e: int)
    requires
        i <= j <= e,
        forall|k: int| i <= k < j ==> is_digit(#[trigger] b[k]),
    ensures
        digits_end(b, i, e) == digits_end(b, j, e),
    decreases j - i,
{
    if i < j {
        lemma_digits_end(b, i + 1, j, e);
    }
}

proof fn lemma_digits_end_bound(b: Seq<u8>, i: int, e: int)
    requires
        i <= e,
    ensures
        i <= digits_end(b, i, e) <= e,
    decreases e - i,
{
    if i < e && is_digit(b[i]) {
        lemma_digits_end_bound(b, i + 1, e);
    }
}

proof fn lemma_digits_end_digits(b: Seq<u8>, i: int, e: int)
    requires
        i <= e,
    ensures
        forall|k: int| i <= k < digits_end(b, i, e) ==> is_digit(#[trigger] b[k]),
    decreases e - i,
{
    if i < e && is_digit(b[i]) {
        lemma_digits_end_digits(b, i + 1, e);
    }
}

proof fn lemma_digits_grow(b: Seq<u8>, i: int, j: int, j2: int)
    requires
        0 <= i <= j <= j2 <= b.len(),
        forall|k: int| i <= k < j2 ==> is_digit(#[trigger] b[k]),
    ensures
        digits_value(b.subrange(i, j)) <= digits_value(b.subrange(i, j2)),
    decreases j2 - j,
{
    if j < j2 {
        lemma_digits_grow(b, i, j, j2 - 1);
        assert(b.subrange(i, j2).drop_last() =~= b.subrange(i, j2 - 1));
    }
}

/// what a line of a DIMACS file holds
#[derive(Debug, Clone, Copy, PartialEq, Eq, Structural)]
pub enum DimacsLine {
    /// only blanks
    Blank,
    /// a comment line, starting with `c`
    Comment,
    /// `p edge n m` or `p col n m`
    Header(usize, usize),
    /// `e i j`, with 1-based vertices
    Edge(usize, usize),
    /// anything else
    Malformed,
}

/// skips the blanks from i on
fn skip_blanks(b: &Vec<u8>, i: usize, end: usize) -> (j: usize)
    requires
        i <= end <= b@.len(),
    ensures
        i <= j <= end,
        forall|k: int| i <= k < j ==> is_blank(#[trigger] b@[k]),
        j == end || !is_blank(b@[j as int]),
        first_word_byte(b@, i as int, end as int) == first_word_byte(b@, j as int, end as int),
        j == skip_spec(b@, i as int, end as int),
    decreases end - i,
{
    if i < end && (b[i] == 32 || b[i] == 9 || b[i] == 13) {
        skip_blanks(b, i + 1, end)
    } else {
        i
    }
}

/// reads a run of decimal digits starting at i; None when there is no digit
/// at i or the value does not fit in usize
fn parse_number(b: &Vec<u8>, i: usize, end: usize) -> (r: Option<(usize, usize)>)
    requires
        i <= end <= b@.len(),
    ensures
        match r {
            Some((v, j)) => {
                &&& i < j <= end
                &&& forall|k: int| i <= k < j ==> is_digit(#[trigger] b@[k])
                &&& (j == end || !is_digit(b@[j as int]))
                &&& v == digits_value(b@.subrange(i as int, j as int))
            },
            None => i == end || !is_digit(b@[i as int]) || exists|j: int|
                i < j <= end && digits_value(b@.subrange(i as int, j)) > usize::MAX,
        },
        r == number_at(b@, i as int, end as int),
{
    if i >= end || !(48 <= b[i] && b[i] <= 57) {
        return None;
    }
    proof {
        lemma_digits_end(b@, i as int, i as int, end as int);
    }
    let mut v: usize = 0;
    let mut j: usize = i;
    while j < end && 48 <= b[j] && b[j] <= 57
        invariant
            i <= j <= end,
            end <= b@.len(),
            forall|k: int| i <= k < j ==> is_digit(#[trigger] b@[k]),
            v == digits_value(b@.subrange(i as int, j as int)),
            digits_end(b@, i as int, end as int) == digits_end(b@, j as int, end as int),
            i < end,
            is_digit(b@[i as int]),
        decreases end - j,
    {
        let d = (b[j] - 48) as usize;
        proof {
            assert(b@.subrange(i as int, j + 1).drop_last() =~= b@.subrange(i as int, j as int));
        }
        if v > (usize::MAX - d) / 10 {
            proof {
                assert(digits_value(b@.subrange(i as int, j + 1)) > usize::MAX) by (nonlinear_arith)
                    requires
                        digits_value(b@.subrange(i as int, j + 1)) == v * 10 + d,
                        v > (usize::MAX - d) / 10,
                        d <= 9,
                ;
                let je = digits_end(b@, i as int, end as int);
                lemma_digits_end(b@, j as int, j as int, end as int);
                assert(digits_end(b@, j as int, end as int) == digits_end(b@, j + 1, end as int));
                lemma_digits_end_bound(b@, (j + 1) as int, end as int);
                lemma_digits_end_digits(b@, i as int, end as int);
                lemma_digits_grow(b@, i as int, j + 1, je);
            }
            return None;
        }
        v = v * 10 + d;
        j += 1;
        proof {
            lemma_digits_end(b@, (j - 1) as int, j as int, end as int);
        }
    }
    proof {
        assert(digits_end(b@, j as int, end as int) == j);
    }
    Some((v, j))
}

/// reads the two numbers that follow a line's keyword, then expects the end of the line
fn parse_two_numbers(b: &Vec<u8>, i: usize, end: usize) -> (r: Option<(usize, usize)>)
    requires
        i <= end <= b@.len(),
    ensures
        r == two_numbers_spec(b@, i as int, end as int),
{
    let i1 = skip_blanks(b, i, end);
    match parse_number(b, i1, end) {
        None => None,
        Some((x, j1)) => {
            let i2 = skip_blanks(b, j1, end);
            if i2 == j1 {
                return None;
            }
            match parse_number(b, i2, end) {
                None => None,
                Some((y, j2)) => {
                    let k = skip_blanks(b, j2, end);
                    if k == end {
                        Some((x, y))
                    } else {
                        None
                    }
                },
            }
        },
    }
}

/// true iff b[i..i + w.len()] is the word w, followed by a blank or the end
fn word_at(b: &Vec<u8>, i: usize, end: usize, w: &[u8]) -> (r: bool)
    requires
        i <= end <= b@.len(),
    ensures
        r ==> i + w@.len() <= end && b@.subrange(i as int, i + w@.len()) == w@,
        r == word_spec(b@, i as int, end as int, w@),
{
    if w.len() > end - i {
        return false;
    }
    let mut k: usize = 0;
    while k < w.len()
        invariant
            i + w@.len() <= end,
            end <= b@.len(),
            k <= w@.len(),
            forall|t: int| 0 <= t < k ==> b@[i + t] == #[trigger] w@[t],
        decreases w@.len() - k,
    {
        if b[i + k] != w[k] {
            proof {
                assert(b@.subrange(i as int, i + w@.len())[k as int] != w@[k as int]);
            }
            return false;
        }
        k += 1;
    }
    proof {
        assert(b@.subrange(i as int, i + w@.len()) =~= w@);
    }
    let after = i + w.len();
    after == end || b[after] == 32 || b[after] == 9 || b[after] == 13
}

/// classifies the line b[start..end]
pub fn parse_line(b: &Vec<u8>, start: usize, end: usize) -> (r: DimacsLine)
    requires
        start <= end <= b@.len(),
    ensures
        r == DimacsLine::Blank <==> first_word_byte(b@, start as int, end as int) == None::<u8>,
        r == DimacsLine::Comment <==> first_word_byte(b@, start as int, end as int) == Some(99u8),
        r is Header ==> first_word_byte(b@, start as int, end as int) == Some(112u8),
        r is Edge ==> first_word_byte(b@, start as int, end as int) == Some(101u8),
        r == line_spec(b@, start as int, end as int),
{
    let i = skip_blanks(b, start, end);
    if i == end {
        return DimacsLine::Blank;
    }
    let c = b[i];
    if c == 99 {
        return DimacsLine::Comment;
    }
    if c == 112 {
        let j = skip_blanks(b, i + 1, end);
        if j == i + 1 {
            return DimacsLine::Malformed;
        }
        proof {
            assert([101u8, 100, 103, 101]@ =~= word_edge());
            assert([99u8, 111, 108]@ =~= word_col());
        }
        let k = if word_at(b, j, end, &[101u8, 100, 103, 101]) {
            j + 4
        } else if word_at(b, j, end, &[99u8, 111, 108]) {
            j + 3
        } else {
            return DimacsLine::Malformed;
        };
        match parse_two_numbers(b, k, end) {
            Some((n, m)) => DimacsLine::Header(n, m),
            None => DimacsLine::Malformed,
        }
    } else if c == 101 {
        match parse_two_numbers(b, i + 1, end) {
            Some((x, y)) => DimacsLine::Edge(x, y),
            None => DimacsLine::Malformed,
        }
    } else {
        DimacsLine::Malformed
    }
}

/// reads a DIMACS instance: comment lines start with `c`, the header is
/// `p edge n m` or `p col n m`, then one line `e i j` per edge with 1-based
/// vertices; the number of edge lines must be m, or 2m when both directions
/// are listed. Returns n, m and the edges, 0-based.
pub fn read_dimacs(b: &Vec<u8>) -> (r: Result<(usize, usize, Vec<(VertexId, VertexId)>), InstanceError>)
    ensures
        match r {
            Ok((n, m, edges)) => {
                &&& forall|t: int| 0 <= t < edges@.len() ==> (#[trigger] edges@[t]).0 < n && edges@[t].1 < n
                &&& (edges@.len() == m || edges@.len() == 2 * m)
            },
            Err(InstanceError::EdgeCountMismatch(count, m)) => count != m && count != 2 * m,
            Err(InstanceError::EndpointOutOfRange(_, _)) => true,
            Err(InstanceError::MissingHeader) => true,
            Err(InstanceError::MalformedLine(_)) => true,
            Err(InstanceError::SelfLoop(_)) => false,
        },
        match r {
            Ok((n, m, edges)) => reads_as(b@, Ok((n, m, edges@))),
            Err(err) => reads_as(b@, Err(err)),
        },
{
    let len = b.len();
    let mut header: Option<(usize, usize)> = None;
    let mut edges: Vec<(VertexId, VertexId)> = Vec::new();
    let mut start: usize = 0;
    let mut line_no: usize = 0;
    while start < len
        invariant
            len == b@.len(),
            start <= len,
            match header {
                Some((n, m)) => forall|t: int| 0 <= t < edges@.len() ==> (#[trigger] edges@[t]).0 < n
                    && edges@[t].1 < n,
                None => edges@.len() == 0,
            },
            dimacs_model(b@) == dimacs_from(b@, start as int, header, edges@, line_no),
        decreases len - start,
    {
        let mut end = start;
        while end < len && b[end] != 10
            invariant
                start <= end <= len,
                len == b@.len(),
                forall|k: int| start <= k < end ==> b@[k] != 10,
            decreases len - end,
        {
            end += 1;
        }
        proof {
            lemma_line_end(b@, start as int, end as int);
            assert(line_end(b@, end as int) == end);
            assert(line_end(b@, start as int) == end);
        }
        let ghost old_edges = edges@;
        line_no = if line_no < usize::MAX { line_no + 1 } else { line_no };
        match parse_line(b, start, end) {
            DimacsLine::Blank => {},
            DimacsLine::Comment => {},
            DimacsLine::Header(n, m) => {
                if header.is_some() {
                    return Err(InstanceError::MalformedLine(line_no));
                }
                header = Some((n, m));
            },
            DimacsLine::Edge(x, y) => {
                match header {
                    None => {
                        return Err(InstanceError::MissingHeader);
                    },
                    Some((n, _)) => {
                        if x == 0 || y == 0 || x > n || y > n {
                            return Err(InstanceError::EndpointOutOfRange(x, y));
                        }
                        edges.push((x - 1, y - 1));
                        proof {
                            assert(edges@ == old_edges.push(((x - 1) as usize, (y - 1) as usize)));
                        }
                    },
                }
            },
            DimacsLine::Malformed => {
                return Err(InstanceError::MalformedLine(line_no));
            },
        }
        start = if end < len { end + 1 } else { end };
    }
    match header {
        None => Err(InstanceError::MissingHeader),
        Some((n, m)) => {
            let count = edges.len();
            if count == m || (m <= usize::MAX / 2 && count == 2 * m) {
                Ok((n, m, edges))
            } else {
                Err(InstanceError::EdgeCountMismatch(count, m))
            }
        },
    }
}

} // verus!

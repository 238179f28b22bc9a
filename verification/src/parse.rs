//! Parsing of the input description lines: "<x> <y>" coordinate pairs and
//! a bare "<n>" count, whitespace-separated decimal integers.

use vstd::prelude::*;

verus! {

use crate::geometry::Point;
use vstd::string::StringSliceAdditionalSpecFns;

/// ASCII whitespace, the separators the input format uses.
pub open spec fn is_space(c: u8) -> bool {
    c == 32 || c == 9 || c == 10 || c == 11 || c == 12 || c == 13
}

/// ASCII decimal digit.
pub open spec fn is_digit(c: u8) -> bool {
    48 <= c <= 57
}

/// Index of the first non-whitespace byte at or after `i`.
pub open spec fn skip_ws(b: Seq<u8>, i: int) -> int
    decreases b.len() - i,
{
    if i < 0 || i >= b.len() {
        i
    } else if is_space(b[i]) {
        skip_ws(b, i + 1)
    } else {
        i
    }
}

/// Index just past the whitespace-delimited token starting at `i`.
pub open spec fn tok_end(b: Seq<u8>, i: int) -> int
    decreases b.len() - i,
{
    if i < 0 || i >= b.len() {
        i
    } else if is_space(b[i]) {
        i
    } else {
        tok_end(b, i + 1)
    }
}

/// All bytes of `[i, j)` are decimal digits.
pub open spec fn all_digits(b: Seq<u8>, i: int, j: int) -> bool {
    forall|t: int| i <= t < j ==> is_digit(#[trigger] b[t])
}

/// Decimal value of the digit run `[i, j)`.
pub open spec fn tok_val(b: Seq<u8>, i: int, j: int) -> int
    decreases j - i,
{
    if j <= i {
        0
    } else {
        tok_val(b, i, j - 1) * 10 + (b[j - 1] - 48)
    }
}

/// What parsing a coordinate line yields: the values of the first two
/// whitespace-separated tokens, provided both exist, are all digits, and
/// fit in `usize`; anything after the second token is ignored.
pub open spec fn parse_point_spec(b: Seq<u8>) -> Option<(int, int)> {
    let s1 = skip_ws(b, 0);
    let e1 = tok_end(b, s1);
    let s2 = skip_ws(b, e1);
    let e2 = tok_end(b, s2);
    if s1 < e1 && s2 < e2 && all_digits(b, s1, e1) && all_digits(b, s2, e2) && tok_val(b, s1, e1)
        <= usize::MAX && tok_val(b, s2, e2) <= usize::MAX {
        Some((tok_val(b, s1, e1), tok_val(b, s2, e2)))
    } else {
        None
    }
}

/// What parsing a count line yields: the value of the single token, which
/// must be all digits, fit in `usize`, and be followed only by
/// whitespace.
pub open spec fn parse_count_spec(b: Seq<u8>) -> Option<int> {
    let s1 = skip_ws(b, 0);
    let e1 = tok_end(b, s1);
    let rest = skip_ws(b, e1);
    if s1 < e1 && all_digits(b, s1, e1) && tok_val(b, s1, e1) <= usize::MAX && rest == b.len() {
        Some(tok_val(b, s1, e1))
    } else {
        None
    }
}

proof fn lemma_tok_val_nonneg(b: Seq<u8>, i: int, j: int)
    requires
        all_digits(b, i, j),
    ensures
        tok_val(b, i, j) >= 0,
    decreases j - i,
{
    if j > i {
        lemma_tok_val_nonneg(b, i, j - 1);
    }
}

proof fn lemma_tok_val_mono(b: Seq<u8>, i: int, j1: int, j2: int)
    requires
        i <= j1 <= j2,
        all_digits(b, i, j2),
    ensures
        tok_val(b, i, j1) <= tok_val(b, i, j2),
    decreases j2 - j1,
{
    if j2 > j1 {
        lemma_tok_val_mono(b, i, j1, j2 - 1);
        lemma_tok_val_nonneg(b, i, j2 - 1);
    }
}

fn scan_ws(b: &[u8], i: usize) -> (r: usize)
    requires
        i <= b@.len(),
    ensures
        i <= r <= b@.len(),
        r as int == skip_ws(b@, i as int),
{
    let mut j = i;
    while j < b.len() && b[j] == 32 || j < b.len() && (b[j] == 9 || b[j] == 10 || b[j] == 11 || b[j]
        == 12 || b[j] == 13)
        invariant
            i <= j <= b@.len(),
            skip_ws(b@, i as int) == skip_ws(b@, j as int),
        decreases b@.len() - j,
    {
        j = j + 1;
    }
    j
}

fn scan_tok(b: &[u8], i: usize) -> (r: usize)
    requires
        i <= b@.len(),
    ensures
        i <= r <= b@.len(),
        r as int == tok_end(b@, i as int),
{
    let mut j = i;
    while j < b.len() && !(b[j] == 32 || b[j] == 9 || b[j] == 10 || b[j] == 11 || b[j] == 12 || b[j]
        == 13)
        invariant
            i <= j <= b@.len(),
            tok_end(b@, i as int) == tok_end(b@, j as int),
        decreases b@.len() - j,
    {
        j = j + 1;
    }
    j
}

fn parse_tok(b: &[u8], i: usize, j: usize) -> (r: Option<usize>)
    requires
        i <= j <= b@.len(),
    ensures
        r is Some <==> (all_digits(b@, i as int, j as int) && tok_val(b@, i as int, j as int)
            <= usize::MAX),
        r matches Some(v) ==> v as int == tok_val(b@, i as int, j as int),
{
    let mut m = i;
    while m < j
        invariant
            i <= m <= j <= b@.len(),
            all_digits(b@, i as int, m as int),
        decreases j - m,
    {
        let c = b[m];
        if c < 48 || c > 57 {
            return None;
        }
        m = m + 1;
    }
    let mut val: usize = 0;
    let mut t = i;
    while t < j
        invariant
            i <= t <= j <= b@.len(),
            all_digits(b@, i as int, j as int),
            val as int == tok_val(b@, i as int, t as int),
        decreases j - t,
    {
        let d = b[t] - 48;
        let wide: u128 = val as u128 * 10 + d as u128;
        if wide > usize::MAX as u128 {
            proof {
                assert(tok_val(b@, i as int, t as int + 1) == val * 10 + d);
                lemma_tok_val_mono(b@, i as int, t as int + 1, j as int);
            }
            return None;
        }
        val = wide as usize;
        proof {
            assert(tok_val(b@, i as int, t as int + 1) == tok_val(b@, i as int, t as int) * 10 + (
            b@[t as int] - 48));
        }
        t = t + 1;
    }
    Some(val)
}

/// Parse a "<x> <y>" coordinate line: `Some` exactly on the inputs the
/// format accepts, with the two token values.
pub fn parse_point(s: &str) -> (r: Option<Point>)
    ensures
        r is Some <==> parse_point_spec(s.spec_bytes()) is Some,
        r matches Some(p) ==> parse_point_spec(s.spec_bytes()) == Some((p.x as int, p.y as int)),
{
    let b: &[u8] = s.as_bytes();
    let s1 = scan_ws(b, 0);
    let e1 = scan_tok(b, s1);
    let s2 = scan_ws(b, e1);
    let e2 = scan_tok(b, s2);
    if s1 == e1 || s2 == e2 {
        return None;
    }
    let v1 = match parse_tok(b, s1, e1) {
        Some(v) => v,
        None => {
            return None;
        },
    };
    let v2 = match parse_tok(b, s2, e2) {
        Some(v) => v,
        None => {
            return None;
        },
    };
    Some(Point { x: v1, y: v2 })
}

/// Parse a "<n>" count line: `Some` exactly when the line holds one
/// all-digit token (and nothing else) whose value fits in `usize`.
pub fn parse_count(s: &str) -> (r: Option<usize>)
    ensures
        r is Some <==> parse_count_spec(s.spec_bytes()) is Some,
        r matches Some(v) ==> parse_count_spec(s.spec_bytes()) == Some(v as int),
{
    let b: &[u8] = s.as_bytes();
    let s1 = scan_ws(b, 0);
    let e1 = scan_tok(b, s1);
    let rest = scan_ws(b, e1);
    if s1 == e1 || rest != b.len() {
        return None;
    }
    parse_tok(b, s1, e1)
}

impl Point {
    /// Read a point from a "<x> <y>" line. The input must be well formed:
    /// malformed lines are rejected before the engines run (see
    /// [`parse_point`] for the checked variant).
    pub fn from_string(string: &str) -> (p: Point)
        requires
            parse_point_spec(string.spec_bytes()) is Some,
        ensures
            parse_point_spec(string.spec_bytes()) == Some((p.x as int, p.y as int)),
    {
        parse_point(string).unwrap()
    }
}

} // verus!

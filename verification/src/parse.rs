//! Parsing one line of text into a pair of integers.
//!
//! A line is split into whitespace-separated tokens; it yields a pair only if
//! it holds exactly two tokens and both parse as integers of the operation's
//! domain (unsigned 32-bit for ordering, signed 32-bit for distances).
//! A line failing this is silently dropped: a deliberate leniency policy.

use vstd::prelude::*;

verus! {

use crate::pair::Pair;

pub const SPACE: u8 = 32;

pub const PLUS: u8 = 43;

pub const MINUS: u8 = 45;

pub const ZERO: u8 = 48;

pub const NINE: u8 = 57;

/// The whitespace bytes: space, tab, line feed, vertical tab, form feed,
/// carriage return.
pub open spec fn is_space(c: u8) -> bool {
    c == SPACE || c == 9 || c == 10 || c == 11 || c == 12 || c == 13
}

pub open spec fn is_digit(c: u8) -> bool {
    ZERO <= c && c <= NINE
}

/// Index of the first whitespace byte at or after `i`, or `s.len()` if none:
/// the end of the token starting at `i`.
pub open spec fn tok_end(s: Seq<u8>, i: int) -> int
    decreases s.len() - i,
{
    if i < 0 || i >= s.len() {
        s.len() as int
    } else if is_space(s[i]) {
        i
    } else {
        tok_end(s, i + 1)
    }
}

pub proof fn lemma_tok_end_bounds(s: Seq<u8>, i: int)
    requires
        0 <= i <= s.len(),
    ensures
        i <= tok_end(s, i) <= s.len(),
        forall|k: int| i <= k < tok_end(s, i) ==> !is_space(s[k]),
        tok_end(s, i) < s.len() ==> is_space(s[tok_end(s, i)]),
    decreases s.len() - i,
{
    if i < s.len() && !is_space(s[i]) {
        lemma_tok_end_bounds(s, i + 1);
    }
}

/// Index of the first non-whitespace byte at or after `i`, or `s.len()`.
pub open spec fn ws_end(s: Seq<u8>, i: int) -> int
    decreases s.len() - i,
{
    if i < 0 || i >= s.len() {
        s.len() as int
    } else if is_space(s[i]) {
        ws_end(s, i + 1)
    } else {
        i
    }
}

pub proof fn lemma_ws_end_bounds(s: Seq<u8>, i: int)
    requires
        0 <= i <= s.len(),
    ensures
        i <= ws_end(s, i) <= s.len(),
        ws_end(s, i) < s.len() ==> !is_space(s[ws_end(s, i)]),
    decreases s.len() - i,
{
    if i < s.len() && is_space(s[i]) {
        lemma_ws_end_bounds(s, i + 1);
    }
}

/// The whitespace-separated tokens of `s`, scanning from position `i`.
pub open spec fn tokens_from(s: Seq<u8>, i: int) -> Seq<Seq<u8>>
    decreases s.len() - i + 1
        when 0 <= i
        via tokens_from_decreases
{
    if i >= s.len() {
        seq![]
    } else if is_space(s[i]) {
        tokens_from(s, i + 1)
    } else {
        seq![s.subrange(i, tok_end(s, i))] + tokens_from(s, tok_end(s, i))
    }
}

#[via_fn]
proof fn tokens_from_decreases(s: Seq<u8>, i: int) {
    if 0 <= i < s.len() && !is_space(s[i]) {
        lemma_tok_end_bounds(s, i + 1);
    }
}

/// All whitespace-separated tokens of a line.
pub open spec fn spec_tokens(s: Seq<u8>) -> Seq<Seq<u8>> {
    tokens_from(s, 0)
}

/// Where a stretch free of whitespace ends at `j`, the token ends there.
pub proof fn lemma_tok_end_is(s: Seq<u8>, i: int, j: int)
    requires
        0 <= i <= j <= s.len(),
        forall|k: int| i <= k < j ==> !is_space(s[k]),
        j < s.len() ==> is_space(s[j]),
    ensures
        tok_end(s, i) == j,
    decreases j - i,
{
    if i < j {
        lemma_tok_end_is(s, i + 1, j);
    }
}

/// Skipping leading whitespace does not change the tokens.
pub proof fn lemma_tokens_skip_ws(s: Seq<u8>, i: int)
    requires
        0 <= i <= s.len(),
    ensures
        tokens_from(s, i) == tokens_from(s, ws_end(s, i)),
    decreases s.len() - i,
{
    if i < s.len() && is_space(s[i]) {
        lemma_tokens_skip_ws(s, i + 1);
    }
}

/// The value of a string of decimal digit bytes, most significant first.
pub open spec fn digits_val(t: Seq<u8>) -> int
    decreases t.len(),
{
    if t.len() == 0 {
        0
    } else {
        digits_val(t.drop_last()) * 10 + (t.last() - ZERO)
    }
}

/// A non-empty string of decimal digit bytes.
pub open spec fn all_digits(t: Seq<u8>) -> bool {
    t.len() > 0 && forall|k: int| 0 <= k < t.len() ==> is_digit(#[trigger] t[k])
}

pub proof fn lemma_digits_val_nonneg(t: Seq<u8>)
    requires
        forall|k: int| 0 <= k < t.len() ==> is_digit(#[trigger] t[k]),
    ensures
        digits_val(t) >= 0,
    decreases t.len(),
{
    if t.len() > 0 {
        lemma_digits_val_nonneg(t.drop_last());
    }
}

/// The value of a digit string is at least the value of any of its prefixes.
pub proof fn lemma_digits_val_prefix(t: Seq<u8>, k: int)
    requires
        forall|j: int| 0 <= j < t.len() ==> is_digit(#[trigger] t[j]),
        0 <= k <= t.len(),
    ensures
        digits_val(t.take(k)) <= digits_val(t),
    decreases t.len() - k,
{
    if k < t.len() {
        lemma_digits_val_prefix(t, k + 1);
        assert(t.take(k + 1).drop_last() =~= t.take(k));
        assert(t.take(k + 1).last() == t[k]);
        lemma_digits_val_nonneg(t.take(k));
    } else {
        assert(t.take(k) =~= t);
    }
}

/// The token with one leading plus sign removed, if present.
pub open spec fn strip_plus(t: Seq<u8>) -> Seq<u8> {
    if t.len() > 0 && t[0] == PLUS {
        t.drop_first()
    } else {
        t
    }
}

/// The numeric value of a digit string, if it is one and its value is at
/// most `max`.
pub open spec fn spec_digits_u64(d: Seq<u8>, max: int) -> Option<u64> {
    if all_digits(d) && digits_val(d) <= max {
        Some(digits_val(d) as u64)
    } else {
        None
    }
}

/// How a token parses in the unsigned 32-bit domain: an optional plus sign,
/// then decimal digits, with a value of at most `u32::MAX`.
pub open spec fn spec_parse_u32(t: Seq<u8>) -> Option<u32> {
    match spec_digits_u64(strip_plus(t), u32::MAX as int) {
        Some(v) => Some(v as u32),
        None => None,
    }
}

/// How a token parses in the signed 32-bit domain: an optional sign, then
/// decimal digits, with a value between `i32::MIN` and `i32::MAX`.
pub open spec fn spec_parse_i32(t: Seq<u8>) -> Option<i32> {
    if t.len() > 0 && t[0] == MINUS {
        match spec_digits_u64(t.drop_first(), 0x8000_0000) {
            Some(v) => Some((-(v as int)) as i32),
            None => None,
        }
    } else {
        match spec_digits_u64(strip_plus(t), i32::MAX as int) {
            Some(v) => Some(v as i32),
            None => None,
        }
    }
}

/// How a whole line parses in the unsigned domain: a pair exactly when the
/// line has two tokens and both are unsigned 32-bit integers.
pub open spec fn spec_parse_pair_u32(s: Seq<u8>) -> Option<Pair> {
    let ts = spec_tokens(s);
    if ts.len() == 2 {
        match (spec_parse_u32(ts[0]), spec_parse_u32(ts[1])) {
            (Some(a), Some(b)) => Some(Pair { a, b }),
            _ => None,
        }
    } else {
        None
    }
}

/// How a whole line parses in the signed domain.
pub open spec fn spec_parse_pair_i32(s: Seq<u8>) -> Option<(i32, i32)> {
    let ts = spec_tokens(s);
    if ts.len() == 2 {
        match (spec_parse_i32(ts[0]), spec_parse_i32(ts[1])) {
            (Some(a), Some(b)) => Some((a, b)),
            _ => None,
        }
    } else {
        None
    }
}

fn is_space_exec(c: u8) -> (r: bool)
    ensures
        r == is_space(c),
{
    c == SPACE || c == 9 || c == 10 || c == 11 || c == 12 || c == 13
}

/// First non-whitespace position at or after `from`.
fn skip_spaces(line: &Vec<u8>, from: usize) -> (r: usize)
    requires
        from <= line@.len(),
    ensures
        r == ws_end(line@, from as int),
        from <= r <= line@.len(),
        r < line@.len() ==> !is_space(line@[r as int]),
{
    let mut i: usize = from;
    while i < line.len() && is_space_exec(line[i])
        invariant
            from <= i <= line@.len(),
            ws_end(line@, from as int) == ws_end(line@, i as int),
        decreases line@.len() - i,
    {
        i = i + 1;
    }
    proof {
        lemma_ws_end_bounds(line@, from as int);
    }
    i
}

/// End of the token starting at `from`.
fn scan_token(line: &Vec<u8>, from: usize) -> (r: usize)
    requires
        from <= line@.len(),
    ensures
        r == tok_end(line@, from as int),
        from <= r <= line@.len(),
{
    let mut i: usize = from;
    while i < line.len() && !is_space_exec(line[i])
        invariant
            from <= i <= line@.len(),
            tok_end(line@, from as int) == tok_end(line@, i as int),
        decreases line@.len() - i,
    {
        i = i + 1;
    }
    i
}

/// Value of the digit run `line[lo..hi]` if it is all digits and at most
/// `max`.
fn parse_digits(line: &Vec<u8>, lo: usize, hi: usize, max: u64) -> (r: Option<u64>)
    requires
        lo <= hi <= line@.len(),
        max <= 0x1_0000_0000,
    ensures
        r == spec_digits_u64(line@.subrange(lo as int, hi as int), max as int),
{
    let ghost d: Seq<u8> = line@.subrange(lo as int, hi as int);
    if lo == hi {
        return None;
    }
    let mut val: u64 = 0;
    let mut k: usize = lo;
    while k < hi
        invariant
            lo <= k <= hi <= line@.len(),
            max <= 0x1_0000_0000,
            d == line@.subrange(lo as int, hi as int),
            forall|j: int| 0 <= j < k - lo ==> is_digit(#[trigger] d[j]),
            val == digits_val(d.take(k - lo)),
            val <= max,
        decreases hi - k,
    {
        let c = line[k];
        proof {
            assert(d[k - lo] == line@[k as int]);
        }
        if c < ZERO || c > NINE {
            assert(!all_digits(d));
            return None;
        }
        let v2: u64 = val * 10 + ((c - ZERO) as u64);
        proof {
            assert(d.take(k - lo + 1).drop_last() =~= d.take(k - lo));
            assert(d.take(k - lo + 1).last() == d[k - lo]);
        }
        if v2 > max {
            proof {
                if all_digits(d) {
                    lemma_digits_val_prefix(d, k - lo + 1);
                }
            }
            return None;
        }
        val = v2;
        k = k + 1;
    }
    proof {
        assert(d.take(hi - lo) =~= d);
    }
    Some(val)
}

/// Parse the token `line[lo..hi]` in the unsigned 32-bit domain.
fn parse_u32_token(line: &Vec<u8>, lo: usize, hi: usize) -> (r: Option<u32>)
    requires
        lo <= hi <= line@.len(),
    ensures
        r == spec_parse_u32(line@.subrange(lo as int, hi as int)),
{
    let ghost t: Seq<u8> = line@.subrange(lo as int, hi as int);
    let start: usize = if lo < hi && line[lo] == PLUS {
        lo + 1
    } else {
        lo
    };
    proof {
        assert(line@.subrange(start as int, hi as int) =~= strip_plus(t));
    }
    match parse_digits(line, start, hi, 0xFFFF_FFFF) {
        Some(v) => Some(v as u32),
        None => None,
    }
}

/// Parse the token `line[lo..hi]` in the signed 32-bit domain.
fn parse_i32_token(line: &Vec<u8>, lo: usize, hi: usize) -> (r: Option<i32>)
    requires
        lo <= hi <= line@.len(),
    ensures
        r == spec_parse_i32(line@.subrange(lo as int, hi as int)),
{
    let ghost t: Seq<u8> = line@.subrange(lo as int, hi as int);
    if lo < hi && line[lo] == MINUS {
        proof {
            assert(line@.subrange(lo + 1 as int, hi as int) =~= t.drop_first());
        }
        match parse_digits(line, lo + 1, hi, 0x8000_0000) {
            Some(v) => {
                proof {
                    lemma_digits_val_nonneg(t.drop_first());
                    assert(v <= 0x8000_0000);
                }
                let r: i32 = (-((v as i64))) as i32;
                proof {
                    assert(r as int == -(v as int));
                }
                Some(r)
            },
            None => None,
        }
    } else {
        let start: usize = if lo < hi && line[lo] == PLUS {
            lo + 1
        } else {
            lo
        };
        proof {
            assert(line@.subrange(start as int, hi as int) =~= strip_plus(t));
        }
        match parse_digits(line, start, hi, 0x7FFF_FFFF) {
            Some(v) => Some(v as i32),
            None => None,
        }
    }
}

/// Locate the line's tokens if there are exactly two of them: the bounds of
/// the first and of the second.
fn find_two_tokens(line: &Vec<u8>) -> (r: Option<(usize, usize, usize, usize)>)
    ensures
        match r {
            Some(b) => {
                &&& b.0 <= b.1 <= b.2 <= b.3 <= line@.len()
                &&& spec_tokens(line@) == seq![
                    line@.subrange(b.0 as int, b.1 as int),
                    line@.subrange(b.2 as int, b.3 as int),
                ]
            },
            None => spec_tokens(line@).len() != 2,
        },
{
    let ghost s = line@;
    let n = line.len();
    let i0 = skip_spaces(line, 0);
    proof {
        lemma_tokens_skip_ws(s, 0);
    }
    if i0 == n {
        assert(tokens_from(s, i0 as int) =~= Seq::<Seq<u8>>::empty());
        return None;
    }
    let j0 = scan_token(line, i0);
    assert(tokens_from(s, i0 as int) == seq![s.subrange(i0 as int, j0 as int)] + tokens_from(
        s,
        j0 as int,
    ));
    let i1 = skip_spaces(line, j0);
    proof {
        lemma_tokens_skip_ws(s, j0 as int);
    }
    if i1 == n {
        assert(tokens_from(s, i1 as int) =~= Seq::<Seq<u8>>::empty());
        assert(spec_tokens(s).len() == 1);
        return None;
    }
    let j1 = scan_token(line, i1);
    assert(tokens_from(s, i1 as int) == seq![s.subrange(i1 as int, j1 as int)] + tokens_from(
        s,
        j1 as int,
    ));
    let i2 = skip_spaces(line, j1);
    proof {
        lemma_tokens_skip_ws(s, j1 as int);
    }
    if i2 != n {
        proof {
            lemma_tok_end_bounds(s, i2 as int);
        }
        assert(tokens_from(s, i2 as int) == seq![s.subrange(i2 as int, tok_end(s, i2 as int))]
            + tokens_from(s, tok_end(s, i2 as int)));
        assert(spec_tokens(s).len() >= 3);
        return None;
    }
    assert(tokens_from(s, i2 as int) =~= Seq::<Seq<u8>>::empty());
    assert(spec_tokens(s) =~= seq![
        s.subrange(i0 as int, j0 as int),
        s.subrange(i1 as int, j1 as int),
    ]);
    Some((i0, j0, i1, j1))
}

/// Parse one line in the unsigned domain, yielding a pair exactly when the
/// line holds two unsigned 32-bit integer tokens.
pub fn parse_pair_u32(line: &Vec<u8>) -> (r: Option<Pair>)
    ensures
        r == spec_parse_pair_u32(line@),
{
    match find_two_tokens(line) {
        Some(b) => {
            let a = parse_u32_token(line, b.0, b.1);
            let c = parse_u32_token(line, b.2, b.3);
            match (a, c) {
                (Some(a), Some(c)) => Some(Pair { a, b: c }),
                _ => None,
            }
        },
        None => None,
    }
}

/// Parse one line in the signed domain.
pub fn parse_pair_i32(line: &Vec<u8>) -> (r: Option<(i32, i32)>)
    ensures
        r == spec_parse_pair_i32(line@),
{
    match find_two_tokens(line) {
        Some(b) => {
            let a = parse_i32_token(line, b.0, b.1);
            let c = parse_i32_token(line, b.2, b.3);
            match (a, c) {
                (Some(a), Some(c)) => Some((a, c)),
                _ => None,
            }
        },
        None => None,
    }
}

/// The pairs of a whole file's lines, unsigned domain, in file order,
/// malformed lines dropped.
pub open spec fn spec_pairs_u32(ls: Seq<Seq<u8>>) -> Seq<Pair>
    decreases ls.len(),
{
    if ls.len() == 0 {
        seq![]
    } else {
        let rest = spec_pairs_u32(ls.drop_last());
        match spec_parse_pair_u32(ls.last()) {
            Some(p) => rest.push(p),
            None => rest,
        }
    }
}

/// The pairs of a whole file's lines, signed domain.
pub open spec fn spec_pairs_i32(ls: Seq<Seq<u8>>) -> Seq<(i32, i32)>
    decreases ls.len(),
{
    if ls.len() == 0 {
        seq![]
    } else {
        let rest = spec_pairs_i32(ls.drop_last());
        match spec_parse_pair_i32(ls.last()) {
            Some(p) => rest.push(p),
            None => rest,
        }
    }
}

/// The pairs of two stretches of lines, one after the other, are the pairs
/// of the first followed by the pairs of the second.
pub proof fn lemma_pairs_u32_concat(a: Seq<Seq<u8>>, b: Seq<Seq<u8>>)
    ensures
        spec_pairs_u32(a + b) == spec_pairs_u32(a) + spec_pairs_u32(b),
    decreases b.len(),
{
    if b.len() == 0 {
        assert(a + b =~= a);
        assert(spec_pairs_u32(a) + spec_pairs_u32(b) =~= spec_pairs_u32(a));
    } else {
        lemma_pairs_u32_concat(a, b.drop_last());
        assert((a + b).drop_last() =~= a + b.drop_last());
        assert((a + b).last() == b.last());
        match spec_parse_pair_u32(b.last()) {
            Some(p) => {
                assert(spec_pairs_u32(a + b) == (spec_pairs_u32(a) + spec_pairs_u32(
                    b.drop_last(),
                )).push(p));
                assert((spec_pairs_u32(a) + spec_pairs_u32(b.drop_last())).push(p)
                    =~= spec_pairs_u32(a) + spec_pairs_u32(b.drop_last()).push(p));
            },
            None => {},
        }
    }
}

/// The signed-domain counterpart of the concatenation law.
pub proof fn lemma_pairs_i32_concat(a: Seq<Seq<u8>>, b: Seq<Seq<u8>>)
    ensures
        spec_pairs_i32(a + b) == spec_pairs_i32(a) + spec_pairs_i32(b),
    decreases b.len(),
{
    if b.len() == 0 {
        assert(a + b =~= a);
        assert(spec_pairs_i32(a) + spec_pairs_i32(b) =~= spec_pairs_i32(a));
    } else {
        lemma_pairs_i32_concat(a, b.drop_last());
        assert((a + b).drop_last() =~= a + b.drop_last());
        assert((a + b).last() == b.last());
        match spec_parse_pair_i32(b.last()) {
            Some(p) => {
                assert(spec_pairs_i32(a + b) == (spec_pairs_i32(a) + spec_pairs_i32(
                    b.drop_last(),
                )).push(p));
                assert((spec_pairs_i32(a) + spec_pairs_i32(b.drop_last())).push(p)
                    =~= spec_pairs_i32(a) + spec_pairs_i32(b.drop_last()).push(p));
            },
            None => {},
        }
    }
}

/// A file never yields more pairs than it has lines.
pub proof fn lemma_pairs_at_most_lines(ls: Seq<Seq<u8>>)
    ensures
        spec_pairs_u32(ls).len() <= ls.len(),
        spec_pairs_i32(ls).len() <= ls.len(),
    decreases ls.len(),
{
    if ls.len() > 0 {
        lemma_pairs_at_most_lines(ls.drop_last());
    }
}

/// Parse every line in the unsigned domain, keeping the pairs in file order.
pub fn parse_pairs_u32(lines: &Vec<Vec<u8>>) -> (r: Vec<Pair>)
    ensures
        r@ == spec_pairs_u32(lines.deep_view()),
{
    let mut out: Vec<Pair> = Vec::new();
    let mut k: usize = 0;
    proof {
        assert(lines.deep_view().take(0) =~= Seq::<Seq<u8>>::empty());
    }
    while k < lines.len()
        invariant
            0 <= k <= lines@.len(),
            lines.deep_view().len() == lines@.len(),
            out@ == spec_pairs_u32(lines.deep_view().take(k as int)),
        decreases lines@.len() - k,
    {
        let p = parse_pair_u32(&lines[k]);
        proof {
            assert(lines[k as int].deep_view() =~= lines[k as int]@);
            assert(lines.deep_view().take(k + 1).drop_last() =~= lines.deep_view().take(k as int));
            assert(lines.deep_view().take(k + 1).last() == lines.deep_view()[k as int]);
        }
        match p {
            Some(p) => out.push(p),
            None => (),
        }
        k = k + 1;
    }
    proof {
        assert(lines.deep_view().take(lines@.len() as int) =~= lines.deep_view());
    }
    out
}

/// Parse every line in the signed domain, keeping the pairs in file order.
pub fn parse_pairs_i32(lines: &Vec<Vec<u8>>) -> (r: Vec<(i32, i32)>)
    ensures
        r@ == spec_pairs_i32(lines.deep_view()),
{
    let mut out: Vec<(i32, i32)> = Vec::new();
    let mut k: usize = 0;
    proof {
        assert(lines.deep_view().take(0) =~= Seq::<Seq<u8>>::empty());
    }
    while k < lines.len()
        invariant
            0 <= k <= lines@.len(),
            lines.deep_view().len() == lines@.len(),
            out@ == spec_pairs_i32(lines.deep_view().take(k as int)),
        decreases lines@.len() - k,
    {
        let p = parse_pair_i32(&lines[k]);
        proof {
            assert(lines[k as int].deep_view() =~= lines[k as int]@);
            assert(lines.deep_view().take(k + 1).drop_last() =~= lines.deep_view().take(k as int));
            assert(lines.deep_view().take(k + 1).last() == lines.deep_view()[k as int]);
        }
        match p {
            Some(p) => out.push(p),
            None => (),
        }
        k = k + 1;
    }
    proof {
        assert(lines.deep_view().take(lines@.len() as int) =~= lines.deep_view());
    }
    out
}

} // verus!

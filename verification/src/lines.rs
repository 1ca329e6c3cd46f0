//! Splitting a file's raw bytes into lines.
//!
//! A line ends at a line-feed byte (which is not part of the line); a final
//! fragment with no terminating line feed is still a line; a carriage return
//! just before a terminating line feed is stripped.

use vstd::prelude::*;

verus! {

pub const LF: u8 = 10;

pub const CR: u8 = 13;

/// Index of the first line feed at or after `i`, or `s.len()` if none.
pub open spec fn line_end(s: Seq<u8>, i: int) -> int
    decreases s.len() - i,
{
    if i < 0 || i >= s.len() {
        s.len() as int
    } else if s[i] == LF {
        i
    } else {
        line_end(s, i + 1)
    }
}

pub proof fn lemma_line_end_bounds(s: Seq<u8>, i: int)
    requires
        0 <= i <= s.len(),
    ensures
        i <= line_end(s, i) <= s.len(),
        forall|k: int| i <= k < line_end(s, i) ==> s[k] != LF,
        line_end(s, i) < s.len() ==> s[line_end(s, i)] == LF,
    decreases s.len() - i,
{
    if i < s.len() && s[i] != LF {
        lemma_line_end_bounds(s, i + 1);
    }
}

/// A line with a trailing carriage return has it removed.
pub open spec fn strip_cr(t: Seq<u8>) -> Seq<u8> {
    if t.len() > 0 && t[t.len() - 1] == CR {
        t.drop_last()
    } else {
        t
    }
}

/// One line's bytes: the stretch `s[i..j]`, with a carriage return stripped
/// only where a line feed at `j` ended the line.
pub open spec fn line_at(s: Seq<u8>, i: int, j: int) -> Seq<u8> {
    if j < s.len() {
        strip_cr(s.subrange(i, j))
    } else {
        s.subrange(i, j)
    }
}

/// The lines of `s` starting at position `i`.
pub open spec fn lines_from(s: Seq<u8>, i: int) -> Seq<Seq<u8>>
    decreases s.len() - i + 1
        when 0 <= i
        via lines_from_decreases
{
    if i >= s.len() {
        seq![]
    } else {
        seq![line_at(s, i, line_end(s, i))] + lines_from(s, line_end(s, i) + 1)
    }
}

#[via_fn]
proof fn lines_from_decreases(s: Seq<u8>, i: int) {
    if 0 <= i < s.len() {
        lemma_line_end_bounds(s, i);
    }
}

/// All lines of a file's bytes.
pub open spec fn spec_lines(s: Seq<u8>) -> Seq<Seq<u8>> {
    lines_from(s, 0)
}

/// Where a stretch free of line feeds ends at `j`, the line ends there.
pub proof fn lemma_line_end_is(s: Seq<u8>, i: int, j: int)
    requires
        0 <= i <= j <= s.len(),
        forall|k: int| i <= k < j ==> s[k] != LF,
        j < s.len() ==> s[j] == LF,
    ensures
        line_end(s, i) == j,
    decreases j - i,
{
    if i < j {
        lemma_line_end_is(s, i + 1, j);
    }
}

/// Scanning for a line's end within `s` matches scanning the suffix.
pub proof fn lemma_line_end_skip(s: Seq<u8>, i: int, k: int)
    requires
        0 <= i <= k <= s.len(),
    ensures
        line_end(s, k) == i + line_end(s.skip(i), k - i),
    decreases s.len() - k,
{
    let t = s.skip(i);
    if k < s.len() {
        assert(t[k - i] == s[k]);
        if s[k] != LF {
            lemma_line_end_skip(s, i, k + 1);
        }
    }
}

/// The lines from position `i` are the lines of the suffix from `i`.
pub proof fn lemma_lines_from_skip(s: Seq<u8>, i: int)
    requires
        0 <= i <= s.len(),
    ensures
        lines_from(s, i) == spec_lines(s.skip(i)),
    decreases s.len() - i,
{
    let t = s.skip(i);
    if i == s.len() {
        assert(t.len() == 0);
    } else {
        let j = line_end(s, i);
        lemma_line_end_bounds(s, i);
        lemma_line_end_skip(s, i, i);
        let j2 = line_end(t, 0);
        assert(j == i + j2);
        assert(s.subrange(i, j) =~= t.subrange(0, j2));
        assert(line_at(s, i, j) == line_at(t, 0, j2));
        if j == s.len() {
            assert(lines_from(s, j + 1) =~= Seq::<Seq<u8>>::empty());
            assert(j2 == t.len());
            assert(lines_from(t, j2 + 1) =~= Seq::<Seq<u8>>::empty());
        } else {
            lemma_lines_from_skip(s, j + 1);
            lemma_lines_from_skip(t, j2 + 1);
            assert(s.skip(j + 1) =~= t.skip(j2 + 1));
        }
        assert(lines_from(s, i) == lines_from(t, 0));
    }
}

/// Split a file's bytes into its lines.
pub fn split_lines(bytes: &Vec<u8>) -> (r: Vec<Vec<u8>>)
    ensures
        r.deep_view() == spec_lines(bytes@),
{
    let mut out: Vec<Vec<u8>> = Vec::new();
    let mut i: usize = 0;
    proof {
        assert(out.deep_view() + lines_from(bytes@, 0) =~= lines_from(bytes@, 0));
    }
    while i < bytes.len()
        invariant
            0 <= i <= bytes.len(),
            spec_lines(bytes@) == out.deep_view() + lines_from(bytes@, i as int),
        decreases bytes.len() - i,
    {
        let ghost prev_out = out.deep_view();
        let mut j: usize = i;
        while j < bytes.len() && bytes[j] != LF
            invariant
                i <= j <= bytes.len(),
                line_end(bytes@, i as int) == line_end(bytes@, j as int),
            decreases bytes.len() - j,
        {
            j = j + 1;
        }
        assert(line_end(bytes@, j as int) == j);
        let mut line: Vec<u8> = Vec::new();
        let mut k: usize = i;
        let end: usize = if j > i && j < bytes.len() && bytes[j - 1] == CR {
            j - 1
        } else {
            j
        };
        proof {
            assert(bytes@.subrange(i as int, end as int) =~= line_at(bytes@, i as int, j as int));
        }
        while k < end
            invariant
                i <= k <= end <= bytes.len(),
                line@ == bytes@.subrange(i as int, k as int),
            decreases end - k,
        {
            proof {
                assert(bytes@.subrange(i as int, k + 1 as int) =~= bytes@.subrange(
                    i as int,
                    k as int,
                ).push(bytes@[k as int]));
            }
            line.push(bytes[k]);
            k = k + 1;
        }
        out.push(line);
        proof {
            assert(line.deep_view() =~= line@);
            assert(out.deep_view() =~= prev_out.push(
                line_at(bytes@, i as int, j as int),
            ));
            assert(lines_from(bytes@, i as int) == seq![
                line_at(bytes@, i as int, line_end(bytes@, i as int)),
            ] + lines_from(bytes@, line_end(bytes@, i as int) + 1));
            assert(spec_lines(bytes@) =~= out.deep_view() + lines_from(bytes@, j + 1 as int));
        }
        if j >= bytes.len() {
            i = bytes.len();
            proof {
                assert(lines_from(bytes@, j + 1 as int) =~= Seq::<Seq<u8>>::empty());
                assert(lines_from(bytes@, i as int) =~= Seq::<Seq<u8>>::empty());
                assert(spec_lines(bytes@) =~= out.deep_view());
            }
        } else {
            i = j + 1;
        }
    }
    proof {
        assert(lines_from(bytes@, i as int) =~= Seq::<Seq<u8>>::empty());
        assert(spec_lines(bytes@) =~= out.deep_view());
    }
    out
}

} // verus!

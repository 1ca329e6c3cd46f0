//! The order operation: parse the pairs of a file, sort them
//! lexicographically, and render them back, one `"<a> <b>"` line per pair,
//! each line feed terminated.

use vstd::prelude::*;

verus! {

use vstd::seq_lib::*;
use vstd::relations::sorted_by;
use crate::pair::{Pair, pair_leq, lemma_pair_le_total};
use crate::lines::{LF, CR, spec_lines, lines_from, split_lines, lemma_line_end_is,
    lemma_lines_from_skip};
use crate::parse::{SPACE, ZERO, is_space, is_digit, all_digits, digits_val, tokens_from,
    spec_tokens, strip_plus, spec_parse_u32, spec_parse_pair_u32, spec_pairs_u32, parse_pairs_u32,
    lemma_tok_end_is, lemma_pairs_u32_concat};
use crate::sort::{spec_sort_pairs, sort_pairs};

/// The decimal digits of `n`, most significant first, no leading zeros.
pub open spec fn u32_digits(n: int) -> Seq<u8>
    decreases n
        when 0 <= n
{
    if n < 10 {
        seq![(ZERO + n) as u8]
    } else {
        u32_digits(n / 10).push((ZERO + n % 10) as u8)
    }
}

/// A rendered pair: the two numbers with a single space between them.
pub open spec fn format_pair(p: Pair) -> Seq<u8> {
    u32_digits(p.a as int) + seq![SPACE] + u32_digits(p.b as int)
}

/// The rendered pair list: one line per pair, each line feed terminated.
pub open spec fn render_lines(ps: Seq<Pair>) -> Seq<u8>
    decreases ps.len(),
{
    if ps.len() == 0 {
        seq![]
    } else {
        format_pair(ps.first()) + seq![LF] + render_lines(ps.drop_first())
    }
}

/// What the order operation writes for a given input file.
pub open spec fn spec_order(input: Seq<u8>) -> Seq<u8> {
    render_lines(spec_sort_pairs(spec_pairs_u32(spec_lines(input))))
}

/// Rendered digits are digit bytes and carry the rendered value.
pub proof fn lemma_u32_digits_props(n: int)
    requires
        0 <= n,
    ensures
        u32_digits(n).len() >= 1,
        forall|k: int| 0 <= k < u32_digits(n).len() ==> is_digit(#[trigger] u32_digits(n)[k]),
        digits_val(u32_digits(n)) == n,
    decreases n,
{
    if n < 10 {
        let d = (ZERO + n) as u8;
        assert(seq![d].drop_last() =~= Seq::<u8>::empty());
        assert(digits_val(Seq::<u8>::empty()) == 0);
        assert(digits_val(seq![d]) == d - ZERO);
    } else {
        lemma_u32_digits_props(n / 10);
        assert(u32_digits(n).drop_last() =~= u32_digits(n / 10));
    }
}

/// Append the decimal rendering of `n` to a byte vector.
pub fn push_u32_dec(n: u32, out: &mut Vec<u8>)
    ensures
        final(out)@ == old(out)@ + u32_digits(n as int),
    decreases n,
{
    if n < 10 {
        out.push(ZERO + n as u8);
        proof {
            assert(final(out)@ =~= old(out)@ + u32_digits(n as int));
        }
    } else {
        push_u32_dec(n / 10, out);
        out.push(ZERO + (n % 10) as u8);
        proof {
            assert(final(out)@ =~= old(out)@ + u32_digits(n as int));
        }
    }
}

/// Render the pair list, one line per pair, sorted order preserved.
pub fn render_pairs(ps: &Vec<Pair>) -> (r: Vec<u8>)
    ensures
        r@ == render_lines(ps@),
{
    let mut out: Vec<u8> = Vec::new();
    let mut k: usize = 0;
    proof {
        assert(ps@.skip(0) =~= ps@);
    }
    while k < ps.len()
        invariant
            0 <= k <= ps@.len(),
            out@ + render_lines(ps@.skip(k as int)) == render_lines(ps@),
        decreases ps@.len() - k,
    {
        let p = ps[k];
        proof {
            assert(ps@.skip(k as int).first() == p);
            assert(ps@.skip(k as int).drop_first() =~= ps@.skip(k + 1));
        }
        let ghost pre = out@;
        push_u32_dec(p.a, &mut out);
        out.push(SPACE);
        push_u32_dec(p.b, &mut out);
        out.push(LF);
        proof {
            assert(out@ =~= pre + (format_pair(p) + seq![LF]));
            assert(out@ + render_lines(ps@.skip(k + 1)) =~= pre + render_lines(
                ps@.skip(k as int),
            ));
        }
        k = k + 1;
    }
    proof {
        assert(ps@.skip(ps@.len() as int) =~= Seq::<Pair>::empty());
        assert(out@ + Seq::<u8>::empty() =~= out@);
    }
    out
}

/// The order operation on a file's bytes: parse, sort, render.
pub fn order_bytes(input: &Vec<u8>) -> (r: Vec<u8>)
    ensures
        r@ == spec_order(input@),
{
    let lines = split_lines(input);
    let mut pairs = parse_pairs_u32(&lines);
    sort_pairs(&mut pairs);
    render_pairs(&pairs)
}

/// A rendered pair parses back to itself, and its line holds neither a line
/// feed nor a carriage return.
pub proof fn lemma_format_pair_roundtrip(p: Pair)
    ensures
        spec_parse_pair_u32(format_pair(p)) == Some(p),
        format_pair(p).len() >= 3,
        forall|k: int|
            0 <= k < format_pair(p).len() ==> (#[trigger] format_pair(p)[k]) != LF && format_pair(
                p,
            )[k] != CR,
{
    let da = u32_digits(p.a as int);
    let db = u32_digits(p.b as int);
    let s = format_pair(p);
    lemma_u32_digits_props(p.a as int);
    lemma_u32_digits_props(p.b as int);
    assert(forall|k: int| 0 <= k < da.len() ==> !is_space(#[trigger] s[k]) && !is_digit(SPACE));
    assert(is_space(s[da.len() as int]));
    assert(forall|k: int|
        da.len() + 1 <= k < s.len() ==> s[k] == db[k - da.len() - 1] && !is_space(#[trigger] s[k]));
    lemma_tok_end_is(s, 0, da.len() as int);
    lemma_tok_end_is(s, da.len() as int + 1, s.len() as int);
    assert(tokens_from(s, 0) == seq![s.subrange(0, da.len() as int)] + tokens_from(
        s,
        da.len() as int,
    ));
    assert(tokens_from(s, da.len() as int) == tokens_from(s, da.len() as int + 1));
    assert(tokens_from(s, da.len() as int + 1) == seq![s.subrange(da.len() as int + 1, s.len() as int)]
        + tokens_from(s, s.len() as int));
    assert(tokens_from(s, s.len() as int) =~= Seq::<Seq<u8>>::empty());
    assert(s.subrange(0, da.len() as int) =~= da);
    assert(s.subrange(da.len() as int + 1, s.len() as int) =~= db);
    assert(spec_tokens(s) =~= seq![da, db]);
    assert(strip_plus(da) == da);
    assert(strip_plus(db) == db);
    assert(all_digits(da) && all_digits(db));
    assert(spec_parse_u32(da) == Some(p.a));
    assert(spec_parse_u32(db) == Some(p.b));
}

/// The lines of a rendering are exactly one line per pair, and they parse
/// back to the pair list itself.
pub proof fn lemma_render_roundtrip(ps: Seq<Pair>)
    ensures
        spec_pairs_u32(spec_lines(render_lines(ps))) == ps,
    decreases ps.len(),
{
    if ps.len() == 0 {
        assert(spec_lines(render_lines(ps)) =~= Seq::<Seq<u8>>::empty());
    } else {
        let p = ps.first();
        let fp = format_pair(p);
        let rest = render_lines(ps.drop_first());
        let s = render_lines(ps);
        lemma_format_pair_roundtrip(p);
        assert(s == fp + seq![LF] + rest);
        assert(forall|k: int| 0 <= k < fp.len() ==> (#[trigger] s[k]) == fp[k]);
        assert(s[fp.len() as int] == LF);
        lemma_line_end_is(s, 0, fp.len() as int);
        assert(spec_lines(s) == seq![
            crate::lines::line_at(s, 0, fp.len() as int),
        ] + lines_from(s, fp.len() as int + 1));
        assert(s.subrange(0, fp.len() as int) =~= fp);
        assert(crate::lines::strip_cr(fp) == fp);
        lemma_lines_from_skip(s, fp.len() as int + 1);
        assert(s.skip(fp.len() as int + 1) =~= rest);
        lemma_render_roundtrip(ps.drop_first());
        assert(spec_lines(s) == seq![fp] + spec_lines(rest));
        lemma_pairs_u32_concat(seq![fp], spec_lines(rest));
        assert(spec_pairs_u32(seq![fp]) =~= seq![p]) by {
            assert(seq![fp].drop_last() =~= Seq::<Seq<u8>>::empty());
            assert(seq![fp].last() == fp);
            assert(spec_pairs_u32(Seq::<Seq<u8>>::empty()) == Seq::<Pair>::empty());
            assert(Seq::<Pair>::empty().push(p) =~= seq![p]);
        }
        assert(seq![p] + ps.drop_first() =~= ps);
    }
}

/// The pairs parsed back from the order operation's output are the sorted
/// pairs of the input, so adjacent output pairs are in ascending
/// lexicographic order.
pub proof fn lemma_order_output_sorted(input: Seq<u8>)
    ensures
        spec_pairs_u32(spec_lines(spec_order(input))) == spec_sort_pairs(
            spec_pairs_u32(spec_lines(input)),
        ),
        sorted_by(spec_pairs_u32(spec_lines(spec_order(input))), pair_leq()),
{
    let ps = spec_pairs_u32(spec_lines(input));
    lemma_render_roundtrip(spec_sort_pairs(ps));
    lemma_pair_le_total();
    ps.lemma_sort_by_ensures(pair_leq());
}

/// The order operation is idempotent: run on its own output it writes
/// byte-identical output.
pub proof fn lemma_order_idempotent(input: Seq<u8>)
    ensures
        spec_order(spec_order(input)) == spec_order(input),
{
    let ps = spec_pairs_u32(spec_lines(input));
    let sorted = spec_sort_pairs(ps);
    lemma_render_roundtrip(sorted);
    lemma_pair_le_total();
    ps.lemma_sort_by_ensures(pair_leq());
    sorted.lemma_sort_by_ensures(pair_leq());
    lemma_sorted_unique(spec_sort_pairs(sorted), sorted, pair_leq());
}

} // verus!

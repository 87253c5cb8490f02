//! The mathematical model of the fragment-segmentation pipeline.
//!
//! Every stage of the parser — delimiter scanning, gap filling, filtering,
//! trimming, item building — is stated here as a spec function over the
//! input's character sequence.  The executable pipeline in [`crate::parse`]
//! is proved to return exactly [`parse_spec`] of its input.

use vstd::prelude::*;

use crate::ast::ItemModel;
use crate::parse::FragmentKind;

verus! {

/// A half-open interval of character positions: the value of a [`crate::parse::Span`].
pub struct SpanModel {
    pub lo: int,
    pub hi: int,
}

/// An interval with its kind tag: the value of a [`crate::parse::Fragment`].
pub struct RegionModel {
    pub kind: FragmentKind,
    pub lo: int,
    pub hi: int,
}

/// The opening marker `<%` starts at position `p`.
pub open spec fn open_at(s: Seq<char>, p: int) -> bool {
    0 <= p && p + 2 <= s.len() && s[p] == '<' && s[p + 1] == '%'
}

/// The closing marker `%>` starts at position `p`.
pub open spec fn close_at(s: Seq<char>, p: int) -> bool {
    0 <= p && p + 2 <= s.len() && s[p] == '%' && s[p + 1] == '>'
}

/// Position of the first closing marker at or after `i`, or `s.len()`
/// when there is none.
pub open spec fn first_close_from(s: Seq<char>, i: int) -> int
    decreases s.len() - i,
{
    if i + 2 > s.len() {
        s.len() as int
    } else if close_at(s, i) {
        i
    } else {
        first_close_from(s, i + 1)
    }
}

/// The Delimiter Scanner: the ordered spans of all delimiter-bounded
/// regions found from position `i` on, each the shortest match from the
/// leftmost remaining opening marker.
pub open spec fn scan_from(s: Seq<char>, i: int) -> Seq<SpanModel>
    decreases s.len() - i,
{
    if i < 0 || i + 2 > s.len() {
        Seq::empty()
    } else if open_at(s, i) {
        let c = first_close_from(s, i + 2);
        if i + 2 <= c && c + 2 <= s.len() {
            seq![SpanModel { lo: i, hi: c + 2 }] + scan_from(s, c + 2)
        } else {
            Seq::empty()
        }
    } else {
        scan_from(s, i + 1)
    }
}

/// Code regions with the given spans, in order.
pub open spec fn code_regions_of(sps: Seq<SpanModel>) -> Seq<RegionModel> {
    sps.map_values(|sp: SpanModel| RegionModel { kind: FragmentKind::Code, lo: sp.lo, hi: sp.hi })
}

/// The Gap Filler: walk the given regions in order with a cursor, inserting
/// a text region for the gap before each region, and one for the tail of
/// the input when the last region does not reach its end.
pub open spec fn fill_regions(frags: Seq<RegionModel>, cursor: int, len: int) -> Seq<RegionModel>
    decreases frags.len(),
{
    if frags.len() == 0 {
        if cursor != len {
            seq![RegionModel { kind: FragmentKind::Text, lo: cursor, hi: len }]
        } else {
            Seq::empty()
        }
    } else {
        let first = frags[0];
        let rest = fill_regions(frags.drop_first(), first.hi, len);
        if first.lo != cursor {
            seq![RegionModel { kind: FragmentKind::Text, lo: cursor, hi: first.lo }, first] + rest
        } else {
            seq![first] + rest
        }
    }
}

/// The Gap Filler stage in full.  With no regions at all it emits the
/// single text region spanning the whole input — even when the input is
/// empty, in which case the zero-length region is later removed by the
/// filter.  Otherwise it walks the regions with the cursor starting at 0.
pub open spec fn gap_filled_regions(frags: Seq<RegionModel>, len: int) -> Seq<RegionModel> {
    if frags.len() == 0 {
        seq![RegionModel { kind: FragmentKind::Text, lo: 0, hi: len }]
    } else {
        fill_regions(frags, 0, len)
    }
}

/// The regions covering the whole input after the Gap Filler stage.
pub open spec fn filled_regions(s: Seq<char>) -> Seq<RegionModel> {
    gap_filled_regions(code_regions_of(scan_from(s, 0)), s.len() as int)
}

/// The Region Filter: drop every zero-length region.
pub open spec fn nonempty_regions(rs: Seq<RegionModel>) -> Seq<RegionModel>
    decreases rs.len(),
{
    if rs.len() == 0 {
        Seq::empty()
    } else if rs[0].lo != rs[0].hi {
        seq![rs[0]] + nonempty_regions(rs.drop_first())
    } else {
        nonempty_regions(rs.drop_first())
    }
}

/// The Delimiter Trimmer on one region: shrink a code region past its
/// markers, leave a text region untouched.
pub open spec fn trim_region(r: RegionModel) -> RegionModel {
    match r.kind {
        FragmentKind::Code => RegionModel { kind: r.kind, lo: r.lo + 2, hi: r.hi - 2 },
        FragmentKind::Text => r,
    }
}

pub open spec fn trimmed_regions(rs: Seq<RegionModel>) -> Seq<RegionModel> {
    rs.map_values(|r: RegionModel| trim_region(r))
}

/// The Item Builder on one trimmed region: the region's text, with the
/// print sigil detected and stripped on code regions.
pub open spec fn item_of_region(s: Seq<char>, r: RegionModel) -> ItemModel {
    let t = s.subrange(r.lo, r.hi);
    match r.kind {
        FragmentKind::Text => ItemModel::Text(t),
        FragmentKind::Code => if t.len() > 0 && t[0] == '=' {
            ItemModel::Code { source: t.subrange(1, t.len() as int), print_result: true }
        } else {
            ItemModel::Code { source: t, print_result: false }
        },
    }
}

pub open spec fn items_of_regions(s: Seq<char>, rs: Seq<RegionModel>) -> Seq<ItemModel> {
    rs.map_values(|r: RegionModel| item_of_region(s, r))
}

/// The whole pipeline: what parsing the character sequence `s` returns.
pub open spec fn parse_spec(s: Seq<char>) -> Seq<ItemModel> {
    items_of_regions(s, trimmed_regions(nonempty_regions(filled_regions(s))))
}

/// Spans in ascending order, pairwise non-overlapping.
pub open spec fn spans_ordered(sps: Seq<SpanModel>) -> bool {
    &&& forall|k: int| 0 <= k < sps.len() ==> #[trigger] sps[k].lo <= sps[k].hi
    &&& forall|k: int| 0 <= k < sps.len() - 1 ==> #[trigger] sps[k].hi <= sps[k + 1].lo
}

/// Regions in ascending order, pairwise non-overlapping, all inside
/// `[cursor, len)`.
pub open spec fn regions_bounded_ordered(rs: Seq<RegionModel>, cursor: int, len: int) -> bool {
    &&& forall|k: int| 0 <= k < rs.len() ==> 0 <= #[trigger] rs[k].lo <= rs[k].hi <= len
    &&& forall|k: int| 0 <= k < rs.len() - 1 ==> #[trigger] rs[k].hi <= rs[k + 1].lo
    &&& rs.len() > 0 ==> cursor <= rs[0].lo
}

/// A region the pipeline can finish: inside the input, and long enough to
/// lose both markers if it is a code region.
pub open spec fn region_ok(r: RegionModel, len: int) -> bool {
    &&& 0 <= r.lo <= r.hi <= len
    &&& r.kind is Code ==> r.lo + 4 <= r.hi
}

/// The Gap Filler only emits regions that the later stages can finish.
pub proof fn lemma_fill_regions_ok(frags: Seq<RegionModel>, cursor: int, len: int)
    requires
        0 <= cursor <= len,
        regions_bounded_ordered(frags, cursor, len),
        forall|k: int| 0 <= k < frags.len() ==> region_ok(#[trigger] frags[k], len),
    ensures
        forall|k: int|
            0 <= k < fill_regions(frags, cursor, len).len()
                ==> region_ok(#[trigger] fill_regions(frags, cursor, len)[k], len),
    decreases frags.len(),
{
    let out = fill_regions(frags, cursor, len);
    if frags.len() == 0 {
    } else {
        let first = frags[0];
        let tail = frags.drop_first();
        assert(region_ok(first, len));
        assert forall|k: int|
            0 <= k < tail.len() implies region_ok(#[trigger] tail[k], len)
                && 0 <= tail[k].lo <= tail[k].hi <= len by {
            assert(tail[k] == frags[k + 1]);
        }
        assert forall|k: int| 0 <= k < tail.len() - 1 implies #[trigger] tail[k].hi <= tail[k + 1].lo by {
            assert(tail[k] == frags[k + 1]);
            assert(tail[k + 1] == frags[k + 2]);
        }
        if tail.len() > 0 {
            assert(tail[0] == frags[1]);
            assert(frags[0].hi <= frags[1].lo);
        }
        lemma_fill_regions_ok(tail, first.hi, len);
        let rest = fill_regions(tail, first.hi, len);
        assert forall|k: int| 0 <= k < out.len() implies region_ok(#[trigger] out[k], len) by {
            if first.lo != cursor {
                if k >= 2 {
                    assert(out[k] == rest[k - 2]);
                }
            } else {
                if k >= 1 {
                    assert(out[k] == rest[k - 1]);
                }
            }
        }
    }
}

/// The Region Filter keeps only regions of nonzero length, and keeps them
/// finishable.
pub proof fn lemma_nonempty_regions_ok(rs: Seq<RegionModel>, len: int)
    requires
        forall|k: int| 0 <= k < rs.len() ==> region_ok(#[trigger] rs[k], len),
    ensures
        forall|k: int|
            0 <= k < nonempty_regions(rs).len()
                ==> region_ok(#[trigger] nonempty_regions(rs)[k], len)
                    && nonempty_regions(rs)[k].lo < nonempty_regions(rs)[k].hi,
    decreases rs.len(),
{
    let out = nonempty_regions(rs);
    if rs.len() == 0 {
    } else {
        let tail = rs.drop_first();
        assert forall|k: int| 0 <= k < tail.len() implies region_ok(#[trigger] tail[k], len) by {
            assert(tail[k] == rs[k + 1]);
        }
        lemma_nonempty_regions_ok(tail, len);
        let rest = nonempty_regions(tail);
        if rs[0].lo != rs[0].hi {
            assert forall|k: int|
                0 <= k < out.len() implies region_ok(#[trigger] out[k], len) && out[k].lo < out[k].hi by {
                if k >= 1 {
                    assert(out[k] == rest[k - 1]);
                }
            }
        }
    }
}

/// A region the Delimiter Trimmer can shrink without leaving the input:
/// a code region at least as long as its two markers together.
pub open spec fn region_trimmable(r: RegionModel) -> bool {
    r.kind is Code ==> 0 <= r.lo && r.lo + 4 <= r.hi
}

/// One item rendered back to marker syntax: text verbatim, code
/// re-wrapped as `<%`, the print sigil when set, the source, `%>`.
pub open spec fn serialize_item(it: ItemModel) -> Seq<char> {
    match it {
        ItemModel::Text(t) => t,
        ItemModel::Code { source, print_result } => {
            let sigil: Seq<char> = if print_result { seq!['='] } else { Seq::empty() };
            seq!['<', '%'] + sigil + source + seq!['%', '>']
        },
    }
}

/// A document rendered back to marker syntax, item by item in order.
pub open spec fn serialize_items(items: Seq<ItemModel>) -> Seq<char>
    decreases items.len(),
{
    if items.len() == 0 {
        Seq::empty()
    } else {
        serialize_item(items[0]) + serialize_items(items.drop_first())
    }
}

/// `sp` is a delimiter-bounded region of `s`: markers at both ends, at
/// least four characters long, and its closing marker is the first one
/// after the opening marker.
pub open spec fn span_is_match(s: Seq<char>, sp: SpanModel) -> bool {
    &&& open_at(s, sp.lo)
    &&& close_at(s, sp.hi - 2)
    &&& sp.lo + 4 <= sp.hi <= s.len()
    &&& forall|q: int| sp.lo + 2 <= q < sp.hi - 2 ==> !close_at(s, q)
}

/// No delimiter-bounded region is completed anywhere at or after `a`.
pub open spec fn no_match_from(s: Seq<char>, a: int) -> bool {
    forall|p: int, q: int| a <= p && p + 2 <= q && #[trigger] open_at(s, p) ==> !#[trigger] close_at(s, q)
}

/// Start of the gap that precedes span `k`: the scan's starting position
/// for the first span, the end of the previous span otherwise.
pub open spec fn gap_lo(i: int, sps: Seq<SpanModel>, k: int) -> int {
    if k == 0 { i } else { sps[k - 1].hi }
}

/// Everything the scanner guarantees of its output: each span is a
/// shortest match, spans come in order without overlap, no opening marker
/// stands in a gap before a span, and no match is completed after the
/// last span.
pub open spec fn scan_wf(s: Seq<char>, i: int, sps: Seq<SpanModel>) -> bool {
    &&& forall|k: int| 0 <= k < sps.len() ==> span_is_match(s, #[trigger] sps[k])
    &&& forall|k: int| 0 <= k < sps.len() ==> i <= #[trigger] sps[k].lo
    &&& forall|k: int| 0 <= k < sps.len() - 1 ==> #[trigger] sps[k].hi <= sps[k + 1].lo
    &&& forall|k: int, p: int|
        0 <= k < sps.len() && gap_lo(i, sps, k) <= p < #[trigger] sps[k].lo
            ==> !#[trigger] open_at(s, p)
    &&& no_match_from(s, if sps.len() == 0 { i } else { sps[sps.len() - 1].hi })
}

pub proof fn lemma_first_close_from(s: Seq<char>, i: int)
    requires
        0 <= i <= s.len(),
    ensures
        i <= first_close_from(s, i) <= s.len(),
        first_close_from(s, i) < s.len() ==> close_at(s, first_close_from(s, i)),
        forall|q: int| i <= q < first_close_from(s, i) ==> !close_at(s, q),
    decreases s.len() - i,
{
    if i + 2 > s.len() {
        assert forall|q: int| i <= q < first_close_from(s, i) implies !close_at(s, q) by {
            assert(q + 2 > s.len());
        }
    } else if close_at(s, i) {
    } else {
        lemma_first_close_from(s, i + 1);
    }
}

/// A well-formed scan that starts one position later is also well-formed
/// from `i` when no opening marker stands at `i`.
#[verifier::spinoff_prover]
proof fn lemma_scan_wf_skip(s: Seq<char>, i: int, sps: Seq<SpanModel>)
    requires
        0 <= i,
        i + 2 <= s.len(),
        !open_at(s, i),
        scan_wf(s, i + 1, sps),
    ensures
        scan_wf(s, i, sps),
{
    assert forall|k: int, p: int|
        0 <= k < sps.len() && gap_lo(i, sps, k) <= p < #[trigger] sps[k].lo
            implies !#[trigger] open_at(s, p) by {
        if k == 0 {
            if p != i {
                assert(gap_lo(i + 1, sps, 0) <= p < sps[0].lo);
            }
        } else {
            assert(gap_lo(i, sps, k) == gap_lo(i + 1, sps, k));
        }
    }
}

/// A match at the very start, followed by a well-formed scan of the rest,
/// makes a well-formed scan.
#[verifier::spinoff_prover]
proof fn lemma_scan_wf_cons(s: Seq<char>, m: SpanModel, rest: Seq<SpanModel>)
    requires
        span_is_match(s, m),
        scan_wf(s, m.hi, rest),
    ensures
        scan_wf(s, m.lo, seq![m] + rest),
{
    let i = m.lo;
    let sps = seq![m] + rest;
    assert forall|k: int| 0 <= k < sps.len() implies span_is_match(s, #[trigger] sps[k]) by {
        if k > 0 {
            assert(sps[k] == rest[k - 1]);
        }
    }
    assert forall|k: int| 0 <= k < sps.len() implies i <= #[trigger] sps[k].lo by {
        if k > 0 {
            assert(sps[k] == rest[k - 1]);
            assert(m.hi <= rest[k - 1].lo);
        }
    }
    assert forall|k: int| 0 <= k < sps.len() - 1 implies #[trigger] sps[k].hi <= sps[k + 1].lo by {
        if k == 0 {
            assert(sps[1] == rest[0]);
            assert(m.hi <= rest[0].lo);
        } else {
            assert(sps[k] == rest[k - 1]);
            assert(sps[k + 1] == rest[k]);
            assert(rest[k - 1].hi <= rest[k].lo);
        }
    }
    assert forall|k: int, p: int|
        0 <= k < sps.len() && gap_lo(i, sps, k) <= p < #[trigger] sps[k].lo
            implies !#[trigger] open_at(s, p) by {
        if k == 0 {
            assert(sps[0].lo == i);
        } else {
            assert(sps[k] == rest[k - 1]);
            if k == 1 {
                assert(gap_lo(i, sps, 1) == m.hi);
                assert(gap_lo(m.hi, rest, 0) == m.hi);
            } else {
                assert(sps[k - 1] == rest[k - 2]);
                assert(gap_lo(i, sps, k) == gap_lo(m.hi, rest, k - 1));
            }
        }
    }
    if rest.len() == 0 {
        assert(sps[sps.len() - 1] == m);
    } else {
        assert(sps[sps.len() - 1] == rest[rest.len() - 1]);
    }
}

/// When no closing marker stands at or after `a`, no match completes at
/// or after any `i` with `i + 2 >= a`.
#[verifier::spinoff_prover]
proof fn lemma_no_close_no_match(s: Seq<char>, i: int, a: int)
    requires
        i + 2 >= a,
        forall|q: int| a <= q < s.len() ==> !close_at(s, q),
    ensures
        no_match_from(s, i),
{
    assert forall|p: int, q: int|
        i <= p && p + 2 <= q && #[trigger] open_at(s, p) implies !#[trigger] close_at(s, q) by {
        if close_at(s, q) {
            assert(a <= q < s.len());
        }
    }
}

#[verifier::spinoff_prover]
pub proof fn lemma_scan_from_wf(s: Seq<char>, i: int)
    requires
        0 <= i <= s.len(),
    ensures
        scan_wf(s, i, scan_from(s, i)),
    decreases s.len() - i,
{
    let sps = scan_from(s, i);
    if i + 2 > s.len() {
        assert(sps.len() == 0);
        assert forall|p: int, q: int|
            i <= p && p + 2 <= q && #[trigger] open_at(s, p) implies !#[trigger] close_at(s, q) by {
            assert(p + 2 > s.len());
        }
    } else if open_at(s, i) {
        lemma_first_close_from(s, i + 2);
        let c = first_close_from(s, i + 2);
        if i + 2 <= c && c + 2 <= s.len() {
            lemma_scan_from_wf(s, c + 2);
            let rest = scan_from(s, c + 2);
            let m = SpanModel { lo: i, hi: c + 2 };
            assert(sps == seq![m] + rest);
            assert(close_at(s, c));
            assert(span_is_match(s, m));
            lemma_scan_wf_cons(s, m, rest);
        } else {
            assert(c == s.len());
            lemma_no_close_no_match(s, i, i + 2);
        }
    } else {
        lemma_scan_from_wf(s, i + 1);
        lemma_scan_wf_skip(s, i, scan_from(s, i + 1));
    }
}

/// Everything the executable pipeline needs of the regions it passes
/// along: the scanner's spans are ordered, the filled regions all lie
/// inside the input, and the filtered regions are nonempty and trimmable.
#[verifier::spinoff_prover]
pub proof fn lemma_pipeline_regions_ok(s: Seq<char>)
    ensures
        spans_ordered(scan_from(s, 0)),
        regions_bounded_ordered(code_regions_of(scan_from(s, 0)), 0, s.len() as int),
        forall|k: int|
            0 <= k < filled_regions(s).len() ==> region_ok(
                #[trigger] filled_regions(s)[k],
                s.len() as int,
            ),
        forall|k: int|
            0 <= k < nonempty_regions(filled_regions(s)).len() ==> region_ok(
                #[trigger] nonempty_regions(filled_regions(s))[k],
                s.len() as int,
            ) && nonempty_regions(filled_regions(s))[k].lo < nonempty_regions(filled_regions(s))[k].hi,
{
    let len = s.len() as int;
    lemma_scan_from_wf(s, 0);
    let sps = scan_from(s, 0);
    let code_rs = code_regions_of(sps);
    assert forall|k: int| 0 <= k < sps.len() implies #[trigger] sps[k].lo <= sps[k].hi by {
        assert(span_is_match(s, sps[k]));
    }
    assert forall|k: int|
        0 <= k < code_rs.len() implies 0 <= #[trigger] code_rs[k].lo <= code_rs[k].hi <= len
            && region_ok(code_rs[k], len) by {
        assert(code_rs[k] == RegionModel { kind: FragmentKind::Code, lo: sps[k].lo, hi: sps[k].hi });
        assert(span_is_match(s, sps[k]));
    }
    assert forall|k: int| 0 <= k < code_rs.len() - 1 implies #[trigger] code_rs[k].hi <= code_rs[k
        + 1].lo by {
        assert(sps[k].hi <= sps[k + 1].lo);
    }
    if code_rs.len() > 0 {
        assert(code_rs[0].lo == sps[0].lo);
        assert(span_is_match(s, sps[0]));
    }
    lemma_fill_regions_ok(code_rs, 0, len);
    assert forall|k: int|
        0 <= k < filled_regions(s).len() implies region_ok(#[trigger] filled_regions(s)[k], len) by {
        if sps.len() == 0 {
            assert(filled_regions(s) == seq![
                RegionModel { kind: FragmentKind::Text, lo: 0, hi: len },
            ]);
        } else {
            assert(filled_regions(s) == fill_regions(code_rs, 0, len));
            assert(region_ok(fill_regions(code_rs, 0, len)[k], len));
        }
    }
    lemma_nonempty_regions_ok(filled_regions(s), len);
}

/// Where no match completes, the scanner finds nothing.
pub proof fn lemma_scan_from_no_match(s: Seq<char>, i: int)
    requires
        0 <= i <= s.len(),
        no_match_from(s, i),
    ensures
        scan_from(s, i) == Seq::<SpanModel>::empty(),
    decreases s.len() - i,
{
    if i + 2 > s.len() {
    } else if open_at(s, i) {
        lemma_first_close_from(s, i + 2);
        let c = first_close_from(s, i + 2);
        if i + 2 <= c && c + 2 <= s.len() {
            assert(close_at(s, c));
            assert(false);
        }
    } else {
        assert forall|p: int, q: int|
            i + 1 <= p && p + 2 <= q && #[trigger] open_at(s, p) implies !#[trigger] close_at(s, q) by {
            assert(i <= p);
        }
        lemma_scan_from_no_match(s, i + 1);
    }
}

} // verus!

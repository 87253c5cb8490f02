//! The general guarantees of the parser, stated and proved once and for
//! all inputs: the Gap Filler's coverage of the whole input, and what the
//! whole pipeline returns on inputs without (completed) markers.

use vstd::prelude::*;

use crate::ast::ItemModel;
use crate::model::{
    close_at, code_regions_of, fill_regions, filled_regions, first_close_from, gap_lo,
    item_of_region, items_of_regions, lemma_pipeline_regions_ok, lemma_scan_from_no_match,
    lemma_scan_from_wf, nonempty_regions, no_match_from, open_at, parse_spec,
    regions_bounded_ordered, scan_from, scan_wf, serialize_item, serialize_items, span_is_match,
    trim_region, trimmed_regions, RegionModel, SpanModel,
};
use crate::parse::FragmentKind;

verus! {

/// `rs` tiles the interval `[a, b)` exactly: the regions are adjacent, in
/// order, each of nonnegative length, the first starts at `a` and the
/// last ends at `b`.
pub open spec fn regions_contiguous(rs: Seq<RegionModel>, a: int, b: int) -> bool {
    &&& rs.len() == 0 ==> a == b
    &&& rs.len() > 0 ==> rs[0].lo == a && rs[rs.len() - 1].hi == b
    &&& forall|k: int| 0 <= k < rs.len() - 1 ==> #[trigger] rs[k].hi == rs[k + 1].lo
    &&& forall|k: int| 0 <= k < rs.len() ==> #[trigger] rs[k].lo <= rs[k].hi
}

/// The Gap Filler turns any ordered, in-bounds region list into an exact
/// tiling of `[cursor, len)`.
#[verifier::spinoff_prover]
pub proof fn lemma_fill_regions_contiguous(frags: Seq<RegionModel>, cursor: int, len: int)
    requires
        0 <= cursor <= len,
        regions_bounded_ordered(frags, cursor, len),
    ensures
        regions_contiguous(fill_regions(frags, cursor, len), cursor, len),
    decreases frags.len(),
{
    let out = fill_regions(frags, cursor, len);
    if frags.len() == 0 {
    } else {
        let first = frags[0];
        let tail = frags.drop_first();
        assert forall|k: int|
            0 <= k < tail.len() implies 0 <= #[trigger] tail[k].lo <= tail[k].hi <= len by {
            assert(tail[k] == frags[k + 1]);
        }
        assert forall|k: int| 0 <= k < tail.len() - 1 implies #[trigger] tail[k].hi <= tail[k
            + 1].lo by {
            assert(tail[k] == frags[k + 1]);
            assert(tail[k + 1] == frags[k + 2]);
        }
        if tail.len() > 0 {
            assert(tail[0] == frags[1]);
            assert(frags[0].hi <= frags[1].lo);
        }
        lemma_fill_regions_contiguous(tail, first.hi, len);
        let rest = fill_regions(tail, first.hi, len);
        let head: Seq<RegionModel> = if first.lo != cursor {
            seq![RegionModel { kind: FragmentKind::Text, lo: cursor, hi: first.lo }, first]
        } else {
            seq![first]
        };
        assert(out == head + rest);
        let h = head.len() as int;
        assert(head[h - 1] == first);
        assert forall|k: int| 0 <= k < out.len() - 1 implies #[trigger] out[k].hi == out[k + 1].lo by {
            if k + 1 < h {
                assert(out[k] == head[k] && out[k + 1] == head[k + 1]);
            } else if k + 1 == h {
                assert(out[k] == head[k]);
                if rest.len() == 0 {
                } else {
                    assert(out[k + 1] == rest[0]);
                    assert(rest[0].lo == first.hi);
                }
            } else {
                assert(out[k] == rest[k - h]);
                assert(out[k + 1] == rest[k + 1 - h]);
                assert(rest[k - h].hi == rest[k - h + 1].lo);
            }
        }
        assert forall|k: int| 0 <= k < out.len() implies #[trigger] out[k].lo <= out[k].hi by {
            if k < h {
                assert(out[k] == head[k]);
            } else {
                assert(out[k] == rest[k - h]);
            }
        }
        if rest.len() == 0 {
            assert(out[out.len() - 1] == head[h - 1]);
            assert(first.hi == len);
        } else {
            assert(out[out.len() - 1] == rest[rest.len() - 1]);
        }
        assert(out[0] == head[0]);
    }
}

/// The union of the Gap Filler's regions, before any filtering, exactly
/// reconstructs `[0, input length)`: no gaps, no overlaps.
pub proof fn lemma_gap_filler_covers(s: Seq<char>)
    ensures
        regions_contiguous(filled_regions(s), 0, s.len() as int),
{
    lemma_pipeline_regions_ok(s);
    let sps = scan_from(s, 0);
    if sps.len() == 0 {
        let whole = seq![RegionModel { kind: FragmentKind::Text, lo: 0, hi: s.len() as int }];
        assert(filled_regions(s) == whole);
        assert(regions_contiguous(whole, 0, s.len() as int));
    } else {
        lemma_fill_regions_contiguous(
            crate::model::code_regions_of(sps),
            0,
            s.len() as int,
        );
    }
}

/// Empty input parses to the empty item sequence.
pub proof fn lemma_parse_empty()
    ensures
        parse_spec(Seq::<char>::empty()) == Seq::<ItemModel>::empty(),
{
    let s = Seq::<char>::empty();
    assert(scan_from(s, 0) == Seq::<SpanModel>::empty());
    let whole = RegionModel { kind: FragmentKind::Text, lo: 0, hi: 0 };
    assert(filled_regions(s) == seq![whole]);
    assert(seq![whole].drop_first() =~= Seq::<RegionModel>::empty());
    assert(nonempty_regions(Seq::<RegionModel>::empty()) == Seq::<RegionModel>::empty());
    assert(nonempty_regions(filled_regions(s)) == Seq::<RegionModel>::empty());
    assert(trimmed_regions(Seq::<RegionModel>::empty()) =~= Seq::<RegionModel>::empty());
    assert(parse_spec(s) =~= Seq::<ItemModel>::empty());
}

/// Input without delimiter markers, whatever its content, parses to
/// exactly one text item holding the whole input verbatim.
pub proof fn lemma_no_markers_single_text(s: Seq<char>)
    requires
        s.len() > 0,
        forall|p: int| !open_at(s, p),
        forall|p: int| !close_at(s, p),
    ensures
        parse_spec(s) == seq![ItemModel::Text(s)],
{
    let len = s.len() as int;
    assert(no_match_from(s, 0));
    lemma_scan_from_no_match(s, 0);
    let whole = RegionModel { kind: FragmentKind::Text, lo: 0, hi: len };
    assert(filled_regions(s) == seq![whole]);
    assert(seq![whole].drop_first() =~= Seq::<RegionModel>::empty());
    assert(nonempty_regions(Seq::<RegionModel>::empty()) == Seq::<RegionModel>::empty());
    assert(nonempty_regions(seq![whole]) == seq![whole] + Seq::<RegionModel>::empty());
    assert(nonempty_regions(filled_regions(s)) =~= seq![whole]);
    assert(trimmed_regions(seq![whole]) =~= seq![whole]);
    assert(item_of_region(s, whole) == ItemModel::Text(s.subrange(0, len)));
    assert(s.subrange(0, len) =~= s);
    assert(parse_spec(s) =~= seq![ItemModel::Text(s)]);
}

/// No opening marker occurs anywhere in `t`.
pub open spec fn open_free(t: Seq<char>) -> bool {
    forall|p: int| !open_at(t, p)
}

/// No closing marker occurs anywhere in `t`.
pub open spec fn close_free(t: Seq<char>) -> bool {
    forall|p: int| !close_at(t, p)
}

/// No delimiter-bounded region completes anywhere in `t`.
pub open spec fn match_free(t: Seq<char>) -> bool {
    no_match_from(t, 0)
}

/// The characters standing between a code item's markers when it is
/// re-serialized: the print sigil, when set, followed by the source.
pub open spec fn inner_of(it: ItemModel) -> Seq<char>
    recommends
        it is Code,
{
    match it {
        ItemModel::Code { source, print_result } => if print_result {
            seq!['='] + source
        } else {
            source
        },
        ItemModel::Text(t) => t,
    }
}

/// Everything the parser guarantees of the documents it returns, which
/// is exactly what the round trip rests on: text items are nonempty, no
/// two text items are adjacent, only the last item may hold an unmatched
/// opening marker, code items hold no closing marker, and a non-printing
/// code item does not begin with the sigil.
pub open spec fn doc_wf(items: Seq<ItemModel>) -> bool {
    &&& forall|k: int|
        0 <= k < items.len() ==> ((#[trigger] items[k]) matches ItemModel::Text(t) ==> t.len() > 0)
    &&& forall|k: int|
        0 <= k < items.len() - 1 ==> !((#[trigger] items[k]) is Text && items[k + 1] is Text)
    &&& forall|k: int|
        0 <= k < items.len() - 1 ==> ((#[trigger] items[k]) matches ItemModel::Text(t)
            ==> open_free(t))
    &&& items.len() > 0 ==> (items[items.len() - 1] matches ItemModel::Text(t) ==> match_free(t))
    &&& forall|k: int|
        0 <= k < items.len() ==> ((#[trigger] items[k]) is Code ==> close_free(inner_of(items[k])))
    &&& forall|k: int|
        0 <= k < items.len() ==> ((#[trigger] items[k]) matches ItemModel::Code {
            source,
            print_result,
        } ==> (!print_result && source.len() > 0 ==> source[0] != '='))
}

/// Where item `k` starts inside the serialized document.
pub open spec fn offset_of(items: Seq<ItemModel>, k: int) -> int
    decreases k,
{
    if k <= 0 {
        0
    } else {
        offset_of(items, k - 1) + serialize_item(items[k - 1]).len() as int
    }
}

/// The spans that the code items from index `k` on occupy inside the
/// serialized document.
pub open spec fn doc_spans(items: Seq<ItemModel>, k: int) -> Seq<SpanModel>
    decreases items.len() - k,
{
    if k < 0 || k >= items.len() {
        Seq::empty()
    } else {
        let rest = doc_spans(items, k + 1);
        if items[k] is Code {
            seq![SpanModel { lo: offset_of(items, k), hi: offset_of(items, k + 1) }] + rest
        } else {
            rest
        }
    }
}

/// Dropping the serialized prefix of the first `k` items leaves the
/// serialization of the remaining items.
proof fn lemma_serialize_suffix(items: Seq<ItemModel>, k: int)
    requires
        0 <= k <= items.len(),
    ensures
        0 <= offset_of(items, k) <= serialize_items(items).len(),
        serialize_items(items).skip(offset_of(items, k)) == serialize_items(items.skip(k)),
    decreases k,
{
    let full = serialize_items(items);
    if k == 0 {
        assert(full.skip(0) =~= full);
        assert(items.skip(0) =~= items);
    } else {
        lemma_serialize_suffix(items, k - 1);
        let a = offset_of(items, k - 1);
        let it = items[k - 1];
        let w = serialize_item(it).len() as int;
        assert(items.skip(k - 1)[0] == it);
        assert(items.skip(k - 1).drop_first() =~= items.skip(k));
        assert(serialize_items(items.skip(k - 1)) == serialize_item(it) + serialize_items(
            items.skip(k),
        ));
        assert(full.skip(a).len() == w + serialize_items(items.skip(k)).len());
        assert(offset_of(items, k) == a + w);
        assert(a + w <= full.len());
        assert(full.skip(a + w) =~= serialize_items(items.skip(k))) by {
            assert forall|j: int|
                0 <= j < full.len() - a - w implies full.skip(a + w)[j] == serialize_items(
                items.skip(k),
            )[j] by {
                assert(full.skip(a)[w + j] == full[a + w + j]);
                assert(full.skip(a)[w + j] == (serialize_item(it) + serialize_items(
                    items.skip(k),
                ))[w + j]);
            }
        }
    }
}

/// How a serialized code item is laid out, character by character.
proof fn lemma_serialize_code_shape(it: ItemModel)
    requires
        it is Code,
    ensures
        serialize_item(it) == seq!['<', '%'] + inner_of(it) + seq!['%', '>'],
        serialize_item(it).len() == inner_of(it).len() + 4,
        serialize_item(it)[0] == '<',
        serialize_item(it)[1] == '%',
        forall|j: int|
            0 <= j < inner_of(it).len() ==> #[trigger] serialize_item(it)[2 + j] == inner_of(it)[j],
        serialize_item(it)[2 + inner_of(it).len() as int] == '%',
        serialize_item(it)[3 + inner_of(it).len() as int] == '>',
    {
    match it {
        ItemModel::Code { source, print_result } => {
            if print_result {
                assert(serialize_item(it) =~= seq!['<', '%'] + (seq!['='] + source) + seq![
                    '%',
                    '>',
                ]);
            } else {
                assert(serialize_item(it) =~= seq!['<', '%'] + source + seq!['%', '>']);
            }
        },
        ItemModel::Text(_) => {
            assert(false);
        },
    }
}

/// A closing marker at `c`, with none between `a` and `c`, is the first
/// one from `a`.
proof fn lemma_first_close_is(s: Seq<char>, a: int, c: int)
    requires
        0 <= a <= c,
        close_at(s, c),
        forall|q: int| a <= q < c ==> !close_at(s, q),
    ensures
        first_close_from(s, a) == c,
    decreases c - a,
{
    if a == c {
    } else {
        lemma_first_close_is(s, a + 1, c);
    }
}

/// Scanning a serialized well-formed document from the start of item `k`
/// finds exactly the spans of its code items.
#[verifier::rlimit(100)]
#[verifier::spinoff_prover]
proof fn lemma_scan_of_serialized(items: Seq<ItemModel>, k: int)
    requires
        doc_wf(items),
        0 <= k <= items.len(),
    ensures
        scan_from(serialize_items(items), offset_of(items, k)) == doc_spans(items, k),
    decreases items.len() - k,
{
    let full = serialize_items(items);
    let off = offset_of(items, k);
    lemma_serialize_suffix(items, k);
    if k == items.len() {
        assert(items.skip(k) =~= Seq::<ItemModel>::empty());
        assert(serialize_items(items.skip(k)) == Seq::<char>::empty());
        assert(full.skip(off).len() == 0);
        assert(off == full.len());
        assert(scan_from(full, off) == Seq::<SpanModel>::empty());
    } else {
        lemma_serialize_suffix(items, k + 1);
        lemma_scan_of_serialized(items, k + 1);
        let it = items[k];
        let w = serialize_item(it).len() as int;
        assert(items.skip(k)[0] == it);
        assert(items.skip(k).drop_first() =~= items.skip(k + 1));
        assert(serialize_items(items.skip(k)) == serialize_item(it) + serialize_items(
            items.skip(k + 1),
        ));
        assert(offset_of(items, k + 1) == off + w);
        assert(off + w <= full.len());
        assert forall|j: int| 0 <= j < w implies full[off + j] == serialize_item(it)[j] by {
            assert(full.skip(off)[j] == full[off + j]);
            assert((serialize_item(it) + serialize_items(items.skip(k + 1)))[j]
                == serialize_item(it)[j]);
        }
        if it is Code {
            lemma_serialize_code_shape(it);
            let inner = inner_of(it);
            let m = inner.len() as int;
            assert(w == m + 4);
            assert(full[off] == '<' && full[off + 1] == '%');
            assert(open_at(full, off));
            assert(full[off + 2 + m] == '%' && full[off + 3 + m] == '>');
            assert(close_at(full, off + 2 + m));
            assert(close_free(inner));
            assert forall|q: int| off + 2 <= q < off + 2 + m implies !close_at(full, q) by {
                let j = q - off - 2;
                if j < m - 1 {
                    assert(full[q] == serialize_item(it)[2 + j]);
                    assert(full[q + 1] == serialize_item(it)[2 + (j + 1)]);
                    assert(full[q] == inner[j]);
                    assert(full[q + 1] == inner[j + 1]);
                    assert(!close_at(inner, j));
                    if close_at(full, q) {
                        assert(inner[j] == '%' && inner[j + 1] == '>');
                        assert(close_at(inner, j));
                    }
                } else {
                    assert(full[q + 1] == '%');
                }
            }
            lemma_first_close_is(full, off + 2, off + 2 + m);
            assert(scan_from(full, off) == seq![SpanModel { lo: off, hi: off + w }] + scan_from(
                full,
                off + w,
            ));
            assert(doc_spans(items, k) == seq![SpanModel { lo: off, hi: off + w }] + doc_spans(
                items,
                k + 1,
            ));
        } else {
            let t = inner_of(it);
            assert(serialize_item(it) == t);
            assert(t.len() > 0);
            assert(w == t.len());
            if k < items.len() - 1 {
                assert(!(items[k + 1] is Text));
                assert(items[k + 1] is Code);
                // The next serialized character after this text item is the
                // next code item's opening '<'.
                assert(items.skip(k + 1)[0] == items[k + 1]);
                assert(items.skip(k + 1).drop_first() =~= items.skip(k + 2));
                assert(serialize_items(items.skip(k + 1)) == serialize_item(items[k + 1])
                    + serialize_items(items.skip(k + 2)));
                lemma_serialize_code_shape(items[k + 1]);
                assert(serialize_item(items[k + 1]).len() >= 4);
                assert(off + w < full.len());
                assert(full.skip(off + w)[0] == full[off + w]);
                assert(full[off + w] == serialize_item(items[k + 1])[0]);
                assert(full[off + w] == '<');
                assert(open_free(t));
                assert forall|p: int| off <= p < off + w implies !open_at(full, p) by {
                    let j = p - off;
                    if j < w - 1 {
                        if open_at(full, p) {
                            assert(full[p] == serialize_item(it)[j]);
                            assert(full[p + 1] == serialize_item(it)[j + 1]);
                            assert(t[j] == '<' && t[j + 1] == '%');
                            assert(open_at(t, j));
                        }
                    } else {
                        assert(full[p + 1] == '<');
                    }
                }
                lemma_scan_skip_segment(full, off, off + w);
            } else {
                // Last item: the serialized document ends with this text.
                assert(items.skip(k + 1) =~= Seq::<ItemModel>::empty());
                assert(serialize_items(items.skip(k + 1)) == Seq::<char>::empty());
                assert(full.skip(off) =~= t);
                assert(off + w == full.len());
                assert(match_free(t));
                assert forall|p: int, q: int|
                    off <= p && p + 2 <= q && #[trigger] open_at(full, p) implies !#[trigger] close_at(
                    full,
                    q,
                ) by {
                    assert(full.skip(off)[p - off] == full[p]);
                    assert(full.skip(off)[p - off + 1] == full[p + 1]);
                    assert(open_at(t, p - off));
                    if close_at(full, q) {
                        assert(full.skip(off)[q - off] == full[q]);
                        assert(full.skip(off)[q - off + 1] == full[q + 1]);
                        assert(close_at(t, q - off));
                        assert(no_match_from(t, 0));
                        assert(!close_at(t, q - off));
                    }
                }
                assert(no_match_from(full, off));
                lemma_scan_from_no_match(full, off);
            }
        }
    }
}

/// What the filter, trimmer and item builder make of a region list.
spec fn rebuilt(full: Seq<char>, rs: Seq<RegionModel>) -> Seq<ItemModel> {
    items_of_regions(full, trimmed_regions(nonempty_regions(rs)))
}

/// Peeling one nonempty region off the front of the filter-trim-build
/// pipeline.
proof fn lemma_rebuilt_cons(full: Seq<char>, x: RegionModel, rest: Seq<RegionModel>)
    requires
        x.lo != x.hi,
    ensures
        rebuilt(full, seq![x] + rest) == seq![item_of_region(full, trim_region(x))] + rebuilt(
            full,
            rest,
        ),
{
    let whole = seq![x] + rest;
    assert(whole[0] == x);
    assert(whole.drop_first() =~= rest);
    assert(nonempty_regions(whole) == seq![x] + nonempty_regions(rest));
    assert(trimmed_regions(seq![x] + nonempty_regions(rest)) =~= seq![trim_region(x)]
        + trimmed_regions(nonempty_regions(rest)));
    assert(items_of_regions(full, seq![trim_region(x)] + trimmed_regions(nonempty_regions(rest)))
        =~= seq![item_of_region(full, trim_region(x))] + items_of_regions(
        full,
        trimmed_regions(nonempty_regions(rest)),
    ));
}

/// Running the gap filler, filter, trimmer and item builder over the
/// code spans of a serialized well-formed document, from item `k` on,
/// rebuilds exactly the items from `k` on.
#[verifier::rlimit(100)]
#[verifier::spinoff_prover]
proof fn lemma_rebuild(items: Seq<ItemModel>, k: int)
    requires
        doc_wf(items),
        0 <= k <= items.len(),
    ensures
        rebuilt(
            serialize_items(items),
            fill_regions(
                code_regions_of(doc_spans(items, k)),
                offset_of(items, k),
                serialize_items(items).len() as int,
            ),
        ) == items.skip(k),
    decreases items.len() - k,
{
    let full = serialize_items(items);
    let big = full.len() as int;
    let off = offset_of(items, k);
    lemma_serialize_suffix(items, k);
    if k == items.len() {
        assert(items.skip(k) =~= Seq::<ItemModel>::empty());
        assert(serialize_items(items.skip(k)) == Seq::<char>::empty());
        assert(off == big);
        assert(doc_spans(items, k) == Seq::<SpanModel>::empty());
        assert(code_regions_of(doc_spans(items, k)) =~= Seq::<RegionModel>::empty());
        assert(fill_regions(code_regions_of(doc_spans(items, k)), off, big)
            == Seq::<RegionModel>::empty());
        assert(nonempty_regions(Seq::<RegionModel>::empty()) == Seq::<RegionModel>::empty());
        assert(trimmed_regions(Seq::<RegionModel>::empty()) =~= Seq::<RegionModel>::empty());
        assert(items_of_regions(full, Seq::<RegionModel>::empty()) =~= Seq::<ItemModel>::empty());
    } else {
        lemma_serialize_suffix(items, k + 1);
        lemma_rebuild(items, k + 1);
        let it = items[k];
        let w = serialize_item(it).len() as int;
        assert(items.skip(k)[0] == it);
        assert(items.skip(k).drop_first() =~= items.skip(k + 1));
        assert(serialize_items(items.skip(k)) == serialize_item(it) + serialize_items(
            items.skip(k + 1),
        ));
        assert(offset_of(items, k + 1) == off + w);
        assert(off + w <= big);
        assert forall|j: int| 0 <= j < w implies full[off + j] == serialize_item(it)[j] by {
            assert(full.skip(off)[j] == full[off + j]);
            assert((serialize_item(it) + serialize_items(items.skip(k + 1)))[j]
                == serialize_item(it)[j]);
        }
        if it is Code {
            lemma_serialize_code_shape(it);
            let inner = inner_of(it);
            let m = inner.len() as int;
            assert(w == m + 4);
            let sp = SpanModel { lo: off, hi: off + w };
            let cr = RegionModel { kind: FragmentKind::Code, lo: off, hi: off + w };
            assert(doc_spans(items, k) == seq![sp] + doc_spans(items, k + 1));
            let rest_regions = code_regions_of(doc_spans(items, k + 1));
            assert(code_regions_of(seq![sp] + doc_spans(items, k + 1)) =~= seq![cr]
                + rest_regions);
            let frags = seq![cr] + rest_regions;
            assert(frags[0] == cr);
            assert(frags.drop_first() =~= rest_regions);
            assert(fill_regions(frags, off, big) == seq![cr] + fill_regions(
                rest_regions,
                off + w,
                big,
            ));
            lemma_rebuilt_cons(full, cr, fill_regions(rest_regions, off + w, big));
            // The rebuilt head is this code item.
            let tr = trim_region(cr);
            assert(tr == RegionModel { kind: FragmentKind::Code, lo: off + 2, hi: off + 2 + m });
            let t = full.subrange(off + 2, off + 2 + m);
            assert(t =~= inner) by {
                assert forall|j: int| 0 <= j < m implies t[j] == inner[j] by {
                    assert(t[j] == full[off + 2 + j]);
                    assert(full[off + (2 + j)] == serialize_item(it)[2 + j]);
                }
            }
            match it {
                ItemModel::Code { source, print_result } => {
                    if print_result {
                        assert(inner == seq!['='] + source);
                        assert(t.len() > 0 && t[0] == '=');
                        assert(t.subrange(1, t.len() as int) =~= source);
                        assert(item_of_region(full, tr) == it);
                    } else {
                        assert(inner == source);
                        if source.len() > 0 {
                            assert(source[0] != '=');
                        }
                        assert(!(t.len() > 0 && t[0] == '='));
                        assert(item_of_region(full, tr) == it);
                    }
                },
                ItemModel::Text(_) => {
                    assert(false);
                },
            }
            assert(seq![it] + items.skip(k + 1) =~= items.skip(k));
        } else {
            let t = inner_of(it);
            assert(serialize_item(it) == t);
            assert(t.len() > 0);
            assert(w == t.len());
            let tr0 = RegionModel { kind: FragmentKind::Text, lo: off, hi: off + w };
            assert(trim_region(tr0) == tr0);
            assert(doc_spans(items, k) == doc_spans(items, k + 1));
            let regions = code_regions_of(doc_spans(items, k + 1));
            let sub = full.subrange(off, off + w);
            assert(sub =~= t) by {
                assert forall|j: int| 0 <= j < w implies sub[j] == t[j] by {
                    assert(sub[j] == full[off + j]);
                }
            }
            if k < items.len() - 1 {
                assert(!(items[k + 1] is Text));
                assert(items[k + 1] is Code);
                assert(doc_spans(items, k + 1) == seq![
                    SpanModel { lo: off + w, hi: offset_of(items, k + 2) },
                ] + doc_spans(items, k + 2));
                assert(regions.len() > 0);
                assert(regions[0] == RegionModel {
                    kind: FragmentKind::Code,
                    lo: off + w,
                    hi: offset_of(items, k + 2),
                });
                assert(regions[0].lo == off + w);
                assert(regions[0].lo != off);
                // Filling from off first emits the text gap, then proceeds
                // exactly as filling from off + w does.
                assert(fill_regions(regions, off, big) == seq![tr0, regions[0]] + fill_regions(
                    regions.drop_first(),
                    regions[0].hi,
                    big,
                ));
                assert(fill_regions(regions, off + w, big) == seq![regions[0]] + fill_regions(
                    regions.drop_first(),
                    regions[0].hi,
                    big,
                ));
                assert(fill_regions(regions, off, big) =~= seq![tr0] + fill_regions(
                    regions,
                    off + w,
                    big,
                ));
                lemma_rebuilt_cons(full, tr0, fill_regions(regions, off + w, big));
                assert(item_of_region(full, tr0) == ItemModel::Text(sub));
                assert(item_of_region(full, tr0) == it);
                assert(seq![it] + items.skip(k + 1) =~= items.skip(k));
            } else {
                assert(items.skip(k + 1) =~= Seq::<ItemModel>::empty());
                assert(serialize_items(items.skip(k + 1)) == Seq::<char>::empty());
                assert(off + w == big);
                assert(doc_spans(items, k + 1) == Seq::<SpanModel>::empty());
                assert(regions =~= Seq::<RegionModel>::empty());
                assert(off != big);
                assert(fill_regions(regions, off, big) == seq![tr0]);
                assert(seq![tr0] =~= seq![tr0] + Seq::<RegionModel>::empty());
                lemma_rebuilt_cons(full, tr0, Seq::<RegionModel>::empty());
                assert(fill_regions(Seq::<RegionModel>::empty(), big, big)
                    == Seq::<RegionModel>::empty());
                assert(nonempty_regions(Seq::<RegionModel>::empty())
                    == Seq::<RegionModel>::empty());
                assert(trimmed_regions(Seq::<RegionModel>::empty())
                    =~= Seq::<RegionModel>::empty());
                assert(items_of_regions(full, Seq::<RegionModel>::empty())
                    =~= Seq::<ItemModel>::empty());
                assert(rebuilt(full, Seq::<RegionModel>::empty()) == Seq::<ItemModel>::empty());
                assert(item_of_region(full, tr0) == ItemModel::Text(sub));
                assert(item_of_region(full, tr0) == it);
                assert(seq![it] + Seq::<ItemModel>::empty() =~= items.skip(k));
            }
        }
    }
}

/// A document whose serialization the scanner finds nothing in holds no
/// code items.
proof fn lemma_doc_spans_all_text(items: Seq<ItemModel>, k: int)
    requires
        0 <= k <= items.len(),
        doc_spans(items, k) == Seq::<SpanModel>::empty(),
    ensures
        forall|j: int| k <= j < items.len() ==> (#[trigger] items[j]) is Text,
    decreases items.len() - k,
{
    if k < items.len() {
        if items[k] is Code {
            assert(doc_spans(items, k).len() >= 1);
        } else {
            assert(doc_spans(items, k + 1) == doc_spans(items, k));
            lemma_doc_spans_all_text(items, k + 1);
        }
    }
}

/// Re-parsing the serialization of any well-formed document yields that
/// document back, item for item.
#[verifier::rlimit(60)]
#[verifier::spinoff_prover]
pub proof fn lemma_parse_of_serialized(items: Seq<ItemModel>)
    requires
        doc_wf(items),
    ensures
        parse_spec(serialize_items(items)) == items,
{
    let full = serialize_items(items);
    let big = full.len() as int;
    lemma_scan_of_serialized(items, 0);
    assert(offset_of(items, 0) == 0);
    let sps = scan_from(full, 0);
    assert(sps == doc_spans(items, 0));
    if sps.len() == 0 {
        assert(doc_spans(items, 0) =~= Seq::<SpanModel>::empty());
        lemma_doc_spans_all_text(items, 0);
        if items.len() == 0 {
            assert(full == Seq::<char>::empty());
            lemma_parse_empty();
        } else if items.len() == 1 {
            assert(items[0] is Text);
            let t = inner_of(items[0]);
            assert(items[0] == ItemModel::Text(t));
            assert(t.len() > 0);
            assert(items.drop_first() =~= Seq::<ItemModel>::empty());
            assert(serialize_items(items.drop_first()) == Seq::<char>::empty());
            assert(full =~= t);
            let whole = RegionModel { kind: FragmentKind::Text, lo: 0, hi: big };
            assert(filled_regions(full) == seq![whole]);
            assert(seq![whole].drop_first() =~= Seq::<RegionModel>::empty());
            assert(nonempty_regions(Seq::<RegionModel>::empty()) == Seq::<RegionModel>::empty());
            assert(nonempty_regions(seq![whole]) == seq![whole] + Seq::<RegionModel>::empty());
            assert(nonempty_regions(filled_regions(full)) =~= seq![whole]);
            assert(trimmed_regions(seq![whole]) =~= seq![whole]);
            assert(item_of_region(full, whole) == ItemModel::Text(full.subrange(0, big)));
            assert(full.subrange(0, big) =~= t);
            assert(parse_spec(full) =~= seq![ItemModel::Text(t)]);
            assert(seq![ItemModel::Text(t)] =~= items);
        } else {
            assert(items[0] is Text && items[1] is Text);
            assert(false);
        }
    } else {
        assert(filled_regions(full) == fill_regions(code_regions_of(sps), 0, big));
        lemma_rebuild(items, 0);
        assert(items.skip(0) =~= items);
        assert(parse_spec(full) == rebuilt(full, filled_regions(full)));
    }
}

/// The scanner skips over any stretch without opening markers.
proof fn lemma_scan_skip_segment(s: Seq<char>, a: int, b: int)
    requires
        0 <= a <= b <= s.len(),
        forall|p: int| a <= p < b ==> !open_at(s, p),
    ensures
        scan_from(s, a) == scan_from(s, b),
    decreases b - a,
{
    if a == b {
    } else {
        if a + 2 > s.len() {
            assert(b + 2 > s.len());
            assert(scan_from(s, a) == Seq::<SpanModel>::empty());
            assert(scan_from(s, b) == Seq::<SpanModel>::empty());
        } else {
            assert(!open_at(s, a));
            lemma_scan_skip_segment(s, a + 1, b);
        }
    }
}

/// The empty document is well-formed.
proof fn lemma_doc_wf_empty()
    ensures
        doc_wf(Seq::<ItemModel>::empty()),
{
}

/// A single nonempty text item without a completed marker pair is a
/// well-formed document.
proof fn lemma_doc_wf_single_text(t: Seq<char>)
    requires
        t.len() > 0,
        match_free(t),
    ensures
        doc_wf(seq![ItemModel::Text(t)]),
{
    let items = seq![ItemModel::Text(t)];
    assert(items[0] == ItemModel::Text(t));
}

/// A well-formed code item in front of a well-formed document keeps it
/// well-formed.
proof fn lemma_doc_wf_cons_code(c: ItemModel, rest: Seq<ItemModel>)
    requires
        c is Code,
        close_free(inner_of(c)),
        c matches ItemModel::Code { source, print_result } ==> (!print_result && source.len() > 0
            ==> source[0] != '='),
        doc_wf(rest),
    ensures
        doc_wf(seq![c] + rest),
{
    let items = seq![c] + rest;
    assert(items[0] == c);
    assert forall|k: int| 1 <= k < items.len() implies items[k] == rest[k - 1] by {}
    assert forall|k: int|
        0 <= k < items.len() implies ((#[trigger] items[k]) matches ItemModel::Text(t)
            ==> t.len() > 0) by {
        if k >= 1 {
            assert(items[k] == rest[k - 1]);
        }
    }
    assert forall|k: int|
        0 <= k < items.len() - 1 implies !((#[trigger] items[k]) is Text && items[k + 1] is Text) by {
        if k >= 1 {
            assert(items[k] == rest[k - 1]);
            assert(items[k + 1] == rest[k]);
        }
    }
    assert forall|k: int|
        0 <= k < items.len() - 1 implies ((#[trigger] items[k]) matches ItemModel::Text(t)
            ==> open_free(t)) by {
        if k >= 1 {
            assert(items[k] == rest[k - 1]);
        }
    }
    if items.len() > 0 {
        if rest.len() > 0 {
            assert(items[items.len() - 1] == rest[rest.len() - 1]);
        } else {
            assert(items[items.len() - 1] == c);
        }
    }
    assert forall|k: int|
        0 <= k < items.len() implies ((#[trigger] items[k]) is Code ==> close_free(
            inner_of(items[k]),
        )) by {
        if k >= 1 {
            assert(items[k] == rest[k - 1]);
        }
    }
    assert forall|k: int|
        0 <= k < items.len() implies ((#[trigger] items[k]) matches ItemModel::Code {
            source,
            print_result,
        } ==> (!print_result && source.len() > 0 ==> source[0] != '=')) by {
        if k >= 1 {
            assert(items[k] == rest[k - 1]);
        }
    }
}

/// A nonempty, opening-marker-free text item in front of a well-formed
/// document that starts with a code item keeps it well-formed.
proof fn lemma_doc_wf_cons_text(t: Seq<char>, rest: Seq<ItemModel>)
    requires
        t.len() > 0,
        open_free(t),
        doc_wf(rest),
        rest.len() > 0,
        rest[0] is Code,
    ensures
        doc_wf(seq![ItemModel::Text(t)] + rest),
{
    let items = seq![ItemModel::Text(t)] + rest;
    assert(items[0] == ItemModel::Text(t));
    assert forall|k: int| 1 <= k < items.len() implies items[k] == rest[k - 1] by {}
    assert forall|k: int|
        0 <= k < items.len() implies ((#[trigger] items[k]) matches ItemModel::Text(t2)
            ==> t2.len() > 0) by {
        if k >= 1 {
            assert(items[k] == rest[k - 1]);
        }
    }
    assert forall|k: int|
        0 <= k < items.len() - 1 implies !((#[trigger] items[k]) is Text && items[k + 1] is Text) by {
        if k == 0 {
            assert(items[1] == rest[0]);
        } else {
            assert(items[k] == rest[k - 1]);
            assert(items[k + 1] == rest[k]);
        }
    }
    assert forall|k: int|
        0 <= k < items.len() - 1 implies ((#[trigger] items[k]) matches ItemModel::Text(t2)
            ==> open_free(t2)) by {
        if k >= 1 {
            assert(items[k] == rest[k - 1]);
        }
    }
    assert(items[items.len() - 1] == rest[rest.len() - 1]);
    assert forall|k: int|
        0 <= k < items.len() implies ((#[trigger] items[k]) is Code ==> close_free(
            inner_of(items[k]),
        )) by {
        if k >= 1 {
            assert(items[k] == rest[k - 1]);
        }
    }
    assert forall|k: int|
        0 <= k < items.len() implies ((#[trigger] items[k]) matches ItemModel::Code {
            source,
            print_result,
        } ==> (!print_result && source.len() > 0 ==> source[0] != '=')) by {
        if k >= 1 {
            assert(items[k] == rest[k - 1]);
        }
    }
}

/// Peeling the first span off a well-formed scan leaves a well-formed
/// scan that starts at its end; the gap before it held no opening marker.
#[verifier::rlimit(100)]
#[verifier::spinoff_prover]
proof fn lemma_scan_wf_peel(s: Seq<char>, i: int, sps: Seq<SpanModel>)
    requires
        scan_wf(s, i, sps),
        sps.len() > 0,
    ensures
        scan_wf(s, sps[0].hi, sps.drop_first()),
        forall|p: int| i <= p < sps[0].lo ==> !open_at(s, p),
    decreases sps.len(),
{
    let rest = sps.drop_first();
    let j = sps[0].hi;
    assert forall|k: int| 0 <= k < rest.len() implies span_is_match(s, #[trigger] rest[k]) by {
        assert(rest[k] == sps[k + 1]);
    }
    assert forall|k: int| 0 <= k < rest.len() implies j <= #[trigger] rest[k].lo by {
        assert(rest[k] == sps[k + 1]);
        if k == 0 {
            assert(sps[0].hi <= sps[1].lo);
        } else {
            assert(rest[k - 1] == sps[k]);
            assert(sps[k].hi <= sps[k + 1].lo);
            assert(span_is_match(s, sps[k]));
            assert(j <= rest[k - 1].lo);
        }
    }
    assert forall|k: int| 0 <= k < rest.len() - 1 implies #[trigger] rest[k].hi <= rest[k + 1].lo by {
        assert(rest[k] == sps[k + 1]);
        assert(rest[k + 1] == sps[k + 2]);
    }
    assert forall|k: int, p: int|
        0 <= k < rest.len() && gap_lo(j, rest, k) <= p < #[trigger] rest[k].lo
            implies !#[trigger] open_at(s, p) by {
        if k == 0 {
            assert(rest[0] == sps[1]);
            assert(gap_lo(j, rest, 0) == sps[0].hi);
            assert(gap_lo(i, sps, 1) == sps[0].hi);
        } else {
            assert(rest[k] == sps[k + 1]);
            assert(rest[k - 1] == sps[k]);
            assert(gap_lo(j, rest, k) == gap_lo(i, sps, k + 1));
        }
    }
    if rest.len() == 0 {
        assert(sps[sps.len() - 1] == sps[0]);
    } else {
        assert(rest[rest.len() - 1] == sps[sps.len() - 1]);
    }
    assert forall|p: int| i <= p < sps[0].lo implies !open_at(s, p) by {
        assert(gap_lo(i, sps, 0) == i);
    }
}

/// The item built from a trimmed delimiter-bounded region is a
/// well-formed code item whose re-serialized inner text is exactly the
/// region's text, markers excluded.
proof fn lemma_code_item_wf(s: Seq<char>, sp: SpanModel)
    requires
        span_is_match(s, sp),
    ensures
        ({
            let tr = trim_region(RegionModel { kind: FragmentKind::Code, lo: sp.lo, hi: sp.hi });
            let c = item_of_region(s, tr);
            &&& c is Code
            &&& close_free(inner_of(c))
            &&& inner_of(c) == s.subrange(sp.lo + 2, sp.hi - 2)
            &&& (c matches ItemModel::Code { source, print_result } ==> (!print_result
                && source.len() > 0 ==> source[0] != '='))
        }),
{
    let tr = trim_region(RegionModel { kind: FragmentKind::Code, lo: sp.lo, hi: sp.hi });
    assert(tr == RegionModel { kind: FragmentKind::Code, lo: sp.lo + 2, hi: sp.hi - 2 });
    let t = s.subrange(sp.lo + 2, sp.hi - 2);
    let c = item_of_region(s, tr);
    assert forall|j: int| !close_at(t, j) by {
        if 0 <= j && j + 2 <= t.len() {
            assert(t[j] == s[sp.lo + 2 + j]);
            assert(t[j + 1] == s[sp.lo + 2 + j + 1]);
            if close_at(t, j) {
                assert(close_at(s, sp.lo + 2 + j));
            }
        }
    }
    assert(close_free(t));
    if t.len() > 0 && t[0] == '=' {
        assert(c == ItemModel::Code { source: t.subrange(1, t.len() as int), print_result: true });
        assert(inner_of(c) =~= t);
    } else {
        assert(c == ItemModel::Code { source: t, print_result: false });
        assert(inner_of(c) == t);
    }
}

/// The filter-trim-build pipeline applied to the gap-filled spans of a
/// well-formed scan yields a well-formed document.
#[verifier::rlimit(100)]
#[verifier::spinoff_prover]
proof fn lemma_rebuilt_wf(s: Seq<char>, sps: Seq<SpanModel>, cursor: int)
    requires
        0 <= cursor <= s.len(),
        scan_wf(s, cursor, sps),
    ensures
        doc_wf(rebuilt(s, fill_regions(code_regions_of(sps), cursor, s.len() as int))),
    decreases sps.len(),
{
    let big = s.len() as int;
    let regions = code_regions_of(sps);
    let out = rebuilt(s, fill_regions(regions, cursor, big));
    if sps.len() == 0 {
        assert(regions =~= Seq::<RegionModel>::empty());
        if cursor == big {
            assert(fill_regions(regions, cursor, big) == Seq::<RegionModel>::empty());
            assert(nonempty_regions(Seq::<RegionModel>::empty()) == Seq::<RegionModel>::empty());
            assert(trimmed_regions(Seq::<RegionModel>::empty()) =~= Seq::<RegionModel>::empty());
            assert(items_of_regions(s, Seq::<RegionModel>::empty()) =~= Seq::<ItemModel>::empty());
            lemma_doc_wf_empty();
            assert(out == Seq::<ItemModel>::empty());
        } else {
            let tr0 = RegionModel { kind: FragmentKind::Text, lo: cursor, hi: big };
            assert(fill_regions(regions, cursor, big) == seq![tr0]);
            assert(seq![tr0] =~= seq![tr0] + Seq::<RegionModel>::empty());
            lemma_rebuilt_cons(s, tr0, Seq::<RegionModel>::empty());
            assert(nonempty_regions(Seq::<RegionModel>::empty()) == Seq::<RegionModel>::empty());
            assert(trimmed_regions(Seq::<RegionModel>::empty()) =~= Seq::<RegionModel>::empty());
            assert(items_of_regions(s, Seq::<RegionModel>::empty()) =~= Seq::<ItemModel>::empty());
            assert(rebuilt(s, Seq::<RegionModel>::empty()) == Seq::<ItemModel>::empty());
            let t = s.subrange(cursor, big);
            assert(t.len() > 0);
            assert(no_match_from(s, cursor));
            assert forall|p: int, q: int|
                0 <= p && p + 2 <= q && #[trigger] open_at(t, p) implies !#[trigger] close_at(t, q) by {
                assert(t[p] == s[cursor + p]);
                assert(t[p + 1] == s[cursor + p + 1]);
                assert(open_at(s, cursor + p));
                if close_at(t, q) {
                    assert(t[q] == s[cursor + q]);
                    assert(t[q + 1] == s[cursor + q + 1]);
                    assert(close_at(s, cursor + q));
                }
            }
            assert(match_free(t));
            lemma_doc_wf_single_text(t);
            assert(trim_region(tr0) == tr0);
            assert(item_of_region(s, tr0) == ItemModel::Text(t));
            assert(out == seq![ItemModel::Text(t)] + Seq::<ItemModel>::empty());
            assert(out =~= seq![ItemModel::Text(t)]);
        }
    } else {
        let sp = sps[0];
        assert(span_is_match(s, sp));
        lemma_scan_wf_peel(s, cursor, sps);
        let rest_sps = sps.drop_first();
        lemma_rebuilt_wf(s, rest_sps, sp.hi);
        let rest_regions = code_regions_of(rest_sps);
        assert(regions.drop_first() =~= rest_regions);
        let cr = RegionModel { kind: FragmentKind::Code, lo: sp.lo, hi: sp.hi };
        assert(regions[0] == cr);
        lemma_code_item_wf(s, sp);
        let c = item_of_region(s, trim_region(cr));
        let fill_rest = fill_regions(rest_regions, sp.hi, big);
        let out_rest = rebuilt(s, fill_rest);
        assert(cursor <= sp.lo);
        if sp.lo == cursor {
            assert(fill_regions(regions, cursor, big) == seq![cr] + fill_rest);
            lemma_rebuilt_cons(s, cr, fill_rest);
            assert(out == seq![c] + out_rest);
            lemma_doc_wf_cons_code(c, out_rest);
        } else {
            let gap = RegionModel { kind: FragmentKind::Text, lo: cursor, hi: sp.lo };
            assert(fill_regions(regions, cursor, big) == seq![gap, cr] + fill_rest);
            assert(seq![gap, cr] + fill_rest =~= seq![gap] + (seq![cr] + fill_rest));
            lemma_rebuilt_cons(s, cr, fill_rest);
            lemma_rebuilt_cons(s, gap, seq![cr] + fill_rest);
            let t = s.subrange(cursor, sp.lo);
            assert(trim_region(gap) == gap);
            assert(item_of_region(s, gap) == ItemModel::Text(t));
            assert(out == seq![ItemModel::Text(t)] + (seq![c] + out_rest));
            assert forall|p: int| !open_at(t, p) by {
                if 0 <= p && p + 2 <= t.len() {
                    assert(t[p] == s[cursor + p]);
                    assert(t[p + 1] == s[cursor + p + 1]);
                    if open_at(t, p) {
                        assert(open_at(s, cursor + p));
                    }
                }
            }
            assert(open_free(t));
            lemma_doc_wf_cons_code(c, out_rest);
            assert((seq![c] + out_rest)[0] == c);
            lemma_doc_wf_cons_text(t, seq![c] + out_rest);
        }
    }
}

/// Every document the parser returns is well-formed.
pub proof fn lemma_parse_wf(s: Seq<char>)
    ensures
        doc_wf(parse_spec(s)),
{
    let big = s.len() as int;
    lemma_scan_from_wf(s, 0);
    let sps = scan_from(s, 0);
    if sps.len() == 0 {
        if s.len() == 0 {
            lemma_parse_empty();
            lemma_doc_wf_empty();
        } else {
            let whole = RegionModel { kind: FragmentKind::Text, lo: 0, hi: big };
            assert(filled_regions(s) == seq![whole]);
            assert(seq![whole].drop_first() =~= Seq::<RegionModel>::empty());
            assert(nonempty_regions(Seq::<RegionModel>::empty()) == Seq::<RegionModel>::empty());
            assert(nonempty_regions(seq![whole]) == seq![whole] + Seq::<RegionModel>::empty());
            assert(nonempty_regions(filled_regions(s)) =~= seq![whole]);
            assert(trimmed_regions(seq![whole]) =~= seq![whole]);
            assert(item_of_region(s, whole) == ItemModel::Text(s.subrange(0, big)));
            assert(s.subrange(0, big) =~= s);
            assert(parse_spec(s) =~= seq![ItemModel::Text(s)]);
            assert(no_match_from(s, 0));
            lemma_doc_wf_single_text(s);
        }
    } else {
        assert(filled_regions(s) == fill_regions(code_regions_of(sps), 0, big));
        lemma_rebuilt_wf(s, sps, 0);
        assert(parse_spec(s) == rebuilt(s, filled_regions(s)));
    }
}

/// Idempotence of the round trip: re-serializing a parsed document —
/// text items verbatim, code items re-wrapped in their markers with the
/// print sigil restored — and parsing again yields the same document.
pub proof fn lemma_serialize_parse_round_trip(s: Seq<char>)
    ensures
        parse_spec(serialize_items(parse_spec(s))) == parse_spec(s),
{
    lemma_parse_wf(s);
    lemma_parse_of_serialized(parse_spec(s));
}

} // verus!

use vstd::prelude::*;
use vstd::std_specs::iter::IteratorSpec;

use crate::ast::{Ast, Item, ItemKind, ItemModel, ParseError};
use crate::model::{
    close_at, code_regions_of, fill_regions, filled_regions, first_close_from, gap_filled_regions,
    item_of_region, items_of_regions, lemma_first_close_from, lemma_pipeline_regions_ok,
    nonempty_regions, open_at, parse_spec, region_ok, region_trimmable, regions_bounded_ordered,
    scan_from, serialize_item, serialize_items, spans_ordered, trim_region, trimmed_regions,
    RegionModel, SpanModel,
};

verus! {

/// A range of characters in the text, as a half-open interval of
/// character positions.
#[derive(Clone, Copy, Debug, PartialEq, Eq, Structural)]
pub struct Span {
    pub low_index: usize,
    pub high_index: usize,
}

#[derive(Clone, Copy, Debug, PartialEq, Eq, Structural)]
pub enum FragmentKind {
    Code,
    Text,
}

/// A fragment of the text: an interval with its kind tag, pipeline-internal.
#[derive(Clone, Copy, Debug, PartialEq, Eq, Structural)]
pub struct Fragment {
    pub kind: FragmentKind,
    pub span: Span,
}

impl View for Span {
    type V = crate::model::SpanModel;

    open spec fn view(&self) -> crate::model::SpanModel {
        crate::model::SpanModel { lo: self.low_index as int, hi: self.high_index as int }
    }
}

impl View for Fragment {
    type V = crate::model::RegionModel;

    open spec fn view(&self) -> crate::model::RegionModel {
        crate::model::RegionModel {
            kind: self.kind,
            lo: self.span.low_index as int,
            hi: self.span.high_index as int,
        }
    }
}

pub open spec fn span_views(sps: Seq<Span>) -> Seq<SpanModel> {
    sps.map_values(|sp: Span| sp@)
}

pub open spec fn frag_views(fs: Seq<Fragment>) -> Seq<RegionModel> {
    fs.map_values(|f: Fragment| f@)
}

/// Collect the input's characters once, so that the scanner can index
/// them in constant time and stay linear in the input length.
fn chars_vec(input: &str) -> (v: Vec<char>)
    ensures
        v@ == input@,
{
    let mut it = input.chars();
    let mut v: Vec<char> = Vec::new();
    loop
        invariant
            v@ + it.remaining() == input@,
            it.decrease() is Some,
        decreases it.decrease()->0,
    {
        match it.next() {
            Some(c) => {
                v.push(c);
                proof {
                    assert(v@ + it.remaining() =~= input@);
                }
            },
            None => {
                proof {
                    assert(v@ =~= input@);
                }
                return v;
            },
        }
    }
}

/// Position of the first closing marker `%>` at or after `from`, or the
/// length of `chars` when there is none.
fn find_close_from(chars: &Vec<char>, from: usize) -> (r: usize)
    requires
        from <= chars@.len(),
    ensures
        r as int == first_close_from(chars@, from as int),
{
    let len = chars.len();
    let mut i: usize = from;
    loop
        invariant
            from <= i <= len,
            len == chars@.len(),
            first_close_from(chars@, from as int) == first_close_from(chars@, i as int),
        decreases len - i,
    {
        if i < len && i + 1 < len {
            let c0 = chars[i];
            let c1 = chars[i + 1];
            if c0 == '%' && c1 == '>' {
                assert(close_at(chars@, i as int));
                return i;
            }
            assert(!close_at(chars@, i as int));
            i = i + 1;
        } else {
            assert(i + 2 > len);
            return len;
        }
    }
}

/// The Delimiter Scanner: all delimiter-bounded regions of the input,
/// in order, each the shortest match from the leftmost remaining opening
/// marker.
fn scan_code_spans(chars: &Vec<char>) -> (spans: Vec<Span>)
    ensures
        span_views(spans@) == scan_from(chars@, 0),
{
    let len = chars.len();
    let mut spans: Vec<Span> = Vec::new();
    let mut i: usize = 0;
    loop
        invariant
            i <= len,
            len == chars@.len(),
            scan_from(chars@, 0) == span_views(spans@) + scan_from(chars@, i as int),
        decreases len - i,
    {
        if i < len && i + 1 < len {
            let c0 = chars[i];
            let c1 = chars[i + 1];
            if c0 == '<' && c1 == '%' {
                assert(open_at(chars@, i as int));
                let c = find_close_from(chars, i + 2);
                proof {
                    lemma_first_close_from(chars@, i as int + 2);
                }
                if c < len {
                    assert(close_at(chars@, c as int));
                    let ghost prev = spans@;
                    let sp = Span { low_index: i, high_index: c + 2 };
                    spans.push(sp);
                    proof {
                        assert(span_views(spans@) =~= span_views(prev) + seq![sp@]);
                        assert(scan_from(chars@, i as int) == seq![sp@] + scan_from(
                            chars@,
                            c as int + 2,
                        ));
                        assert(span_views(prev) + (seq![sp@] + scan_from(chars@, c as int + 2))
                            =~= span_views(spans@) + scan_from(chars@, c as int + 2));
                    }
                    i = c + 2;
                } else {
                    assert(scan_from(chars@, i as int) =~= Seq::<SpanModel>::empty());
                    assert(span_views(spans@) + Seq::<SpanModel>::empty() =~= span_views(spans@));
                    return spans;
                }
            } else {
                assert(!open_at(chars@, i as int));
                assert(scan_from(chars@, i as int) == scan_from(chars@, i as int + 1));
                i = i + 1;
            }
        } else {
            assert(i + 2 > len);
            assert(scan_from(chars@, i as int) =~= Seq::<SpanModel>::empty());
            assert(span_views(spans@) + Seq::<SpanModel>::empty() =~= span_views(spans@));
            return spans;
        }
    }
}

/// Check that the scanner's spans are in ascending order and pairwise
/// non-overlapping.  The matching strategy guarantees this by
/// construction; the check makes the invariant explicit.
pub fn verify_no_overlapping_spans(spans: &Vec<Span>) -> (ok: bool)
    ensures
        ok == spans_ordered(span_views(spans@)),
{
    let n = spans.len();
    let mut k: usize = 0;
    loop
        invariant
            k <= n,
            n == spans@.len(),
            forall|j: int|
                0 <= j < k ==> #[trigger] span_views(spans@)[j].lo <= span_views(spans@)[j].hi,
            forall|j: int|
                0 <= j < k && j < n - 1 ==> #[trigger] span_views(spans@)[j].hi <= span_views(
                    spans@,
                )[j + 1].lo,
        decreases n - k,
    {
        if k == n {
            return true;
        }
        let sp = spans[k];
        if sp.low_index > sp.high_index {
            assert(span_views(spans@)[k as int].lo > span_views(spans@)[k as int].hi);
            return false;
        }
        if k + 1 < n {
            let nx = spans[k + 1];
            if sp.high_index > nx.low_index {
                assert(span_views(spans@)[k as int].hi > span_views(spans@)[k as int + 1].lo);
                return false;
            }
        }
        k = k + 1;
    }
}

/// The Gap Filler: interpolate a text fragment for every gap between the
/// given code fragments, and one for the tail of the input.  With no
/// code fragments at all it emits the single text fragment spanning the
/// whole input — even when the input is empty, in which case the
/// zero-length fragment is later removed by the filter.
pub fn fill_in_text_fragments(input: &str, code_fragments: Vec<Fragment>) -> (r: Vec<Fragment>)
    requires
        regions_bounded_ordered(frag_views(code_fragments@), 0, input@.len() as int),
    ensures
        frag_views(r@) == gap_filled_regions(frag_views(code_fragments@), input@.len() as int),
{
    let ghost all = frag_views(code_fragments@);
    let ghost len = input@.len() as int;
    let len_chars = input.unicode_len();
    let n = code_fragments.len();
    let mut fragments: Vec<Fragment> = Vec::new();
    let mut current_index: usize = 0;
    let mut idx: usize = 0;
    if n == 0 {
        let whole = Fragment {
            kind: FragmentKind::Text,
            span: Span { low_index: 0, high_index: len_chars },
        };
        fragments.push(whole);
        proof {
            assert(frag_views(fragments@) =~= seq![
                RegionModel { kind: FragmentKind::Text, lo: 0, hi: len },
            ]);
        }
        return fragments;
    }
    proof {
        assert(all.skip(0) =~= all);
        assert(frag_views(fragments@) =~= Seq::<RegionModel>::empty());
        assert(Seq::<RegionModel>::empty() + fill_regions(all, 0, len) =~= fill_regions(
            all,
            0,
            len,
        ));
    }
    while idx < n
        invariant
            idx <= n,
            n == code_fragments@.len(),
            len_chars == input@.len(),
            all == frag_views(code_fragments@),
            len == len_chars as int,
            regions_bounded_ordered(all, 0, len),
            current_index <= len_chars,
            idx < n ==> current_index as int <= all[idx as int].lo,
            idx > 0 ==> current_index as int == all[idx as int - 1].hi,
            fill_regions(all, 0, len) == frag_views(fragments@) + fill_regions(
                all.skip(idx as int),
                current_index as int,
                len,
            ),
        decreases n - idx,
    {
        let code_fragment = code_fragments[idx];
        proof {
            assert(all[idx as int] == code_fragment@);
        }
        // A fragment that starts before the cursor would be a fatal invariant
        // violation; the precondition rules it out.
        assert(code_fragment.span.low_index >= current_index);
        let ghost prev = fragments@;
        let ghost rem = all.skip(idx as int);
        proof {
            assert(rem[0] == all[idx as int]);
            assert(rem.drop_first() =~= all.skip(idx as int + 1));
        }
        if code_fragment.span.low_index != current_index {
            let text_fragment = Fragment {
                kind: FragmentKind::Text,
                span: Span { low_index: current_index, high_index: code_fragment.span.low_index },
            };
            fragments.push(text_fragment);
            fragments.push(code_fragment);
            proof {
                assert(frag_views(fragments@) =~= frag_views(prev) + seq![
                    text_fragment@,
                    code_fragment@,
                ]);
                assert(fill_regions(rem, current_index as int, len) == seq![
                    RegionModel {
                        kind: FragmentKind::Text,
                        lo: current_index as int,
                        hi: code_fragment@.lo,
                    },
                    code_fragment@,
                ] + fill_regions(rem.drop_first(), code_fragment@.hi, len));
                assert(frag_views(prev) + fill_regions(rem, current_index as int, len)
                    =~= frag_views(fragments@) + fill_regions(
                    all.skip(idx as int + 1),
                    code_fragment@.hi,
                    len,
                ));
            }
        } else {
            fragments.push(code_fragment);
            proof {
                assert(frag_views(fragments@) =~= frag_views(prev) + seq![code_fragment@]);
                assert(fill_regions(rem, current_index as int, len) == seq![code_fragment@]
                    + fill_regions(rem.drop_first(), code_fragment@.hi, len));
                assert(frag_views(prev) + fill_regions(rem, current_index as int, len)
                    =~= frag_views(fragments@) + fill_regions(
                    all.skip(idx as int + 1),
                    code_fragment@.hi,
                    len,
                ));
            }
        }
        current_index = code_fragment.span.high_index;
        idx = idx + 1;
        proof {
            if idx < n {
                assert(all[idx as int - 1].hi <= all[idx as int].lo);
            }
        }
    }
    proof {
        assert(all.skip(n as int) =~= Seq::<RegionModel>::empty());
    }
    // If there is text after the last code fragment, insert it here.
    if current_index != len_chars {
        let ghost prev = fragments@;
        let tail = Fragment {
            kind: FragmentKind::Text,
            span: Span { low_index: current_index, high_index: len_chars },
        };
        fragments.push(tail);
        proof {
            assert(fill_regions(all.skip(n as int), current_index as int, len) == seq![tail@]);
            assert(frag_views(fragments@) =~= frag_views(prev) + seq![tail@]);
            assert(frag_views(fragments@) =~= fill_regions(all, 0, len));
        }
    } else {
        proof {
            assert(current_index as int == len);
            assert(fill_regions(all.skip(n as int), current_index as int, len)
                == Seq::<RegionModel>::empty());
            assert(frag_views(fragments@) + Seq::<RegionModel>::empty() =~= frag_views(
                fragments@,
            ));
        }
    }
    proof {
        assert(all.len() == n);
        assert(gap_filled_regions(all, len) == fill_regions(all, 0, len));
    }
    fragments
}

/// The Region Filter: drop every fragment of zero length.
pub fn remove_empty_fragments(fragments: Vec<Fragment>) -> (r: Vec<Fragment>)
    ensures
        frag_views(r@) == nonempty_regions(frag_views(fragments@)),
{
    let ghost all = frag_views(fragments@);
    let n = fragments.len();
    let mut result: Vec<Fragment> = Vec::new();
    let mut idx: usize = 0;
    proof {
        assert(all.skip(0) =~= all);
        assert(frag_views(result@) =~= Seq::<RegionModel>::empty());
        assert(Seq::<RegionModel>::empty() + nonempty_regions(all) =~= nonempty_regions(all));
    }
    while idx < n
        invariant
            idx <= n,
            n == fragments@.len(),
            all == frag_views(fragments@),
            nonempty_regions(all) == frag_views(result@) + nonempty_regions(all.skip(idx as int)),
        decreases n - idx,
    {
        let frag = fragments[idx];
        let ghost prev = result@;
        let ghost rem = all.skip(idx as int);
        proof {
            assert(all[idx as int] == frag@);
            assert(rem[0] == all[idx as int]);
            assert(rem.drop_first() =~= all.skip(idx as int + 1));
        }
        if frag.span.low_index != frag.span.high_index {
            result.push(frag);
            proof {
                assert(frag_views(result@) =~= frag_views(prev) + seq![frag@]);
                assert(frag_views(prev) + (seq![frag@] + nonempty_regions(all.skip(idx as int + 1)))
                    =~= frag_views(result@) + nonempty_regions(all.skip(idx as int + 1)));
            }
        }
        idx = idx + 1;
    }
    proof {
        assert(all.skip(n as int) =~= Seq::<RegionModel>::empty());
        assert(frag_views(result@) + Seq::<RegionModel>::empty() =~= frag_views(result@));
    }
    result
}

/// The Delimiter Trimmer: shrink every code fragment past its `<%` and
/// `%>` markers; text fragments are untouched.
pub fn trim_delimiters_from_code_frags(fragments: &mut Vec<Fragment>)
    requires
        forall|k: int|
            0 <= k < old(fragments)@.len() ==> region_trimmable(#[trigger] old(fragments)@[k]@),
    ensures
        frag_views(final(fragments)@) == trimmed_regions(frag_views(old(fragments)@)),
{
    let n = fragments.len();
    let mut idx: usize = 0;
    while idx < n
        invariant
            idx <= n,
            n == fragments@.len(),
            n == old(fragments)@.len(),
            forall|k: int|
                0 <= k < old(fragments)@.len() ==> region_trimmable(#[trigger] old(fragments)@[k]@),
            forall|k: int| idx <= k < n ==> #[trigger] fragments@[k] == old(fragments)@[k],
            forall|k: int|
                0 <= k < idx ==> #[trigger] fragments@[k]@ == trim_region(old(fragments)@[k]@),
        decreases n - idx,
    {
        let frag = fragments[idx];
        assert(frag == old(fragments)@[idx as int]);
        assert(old(fragments)@[idx as int]@ == frag@);
        if let FragmentKind::Code = frag.kind {
            assert(region_trimmable(frag@));
            assert(frag@.lo + 4 <= frag@.hi);
            fragments[idx] = Fragment {
                kind: frag.kind,
                span: Span {
                    low_index: frag.span.low_index + 2,
                    high_index: frag.span.high_index - 2,
                },
            };
            assert(fragments@[idx as int]@ == trim_region(old(fragments)@[idx as int]@));
        } else {
            assert(fragments@[idx as int]@ == trim_region(old(fragments)@[idx as int]@));
        }
        idx = idx + 1;
    }
    proof {
        assert forall|k: int|
            0 <= k < n implies #[trigger] frag_views(fragments@)[k] == trimmed_regions(
            frag_views(old(fragments)@),
        )[k] by {
            assert(fragments@[k]@ == trim_region(old(fragments)@[k]@));
        }
        assert(frag_views(fragments@) =~= trimmed_regions(frag_views(old(fragments)@)));
    }
}

/// Parse a document from a string.
///
/// Always succeeds: unmatched delimiter markers are kept as literal text.
#[verifier::rlimit(60)]
#[verifier::spinoff_prover]
pub fn parse_str(input: &str) -> (r: Result<Ast, ParseError>)
    ensures
        r matches Ok(doc) && doc@ == parse_spec(input@),
{
    let ghost s = input@;
    let ghost len = s.len() as int;
    let chars = chars_vec(input);
    let code_spans = scan_code_spans(&chars);
    proof {
        lemma_pipeline_regions_ok(s);
    }
    let ghost sps = span_views(code_spans@);
    let ok = verify_no_overlapping_spans(&code_spans);
    assert(ok);

    let ghost code_rs = code_regions_of(sps);
    let mut code_fragments: Vec<Fragment> = Vec::new();
    let n = code_spans.len();
    let mut idx: usize = 0;
    proof {
        assert(frag_views(code_fragments@) =~= code_rs.take(0));
    }
    while idx < n
        invariant
            idx <= n,
            n == code_spans@.len(),
            sps == span_views(code_spans@),
            code_rs == code_regions_of(sps),
            frag_views(code_fragments@) == code_rs.take(idx as int),
        decreases n - idx,
    {
        let sp = code_spans[idx];
        let ghost prev = code_fragments@;
        code_fragments.push(Fragment { kind: FragmentKind::Code, span: sp });
        proof {
            assert(frag_views(code_fragments@) =~= frag_views(prev) + seq![
                RegionModel { kind: FragmentKind::Code, lo: sp@.lo, hi: sp@.hi },
            ]);
            assert(code_rs[idx as int] == RegionModel {
                kind: FragmentKind::Code,
                lo: sp@.lo,
                hi: sp@.hi,
            });
            assert(frag_views(code_fragments@) =~= code_rs.take(idx as int + 1));
        }
        idx = idx + 1;
    }
    proof {
        assert(code_rs.take(n as int) =~= code_rs);
    }

    let fragments = fill_in_text_fragments(input, code_fragments);
    proof {
        assert(frag_views(fragments@) == filled_regions(s));
    }

    let mut fragments = remove_empty_fragments(fragments);
    proof {
        assert(frag_views(fragments@) == nonempty_regions(filled_regions(s)));
        assert forall|k: int|
            0 <= k < fragments@.len() implies region_trimmable(#[trigger] fragments@[k]@) by {
            assert(fragments@[k]@ == frag_views(fragments@)[k]);
            assert(region_ok(nonempty_regions(filled_regions(s))[k], len));
        }
    }
    let ghost pre_trim = frag_views(fragments@);
    trim_delimiters_from_code_frags(&mut fragments);
    proof {
        assert(frag_views(fragments@) == trimmed_regions(pre_trim));
        assert forall|k: int|
            0 <= k < pre_trim.len() implies region_ok(#[trigger] pre_trim[k], len) by {
            assert(region_ok(nonempty_regions(filled_regions(s))[k], len));
        }
    }

    let ghost target = items_of_regions(s, frag_views(fragments@));
    let m = fragments.len();
    let mut items: Vec<Item> = Vec::new();
    let mut idx: usize = 0;
    while idx < m
        invariant
            idx <= m,
            m == fragments@.len(),
            s == input@,
            chars@ == s,
            len == s.len() as int,
            pre_trim == nonempty_regions(filled_regions(s)),
            frag_views(fragments@) == trimmed_regions(pre_trim),
            target == items_of_regions(s, frag_views(fragments@)),
            forall|k: int| 0 <= k < pre_trim.len() ==> region_ok(#[trigger] pre_trim[k], len),
            items@.len() == idx,
            forall|k: int| 0 <= k < idx ==> #[trigger] items@[k]@ == target[k],
        decreases m - idx,
    {
        let frag = fragments[idx];
        proof {
            assert(frag@ == trim_region(pre_trim[idx as int]));
            assert(region_ok(pre_trim[idx as int], len));
            assert(0 <= frag@.lo <= frag@.hi <= len);
        }
        let frag_str = input.substring_char(frag.span.low_index, frag.span.high_index);
        let ghost t = s.subrange(frag@.lo, frag@.hi);
        let item_kind = match frag.kind {
            FragmentKind::Text => ItemKind::Text(String::from_str(frag_str)),
            FragmentKind::Code => {
                if frag.span.high_index > frag.span.low_index && chars[frag.span.low_index] == '=' {
                    assert(t.len() > 0 && t[0] == '=');
                    let source = input.substring_char(frag.span.low_index + 1, frag.span.high_index);
                    proof {
                        assert(source@ =~= t.subrange(1, t.len() as int));
                    }
                    ItemKind::Code { source: String::from_str(source), print_result: true }
                } else {
                    proof {
                        if frag@.hi > frag@.lo {
                            assert(t[0] == s[frag@.lo]);
                        }
                        assert(!(t.len() > 0 && t[0] == '='));
                    }
                    ItemKind::Code { source: String::from_str(frag_str), print_result: false }
                }
            },
        };
        items.push(Item { kind: item_kind });
        proof {
            assert(item_kind@ == item_of_region(s, frag@));
            assert(frag_views(fragments@)[idx as int] == frag@);
            assert(target[idx as int] == item_of_region(s, frag_views(fragments@)[idx as int]));
        }
        idx = idx + 1;
    }
    let doc = Ast { items };
    proof {
        assert forall|k: int| 0 <= k < m implies #[trigger] doc@[k] == target[k] by {
            assert(doc@[k] == doc.items@[k]@);
        }
        assert(doc@ =~= target);
        assert(target == parse_spec(s));
    }
    Ok(doc)
}

/// Render a document back to marker syntax: text items verbatim, code
/// items re-wrapped as `<%`, the print sigil when set, the source, `%>`.
pub fn serialize(doc: &Ast) -> (r: String)
    ensures
        r@ == serialize_items(doc@),
{
    let mut out = String::new();
    let n = doc.items.len();
    let mut idx: usize = 0;
    proof {
        assert(doc@.skip(0) =~= doc@);
        assert(Seq::<char>::empty() + serialize_items(doc@) =~= serialize_items(doc@));
    }
    while idx < n
        invariant
            idx <= n,
            n == doc.items@.len(),
            n == doc@.len(),
            out@ + serialize_items(doc@.skip(idx as int)) == serialize_items(doc@),
        decreases n - idx,
    {
        let it = &doc.items[idx];
        let ghost prev = out@;
        let ghost rem = doc@.skip(idx as int);
        proof {
            assert(doc@[idx as int] == doc.items@[idx as int]@);
            assert(rem[0] == doc@[idx as int]);
            assert(rem.drop_first() =~= doc@.skip(idx as int + 1));
            assert(it@ == doc@[idx as int]);
        }
        match &it.kind {
            ItemKind::Text(t) => {
                out.append(t.as_str());
                proof {
                    assert(serialize_item(rem[0]) == t@);
                    assert(prev + (t@ + serialize_items(doc@.skip(idx as int + 1)))
                        =~= out@ + serialize_items(doc@.skip(idx as int + 1)));
                }
            },
            ItemKind::Code { source, print_result } => {
                out.append("<%");
                if *print_result {
                    out.append("=");
                }
                out.append(source.as_str());
                out.append("%>");
                proof {
                    reveal_strlit("<%");
                    reveal_strlit("=");
                    reveal_strlit("%>");
                    assert("<%"@ =~= seq!['<', '%']);
                    assert("%>"@ =~= seq!['%', '>']);
                    if *print_result {
                        assert("="@ =~= seq!['=']);
                        assert(out@ =~= prev + ("<%"@ + "="@ + source@ + "%>"@));
                        assert(serialize_item(rem[0]) =~= "<%"@ + "="@ + source@ + "%>"@);
                    } else {
                        assert(out@ =~= prev + ("<%"@ + source@ + "%>"@));
                        assert(serialize_item(rem[0]) =~= "<%"@ + source@ + "%>"@);
                    }
                    assert(prev + (serialize_item(rem[0]) + serialize_items(
                        doc@.skip(idx as int + 1),
                    )) =~= out@ + serialize_items(doc@.skip(idx as int + 1)));
                }
            },
        }
        idx = idx + 1;
    }
    proof {
        assert(doc@.skip(n as int) =~= Seq::<ItemModel>::empty());
        assert(out@ + Seq::<char>::empty() =~= out@);
    }
    out
}

} // verus!

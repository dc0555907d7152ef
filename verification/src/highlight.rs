//! Highlighting: splicing `<mark>` elements into a section's raw document
//! around ranges of its plain text.

use vstd::prelude::*;

use crate::cfi::{decimal, push_decimal};
use crate::text::{byte_len, chars_of, push_all, string_from_chars};
use crate::text_map::{
    char_offsets, char_start_at, lemma_source_segments_on_chars, offsets_ok, spec_scan, spec_source_segments, text_pos_ok, Entry,
    TextMap,
};

verus! {

/// A byte range in the section's plain text (`Book::section_text`) to wrap
/// in `<mark class="epub-highlight">`. Search results supply these directly:
/// `{ start: m.offset, end: m.offset + m.len }`.
#[derive(Debug, Clone, Copy, Default)]
pub struct HighlightRange {
    pub start: usize,
    pub end: usize,
}

/// `x` lies in one of the ranges.
pub open spec fn covered(ranges: Seq<HighlightRange>, x: int) -> bool {
    exists|i: int| 0 <= i < ranges.len() && ranges[i].start <= x < #[trigger] ranges[i].end
}

/// `x` lies in one of the spans.
pub open spec fn covered_by(m: Seq<(usize, usize)>, x: int) -> bool {
    exists|k: int| 0 <= k < m.len() && (#[trigger] m[k]).0 <= x < m[k].1
}

/// Non-empty spans in increasing order, each ending strictly before the
/// next one starts.
pub open spec fn disjoint_sorted(m: Seq<(usize, usize)>) -> bool {
    &&& forall|k: int| 0 <= k < m.len() ==> (#[trigger] m[k]).0 < m[k].1
    &&& forall|j: int, k: int| 0 <= j < k < m.len() ==> (#[trigger] m[j]).1 < (#[trigger] m[k]).0
}

/// `m` is the union of the ranges written as maximal spans.
pub open spec fn merge_of(ranges: Seq<HighlightRange>, m: Seq<(usize, usize)>) -> bool {
    &&& disjoint_sorted(m)
    &&& forall|x: int| #![trigger covered_by(m, x)] #![trigger covered(ranges, x)]
        covered_by(m, x) == covered(ranges, x)
}

/// The union of the ranges as maximal spans (there is exactly one such
/// sequence: see `lemma_merge_unique`).
pub open spec fn spec_merge(ranges: Seq<HighlightRange>) -> Seq<(usize, usize)> {
    choose|m: Seq<(usize, usize)>| merge_of(ranges, m)
}

proof fn lemma_covered_by_last(t: Seq<(usize, usize)>, x: int)
    requires
        t.len() > 0,
    ensures
        covered_by(t, x) == (covered_by(t.drop_last(), x) || (t.last().0 <= x < t.last().1)),
{
    let d = t.drop_last();
    if covered_by(t, x) {
        let k = choose|k: int| 0 <= k < t.len() && (#[trigger] t[k]).0 <= x < t[k].1;
        if k < t.len() - 1 {
            assert(d[k] == t[k]);
        }
    }
    if covered_by(d, x) {
        let k = choose|k: int| 0 <= k < d.len() && (#[trigger] d[k]).0 <= x < d[k].1;
        assert(t[k] == d[k]);
    }
    if t.last().0 <= x < t.last().1 {
        assert(t[t.len() - 1] == t.last());
    }
}

proof fn lemma_covered_by_push(s: Seq<(usize, usize)>, p: (usize, usize), x: int)
    ensures
        covered_by(s.push(p), x) == (covered_by(s, x) || (p.0 <= x < p.1)),
{
    lemma_covered_by_last(s.push(p), x);
    assert(s.push(p).drop_last() =~= s);
}

proof fn lemma_covered_by_insert(s: Seq<(usize, usize)>, j: int, p: (usize, usize), x: int)
    requires
        0 <= j <= s.len(),
    ensures
        covered_by(s.insert(j, p), x) == (covered_by(s, x) || (p.0 <= x < p.1)),
{
    let t = s.insert(j, p);
    if covered_by(t, x) {
        let k = choose|k: int| 0 <= k < t.len() && (#[trigger] t[k]).0 <= x < t[k].1;
        if k < j {
            assert(s[k] == t[k]);
        } else if k > j {
            assert(s[k - 1] == t[k]);
        }
    }
    if covered_by(s, x) {
        let k = choose|k: int| 0 <= k < s.len() && (#[trigger] s[k]).0 <= x < s[k].1;
        if k < j {
            assert(t[k] == s[k]);
        } else {
            assert(t[k + 1] == s[k]);
        }
    }
    if p.0 <= x < p.1 {
        assert(t[j] == p);
    }
}

proof fn lemma_covered_take(rs: Seq<HighlightRange>, i: int, x: int)
    requires
        0 <= i < rs.len(),
    ensures
        covered(rs.take(i + 1), x) == (covered(rs.take(i), x) || (rs[i].start <= x < rs[i].end)),
{
    let a = rs.take(i);
    let b = rs.take(i + 1);
    if covered(b, x) {
        let k = choose|k: int| 0 <= k < b.len() && b[k].start <= x < #[trigger] b[k].end;
        if k < i {
            assert(a[k] == b[k]);
        }
    }
    if covered(a, x) {
        let k = choose|k: int| 0 <= k < a.len() && a[k].start <= x < #[trigger] a[k].end;
        assert(b[k] == a[k]);
    }
    if rs[i].start <= x < rs[i].end {
        assert(b[i] == rs[i]);
    }
}

proof fn lemma_covered_by_take(s: Seq<(usize, usize)>, i: int, x: int)
    requires
        0 <= i < s.len(),
    ensures
        covered_by(s.take(i + 1), x) == (covered_by(s.take(i), x) || (s[i].0 <= x < s[i].1)),
{
    lemma_covered_by_last(s.take(i + 1), x);
    assert(s.take(i + 1).drop_last() =~= s.take(i));
}

/// Two sequences of maximal spans that cover the same points are the same.
pub proof fn lemma_merge_unique(a: Seq<(usize, usize)>, b: Seq<(usize, usize)>)
    requires
        disjoint_sorted(a),
        disjoint_sorted(b),
        forall|x: int| #![trigger covered_by(a, x)] #![trigger covered_by(b, x)]
            covered_by(a, x) == covered_by(b, x),
    ensures
        a == b,
    decreases a.len() + b.len(),
{
    if a.len() == 0 || b.len() == 0 {
        if a.len() > 0 {
            assert(covered_by(a, a[0].0 as int));
        }
        if b.len() > 0 {
            assert(covered_by(b, b[0].0 as int));
        }
        assert(a =~= b);
    } else {
        let a0 = a[0];
        let b0 = b[0];
        assert(covered_by(a, a0.0 as int));
        assert(covered_by(b, b0.0 as int));
        assert(a0.0 == b0.0) by {
            let k = choose|k: int| 0 <= k < b.len() && (#[trigger] b[k]).0 <= a0.0 < b[k].1;
            let j = choose|j: int| 0 <= j < a.len() && (#[trigger] a[j]).0 <= b0.0 < a[j].1;
            if j > 0 {
                assert(a[0].1 < a[j].0);
            }
            if k > 0 {
                assert(b[0].1 < b[k].0);
            }
        }
        assert(a0.1 == b0.1) by {
            if a0.1 < b0.1 {
                let x = a0.1 as int;
                assert(covered_by(b, x));
                if covered_by(a, x) {
                    let j = choose|j: int| 0 <= j < a.len() && (#[trigger] a[j]).0 <= x < a[j].1;
                    if j > 0 {
                        assert(a[0].1 < a[j].0);
                    }
                }
            } else if b0.1 < a0.1 {
                let x = b0.1 as int;
                assert(covered_by(a, x));
                if covered_by(b, x) {
                    let k = choose|k: int| 0 <= k < b.len() && (#[trigger] b[k]).0 <= x < b[k].1;
                    if k > 0 {
                        assert(b[0].1 < b[k].0);
                    }
                }
            }
        }
        let ra = a.drop_first();
        let rb = b.drop_first();
        assert forall|x: int| #![trigger covered_by(ra, x)] #![trigger covered_by(rb, x)]
            covered_by(ra, x) == covered_by(rb, x) by {
            lemma_drop_first_cover(a, x);
            lemma_drop_first_cover(b, x);
        }
        lemma_merge_unique(ra, rb);
        assert(a =~= seq![a0] + ra);
        assert(b =~= seq![b0] + rb);
    }
}

proof fn lemma_drop_first_cover(a: Seq<(usize, usize)>, x: int)
    requires
        disjoint_sorted(a),
        a.len() > 0,
    ensures
        covered_by(a.drop_first(), x) == (covered_by(a, x) && x >= a[0].1),
{
    let r = a.drop_first();
    if covered_by(r, x) {
        let k = choose|k: int| 0 <= k < r.len() && (#[trigger] r[k]).0 <= x < r[k].1;
        assert(r[k] == a[k + 1]);
        assert(a[0].1 < a[k + 1].0);
    }
    if covered_by(a, x) && x >= a[0].1 {
        let k = choose|k: int| 0 <= k < a.len() && (#[trigger] a[k]).0 <= x < a[k].1;
        assert(k != 0);
        assert(r[k - 1] == a[k]);
    }
}

/// Normalize, sort and merge the ranges: the union of the non-empty ones
/// as maximal spans in increasing order. Ranges that overlap or touch are
/// joined.
pub fn merge_ranges(ranges: &[HighlightRange]) -> (r: Vec<(usize, usize)>)
    ensures
        merge_of(ranges@, r@),
        r@ == spec_merge(ranges@),
{
    // Sort the non-empty ranges by start (insertion).
    let mut sorted: Vec<(usize, usize)> = Vec::new();
    let n = ranges.len();
    let mut i: usize = 0;
    while i < n
        invariant
            n == ranges@.len(),
            i <= n,
            forall|k: int| 0 <= k < sorted@.len() ==> (#[trigger] sorted@[k]).0 < sorted@[k].1,
            forall|j: int, k: int| 0 <= j < k < sorted@.len() ==> (#[trigger] sorted@[j]).0 <= (#[trigger] sorted@[k]).0,
            forall|x: int| #![trigger covered_by(sorted@, x)] covered_by(sorted@, x) == covered(ranges@.take(i as int), x),
        decreases n - i,
    {
        let hr = ranges[i];
        proof {
            assert forall|x: int| #![trigger covered(ranges@.take(i + 1), x)]
                covered(ranges@.take(i + 1), x) == (covered(ranges@.take(i as int), x) || (hr.start <= x < hr.end)) by {
                lemma_covered_take(ranges@, i as int, x);
            }
        }
        if hr.start < hr.end {
            let p = (hr.start, hr.end);
            let mut j: usize = 0;
            while j < sorted.len() && sorted[j].0 <= hr.start
                invariant
                    j <= sorted@.len(),
                    forall|k: int| 0 <= k < j ==> (#[trigger] sorted@[k]).0 <= hr.start,
                decreases sorted@.len() - j,
            {
                j += 1;
            }
            let ghost old_sorted = sorted@;
            sorted.insert(j, p);
            proof {
                let t = sorted@;
                assert(t == old_sorted.insert(j as int, p));
                assert forall|k: int| 0 <= k < t.len() implies (#[trigger] t[k]).0 < t[k].1 by {
                    if k < j {
                        assert(t[k] == old_sorted[k]);
                    } else if k > j {
                        assert(t[k] == old_sorted[k - 1]);
                    }
                }
                assert forall|a: int, b: int| 0 <= a < b < t.len() implies (#[trigger] t[a]).0 <= (#[trigger] t[b]).0 by {
                    if j < old_sorted.len() {
                        assert(old_sorted[j as int].0 > hr.start);
                    }
                    if b < j {
                        assert(t[a] == old_sorted[a] && t[b] == old_sorted[b]);
                    } else if b == j {
                        assert(t[a] == old_sorted[a]);
                    } else if a < j {
                        assert(t[a] == old_sorted[a] && t[b] == old_sorted[b - 1]);
                    } else if a == j {
                        assert(t[b] == old_sorted[b - 1]);
                        assert(old_sorted[j as int].0 <= old_sorted[b - 1].0);
                    } else {
                        assert(t[a] == old_sorted[a - 1] && t[b] == old_sorted[b - 1]);
                    }
                }
                assert forall|x: int| #![trigger covered_by(t, x)] covered_by(t, x) == covered(ranges@.take(i + 1), x) by {
                    lemma_covered_by_insert(old_sorted, j as int, p, x);
                }
            }
        } else {
            proof {
                assert forall|x: int| #![trigger covered_by(sorted@, x)] covered_by(sorted@, x) == covered(ranges@.take(i + 1), x) by {}
            }
        }
        i += 1;
    }
    assert(ranges@.take(n as int) =~= ranges@);

    // Merge overlapping or touching neighbours.
    let mut merged: Vec<(usize, usize)> = Vec::new();
    let m = sorted.len();
    let mut i: usize = 0;
    while i < m
        invariant
            m == sorted@.len(),
            i <= m,
            forall|k: int| 0 <= k < sorted@.len() ==> (#[trigger] sorted@[k]).0 < sorted@[k].1,
            forall|j: int, k: int| 0 <= j < k < sorted@.len() ==> (#[trigger] sorted@[j]).0 <= (#[trigger] sorted@[k]).0,
            disjoint_sorted(merged@),
            i > 0 ==> merged@.len() > 0,
            merged@.len() > 0 ==> forall|j: int| i <= j < m ==> merged@.last().0 <= (#[trigger] sorted@[j]).0,
            forall|x: int| #![trigger covered_by(merged@, x)] covered_by(merged@, x) == covered_by(sorted@.take(i as int), x),
        decreases m - i,
    {
        let r = sorted[i];
        let ghost old_merged = merged@;
        proof {
            assert forall|x: int| #![trigger covered_by(sorted@.take(i + 1), x)]
                covered_by(sorted@.take(i + 1), x) == (covered_by(sorted@.take(i as int), x) || (r.0 <= x < r.1)) by {
                lemma_covered_by_take(sorted@, i as int, x);
            }
        }
        let ml = merged.len();
        if ml > 0 && r.0 <= merged[ml - 1].1 {
            let last = merged[ml - 1];
            let new_end = if r.1 > last.1 { r.1 } else { last.1 };
            merged.set(ml - 1, (last.0, new_end));
            proof {
                let t = merged@;
                assert(last == old_merged.last());
                assert(last.0 <= r.0);
                assert(t.drop_last() =~= old_merged.drop_last());
                assert forall|k: int| 0 <= k < t.len() implies (#[trigger] t[k]).0 < t[k].1 by {
                    if k < ml - 1 {
                        assert(t[k] == old_merged[k]);
                    }
                }
                assert forall|a: int, b: int| 0 <= a < b < t.len() implies (#[trigger] t[a]).1 < (#[trigger] t[b]).0 by {
                    assert(t[a] == old_merged[a]);
                    if b < ml - 1 {
                        assert(t[b] == old_merged[b]);
                    } else {
                        assert(old_merged[a].1 < old_merged[b].0);
                    }
                }
                assert forall|j: int| i + 1 <= j < m implies t.last().0 <= (#[trigger] sorted@[j]).0 by {}
                assert forall|x: int| #![trigger covered_by(t, x)] covered_by(t, x) == covered_by(sorted@.take(i + 1), x) by {
                    lemma_covered_by_last(t, x);
                    lemma_covered_by_last(old_merged, x);
                }
            }
        } else {
            merged.push(r);
            proof {
                let t = merged@;
                assert(t == old_merged.push(r));
                assert forall|k: int| 0 <= k < t.len() implies (#[trigger] t[k]).0 < t[k].1 by {
                    if k < ml {
                        assert(t[k] == old_merged[k]);
                    }
                }
                assert forall|a: int, b: int| 0 <= a < b < t.len() implies (#[trigger] t[a]).1 < (#[trigger] t[b]).0 by {
                    assert(t[a] == old_merged[a]);
                    if b < ml {
                        assert(t[b] == old_merged[b]);
                    } else {
                        assert(old_merged[a].1 <= old_merged.last().1);
                        if a < ml - 1 {
                            assert(old_merged[a].1 < old_merged[ml - 1].0);
                        }
                    }
                }
                assert forall|j: int| i + 1 <= j < m implies t.last().0 <= (#[trigger] sorted@[j]).0 by {
                    assert(sorted@[i as int].0 <= sorted@[j].0);
                }
                assert forall|x: int| #![trigger covered_by(t, x)] covered_by(t, x) == covered_by(sorted@.take(i + 1), x) by {
                    lemma_covered_by_push(old_merged, r, x);
                }
            }
        }
        i += 1;
    }
    proof {
        assert(sorted@.take(m as int) =~= sorted@);
        assert(merge_of(ranges@, merged@));
        let c = spec_merge(ranges@);
        assert(merge_of(ranges@, c));
        lemma_merge_unique(c, merged@);
    }
    merged
}

/// Opening markup of a range's first mark, carrying the range's start.
pub open spec fn first_open(start: nat) -> Seq<char> {
    "<mark class=\"epub-highlight\" data-epub-offset=\""@ + decimal(start) + "\">"@
}

/// Opening markup of the further marks of a range.
pub open spec fn next_open() -> Seq<char> {
    "<mark class=\"epub-highlight\">"@
}

/// Closing markup of every mark.
pub open spec fn close_mark() -> Seq<char> {
    "</mark>"@
}

/// The marks of one range: an opening and a closing one around each source
/// segment, in order; the first opening one names the range's start.
pub open spec fn seg_marks(start: nat, segs: Seq<(usize, usize)>) -> Seq<(int, bool, Seq<char>)>
    decreases segs.len(),
{
    if segs.len() == 0 {
        Seq::empty()
    } else {
        let s = segs.last();
        let open = if segs.len() == 1 {
            first_open(start)
        } else {
            next_open()
        };
        seg_marks(start, segs.drop_last()) + seq![(s.0 as int, true, open), (s.1 as int, false, close_mark())]
    }
}

/// The marks of all spans, span after span.
pub open spec fn range_marks(entries: Seq<Entry>, spans: Seq<(usize, usize)>) -> Seq<(int, bool, Seq<char>)>
    decreases spans.len(),
{
    if spans.len() == 0 {
        Seq::empty()
    } else {
        let sp = spans.last();
        range_marks(entries, spans.drop_last()) + seg_marks(
            sp.0 as nat,
            spec_source_segments(entries, sp.0 as int, sp.1 as int),
        )
    }
}

/// The markup of the marks at `p` that open (or close), latest first.
pub open spec fn marks_at(marks: Seq<(int, bool, Seq<char>)>, p: int, open: bool) -> Seq<char>
    decreases marks.len(),
{
    if marks.len() == 0 {
        Seq::empty()
    } else {
        let m = marks.last();
        if m.0 == p && m.1 == open {
            m.2 + marks_at(marks.drop_last(), p, open)
        } else {
            marks_at(marks.drop_last(), p, open)
        }
    }
}

/// What goes in at byte position `p`: the closing marks, then the opening
/// ones, so that a range split at `p` reads `…</mark><mark>…`.
pub open spec fn markup_at(marks: Seq<(int, bool, Seq<char>)>, p: int) -> Seq<char> {
    marks_at(marks, p, false) + marks_at(marks, p, true)
}

/// The first `k` characters of `src`, each preceded by the markup at its
/// byte offset.
pub open spec fn spliced_upto(src: Seq<char>, k: int, marks: Seq<(int, bool, Seq<char>)>) -> Seq<char>
    decreases k,
{
    if k <= 0 {
        Seq::empty()
    } else {
        spliced_upto(src, k - 1, marks) + markup_at(marks, byte_len(src.take(k - 1)) as int) + seq![src[k - 1]]
    }
}

/// `src` with the markup of every mark inserted at its byte position.
pub open spec fn spec_splice(src: Seq<char>, marks: Seq<(int, bool, Seq<char>)>) -> Seq<char> {
    spliced_upto(src, src.len() as int, marks) + markup_at(marks, byte_len(src) as int)
}

/// `p` is the byte offset of a character of `src` (or its end).
pub open spec fn is_boundary(src: Seq<char>, p: int) -> bool {
    exists|k: int| 0 <= k <= src.len() && byte_len(src.take(k)) == p
}

/// The marks highlighting `ranges` in the document `entries` describe.
pub open spec fn highlight_marks(entries: Seq<Entry>, ranges: Seq<HighlightRange>) -> Seq<(int, bool, Seq<char>)> {
    range_marks(entries, spec_merge(ranges))
}

/// The marks as plain values.
pub open spec fn marks_view(v: Seq<(usize, bool, Vec<char>)>) -> Seq<(int, bool, Seq<char>)> {
    v.map_values(|m: (usize, bool, Vec<char>)| (m.0 as int, m.1, m.2@))
}

fn push_marks(out: &mut Vec<char>, marks: &Vec<(usize, bool, Vec<char>)>, p: usize, open: bool)
    ensures
        final(out)@ == old(out)@ + marks_at(marks_view(marks@), p as int, open),
{
    let ghost mv = marks_view(marks@);
    let mut k: usize = marks.len();
    assert(mv.take(k as int) =~= mv);
    while k > 0
        invariant
            mv == marks_view(marks@),
            k <= marks@.len(),
            old(out)@ + marks_at(mv, p as int, open) == out@ + marks_at(mv.take(k as int), p as int, open),
        decreases k,
    {
        let m = &marks[k - 1];
        proof {
            assert(mv.take(k as int).drop_last() =~= mv.take(k - 1));
            assert(mv.take(k as int).last() == mv[k - 1]);
            assert(mv[k - 1] == (m.0 as int, m.1, m.2@));
        }
        if m.0 == p && m.1 == open {
            push_all(out, &m.2);
            proof {
                assert(out@ + marks_at(mv.take(k - 1), p as int, open) =~= old(out)@ + marks_at(mv, p as int, open));
            }
        }
        k -= 1;
    }
    assert(marks_at(mv.take(0), p as int, open) =~= Seq::<char>::empty());
    assert(out@ =~= old(out)@ + marks_at(mv, p as int, open));
}

fn marks_for(map: &TextMap, spans: &Vec<(usize, usize)>) -> (marks: Vec<(usize, bool, Vec<char>)>)
    ensures
        marks_view(marks@) == range_marks(map.entries_view(), spans@),
{
    let mut marks: Vec<(usize, bool, Vec<char>)> = Vec::new();
    let mut k: usize = 0;
    while k < spans.len()
        invariant
            k <= spans@.len(),
            marks_view(marks@) == range_marks(map.entries_view(), spans@.take(k as int)),
        decreases spans@.len() - k,
    {
        let (start, end) = spans[k];
        let segs = map.source_segments(start, end);
        let ghost base = marks_view(marks@);
        let mut i: usize = 0;
        while i < segs.len()
            invariant
                i <= segs@.len(),
                segs@ == spec_source_segments(map.entries_view(), start as int, end as int),
                base == range_marks(map.entries_view(), spans@.take(k as int)),
                marks_view(marks@) == base + seg_marks(start as nat, segs@.take(i as int)),
            decreases segs@.len() - i,
        {
            let open = if i == 0 {
                let mut o = chars_of("<mark class=\"epub-highlight\" data-epub-offset=\"");
                push_decimal(&mut o, start);
                let t = chars_of("\">");
                push_all(&mut o, &t);
                o
            } else {
                chars_of("<mark class=\"epub-highlight\">")
            };
            let ghost before = marks@;
            marks.push((segs[i].0, true, open));
            marks.push((segs[i].1, false, chars_of("</mark>")));
            proof {
                let st = segs@.take(i + 1);
                assert(st.drop_last() =~= segs@.take(i as int));
                assert(st.last() == segs@[i as int]);
                assert(marks_view(marks@) =~= marks_view(before) + seq![
                    (segs@[i as int].0 as int, true, open@),
                    (segs@[i as int].1 as int, false, close_mark()),
                ]);
                if i == 0 {
                    assert(open@ =~= first_open(start as nat));
                } else {
                    assert(open@ == next_open());
                }
                assert(marks_view(marks@) =~= base + seg_marks(start as nat, st));
            }
            i += 1;
        }
        proof {
            let sk = spans@.take(k + 1);
            assert(sk.drop_last() =~= spans@.take(k as int));
            assert(sk.last() == spans@[k as int]);
            assert(segs@.take(segs@.len() as int) =~= segs@);
        }
        k += 1;
    }
    assert(spans@.take(spans@.len() as int) =~= spans@);
    marks
}

/// Splice `<mark>` elements into the raw document around each range, one
/// mark per source segment so ranges crossing element boundaries stay
/// well-formed. Ranges are merged first; the first mark of each merged
/// range carries `data-epub-offset="<start>"`. Every mark must fall on a
/// character boundary of `src`.
pub fn inject_marks(src: &str, map: &TextMap, ranges: &[HighlightRange]) -> (r: String)
    requires
        forall|m: Seq<(usize, usize)>| #[trigger] merge_of(ranges@, m) ==> forall|i: int|
            0 <= i < range_marks(map.entries_view(), m).len() ==> is_boundary(src@, (#[trigger] range_marks(map.entries_view(), m)[i]).0),
    ensures
        r@ == spec_splice(src@, highlight_marks(map.entries_view(), ranges@)),
{
    let merged = merge_ranges(ranges);
    assert(merge_of(ranges@, merged@));
    let marks = marks_for(map, &merged);
    let ghost mv = marks_view(marks@);
    let cs = chars_of(src);
    let offs = char_offsets(src, &cs);
    let mut out: Vec<char> = Vec::new();
    let mut k: usize = 0;
    while k < cs.len()
        invariant
            cs@ == src@,
            offsets_ok(cs@, offs@),
            mv == marks_view(marks@),
            k <= cs@.len(),
            out@ == spliced_upto(src@, k as int, mv),
        decreases cs@.len() - k,
    {
        push_marks(&mut out, &marks, offs[k], false);
        push_marks(&mut out, &marks, offs[k], true);
        out.push(cs[k]);
        proof {
            assert(offs@[k as int] == byte_len(cs@.take(k as int)));
            assert(out@ =~= spliced_upto(src@, k + 1, mv));
        }
        k += 1;
    }
    let n = cs.len();
    push_marks(&mut out, &marks, offs[n], false);
    push_marks(&mut out, &marks, offs[n], true);
    proof {
        assert(cs@.take(n as int) =~= cs@);
        assert(out@ =~= spec_splice(src@, mv));
    }
    string_from_chars(out.as_slice())
}

/// Every merged span starts where some non-empty range starts and ends
/// where some non-empty range ends.
proof fn lemma_span_ends(ranges: Seq<HighlightRange>, m: Seq<(usize, usize)>, i: int)
    requires
        merge_of(ranges, m),
        0 <= i < m.len(),
    ensures
        exists|r: int| 0 <= r < ranges.len() && ranges[r].start < ranges[r].end && #[trigger] ranges[r].start == m[i].0,
        exists|r: int| 0 <= r < ranges.len() && ranges[r].start < ranges[r].end && #[trigger] ranges[r].end == m[i].1,
{
    let x = m[i].0 as int;
    let y = m[i].1 as int;
    assert(m[i].0 < m[i].1);
    assert(covered_by(m, x));
    assert(covered(ranges, x));
    let r = choose|r: int| 0 <= r < ranges.len() && ranges[r].start <= x < #[trigger] ranges[r].end;
    if ranges[r].start < x {
        assert(covered(ranges, x - 1));
        assert(covered_by(m, x - 1));
        let k = choose|k: int| 0 <= k < m.len() && (#[trigger] m[k]).0 <= x - 1 < m[k].1;
        if k < i {
            assert(m[k].1 < m[i].0);
        } else if k > i {
            assert(m[i].1 < m[k].0);
        }
    }
    assert(covered_by(m, y - 1));
    assert(covered(ranges, y - 1));
    let r2 = choose|r: int| 0 <= r < ranges.len() && ranges[r].start <= y - 1 < #[trigger] ranges[r].end;
    if ranges[r2].end > y {
        assert(covered(ranges, y));
        assert(covered_by(m, y));
        let k = choose|k: int| 0 <= k < m.len() && (#[trigger] m[k]).0 <= y < m[k].1;
        if k < i {
            assert(m[k].1 < m[i].0);
        } else if k > i {
            assert(m[i].1 < m[k].0);
        }
    }
}

proof fn lemma_seg_marks_on_chars(src: Seq<char>, start: nat, segs: Seq<(usize, usize)>)
    requires
        forall|i: int| 0 <= i < segs.len() ==> char_start_at(src, (#[trigger] segs[i]).0 as int) && char_start_at(src, segs[i].1 as int),
    ensures
        forall|i: int| 0 <= i < seg_marks(start, segs).len() ==> char_start_at(src, (#[trigger] seg_marks(start, segs)[i]).0),
    decreases segs.len(),
{
    if segs.len() > 0 {
        let d = segs.drop_last();
        assert forall|i: int| 0 <= i < d.len() implies char_start_at(src, (#[trigger] d[i]).0 as int) && char_start_at(src, d[i].1 as int) by {
            assert(d[i] == segs[i]);
        }
        lemma_seg_marks_on_chars(src, start, d);
        assert(segs[segs.len() - 1] == segs.last());
        let a = seg_marks(start, d);
        let sl = segs.last();
        let open = if segs.len() == 1 { first_open(start) } else { next_open() };
        let tail = seq![(sl.0 as int, true, open), (sl.1 as int, false, close_mark())];
        let r = seg_marks(start, segs);
        assert(r == a + tail);
        assert forall|i: int| 0 <= i < r.len() implies char_start_at(src, (#[trigger] r[i]).0) by {
            if i < a.len() {
                assert(r[i] == a[i]);
            } else {
                assert(r[i] == tail[i - a.len()]);
            }
        }
    }
}

proof fn lemma_range_marks_on_chars(src: Seq<char>, spans: Seq<(usize, usize)>)
    requires
        byte_len(src) <= usize::MAX,
        byte_len(spec_scan(src).text) <= usize::MAX,
        forall|i: int| 0 <= i < spans.len() ==> text_pos_ok(spec_scan(src).text, (#[trigger] spans[i]).0 as int)
            && text_pos_ok(spec_scan(src).text, spans[i].1 as int),
    ensures
        forall|i: int| 0 <= i < range_marks(spec_scan(src).entries, spans).len() ==> char_start_at(src, (#[trigger] range_marks(spec_scan(src).entries, spans)[i]).0),
    decreases spans.len(),
{
    if spans.len() > 0 {
        let d = spans.drop_last();
        assert forall|i: int| 0 <= i < d.len() implies text_pos_ok(spec_scan(src).text, (#[trigger] d[i]).0 as int)
            && text_pos_ok(spec_scan(src).text, d[i].1 as int) by {
            assert(d[i] == spans[i]);
        }
        lemma_range_marks_on_chars(src, d);
        let sp = spans.last();
        assert(spans[spans.len() - 1] == sp);
        lemma_source_segments_on_chars(src, sp.0 as int, sp.1 as int);
        let segs = spec_source_segments(spec_scan(src).entries, sp.0 as int, sp.1 as int);
        lemma_seg_marks_on_chars(src, sp.0 as nat, segs);
        let a = range_marks(spec_scan(src).entries, d);
        let b = seg_marks(sp.0 as nat, segs);
        let r = range_marks(spec_scan(src).entries, spans);
        assert(r == a + b);
        assert forall|i: int| 0 <= i < r.len() implies char_start_at(src, (#[trigger] r[i]).0) by {
            if i < a.len() {
                assert(r[i] == a[i]);
            } else {
                assert(r[i] == b[i - a.len()]);
            }
        }
    }
}

/// Highlight marks land on character boundaries of the document: when every
/// non-empty highlight range starts and ends on a character boundary of the
/// document's normalized text (or at or past its end), every mark of the
/// merged ranges falls on a character boundary of the document.
pub proof fn law_marks_on_char_boundaries(src: Seq<char>, ranges: Seq<HighlightRange>, m: Seq<(usize, usize)>)
    requires
        byte_len(src) <= usize::MAX,
        byte_len(spec_scan(src).text) <= usize::MAX,
        merge_of(ranges, m),
        forall|r: int| 0 <= r < ranges.len() && ranges[r].start < ranges[r].end ==> text_pos_ok(spec_scan(src).text, (#[trigger] ranges[r]).start as int)
            && text_pos_ok(spec_scan(src).text, ranges[r].end as int),
    ensures
        forall|i: int| 0 <= i < range_marks(spec_scan(src).entries, m).len() ==> is_boundary(src, (#[trigger] range_marks(spec_scan(src).entries, m)[i]).0),
{
    assert forall|i: int| 0 <= i < m.len() implies text_pos_ok(spec_scan(src).text, (#[trigger] m[i]).0 as int)
        && text_pos_ok(spec_scan(src).text, m[i].1 as int) by {
        lemma_span_ends(ranges, m, i);
        let r1 = choose|r: int| 0 <= r < ranges.len() && ranges[r].start < ranges[r].end && #[trigger] ranges[r].start == m[i].0;
        let r2 = choose|r: int| 0 <= r < ranges.len() && ranges[r].start < ranges[r].end && #[trigger] ranges[r].end == m[i].1;
        assert(text_pos_ok(spec_scan(src).text, ranges[r1].start as int));
        assert(text_pos_ok(spec_scan(src).text, ranges[r2].end as int));
    }
    lemma_range_marks_on_chars(src, m);
    assert forall|i: int| 0 <= i < range_marks(spec_scan(src).entries, m).len() implies is_boundary(src, (#[trigger] range_marks(spec_scan(src).entries, m)[i]).0) by {
        let p = range_marks(spec_scan(src).entries, m)[i].0;
        assert(char_start_at(src, p));
        let a = choose|a: int| 0 <= a <= src.len() && #[trigger] byte_len(src.take(a)) == p;
        assert(0 <= a <= src.len() && byte_len(src.take(a)) == p);
    }
}

} // verus!

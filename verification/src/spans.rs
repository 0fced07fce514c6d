//! Turning a block's code and its spans into HTML.

use vstd::prelude::*;
use crate::highlight::seg;
use crate::lines::{join, join_exec, split_on, split_range, views};
use crate::markers::{Class, Span};
use crate::text::{blank_range, decimal, is_blank, push_decimal, push_range, push_str};

verus! {

// ---------------------------------------------------------------------------
// Escaping

/// A character as it is written in HTML text.
pub open spec fn esc_char(c: char) -> Seq<char> {
    if c == '&' {
        "&amp;"@
    } else if c == '<' {
        "&lt;"@
    } else if c == '>' {
        "&gt;"@
    } else {
        seq![c]
    }
}

/// `s` escaped for HTML text: `&`, `<` and `>` become entities.
pub open spec fn escape_html(s: Seq<char>) -> Seq<char>
    decreases s.len(),
{
    if s.len() == 0 {
        Seq::empty()
    } else {
        escape_html(s.drop_last()) + esc_char(s.last())
    }
}

/// Escaped text holds no markup: no `<` or `>` survives escaping, so
/// whatever the text, it cannot open or close an element.
pub proof fn lemma_escaped_text_has_no_tags(s: Seq<char>)
    ensures
        forall|i: int|
            0 <= i < escape_html(s).len() ==> #[trigger] escape_html(s)[i] != '<'
                && escape_html(s)[i] != '>',
    decreases s.len(),
{
    reveal_strlit("&amp;");
    reveal_strlit("&lt;");
    reveal_strlit("&gt;");
    if s.len() > 0 {
        lemma_escaped_text_has_no_tags(s.drop_last());
        let a = escape_html(s.drop_last());
        let b = esc_char(s.last());
        assert forall|i: int| 0 <= i < (a + b).len() implies #[trigger] (a + b)[i] != '<' && (a
            + b)[i] != '>' by {
            if i >= a.len() {
                assert((a + b)[i] == b[i - a.len()]);
            } else {
                assert((a + b)[i] == a[i]);
            }
        }
    }
}

/// Appends `s[lo..hi]`, escaped, to `out`.
pub fn push_escaped(out: &mut Vec<char>, s: &Vec<char>, lo: usize, hi: usize)
    requires
        lo <= hi <= s.len(),
    ensures
        final(out)@ == old(out)@ + escape_html(s@.subrange(lo as int, hi as int)),
{
    let mut k = lo;
    while k < hi
        invariant
            lo <= k <= hi <= s.len(),
            out@ == old(out)@ + escape_html(s@.subrange(lo as int, k as int)),
        decreases hi - k,
    {
        let c = s[k];
        let ghost before = out@;
        if c == '&' {
            push_str(out, "&amp;");
        } else if c == '<' {
            push_str(out, "&lt;");
        } else if c == '>' {
            push_str(out, "&gt;");
        } else {
            out.push(c);
            assert(out@ =~= before + seq![c]);
        }
        assert(s@.subrange(lo as int, k + 1).drop_last() =~= s@.subrange(lo as int, k as int));
        k = k + 1;
        assert(out@ =~= old(out)@ + escape_html(s@.subrange(lo as int, k as int)));
    }
}

/// Appends `code[a..b]` cut to the code, escaped, to `out`.
fn push_seg(out: &mut Vec<char>, code: &Vec<char>, a: usize, b: usize)
    ensures
        final(out)@ == old(out)@ + escape_html(seg(code@, a as int, b as int)),
{
    let e = if b <= code.len() {
        b
    } else {
        code.len()
    };
    if a < e {
        push_escaped(out, code, a, e);
    } else {
        assert(escape_html(seg(code@, a as int, b as int)) =~= Seq::<char>::empty());
    }
}

/// A character as it is written in an HTML attribute value.
pub open spec fn attr_char(c: char) -> Seq<char> {
    if c == '&' {
        "&amp;"@
    } else if c == '<' {
        "&lt;"@
    } else if c == '>' {
        "&gt;"@
    } else if c == '"' {
        "&quot;"@
    } else if c == '\n' {
        "&#10;"@
    } else if c == '\r' {
        "&#13;"@
    } else {
        seq![c]
    }
}

/// `s` escaped for use as an HTML attribute value, newlines included.
pub open spec fn attribute_spec(s: Seq<char>) -> Seq<char>
    decreases s.len(),
{
    if s.len() == 0 {
        Seq::empty()
    } else {
        attribute_spec(s.drop_last()) + attr_char(s.last())
    }
}

/// An escaped attribute value cannot end its attribute or its element,
/// nor break its line: it holds no `"`, `<`, `>`, newline or carriage
/// return.
pub proof fn lemma_attribute_value_is_inert(s: Seq<char>)
    ensures
        forall|i: int|
            0 <= i < attribute_spec(s).len() ==> {
                let c = #[trigger] attribute_spec(s)[i];
                c != '"' && c != '<' && c != '>' && c != '\n' && c != '\r'
            },
    decreases s.len(),
{
    reveal_strlit("&amp;");
    reveal_strlit("&lt;");
    reveal_strlit("&gt;");
    reveal_strlit("&quot;");
    reveal_strlit("&#10;");
    reveal_strlit("&#13;");
    if s.len() > 0 {
        lemma_attribute_value_is_inert(s.drop_last());
        let a = attribute_spec(s.drop_last());
        let b = attr_char(s.last());
        assert forall|i: int| 0 <= i < (a + b).len() implies {
            let c = #[trigger] (a + b)[i];
            c != '"' && c != '<' && c != '>' && c != '\n' && c != '\r'
        } by {
            if i >= a.len() {
                assert((a + b)[i] == b[i - a.len()]);
            } else {
                assert((a + b)[i] == a[i]);
            }
        }
    }
}

/// Escapes a string for use as an HTML attribute value, newlines included.
pub fn attribute(s: &Vec<char>) -> (out: Vec<char>)
    ensures
        out@ == attribute_spec(s@),
{
    let mut out: Vec<char> = Vec::new();
    let mut k: usize = 0;
    while k < s.len()
        invariant
            k <= s.len(),
            out@ == attribute_spec(s@.take(k as int)),
        decreases s.len() - k,
    {
        let c = s[k];
        let ghost before = out@;
        if c == '&' {
            push_str(&mut out, "&amp;");
        } else if c == '<' {
            push_str(&mut out, "&lt;");
        } else if c == '>' {
            push_str(&mut out, "&gt;");
        } else if c == '"' {
            push_str(&mut out, "&quot;");
        } else if c == '\n' {
            push_str(&mut out, "&#10;");
        } else if c == '\r' {
            push_str(&mut out, "&#13;");
        } else {
            out.push(c);
            assert(out@ =~= before + seq![c]);
        }
        assert(s@.take(k + 1).drop_last() =~= s@.take(k as int));
        k = k + 1;
    }
    assert(s@.take(s.len() as int) =~= s@);
    out
}

// ---------------------------------------------------------------------------
// Class names

/// The text of a class attribute.
pub open spec fn class_text(c: Class) -> Seq<char> {
    match c {
        Class::Frame(None) => "oframe"@,
        Class::Frame(Some(l)) => "oframe origin-"@.push(l),
        Class::Name(None) => "oname"@,
        Class::Name(Some(l)) => "oname origin-"@.push(l),
        Class::Exact => "oexact"@,
        Class::Comment => "hljs-comment"@,
        Class::Number => "hljs-number"@,
        Class::Str => "hljs-string"@,
        Class::Symbol => "hljs-symbol"@,
        Class::BuiltIn => "hljs-built_in"@,
        Class::Keyword => "hljs-keyword"@,
        Class::Type => "hljs-type"@,
        Class::Title => "hljs-title"@,
    }
}

pub fn push_class(out: &mut Vec<char>, c: Class)
    ensures
        final(out)@ == old(out)@ + class_text(c),
{
    match c {
        Class::Frame(None) => push_str(out, "oframe"),
        Class::Frame(Some(l)) => {
            push_str(out, "oframe origin-");
            out.push(l);
        },
        Class::Name(None) => push_str(out, "oname"),
        Class::Name(Some(l)) => {
            push_str(out, "oname origin-");
            out.push(l);
        },
        Class::Exact => push_str(out, "oexact"),
        Class::Comment => push_str(out, "hljs-comment"),
        Class::Number => push_str(out, "hljs-number"),
        Class::Str => push_str(out, "hljs-string"),
        Class::Symbol => push_str(out, "hljs-symbol"),
        Class::BuiltIn => push_str(out, "hljs-built_in"),
        Class::Keyword => push_str(out, "hljs-keyword"),
        Class::Type => push_str(out, "hljs-type"),
        Class::Title => push_str(out, "hljs-title"),
    }
}

// ---------------------------------------------------------------------------
// Splitting token spans at marker boundaries

/// The start and end of every marker, in order.
pub open spec fn bounds(markers: Seq<Span>) -> Seq<usize>
    decreases markers.len(),
{
    if markers.len() == 0 {
        Seq::empty()
    } else {
        bounds(markers.drop_last()).push(markers.last().start).push(markers.last().end)
    }
}

/// The least bound strictly between `lo` and `hi`, or `hi` when none is.
pub open spec fn min_above(bs: Seq<usize>, lo: int, hi: int) -> int
    decreases bs.len(),
{
    if bs.len() == 0 {
        hi
    } else {
        let m = min_above(bs.drop_last(), lo, hi);
        let c = bs.last() as int;
        if lo < c && c < m {
            c
        } else {
            m
        }
    }
}

pub proof fn lemma_min_above(bs: Seq<usize>, lo: int, hi: int)
    ensures
        min_above(bs, lo, hi) <= hi,
        lo < hi ==> lo < min_above(bs, lo, hi),
        min_above(bs, lo, hi) < hi ==> bs.contains(min_above(bs, lo, hi) as usize),
        forall|j: int| 0 <= j < bs.len() && lo < bs[j] < hi ==> min_above(bs, lo, hi) <= bs[j],
    decreases bs.len(),
{
    if bs.len() > 0 {
        lemma_min_above(bs.drop_last(), lo, hi);
        let m = min_above(bs.drop_last(), lo, hi);
        if m < hi {
            let k = choose|k: int| 0 <= k < bs.drop_last().len() && bs.drop_last()[k] == m as usize;
            assert(bs[k] == m as usize);
        }
        if lo < bs.last() && bs.last() < m {
            assert(bs[bs.len() - 1] == bs.last());
        }
        assert forall|j: int| 0 <= j < bs.len() && lo < bs[j] < hi implies min_above(
            bs,
            lo,
            hi,
        ) <= bs[j] by {
            if j < bs.len() - 1 {
                assert(bs[j] == bs.drop_last()[j]);
            }
        }
    }
}

/// The pieces of `sp` from `start` on, cut at every bound inside it.
pub open spec fn pieces_from(sp: Span, bs: Seq<usize>, start: int) -> Seq<Span>
    decreases sp.end - start,
{
    let next = min_above(bs, start, sp.end as int);
    let piece = |e: int| Span { start: start as usize, end: e as usize, class: sp.class, is_marker: false };
    if next >= sp.end || next <= start {
        seq![piece(sp.end as int)]
    } else {
        seq![piece(next)] + pieces_from(sp, bs, next)
    }
}

/// Every span cut at every bound falling strictly inside it.
pub open spec fn split_spans(spans: Seq<Span>, bs: Seq<usize>) -> Seq<Span>
    decreases spans.len(),
{
    if spans.len() == 0 {
        Seq::empty()
    } else {
        split_spans(spans.drop_last(), bs) + pieces_from(spans.last(), bs, spans.last().start as int)
    }
}

fn bounds_exec(markers: &Vec<Span>) -> (r: Vec<usize>)
    ensures
        r@ == bounds(markers@),
{
    let mut r: Vec<usize> = Vec::new();
    let mut k: usize = 0;
    while k < markers.len()
        invariant
            k <= markers.len(),
            r@ == bounds(markers@.take(k as int)),
        decreases markers.len() - k,
    {
        r.push(markers[k].start);
        r.push(markers[k].end);
        assert(markers@.take(k + 1).drop_last() =~= markers@.take(k as int));
        k = k + 1;
    }
    assert(markers@.take(markers.len() as int) =~= markers@);
    r
}

fn min_above_exec(bs: &Vec<usize>, lo: usize, hi: usize) -> (r: usize)
    ensures
        r as int == min_above(bs@, lo as int, hi as int),
{
    let mut m = hi;
    let mut k: usize = 0;
    while k < bs.len()
        invariant
            k <= bs.len(),
            m as int == min_above(bs@.take(k as int), lo as int, hi as int),
        decreases bs.len() - k,
    {
        assert(bs@.take(k + 1).drop_last() =~= bs@.take(k as int));
        let c = bs[k];
        if lo < c && c < m {
            m = c;
        }
        k = k + 1;
    }
    assert(bs@.take(bs.len() as int) =~= bs@);
    m
}

/// Splits every token span at any marker boundary falling strictly inside
/// it, so that tokens and markers are jointly well nested.
pub fn split_at_markers(spans: &Vec<Span>, markers: &Vec<Span>) -> (r: Vec<Span>)
    ensures
        r@ == split_spans(spans@, bounds(markers@)),
{
    let bs = bounds_exec(markers);
    let mut out: Vec<Span> = Vec::new();
    let mut k: usize = 0;
    while k < spans.len()
        invariant
            k <= spans.len(),
            bs@ == bounds(markers@),
            out@ == split_spans(spans@.take(k as int), bs@),
        decreases spans.len() - k,
    {
        let sp = spans[k];
        let ghost before = out@;
        let mut start = sp.start;
        loop
            invariant_except_break
                bs@ == bounds(markers@),
                k < spans.len(),
                sp == spans@[k as int],
                sp.start <= start,
                before + pieces_from(sp, bs@, sp.start as int) == out@ + pieces_from(
                    sp,
                    bs@,
                    start as int,
                ),
            ensures
                out@ == before + pieces_from(sp, bs@, sp.start as int),
            decreases sp.end - start,
        {
            let next = min_above_exec(&bs, start, sp.end);
            proof {
                lemma_min_above(bs@, start as int, sp.end as int);
            }
            if next >= sp.end || next <= start {
                let ghost o = out@;
                out.push(Span { start, end: sp.end, class: sp.class, is_marker: false });
                assert(out@ =~= o + pieces_from(sp, bs@, start as int));
                assert(out@ =~= before + pieces_from(sp, bs@, sp.start as int));
                break;
            }
            let ghost o = out@;
            out.push(Span { start, end: next, class: sp.class, is_marker: false });
            assert(o + pieces_from(sp, bs@, start as int) =~= out@ + pieces_from(
                sp,
                bs@,
                next as int,
            ));
            start = next;
        }
        assert(spans@.take(k + 1).drop_last() =~= spans@.take(k as int));
        k = k + 1;
    }
    assert(spans@.take(spans.len() as int) =~= spans@);
    out
}

// ---------------------------------------------------------------------------
// Ordering

/// The order spans are opened in: by start, outermost first, and a marker
/// before a token span covering the same range.
pub open spec fn span_lt(a: Span, b: Span) -> bool {
    a.start < b.start || (a.start == b.start && (a.end > b.end || (a.end == b.end && a.is_marker
        && !b.is_marker)))
}

fn span_lt_exec(a: &Span, b: &Span) -> (r: bool)
    ensures
        r == span_lt(*a, *b),
{
    a.start < b.start || (a.start == b.start && (a.end > b.end || (a.end == b.end && a.is_marker
        && !b.is_marker)))
}

/// `x` placed into `sorted` after every span not ordered after it.
pub open spec fn insert_span(sorted: Seq<Span>, x: Span) -> Seq<Span>
    decreases sorted.len(),
{
    if sorted.len() == 0 {
        seq![x]
    } else if span_lt(x, sorted.last()) {
        insert_span(sorted.drop_last(), x).push(sorted.last())
    } else {
        sorted.push(x)
    }
}

/// The spans in opening order; spans that tie keep their order.
pub open spec fn sort_spans(s: Seq<Span>) -> Seq<Span>
    decreases s.len(),
{
    if s.len() == 0 {
        Seq::empty()
    } else {
        insert_span(sort_spans(s.drop_last()), s.last())
    }
}

/// Whether `s` is in opening order: no span is ordered before one that
/// comes earlier.
pub open spec fn in_opening_order(s: Seq<Span>) -> bool {
    forall|i: int, j: int| 0 <= i < j < s.len() ==> !span_lt(#[trigger] s[j], #[trigger] s[i])
}

proof fn lemma_insert_span(sorted: Seq<Span>, x: Span)
    requires
        in_opening_order(sorted),
    ensures
        in_opening_order(insert_span(sorted, x)),
        insert_span(sorted, x).to_multiset() =~= sorted.to_multiset().insert(x),
        insert_span(sorted, x).len() == sorted.len() + 1,
        forall|i: int|
            0 <= i < insert_span(sorted, x).len() ==> #[trigger] insert_span(sorted, x)[i] == x
                || sorted.contains(insert_span(sorted, x)[i]),
    decreases sorted.len(),
{
    broadcast use vstd::seq_lib::group_to_multiset_ensures;

    if sorted.len() > 0 {
        let last = sorted.last();
        let init = sorted.drop_last();
        assert(in_opening_order(init)) by {
            assert forall|i: int, j: int| 0 <= i < j < init.len() implies !span_lt(
                #[trigger] init[j],
                #[trigger] init[i],
            ) by {
                assert(init[i] == sorted[i] && init[j] == sorted[j]);
            }
        }
        if span_lt(x, last) {
            lemma_insert_span(init, x);
            let r = insert_span(init, x);
            assert(sorted =~= init.push(last));
            assert forall|i: int, j: int| 0 <= i < j < r.push(last).len() implies !span_lt(
                #[trigger] r.push(last)[j],
                #[trigger] r.push(last)[i],
            ) by {
                if j == r.len() {
                    assert(r.push(last)[j] == last);
                    assert(r.push(last)[i] == r[i]);
                    if r[i] != x {
                        assert(init.contains(r[i]));
                        let k = choose|k: int| 0 <= k < init.len() && init[k] == r[i];
                        assert(sorted[k] == init[k]);
                        assert(sorted[sorted.len() - 1] == last);
                    }
                } else {
                    assert(r.push(last)[j] == r[j]);
                    assert(r.push(last)[i] == r[i]);
                }
            }
            assert forall|i: int| 0 <= i < r.push(last).len() implies #[trigger] r.push(last)[i]
                == x || sorted.contains(r.push(last)[i]) by {
                if i < r.len() {
                    assert(r.push(last)[i] == r[i]);
                    if r[i] != x {
                        let k = choose|k: int| 0 <= k < init.len() && init[k] == r[i];
                        assert(sorted[k] == init[k]);
                    }
                } else {
                    assert(sorted[sorted.len() - 1] == last);
                }
            }
        } else {
            assert forall|i: int, j: int| 0 <= i < j < sorted.push(x).len() implies !span_lt(
                #[trigger] sorted.push(x)[j],
                #[trigger] sorted.push(x)[i],
            ) by {
                if j == sorted.len() {
                    assert(sorted.push(x)[i] == sorted[i]);
                    if i < sorted.len() - 1 {
                        assert(!span_lt(sorted[sorted.len() - 1], sorted[i]));
                    }
                } else {
                    assert(sorted.push(x)[i] == sorted[i]);
                    assert(sorted.push(x)[j] == sorted[j]);
                }
            }
            assert forall|i: int| 0 <= i < sorted.push(x).len() implies #[trigger] sorted.push(x)[i]
                == x || sorted.contains(sorted.push(x)[i]) by {
                if i < sorted.len() {
                    assert(sorted.push(x)[i] == sorted[i]);
                }
            }
        }
    }
}

/// Spans are emitted in opening order: earlier starts first, and of spans
/// starting together the longer first, a marker box before a token span
/// with the same range, so that a box framing exactly one token frames its
/// highlighting rather than splitting it. Sorting keeps every span, and
/// adds none.
pub proof fn lemma_spans_sort_into_opening_order(s: Seq<Span>)
    ensures
        in_opening_order(sort_spans(s)),
        sort_spans(s).to_multiset() =~= s.to_multiset(),
    decreases s.len(),
{
    broadcast use vstd::seq_lib::group_to_multiset_ensures;

    if s.len() > 0 {
        lemma_spans_sort_into_opening_order(s.drop_last());
        lemma_insert_span(sort_spans(s.drop_last()), s.last());
        assert(s =~= s.drop_last().push(s.last()));
    }
}

fn insert_span_exec(v: &mut Vec<Span>, x: Span)
    ensures
        final(v)@ == insert_span(old(v)@, x),
{
    let mut p = v.len();
    assert(v@.take(p as int) =~= v@);
    assert(v@.skip(p as int) =~= Seq::<Span>::empty());
    while p > 0 && span_lt_exec(&x, &v[p - 1])
        invariant
            p <= v.len(),
            v@ == old(v)@,
            insert_span(v@, x) == insert_span(v@.take(p as int), x) + v@.skip(p as int),
        decreases p,
    {
        assert(v@.take(p as int).drop_last() =~= v@.take(p - 1));
        assert(v@.take(p as int).last() == v@[p - 1]);
        assert(insert_span(v@.take(p - 1), x).push(v@[p - 1]) + v@.skip(p as int)
            =~= insert_span(v@.take(p - 1), x) + v@.skip(p - 1));
        p = p - 1;
    }
    let ghost old_v = v@;
    v.insert(p, x);
    assert(v@ =~= old_v.take(p as int) + seq![x] + old_v.skip(p as int));
    if p == 0 {
        assert(old_v.take(0) =~= Seq::<Span>::empty());
    } else {
        assert(insert_span(old_v.take(p as int), x) =~= old_v.take(p as int).push(x));
    }
}

/// Sorts spans into opening order, keeping ties in their order.
pub fn sort_spans_exec(s: &Vec<Span>) -> (r: Vec<Span>)
    ensures
        r@ == sort_spans(s@),
{
    let mut r: Vec<Span> = Vec::new();
    let mut k: usize = 0;
    while k < s.len()
        invariant
            k <= s.len(),
            r@ == sort_spans(s@.take(k as int)),
        decreases s.len() - k,
    {
        insert_span_exec(&mut r, s[k]);
        assert(s@.take(k + 1).drop_last() =~= s@.take(k as int));
        k = k + 1;
    }
    assert(s@.take(s.len() as int) =~= s@);
    r
}

// ---------------------------------------------------------------------------
// Emitting

/// An opening tag for a span of class `c`.
pub open spec fn open_tag(c: Class) -> Seq<char> {
    "<span class=\""@ + class_text(c) + "\">"@
}

/// Closes every open span that ends at or before `lim`, innermost first,
/// writing the code up to each end.
pub open spec fn close_until(
    code: Seq<char>,
    lim: int,
    at: int,
    stack: Seq<usize>,
    out: Seq<char>,
) -> (int, Seq<usize>, Seq<char>)
    decreases stack.len(),
{
    if stack.len() > 0 && stack.last() <= lim {
        let end = stack.last() as int;
        close_until(
            code,
            lim,
            end,
            stack.drop_last(),
            out + escape_html(seg(code, at, end)) + "</span>"@,
        )
    } else {
        (at, stack, out)
    }
}

/// Closes every open span.
pub open spec fn close_all(code: Seq<char>, at: int, stack: Seq<usize>, out: Seq<char>) -> (
    int,
    Seq<char>,
)
    decreases stack.len(),
{
    if stack.len() > 0 {
        let end = stack.last() as int;
        close_all(code, end, stack.drop_last(), out + escape_html(seg(code, at, end)) + "</span>"@)
    } else {
        (at, out)
    }
}

/// The HTML for `code` with the spans from the `i`th on opened in order.
pub open spec fn emit_from(
    code: Seq<char>,
    spans: Seq<Span>,
    i: int,
    at: int,
    stack: Seq<usize>,
    out: Seq<char>,
) -> Seq<char>
    decreases spans.len() - i,
{
    if i < 0 || i >= spans.len() {
        let (at2, out2) = close_all(code, at, stack, out);
        out2 + escape_html(seg(code, at2, code.len() as int))
    } else {
        let sp = spans[i];
        let (at1, st1, out1) = close_until(code, sp.start as int, at, stack, out);
        let out2 = out1 + escape_html(seg(code, at1, sp.start as int)) + open_tag(sp.class);
        emit_from(code, spans, i + 1, sp.start as int, st1.push(sp.end), out2)
    }
}

/// The HTML for `code` with `spans`, sorted into opening order, wrapped
/// around it.
pub open spec fn emit(code: Seq<char>, spans: Seq<Span>) -> Seq<char> {
    emit_from(code, spans, 0, 0, Seq::empty(), Seq::empty())
}

/// Writes `code` with `spans` wrapped around it. Spans are opened in the
/// order given and closed innermost first.
pub fn emit_exec(code: &Vec<char>, spans: &Vec<Span>) -> (out: Vec<char>)
    ensures
        out@ == emit(code@, spans@),
{
    let mut out: Vec<char> = Vec::new();
    let mut stack: Vec<usize> = Vec::new();
    let mut at: usize = 0;
    let mut i: usize = 0;
    while i < spans.len()
        invariant
            i <= spans.len(),
            emit_from(code@, spans@, i as int, at as int, stack@, out@) == emit(code@, spans@),
        decreases spans.len() - i,
    {
        let sp = spans[i];
        let ghost at0 = at as int;
        let ghost st0 = stack@;
        let ghost out0 = out@;
        loop
            invariant
                sp == spans@[i as int],
                i < spans.len(),
                emit_from(code@, spans@, i as int, at0, st0, out0) == emit(code@, spans@),
                close_until(code@, sp.start as int, at as int, stack@, out@) == close_until(
                    code@,
                    sp.start as int,
                    at0,
                    st0,
                    out0,
                ),
            ensures
                close_until(code@, sp.start as int, at0, st0, out0) == (at as int, stack@, out@),
            decreases stack.len(),
        {
            if stack.len() == 0 {
                break;
            }
            let end = stack[stack.len() - 1];
            if end > sp.start {
                break;
            }
            let ghost o = out@;
            push_seg(&mut out, code, at, end);
            push_str(&mut out, "</span>");
            assert(out@ =~= o + escape_html(seg(code@, at as int, end as int)) + "</span>"@);
            at = end;
            let ghost st = stack@;
            stack.pop();
            assert(stack@ =~= st.drop_last());
        }
        let ghost o1 = out@;
        push_seg(&mut out, code, at, sp.start);
        push_str(&mut out, "<span class=\"");
        push_class(&mut out, sp.class);
        push_str(&mut out, "\">");
        assert(out@ =~= o1 + escape_html(seg(code@, at as int, sp.start as int)) + open_tag(
            sp.class,
        ));
        at = sp.start;
        stack.push(sp.end);
        i = i + 1;
    }
    let ghost at0 = at as int;
    let ghost st0 = stack@;
    let ghost out0 = out@;
    while stack.len() > 0
        invariant
            i >= spans.len(),
            emit_from(code@, spans@, i as int, at0, st0, out0) == emit(code@, spans@),
            close_all(code@, at as int, stack@, out@) == close_all(code@, at0, st0, out0),
        decreases stack.len(),
    {
        let end = stack[stack.len() - 1];
        let ghost o = out@;
        push_seg(&mut out, code, at, end);
        push_str(&mut out, "</span>");
        assert(out@ =~= o + escape_html(seg(code@, at as int, end as int)) + "</span>"@);
        at = end;
        let ghost st = stack@;
        stack.pop();
        assert(stack@ =~= st.drop_last());
    }
    push_seg(&mut out, code, at, code.len());
    out
}

} // verus!
